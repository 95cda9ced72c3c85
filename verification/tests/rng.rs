use grand_pattern::rng::{draw_input, next_seed};

#[test]
fn next_seed_exact_values() {
    assert_eq!(next_seed(42), 45454805674);
    assert_eq!(next_seed(45454805674), 11532217803599905471);
    assert_eq!(next_seed(123), 133101616827);
    assert_eq!(next_seed(0), 0);
}

#[test]
fn draw_input_uses_two_steps() {
    let (seed, room, value) = draw_input(42, 20, 1000);
    assert_eq!(seed, 11532217803599905471);
    assert_eq!(room, 14);
    assert_eq!(value, 471);
}

#[test]
fn nonzero_seed_never_reaches_zero() {
    let mut s: u64 = 42;
    for _ in 0..10_000 {
        s = next_seed(s);
        assert_ne!(s, 0);
    }
}

#[test]
fn draws_stay_in_range() {
    let mut s: u64 = 456;
    for _ in 0..1000 {
        let (next, room, value) = draw_input(s, 20, 100);
        assert!(room < 20);
        assert!(value < 100);
        assert_eq!(next, next_seed(next_seed(s)));
        s = next;
    }
}
