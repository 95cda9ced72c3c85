use grand_pattern::topology::{make_chain, make_mesh, make_ring, make_star, Topology};

fn rows(t: &Topology) -> Vec<Vec<usize>> {
    (0..t.room_count()).map(|i| t.neighbors(i).clone()).collect()
}

#[test]
fn ring_of_ten_links_each_room_to_its_two_neighbours() {
    let g = make_ring(10);
    assert_eq!(g.room_count(), 10);
    assert_eq!(g.neighbors(0), &vec![1, 9]);
    assert_eq!(g.neighbors(5), &vec![4, 6]);
    assert_eq!(g.neighbors(9), &vec![8, 0]);
    for i in 0..10 {
        assert_eq!(g.neighbors(i).len(), 2);
        assert!(g.is_linked(i, (i + 1) % 10));
        assert!(g.is_linked((i + 1) % 10, i));
    }
    assert!(!g.is_linked(0, 5));
}

#[test]
fn small_rings() {
    assert_eq!(make_ring(0).room_count(), 0);
    assert_eq!(rows(&make_ring(1)), vec![vec![0]]);
    assert_eq!(rows(&make_ring(2)), vec![vec![1], vec![0]]);
    assert_eq!(rows(&make_ring(3)), vec![vec![1, 2], vec![0, 2], vec![1, 0]]);
}

#[test]
fn chain_rows() {
    assert_eq!(rows(&make_chain(5)), vec![vec![1], vec![0, 2], vec![1, 3], vec![2, 4], vec![3]]);
    assert_eq!(rows(&make_chain(1)), vec![Vec::<usize>::new()]);
    assert_eq!(make_chain(0).room_count(), 0);
}

#[test]
fn star_rows() {
    assert_eq!(rows(&make_star(4)), vec![vec![1, 2, 3], vec![0], vec![0], vec![0]]);
    assert_eq!(rows(&make_star(1)), vec![Vec::<usize>::new()]);
    let g = make_star(10);
    assert_eq!(g.neighbors(0).len(), 9);
    assert!(!g.is_linked(3, 4));
}

#[test]
fn mesh_rows() {
    assert_eq!(
        rows(&make_mesh(4)),
        vec![vec![1, 2, 3], vec![0, 2, 3], vec![0, 1, 3], vec![0, 1, 2]]
    );
    let g = make_mesh(20);
    for i in 0..20 {
        assert_eq!(g.neighbors(i).len(), 19);
        assert!(!g.is_linked(i, i));
    }
}

#[test]
fn new_graph_has_no_links() {
    let g = Topology::new(3);
    assert_eq!(rows(&g), vec![Vec::<usize>::new(), Vec::new(), Vec::new()]);
}

#[test]
fn add_edge_links_both_ways_once() {
    let mut g = Topology::new(4);
    g.add_edge(1, 3);
    assert_eq!(rows(&g), vec![vec![], vec![3], vec![], vec![1]]);
    g.add_edge(1, 3);
    g.add_edge(3, 1);
    assert_eq!(rows(&g), vec![vec![], vec![3], vec![], vec![1]]);
    g.add_edge(1, 0);
    assert_eq!(rows(&g), vec![vec![1], vec![3, 0], vec![], vec![1]]);
}

#[test]
fn add_edge_order_of_ends_does_not_matter() {
    let mut a = Topology::new(3);
    let mut b = Topology::new(3);
    a.add_edge(0, 2);
    b.add_edge(2, 0);
    assert_eq!(rows(&a), rows(&b));
}

#[test]
fn self_link_appears_once() {
    let mut g = Topology::new(2);
    g.add_edge(1, 1);
    assert_eq!(rows(&g), vec![vec![], vec![1]]);
}
