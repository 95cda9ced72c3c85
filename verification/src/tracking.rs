//! Bookkeeping of the experiments: when a condition first held, and which
//! rooms have dissolved.
use vstd::prelude::*;

verus! {

/// Keeps the earliest tick at which a condition held: a tick already
/// recorded stays; otherwise `tick` is recorded when `hit` is true.
pub fn record_first_tick(first: Option<usize>, tick: usize, hit: bool) -> (recorded: Option<usize>)
    ensures
        recorded == (if first is None && hit { Some(tick) } else { first }),
{
    if first.is_none() && hit {
        Some(tick)
    } else {
        first
    }
}

/// Number of `true` entries.
pub open spec fn count_true(s: Seq<bool>) -> nat
    decreases s.len(),
{
    if s.len() == 0 {
        0
    } else {
        count_true(s.drop_last()) + if s.last() {
            1nat
        } else {
            0nat
        }
    }
}

/// At most one per entry, and exactly one per entry when all are `true`.
pub proof fn lemma_count_true_bounds(s: Seq<bool>)
    ensures
        count_true(s) <= s.len(),
        count_true(s) == s.len() <==> forall|i: int| 0 <= i < s.len() ==> #[trigger] s[i],
    decreases s.len(),
{
    if s.len() > 0 {
        lemma_count_true_bounds(s.drop_last());
        if count_true(s) == s.len() {
            assert forall|i: int| 0 <= i < s.len() implies #[trigger] s[i] by {
                if i < s.len() - 1 {
                    assert(s.drop_last()[i] == s[i]);
                }
            }
        }
        if forall|i: int| 0 <= i < s.len() ==> #[trigger] s[i] {
            assert forall|i: int| 0 <= i < s.drop_last().len() implies #[trigger] s.drop_last()[i] by {
                assert(s[i]);
            }
        }
    }
}

/// Turning one `false` entry to `true` adds one to the count.
proof fn lemma_count_true_set(s: Seq<bool>, i: int)
    requires
        0 <= i < s.len(),
        !s[i],
    ensures
        count_true(s.update(i, true)) == count_true(s) + 1,
    decreases s.len(),
{
    let t = s.update(i, true);
    if i < s.len() - 1 {
        assert(t.drop_last() =~= s.drop_last().update(i, true));
        lemma_count_true_set(s.drop_last(), i);
    } else {
        assert(t.drop_last() =~= s.drop_last());
    }
}

/// Which rooms have dissolved, how many, and at which tick the first did.
pub struct DissolutionTracker {
    dissolved: Vec<bool>,
    count: usize,
    first_tick: Option<usize>,
}

impl DissolutionTracker {
    /// The dissolved flag of every room.
    pub closed spec fn flags(&self) -> Seq<bool> {
        self.dissolved@
    }

    /// The tick of the first dissolution, if any.
    pub closed spec fn first(&self) -> Option<usize> {
        self.first_tick
    }

    /// The stored count agrees with the flags.
    pub closed spec fn wf(&self) -> bool {
        self.count == count_true(self.dissolved@)
    }

    /// Starts with `rooms` rooms, none dissolved.
    pub fn new(rooms: usize) -> (t: DissolutionTracker)
        ensures
            t.wf(),
            t.flags() == Seq::new(rooms as nat, |i: int| false),
            t.first() is None,
    {
        let mut dissolved: Vec<bool> = Vec::new();
        let mut k: usize = 0;
        while k < rooms
            invariant
                k <= rooms,
                dissolved@ == Seq::new(k as nat, |i: int| false),
                count_true(dissolved@) == 0,
            decreases rooms - k,
        {
            let ghost before = dissolved@;
            dissolved.push(false);
            assert(dissolved@.drop_last() =~= before);
            assert(dissolved@ =~= Seq::new((k + 1) as nat, |i: int| false));
            k = k + 1;
        }
        DissolutionTracker { dissolved, count: 0, first_tick: None }
    }

    /// Marks as dissolved every room that is not yet dissolved and is
    /// stagnant at `tick`; the first tick at which any room dissolves is kept.
    pub fn observe(&mut self, tick: usize, stagnant: &Vec<bool>)
        requires
            old(self).wf(),
            stagnant@.len() == old(self).flags().len(),
        ensures
            final(self).wf(),
            final(self).flags().len() == old(self).flags().len(),
            forall|i: int|
                0 <= i < old(self).flags().len() ==> #[trigger] final(self).flags()[i] == (old(
                    self,
                ).flags()[i] || stagnant@[i]),
            final(self).first() == (if old(self).first() is None && (exists|i: int|
                0 <= i < stagnant@.len() && !old(self).flags()[i] && stagnant@[i]) {
                Some(tick)
            } else {
                old(self).first()
            }),
    {
        let n = self.dissolved.len();
        let ghost flags0 = self.dissolved@;
        let ghost first0 = self.first_tick;
        let mut i: usize = 0;
        while i < n
            invariant
                n == self.dissolved@.len(),
                n == stagnant@.len(),
                n == flags0.len(),
                i <= n,
                self.count == count_true(self.dissolved@),
                forall|k: int| 0 <= k < i ==> #[trigger] self.dissolved@[k] == (flags0[k] || stagnant@[k]),
                forall|k: int| i <= k < n ==> #[trigger] self.dissolved@[k] == flags0[k],
                self.first_tick == (if first0 is None && (exists|k: int|
                    0 <= k < i && !flags0[k] && stagnant@[k]) {
                    Some(tick)
                } else {
                    first0
                }),
            decreases n - i,
        {
            if !self.dissolved[i] && stagnant[i] {
                proof {
                    lemma_count_true_set(self.dissolved@, i as int);
                    lemma_count_true_bounds(self.dissolved@);
                }
                self.dissolved.set(i, true);
                self.count = self.count + 1;
                self.first_tick = record_first_tick(self.first_tick, tick, true);
            }
            i = i + 1;
        }
    }

    /// How many rooms have dissolved.
    pub fn dissolved_count(&self) -> (c: usize)
        requires
            self.wf(),
        ensures
            c == count_true(self.flags()),
    {
        self.count
    }

    /// Whether room `i` has dissolved.
    pub fn is_dissolved(&self, i: usize) -> (d: bool)
        requires
            i < self.flags().len(),
        ensures
            d == self.flags()[i as int],
    {
        self.dissolved[i]
    }

    /// The tick at which the first room dissolved, if one has.
    pub fn first_dissolve_tick(&self) -> (t: Option<usize>)
        ensures
            t == self.first(),
    {
        self.first_tick
    }

    /// Whether every room has dissolved.
    pub fn all_dissolved(&self) -> (all: bool)
        requires
            self.wf(),
        ensures
            all == (forall|i: int| 0 <= i < self.flags().len() ==> #[trigger] self.flags()[i]),
    {
        proof {
            lemma_count_true_bounds(self.dissolved@);
        }
        let all = self.count == self.dissolved.len();
        assert(all == (count_true(self.dissolved@) == self.dissolved@.len()));
        assert(self.flags() == self.dissolved@);
        all
    }

    /// The rooms that have not dissolved, in increasing order.
    pub fn active_rooms(&self) -> (active: Vec<usize>)
        ensures
            forall|k: int| 0 <= k < active@.len() ==> (#[trigger] active@[k]) < self.flags().len() && !self.flags()[active@[k] as int],
            forall|k: int, m: int| 0 <= k < m < active@.len() ==> active@[k] < active@[m],
            forall|i: int| 0 <= i < self.flags().len() && !self.flags()[i] ==> active@.contains(i as usize),
            active@.len() + count_true(self.flags()) == self.flags().len(),
    {
        let n = self.dissolved.len();
        let mut active: Vec<usize> = Vec::new();
        let mut i: usize = 0;
        while i < n
            invariant
                n == self.dissolved@.len(),
                i <= n,
                forall|k: int| 0 <= k < active@.len() ==> (#[trigger] active@[k]) < i && !self.dissolved@[active@[k] as int],
                forall|k: int, m: int| 0 <= k < m < active@.len() ==> active@[k] < active@[m],
                forall|j: int| 0 <= j < i && !self.dissolved@[j] ==> active@.contains(j as usize),
                active@.len() + count_true(self.dissolved@.take(i as int)) == i,
            decreases n - i,
        {
            assert(self.dissolved@.take(i + 1).drop_last() =~= self.dissolved@.take(i as int));
            if !self.dissolved[i] {
                let ghost before = active@;
                active.push(i);
                proof {
                    assert forall|j: int| 0 <= j < i + 1 && !self.dissolved@[j] implies active@.contains(j as usize) by {
                        if j < i {
                            let k = choose|k: int| 0 <= k < before.len() && before[k] == j as usize;
                            assert(active@[k] == j as usize);
                        } else {
                            assert(active@[before.len() as int] == j as usize);
                        }
                    }
                }
            }
            i = i + 1;
        }
        assert(self.dissolved@.take(n as int) =~= self.dissolved@);
        active
    }
}

} // verus!
