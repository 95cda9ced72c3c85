//! The undirected room graph: which rooms gossip with which, kept as one
//! neighbour list per room, in the order in which the links were made.
use vstd::prelude::*;

verus! {

/// True when room `b` appears in the neighbour list of room `a`.
pub open spec fn linked(adj: Seq<Seq<usize>>, a: int, b: int) -> bool {
    exists|k: int| 0 <= k < adj[a].len() && adj[a][k] == b
}

/// Every neighbour named in a list is a room of the graph.
pub open spec fn in_range(adj: Seq<Seq<usize>>) -> bool {
    forall|i: int, k: int|
        0 <= i < adj.len() && 0 <= k < adj[i].len() ==> (#[trigger] adj[i][k]) < adj.len()
}

/// No neighbour list names a room twice.
pub open spec fn no_repeats(adj: Seq<Seq<usize>>) -> bool {
    forall|i: int| 0 <= i < adj.len() ==> (#[trigger] adj[i]).no_duplicates()
}

/// Links go both ways: `b` is a neighbour of `a` exactly when `a` is one of `b`.
pub open spec fn symmetric(adj: Seq<Seq<usize>>) -> bool {
    forall|i: int, j: int|
        0 <= i < adj.len() && 0 <= j < adj.len() ==> (linked(adj, i, j) <==> linked(adj, j, i))
}

/// The invariant of every graph this module builds.
pub open spec fn well_formed(adj: Seq<Seq<usize>>) -> bool {
    &&& in_range(adj)
    &&& no_repeats(adj)
    &&& symmetric(adj)
}

/// Appends `b` to the list of `a` unless it is already there.
pub open spec fn with_link(adj: Seq<Seq<usize>>, a: usize, b: usize) -> Seq<Seq<usize>> {
    if linked(adj, a as int, b as int) {
        adj
    } else {
        adj.update(a as int, adj[a as int].push(b))
    }
}

/// The adjacency after linking rooms `a` and `b` in both directions.
pub open spec fn with_edge(adj: Seq<Seq<usize>>, a: usize, b: usize) -> Seq<Seq<usize>> {
    with_link(with_link(adj, a, b), b, a)
}

/// `n` rooms with no links.
pub open spec fn isolated(n: nat) -> Seq<Seq<usize>> {
    Seq::new(n, |i: int| Seq::<usize>::empty())
}

/// One-directional link: `with_link` adds exactly the pair (a, b).
proof fn lemma_with_link_links(adj: Seq<Seq<usize>>, a: usize, b: usize)
    requires
        a < adj.len(),
    ensures
        with_link(adj, a, b).len() == adj.len(),
        forall|i: int| 0 <= i < adj.len() && i != a ==> (#[trigger] with_link(adj, a, b)[i]) == adj[i],
        forall|i: int, j: int|
            0 <= i < adj.len() ==> (#[trigger] linked(with_link(adj, a, b), i, j) <==> (linked(adj, i, j)
                || (i == a && j == b))),
{
    let r = with_link(adj, a, b);
    if !linked(adj, a as int, b as int) {
        let row = adj[a as int].push(b);
        assert(r[a as int] == row);
        assert forall|i: int, j: int| 0 <= i < adj.len() implies (linked(r, i, j) <==> (linked(adj, i, j)
            || (i == a && j == b))) by {
            if i == a {
                if linked(adj, i, j) {
                    let k = choose|k: int| 0 <= k < adj[i].len() && adj[i][k] == j;
                    assert(row[k] == j);
                }
                if j == b {
                    assert(row[adj[i].len() as int] == j);
                }
                if linked(r, i, j) {
                    let k = choose|k: int| 0 <= k < r[i].len() && r[i][k] == j;
                    if k < adj[i].len() {
                        assert(adj[i][k] == j);
                    }
                }
            } else {
                assert(r[i] == adj[i]);
            }
        }
    }
}

/// Linking `a` and `b` adds exactly the pairs (a, b) and (b, a) to the
/// neighbour relation and keeps the number of rooms.
pub proof fn lemma_with_edge_links(adj: Seq<Seq<usize>>, a: usize, b: usize)
    requires
        a < adj.len(),
        b < adj.len(),
    ensures
        with_edge(adj, a, b).len() == adj.len(),
        forall|i: int, j: int|
            0 <= i < adj.len() ==> (#[trigger] linked(with_edge(adj, a, b), i, j) <==> (linked(adj, i, j)
                || (i == a && j == b) || (i == b && j == a))),
{
    lemma_with_link_links(adj, a, b);
    lemma_with_link_links(with_link(adj, a, b), b, a);
}

/// Linking keeps a graph well formed.
pub proof fn lemma_with_edge_well_formed(adj: Seq<Seq<usize>>, a: usize, b: usize)
    requires
        well_formed(adj),
        a < adj.len(),
        b < adj.len(),
    ensures
        well_formed(with_edge(adj, a, b)),
{
    lemma_with_edge_links(adj, a, b);
    lemma_with_link_keeps_rows(adj, a, b);
    lemma_with_link_keeps_rows(with_link(adj, a, b), b, a);
    let r = with_edge(adj, a, b);
    assert forall|i: int, j: int| 0 <= i < r.len() && 0 <= j < r.len() implies (linked(r, i, j)
        <==> linked(r, j, i)) by {
        assert(linked(r, i, j) == (linked(adj, i, j) || (i == a && j == b) || (i == b && j == a)));
        assert(linked(r, j, i) == (linked(adj, j, i) || (j == a && i == b) || (j == b && i == a)));
    }
}

/// Linking never reorders a neighbour list: every old list is a prefix of
/// its new self, a list grows by at most one entry, and an added entry sits at
/// the end and is the other end of the link (`b` in the list of `a`, `a` in
/// the list of `b`). A list grows exactly when the link was missing.
pub proof fn lemma_with_edge_appends(adj: Seq<Seq<usize>>, a: usize, b: usize)
    requires
        a < adj.len(),
        b < adj.len(),
    ensures
        with_edge(adj, a, b).len() == adj.len(),
        forall|i: int|
            0 <= i < adj.len() ==> {
                let old_row = #[trigger] adj[i];
                let new_row = with_edge(adj, a, b)[i];
                &&& old_row.len() <= new_row.len() <= old_row.len() + 1
                &&& new_row.subrange(0, old_row.len() as int) == old_row
                &&& new_row.len() == old_row.len() + 1 ==> ((i == a && new_row.last() == b) || (i == b
                    && new_row.last() == a))
            },
        !linked(adj, a as int, b as int) ==> with_edge(adj, a, b)[a as int] == adj[a as int].push(b),
        a != b && !linked(adj, b as int, a as int) ==> with_edge(adj, a, b)[b as int] == adj[b as int].push(a),
        linked(adj, a as int, b as int) && a != b ==> with_edge(adj, a, b)[a as int] == adj[a as int],
        linked(adj, b as int, a as int) ==> with_edge(adj, a, b)[b as int] == adj[b as int],
{
    let r1 = with_link(adj, a, b);
    let r = with_link(r1, b, a);
    lemma_with_link_links(adj, a, b);
    if !linked(adj, a as int, b as int) {
        assert(r1[a as int] == adj[a as int].push(b));
        if a == b {
            assert(r1[a as int][adj[a as int].len() as int] == b);
            assert(linked(r1, b as int, a as int));
        }
    }
    if a != b {
        assert(r1[b as int] == adj[b as int]);
    }
    assert forall|i: int| 0 <= i < adj.len() implies {
        let old_row = #[trigger] adj[i];
        let new_row = r[i];
        &&& old_row.len() <= new_row.len() <= old_row.len() + 1
        &&& new_row.subrange(0, old_row.len() as int) == old_row
        &&& new_row.len() == old_row.len() + 1 ==> ((i == a && new_row.last() == b) || (i == b
            && new_row.last() == a))
    } by {
        let old_row = adj[i];
        let new_row = r[i];
        if i == a || i == b {
            if new_row.len() == old_row.len() + 1 {
                assert(new_row.subrange(0, old_row.len() as int) =~= old_row);
            } else {
                assert(new_row == old_row);
                assert(new_row.subrange(0, old_row.len() as int) =~= old_row);
            }
        } else {
            assert(new_row == old_row);
            assert(new_row.subrange(0, old_row.len() as int) =~= old_row);
        }
    }
}

/// Linking the same two rooms a second time changes nothing.
pub proof fn lemma_with_edge_idempotent(adj: Seq<Seq<usize>>, a: usize, b: usize)
    requires
        a < adj.len(),
        b < adj.len(),
    ensures
        with_edge(with_edge(adj, a, b), a, b) == with_edge(adj, a, b),
{
    let r = with_edge(adj, a, b);
    lemma_with_edge_links(adj, a, b);
    assert(linked(r, a as int, b as int));
    assert(linked(r, b as int, a as int));
}

/// The order in which the two ends of a link are named does not matter.
pub proof fn lemma_with_edge_commutes(adj: Seq<Seq<usize>>, a: usize, b: usize)
    requires
        a < adj.len(),
        b < adj.len(),
    ensures
        with_edge(adj, a, b) == with_edge(adj, b, a),
{
    if a != b {
        let ab1 = with_link(adj, a, b);
        let ba1 = with_link(adj, b, a);
        assert(ab1[b as int] == adj[b as int]);
        assert(ba1[a as int] == adj[a as int]);
        assert(with_edge(adj, a, b) =~= with_edge(adj, b, a));
    }
}

/// Appending a missing neighbour keeps every list in range and free of repeats.
proof fn lemma_with_link_keeps_rows(adj: Seq<Seq<usize>>, a: usize, b: usize)
    requires
        in_range(adj),
        no_repeats(adj),
        a < adj.len(),
        b < adj.len(),
    ensures
        in_range(with_link(adj, a, b)),
        no_repeats(with_link(adj, a, b)),
{
    let r = with_link(adj, a, b);
    if !linked(adj, a as int, b as int) {
        let row = adj[a as int].push(b);
        assert(r[a as int] == row);
        assert forall|i: int, k: int| 0 <= i < r.len() && 0 <= k < r[i].len() implies (#[trigger] r[i][k])
            < r.len() by {
            if i == a && k < adj[i].len() {
                assert(r[i][k] == adj[i][k]);
            }
        }
        assert forall|i: int| 0 <= i < r.len() implies (#[trigger] r[i]).no_duplicates() by {
            if i == a {
                assert forall|p: int, q: int| 0 <= p < row.len() && 0 <= q < row.len() && p != q implies row[p]
                    != row[q] by {
                    if p < adj[i].len() && q < adj[i].len() {
                        assert(adj[i][p] != adj[i][q]);
                    } else if p < adj[i].len() {
                        assert(adj[i][p] != b);
                    } else {
                        assert(adj[i][q] != b);
                    }
                }
            }
        }
    }
}

/// Neighbours of room `i` in a chain of `n` rooms: the previous room, then the next.
pub open spec fn chain_row(n: nat, i: int) -> Seq<usize> {
    (if i > 0 { seq![(i - 1) as usize] } else { Seq::empty() }) + (if i + 1 < n {
        seq![(i + 1) as usize]
    } else {
        Seq::empty()
    })
}

/// A chain of `n` rooms, each linked to the rooms before and after it.
pub open spec fn chain_adjacency(n: nat) -> Seq<Seq<usize>> {
    Seq::new(n, |i: int| chain_row(n, i))
}

/// A ring of `n` rooms: the chain closed by linking the last room to the first.
pub open spec fn ring_adjacency(n: nat) -> Seq<Seq<usize>> {
    if n == 0 {
        Seq::empty()
    } else {
        with_edge(chain_adjacency(n), (n - 1) as usize, 0)
    }
}

/// The first `k + 1` of `n` rooms chained, the others still without links.
spec fn chain_prefix(n: nat, k: int) -> Seq<Seq<usize>> {
    Seq::new(n, |i: int| if i <= k { chain_row((k + 1) as nat, i) } else { Seq::<usize>::empty() })
}

proof fn lemma_chain_start(n: nat)
    requires
        n > 0,
    ensures
        chain_prefix(n, 0) == isolated(n),
{
    assert(chain_prefix(n, 0) =~= isolated(n)) by {
        assert(chain_row(1, 0) =~= Seq::<usize>::empty());
    }
}

proof fn lemma_chain_step(n: nat, k: usize)
    requires
        k + 1 < n,
        n <= usize::MAX,
    ensures
        with_edge(chain_prefix(n, k as int), k, (k + 1) as usize) == chain_prefix(n, k + 1),
{
    let p = chain_prefix(n, k as int);
    let q = chain_prefix(n, k + 1);
    let k1 = (k + 1) as usize;
    assert(p[k as int] == chain_row((k + 1) as nat, k as int));
    assert(p[k as int] =~= (if k > 0 { seq![(k - 1) as usize] } else { Seq::empty() }));
    assert(!linked(p, k as int, k1 as int));
    let p1 = with_link(p, k, k1);
    assert(p[k1 as int] == Seq::<usize>::empty());
    assert(p1[k1 as int] == Seq::<usize>::empty());
    assert(!linked(p1, k1 as int, k as int));
    let r = with_edge(p, k, k1);
    assert forall|i: int| 0 <= i < n implies r[i] =~= q[i] by {
        if i < k {
            assert(chain_row((k + 1) as nat, i) =~= chain_row((k + 2) as nat, i));
        } else if i == k {
            assert(chain_row((k + 1) as nat, i).push(k1) =~= chain_row((k + 2) as nat, i));
        } else if i == k + 1 {
            assert(seq![k] =~= chain_row((k + 2) as nat, i));
        }
    }
    assert(r =~= q);
}

/// Neighbours in a star of `n` rooms: the hub (room 0) sees every other room
/// in increasing order, every other room sees only the hub.
pub open spec fn star_row(n: nat, i: int) -> Seq<usize> {
    if i == 0 {
        Seq::new((n - 1) as nat, |k: int| (k + 1) as usize)
    } else {
        seq![0usize]
    }
}

/// A star of `n` rooms around room 0.
pub open spec fn star_adjacency(n: nat) -> Seq<Seq<usize>> {
    Seq::new(n, |i: int| star_row(n, i))
}

/// Neighbours of room `r` in a full mesh of `n` rooms: every other room, in
/// increasing order.
pub open spec fn mesh_row(n: nat, r: int) -> Seq<usize> {
    Seq::new((n - 1) as nat, |k: int| if k < r { k as usize } else { (k + 1) as usize })
}

/// A full mesh of `n` rooms: every room linked to every other.
pub open spec fn mesh_adjacency(n: nat) -> Seq<Seq<usize>> {
    Seq::new(n, |r: int| mesh_row(n, r))
}

/// The star after the hub has been linked to rooms `1 .. k`.
spec fn star_prefix(n: nat, k: int) -> Seq<Seq<usize>> {
    Seq::new(
        n,
        |i: int|
            if i == 0 {
                Seq::new((k - 1) as nat, |m: int| (m + 1) as usize)
            } else if i < k {
                seq![0usize]
            } else {
                Seq::<usize>::empty()
            },
    )
}

proof fn lemma_star_start(n: nat)
    requires
        n > 0,
    ensures
        star_prefix(n, 1) == isolated(n),
{
    assert(star_prefix(n, 1) =~= isolated(n)) by {
        assert(Seq::new(0, |m: int| (m + 1) as usize) =~= Seq::<usize>::empty());
    }
}

proof fn lemma_star_step(n: nat, k: usize)
    requires
        1 <= k < n,
        n <= usize::MAX,
    ensures
        with_edge(star_prefix(n, k as int), 0, k) == star_prefix(n, k + 1),
{
    let p = star_prefix(n, k as int);
    let q = star_prefix(n, k + 1);
    let hub = Seq::new((k - 1) as nat, |m: int| (m + 1) as usize);
    assert(p[0] == hub);
    assert(!linked(p, 0, k as int));
    let p1 = with_link(p, 0, k);
    assert(p[k as int] == Seq::<usize>::empty());
    assert(p1[k as int] == Seq::<usize>::empty());
    assert(!linked(p1, k as int, 0));
    let r = with_edge(p, 0, k);
    assert forall|i: int| 0 <= i < n implies r[i] =~= q[i] by {
        if i == 0 {
            assert(hub.push(k) =~= Seq::new(k as nat, |m: int| (m + 1) as usize));
        } else if i == k {
            assert(seq![0usize] =~= Seq::<usize>::empty().push(0usize));
        }
    }
    assert(r =~= q);
}

/// The mesh after every pair `(p, q)` with `p < i`, and the pairs `(i, q)`
/// with `q < j`, have been linked.
spec fn mesh_partial(n: nat, i: int, j: int) -> Seq<Seq<usize>> {
    Seq::new(
        n,
        |r: int|
            if r < i {
                mesh_row(n, r)
            } else if r == i {
                Seq::new((j - 1) as nat, |k: int| if k < i { k as usize } else { (k + 1) as usize })
            } else if r < j {
                Seq::new((i + 1) as nat, |k: int| k as usize)
            } else {
                Seq::new(i as nat, |k: int| k as usize)
            },
    )
}

proof fn lemma_mesh_start(n: nat)
    ensures
        mesh_partial(n, 0, 1) == isolated(n),
{
    assert(mesh_partial(n, 0, 1) =~= isolated(n)) by {
        assert(Seq::new(0, |k: int| if k < 0 { k as usize } else { (k + 1) as usize })
            =~= Seq::<usize>::empty());
        assert(Seq::new(0, |k: int| k as usize) =~= Seq::<usize>::empty());
    }
}

proof fn lemma_mesh_step(n: nat, i: usize, j: usize)
    requires
        i < j < n,
        n <= usize::MAX,
    ensures
        with_edge(mesh_partial(n, i as int, j as int), i, j) == mesh_partial(n, i as int, j + 1),
{
    let p = mesh_partial(n, i as int, j as int);
    let q = mesh_partial(n, i as int, j + 1);
    let row_i = Seq::new((j - 1) as nat, |k: int| if k < i { k as usize } else { (k + 1) as usize });
    let row_j = Seq::new(i as nat, |k: int| k as usize);
    assert(p[i as int] == row_i);
    assert(!linked(p, i as int, j as int));
    let p1 = with_link(p, i, j);
    assert(p[j as int] == row_j);
    assert(p1[j as int] == row_j);
    assert(!linked(p1, j as int, i as int));
    let r = with_edge(p, i, j);
    assert forall|x: int| 0 <= x < n implies r[x] =~= q[x] by {
        if x == i {
            assert(row_i.push(j) =~= Seq::new(j as nat, |k: int| if k < i { k as usize } else { (k + 1) as usize }));
        } else if x == j {
            assert(row_j.push(i) =~= Seq::new((i + 1) as nat, |k: int| k as usize));
        }
    }
    assert(r =~= q);
}

proof fn lemma_mesh_next_row(n: nat, i: int)
    requires
        0 <= i < n,
    ensures
        mesh_partial(n, i, n as int) == mesh_partial(n, i + 1, i + 2),
{
    let p = mesh_partial(n, i, n as int);
    let q = mesh_partial(n, i + 1, i + 2);
    assert forall|x: int| 0 <= x < n implies p[x] =~= q[x] by {
        if x == i + 1 {
            assert(Seq::new((i + 1) as nat, |k: int| k as usize) =~= Seq::new(
                (i + 1) as nat,
                |k: int| if k < i + 1 { k as usize } else { (k + 1) as usize },
            ));
        }
    }
    assert(p =~= q);
}

/// In a ring of at least three rooms, room 0 sees rooms 1 and `n - 1`, the
/// last room sees rooms `n - 2` and 0, and every other room sees its two
/// neighbours along the ring: every room has exactly two neighbours.
pub proof fn lemma_ring_rows(n: nat)
    requires
        3 <= n <= usize::MAX,
    ensures
        ring_adjacency(n).len() == n,
        ring_adjacency(n)[0] == seq![1usize, (n - 1) as usize],
        ring_adjacency(n)[n - 1] == seq![(n - 2) as usize, 0usize],
        forall|i: int| 0 < i < n - 1 ==> #[trigger] ring_adjacency(n)[i] == seq![(i - 1) as usize, (i + 1) as usize],
{
    let c = chain_adjacency(n);
    let last = (n - 1) as usize;
    assert(c[last as int] =~= seq![(n - 2) as usize]);
    assert(!linked(c, last as int, 0));
    let c1 = with_link(c, last, 0);
    assert(c1[0] == c[0]);
    assert(c[0] =~= seq![1usize]);
    assert(!linked(c1, 0, last as int));
    let r = ring_adjacency(n);
    assert(r[0] =~= seq![1usize, (n - 1) as usize]);
    assert(r[n - 1] =~= seq![(n - 2) as usize, 0usize]);
    assert forall|i: int| 0 < i < n - 1 implies #[trigger] r[i] == seq![(i - 1) as usize, (i + 1) as usize] by {
        assert(r[i] == c[i]);
        assert(c[i] =~= seq![(i - 1) as usize, (i + 1) as usize]);
    }
}

/// In a chain, room `i` is linked exactly to rooms `i - 1` and `i + 1`
/// that exist.
pub proof fn lemma_chain_links(n: nat)
    requires
        n <= usize::MAX,
    ensures
        forall|i: int, j: int|
            0 <= i < n ==> (#[trigger] linked(chain_adjacency(n), i, j) <==> ((i > 0 && j == i - 1) || (
            i + 1 < n && j == i + 1))),
{
    let c = chain_adjacency(n);
    assert forall|i: int, j: int| 0 <= i < n implies (linked(c, i, j) <==> ((i > 0 && j == i - 1) || (i
        + 1 < n && j == i + 1))) by {
        let row = chain_row(n, i);
        assert(c[i] == row);
        if i > 0 && j == i - 1 {
            assert(row[0] == j);
        }
        if i + 1 < n && j == i + 1 {
            assert(row[row.len() - 1] == j);
        }
    }
}

/// In a ring of `n` rooms, room `i` is linked exactly to `(i + 1) % n` and to
/// the room `j` with `(j + 1) % n == i`.
pub proof fn lemma_ring_links(n: nat)
    requires
        0 < n <= usize::MAX,
    ensures
        forall|i: int, j: int|
            0 <= i < n && 0 <= j < n ==> (#[trigger] linked(ring_adjacency(n), i, j) <==> (j == (i + 1) % (
            n as int) || i == (j + 1) % (n as int))),
{
    let c = chain_adjacency(n);
    lemma_chain_links(n);
    lemma_with_edge_links(c, (n - 1) as usize, 0);
    assert forall|i: int, j: int| 0 <= i < n && 0 <= j < n implies (linked(ring_adjacency(n), i, j) <==> (j
        == (i + 1) % (n as int) || i == (j + 1) % (n as int))) by {
        assert(linked(c, i, j) == ((i > 0 && j == i - 1) || (i + 1 < n && j == i + 1)));
        if i + 1 < n {
            vstd::arithmetic::div_mod::lemma_small_mod((i + 1) as nat, n);
        } else {
            vstd::arithmetic::div_mod::lemma_mod_self_0(n as int);
        }
        if j + 1 < n {
            vstd::arithmetic::div_mod::lemma_small_mod((j + 1) as nat, n);
        } else {
            vstd::arithmetic::div_mod::lemma_mod_self_0(n as int);
        }
    }
}

/// In a star, the hub is linked to every other room and every other room
/// only to the hub.
pub proof fn lemma_star_links(n: nat)
    requires
        n <= usize::MAX,
    ensures
        forall|i: int, j: int|
            0 <= i < n ==> (#[trigger] linked(star_adjacency(n), i, j) <==> ((i == 0 && 1 <= j < n) || (i
            > 0 && j == 0))),
{
    let st = star_adjacency(n);
    assert forall|i: int, j: int| 0 <= i < n implies (linked(st, i, j) <==> ((i == 0 && 1 <= j < n) || (i
        > 0 && j == 0))) by {
        let row = star_row(n, i);
        assert(st[i] == row);
        if i == 0 && 1 <= j < n {
            assert(row[j - 1] == j);
        }
        if i > 0 && j == 0 {
            assert(row[0] == j);
        }
    }
}

/// In a mesh, every room is linked to every other room and not to itself.
pub proof fn lemma_mesh_links(n: nat)
    requires
        n <= usize::MAX,
    ensures
        forall|i: int, j: int|
            0 <= i < n ==> (#[trigger] linked(mesh_adjacency(n), i, j) <==> (0 <= j < n && j != i)),
{
    let m = mesh_adjacency(n);
    assert forall|i: int, j: int| 0 <= i < n implies (linked(m, i, j) <==> (0 <= j < n && j != i)) by {
        let row = mesh_row(n, i);
        assert(m[i] == row);
        if 0 <= j < n && j != i {
            if j < i {
                assert(row[j] == j);
            } else {
                assert(row[j - 1] == j);
            }
        }
    }
}

/// Adjacency of a room graph.
pub struct Topology {
    edges: Vec<Vec<usize>>,
}

impl View for Topology {
    type V = Seq<Seq<usize>>;

    closed spec fn view(&self) -> Seq<Seq<usize>> {
        self.edges@.map_values(|row: Vec<usize>| row@)
    }
}

/// Whether `x` occurs in `row`.
fn has_neighbor(row: &Vec<usize>, x: usize) -> (found: bool)
    ensures
        found == (exists|m: int| 0 <= m < row@.len() && row@[m] == x),
{
    let mut k: usize = 0;
    while k < row.len()
        invariant
            k <= row@.len(),
            forall|m: int| 0 <= m < k ==> row@[m] != x,
        decreases row@.len() - k,
    {
        if row[k] == x {
            return true;
        }
        k = k + 1;
    }
    false
}

impl Topology {
    /// A graph of `n` rooms and no links.
    pub fn new(n: usize) -> (t: Topology)
        ensures
            t@ == isolated(n as nat),
            well_formed(t@),
    {
        let mut edges: Vec<Vec<usize>> = Vec::new();
        let mut k: usize = 0;
        while k < n
            invariant
                k <= n,
                edges@.len() == k,
                forall|i: int| 0 <= i < k ==> (#[trigger] edges@[i])@ == Seq::<usize>::empty(),
            decreases n - k,
        {
            edges.push(Vec::new());
            k = k + 1;
        }
        let t = Topology { edges };
        assert(t@ =~= isolated(n as nat));
        t
    }

    /// Number of rooms.
    pub fn room_count(&self) -> (n: usize)
        ensures
            n == self@.len(),
    {
        self.edges.len()
    }

    /// The neighbours of room `i`, in the order in which they were linked.
    pub fn neighbors(&self, i: usize) -> (row: &Vec<usize>)
        requires
            i < self@.len(),
        ensures
            row@ == self@[i as int],
    {
        &self.edges[i]
    }

    /// Whether room `b` is a neighbour of room `a`.
    pub fn is_linked(&self, a: usize, b: usize) -> (found: bool)
        requires
            a < self@.len(),
        ensures
            found == linked(self@, a as int, b as int),
    {
        assert(self@[a as int] == self.edges@[a as int]@);
        has_neighbor(&self.edges[a], b)
    }

    /// Links rooms `a` and `b` both ways, leaving any existing link as it is.
    pub fn add_edge(&mut self, a: usize, b: usize)
        requires
            a < old(self)@.len(),
            b < old(self)@.len(),
        ensures
            final(self)@ == with_edge(old(self)@, a, b),
            well_formed(old(self)@) ==> well_formed(final(self)@),
            !linked(old(self)@, a as int, b as int) ==> final(self)@[a as int] == old(self)@[a as int].push(b),
            a != b && !linked(old(self)@, b as int, a as int) ==> final(self)@[b as int] == old(
                self,
            )@[b as int].push(a),
            forall|i: int|
                0 <= i < old(self)@.len() ==> (#[trigger] final(self)@[i]).subrange(
                    0,
                    old(self)@[i].len() as int,
                ) == old(self)@[i],
    {
        proof {
            lemma_with_edge_appends(self@, a, b);
            if well_formed(self@) {
                lemma_with_edge_well_formed(self@, a, b);
            }
        }
        let ghost adj0 = self@;
        if !has_neighbor(&self.edges[a], b) {
            self.edges[a].push(b);
        }
        let ghost adj1 = with_link(adj0, a, b);
        assert(self@ =~= adj1);
        if !has_neighbor(&self.edges[b], a) {
            self.edges[b].push(a);
        }
        assert(self@ =~= with_link(adj1, b, a));
    }
}

/// Builds a chain: room `i` is linked to room `i + 1` for every `i + 1 < n`.
pub fn make_chain(n: usize) -> (t: Topology)
    ensures
        t@ == chain_adjacency(n as nat),
        well_formed(t@),
{
    let mut g = Topology::new(n);
    if n == 0 {
        assert(g@ =~= chain_adjacency(0));
        return g;
    }
    proof {
        lemma_chain_start(n as nat);
    }
    let mut i: usize = 0;
    while i + 1 < n
        invariant
            0 < n,
            i < n,
            g@ == chain_prefix(n as nat, i as int),
            well_formed(g@),
        decreases n - i,
    {
        proof {
            lemma_chain_step(n as nat, i);
        }
        g.add_edge(i, i + 1);
        i = i + 1;
    }
    assert(g@ =~= chain_adjacency(n as nat));
    g
}

/// Builds a ring: room `i` is linked to room `(i + 1) % n` for every room.
pub fn make_ring(n: usize) -> (t: Topology)
    ensures
        t@ == ring_adjacency(n as nat),
        well_formed(t@),
{
    let mut g = Topology::new(n);
    if n == 0 {
        assert(g@ =~= ring_adjacency(0));
        return g;
    }
    proof {
        lemma_chain_start(n as nat);
    }
    let mut i: usize = 0;
    while i < n
        invariant
            0 < n,
            i <= n,
            i < n ==> g@ == chain_prefix(n as nat, i as int),
            i == n ==> g@ == ring_adjacency(n as nat),
            well_formed(g@),
        decreases n - i,
    {
        if i + 1 < n {
            proof {
                lemma_chain_step(n as nat, i);
                vstd::arithmetic::div_mod::lemma_small_mod((i + 1) as nat, n as nat);
            }
        } else {
            assert(chain_prefix(n as nat, i as int) =~= chain_adjacency(n as nat));
            proof {
                vstd::arithmetic::div_mod::lemma_mod_self_0(n as int);
            }
        }
        g.add_edge(i, (i + 1) % n);
        i = i + 1;
    }
    g
}

/// Builds a star: the hub, room 0, is linked to every other room.
pub fn make_star(n: usize) -> (t: Topology)
    ensures
        t@ == star_adjacency(n as nat),
        well_formed(t@),
{
    let mut g = Topology::new(n);
    if n == 0 {
        assert(g@ =~= star_adjacency(0));
        return g;
    }
    proof {
        lemma_star_start(n as nat);
    }
    let mut i: usize = 1;
    while i < n
        invariant
            1 <= i <= n,
            g@ == star_prefix(n as nat, i as int),
            well_formed(g@),
        decreases n - i,
    {
        proof {
            lemma_star_step(n as nat, i);
        }
        g.add_edge(0, i);
        i = i + 1;
    }
    assert(g@ =~= star_adjacency(n as nat));
    g
}

/// Builds a full mesh: every pair of distinct rooms is linked.
pub fn make_mesh(n: usize) -> (t: Topology)
    ensures
        t@ == mesh_adjacency(n as nat),
        well_formed(t@),
{
    let mut g = Topology::new(n);
    proof {
        lemma_mesh_start(n as nat);
    }
    let mut i: usize = 0;
    while i < n
        invariant
            i <= n,
            g@ == mesh_partial(n as nat, i as int, i + 1),
            well_formed(g@),
        decreases n - i,
    {
        let mut j: usize = i + 1;
        while j < n
            invariant
                i < n,
                i < j <= n,
                g@ == mesh_partial(n as nat, i as int, j as int),
                well_formed(g@),
            decreases n - j,
        {
            proof {
                lemma_mesh_step(n as nat, i, j);
            }
            g.add_edge(i, j);
            j = j + 1;
        }
        proof {
            lemma_mesh_next_row(n as nat, i as int);
        }
        i = i + 1;
    }
    assert(g@ =~= mesh_adjacency(n as nat));
    g
}

} // verus!
