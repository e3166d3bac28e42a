//! Walks on the hex lattice through a set of occupied cells, and the
//! breadth-first search that finds the first shortest one in the order of
//! `hex_directions`.

use vstd::prelude::*;

use std::collections::{BTreeMap, BTreeSet, VecDeque};

use crate::e12::unit_of;
use crate::grid::coord_lt;
use crate::room_map::{hex_metric, neighbors_of, pt};
use vstd::set_lib::lemma_len_subset;

verus! {

/// `d` is one of the six unit offsets `1, ω, −ω², −1, −ω, ω²`.
pub open spec fn is_unit_step(d: (int, int)) -> bool {
    ||| d == unit_of(0)
    ||| d == unit_of(1)
    ||| d == unit_of(2)
    ||| d == unit_of(3)
    ||| d == unit_of(4)
    ||| d == unit_of(5)
}

/// `q` is one of the six hex neighbours of `p`.
pub open spec fn adjacent(p: (i64, i64), q: (i64, i64)) -> bool {
    is_unit_step((q.0 - p.0, q.1 - p.1))
}

/// A walk through `cells`: a nonempty sequence of cells, each a hex
/// neighbour of the one before.
pub open spec fn is_walk(cells: Set<(i64, i64)>, w: Seq<(i64, i64)>) -> bool {
    &&& w.len() >= 1
    &&& forall|i: int| 0 <= i < w.len() ==> cells.contains(#[trigger] w[i])
    &&& forall|i: int, j: int|
        0 <= i && j == i + 1 && j < w.len() ==> adjacent(#[trigger] w[i], #[trigger] w[j])
}

/// A walk through `cells` from `a` to `b`.
pub open spec fn walk_between(
    cells: Set<(i64, i64)>,
    w: Seq<(i64, i64)>,
    a: (i64, i64),
    b: (i64, i64),
) -> bool {
    is_walk(cells, w) && w[0] == a && w[w.len() - 1] == b
}

/// Some walk through `cells` joins `a` to `b`.
pub open spec fn connected(cells: Set<(i64, i64)>, a: (i64, i64), b: (i64, i64)) -> bool {
    exists|w: Seq<(i64, i64)>| #[trigger] walk_between(cells, w, a, b)
}

/// `w` is a walk from `a` to `b` through `cells` and no such walk is shorter.
pub open spec fn is_shortest_walk(
    cells: Set<(i64, i64)>,
    w: Seq<(i64, i64)>,
    a: (i64, i64),
    b: (i64, i64),
) -> bool {
    &&& walk_between(cells, w, a, b)
    &&& forall|v: Seq<(i64, i64)>| #[trigger] walk_between(cells, v, a, b) ==> w.len() <= v.len()
}

/// A prefix of a walk is a walk.
proof fn lemma_walk_prefix(cells: Set<(i64, i64)>, w: Seq<(i64, i64)>, j: int)
    requires
        is_walk(cells, w),
        0 <= j < w.len(),
    ensures
        walk_between(cells, w.subrange(0, j + 1), w[0], w[j]),
{
    let p = w.subrange(0, j + 1);
    assert forall|i: int| 0 <= i < p.len() implies cells.contains(#[trigger] p[i]) by {
        assert(p[i] == w[i]);
    }
    assert forall|i: int, k: int| 0 <= i && k == i + 1 && k < p.len() implies adjacent(
        #[trigger] p[i],
        #[trigger] p[k],
    ) by {
        assert(p[i] == w[i] && p[k] == w[k]);
    }
}

/// A walk that starts inside `seen` and ends outside it leaves `seen` at
/// some step: the returned index is inside, the next one outside.
proof fn lemma_walk_exit(cells: Set<(i64, i64)>, seen: Set<(i64, i64)>, w: Seq<(i64, i64)>) -> (j: int)
    requires
        is_walk(cells, w),
        seen.contains(w[0]),
        !seen.contains(w[w.len() - 1]),
    ensures
        0 <= j < w.len() - 1,
        seen.contains(w[j]),
        !seen.contains(w[j + 1]),
        cells.contains(w[j + 1]),
        adjacent(w[j], w[j + 1]),
    decreases w.len(),
{
    assert(cells.contains(w[1]));
    assert(adjacent(w[0], w[1]));
    if !seen.contains(w[1]) {
        0
    } else {
        let t = w.drop_first();
        assert forall|i: int| 0 <= i < t.len() implies cells.contains(#[trigger] t[i]) by {
            assert(t[i] == w[i + 1]);
        }
        assert forall|i: int, k: int| 0 <= i && k == i + 1 && k < t.len() implies adjacent(
            #[trigger] t[i],
            #[trigger] t[k],
        ) by {
            assert(t[i] == w[i + 1] && t[k] == w[k + 1]);
        }
        let k = lemma_walk_exit(cells, seen, t);
        assert(t[k] == w[k + 1] && t[k + 1] == w[k + 2]);
        k + 1
    }
}

/// The search tree: every reached cell other than the start has a parent,
/// one step closer to the start and adjacent to it.
spec fn bfs_tree(
    cells: Set<(i64, i64)>,
    prev: Map<(i64, i64), (i64, i64)>,
    dist: Map<(i64, i64), int>,
    a: (i64, i64),
) -> bool {
    &&& dist.contains_key(a)
    &&& dist[a] == 0
    &&& forall|v: (i64, i64)| #[trigger] dist.contains_key(v) ==> cells.contains(v) && dist[v] >= 0
    &&& forall|v: (i64, i64)|
        #[trigger] dist.contains_key(v) && v != a ==> {
            &&& dist[v] >= 1
            &&& prev.contains_key(v)
            &&& dist.contains_key(prev[v])
            &&& adjacent(prev[v], v)
            &&& dist[prev[v]] == dist[v] - 1
        }
}

/// The position of the unit step `d` in `hex_directions` order.
pub open spec fn step_index(d: (int, int)) -> int {
    if d == unit_of(0) {
        0
    } else if d == unit_of(1) {
        1
    } else if d == unit_of(2) {
        2
    } else if d == unit_of(3) {
        3
    } else if d == unit_of(4) {
        4
    } else {
        5
    }
}

/// The direction index of the step from `w[i − 1]` to `w[i]`.
pub open spec fn step_at(w: Seq<(i64, i64)>, i: int) -> int {
    step_index((w[i].0 - w[i - 1].0, w[i].1 - w[i - 1].1))
}

/// Two walks of the same length agree before position `i` and there `w1`
/// takes the earlier direction.
pub open spec fn parts_at(w1: Seq<(i64, i64)>, w2: Seq<(i64, i64)>, i: int) -> bool {
    &&& 1 <= i < w1.len()
    &&& w1.len() == w2.len()
    &&& forall|j: int| 0 <= j < i ==> #[trigger] w1[j] == w2[j]
    &&& step_at(w1, i) < step_at(w2, i)
}

/// `w1` comes before `w2` among walks of one length from one cell: where
/// they first part, `w1` steps in the earlier direction of `hex_directions`.
pub open spec fn walk_precedes(w1: Seq<(i64, i64)>, w2: Seq<(i64, i64)>) -> bool {
    exists|i: int| #[trigger] parts_at(w1, w2, i)
}

/// The order on walks is transitive.
proof fn lemma_precedes_trans(x: Seq<(i64, i64)>, y: Seq<(i64, i64)>, z: Seq<(i64, i64)>)
    requires
        walk_precedes(x, y),
        walk_precedes(y, z),
    ensures
        walk_precedes(x, z),
{
    let i = choose|i: int| #[trigger] parts_at(x, y, i);
    let j = choose|j: int| #[trigger] parts_at(y, z, j);
    if i < j {
        assert(y[i] == z[i] && y[i - 1] == z[i - 1]);
        assert(parts_at(x, z, i));
    } else if j < i {
        assert(x[j] == y[j] && x[j - 1] == y[j - 1]);
        assert(parts_at(x, z, j));
    } else {
        assert(parts_at(x, z, i));
    }
}

/// A walk does not come before itself.
proof fn lemma_precedes_irreflexive(x: Seq<(i64, i64)>)
    ensures
        !walk_precedes(x, x),
{
}

/// Extending two ordered walks by one cell each keeps their order.
proof fn lemma_precedes_extend(x: Seq<(i64, i64)>, y: Seq<(i64, i64)>, p: (i64, i64), q: (i64, i64))
    requires
        walk_precedes(x, y),
    ensures
        walk_precedes(x.push(p), y.push(q)),
{
    let i = choose|i: int| #[trigger] parts_at(x, y, i);
    assert(x.push(p)[i] == x[i] && y.push(q)[i] == y[i]);
    assert(x.push(p)[i - 1] == x[i - 1] && y.push(q)[i - 1] == y[i - 1]);
    assert(parts_at(x.push(p), y.push(q), i));
}

/// Of two one-cell extensions of the same walk, the one in the earlier
/// direction comes first.
proof fn lemma_precedes_last_step(x: Seq<(i64, i64)>, p: (i64, i64), q: (i64, i64))
    requires
        x.len() >= 1,
        step_index((p.0 - x[x.len() - 1].0, p.1 - x[x.len() - 1].1)) < step_index(
            (q.0 - x[x.len() - 1].0, q.1 - x[x.len() - 1].1),
        ),
    ensures
        walk_precedes(x.push(p), x.push(q)),
{
    let i = x.len() as int;
    assert(x.push(p)[i - 1] == x[i - 1] && x.push(q)[i - 1] == x[i - 1]);
    assert(parts_at(x.push(p), x.push(q), i));
}

/// The walk the parent links trace from `v` back to the start.
spec fn canon(
    prev: Map<(i64, i64), (i64, i64)>,
    dist: Map<(i64, i64), int>,
    v: (i64, i64),
) -> Seq<(i64, i64)>
    decreases dist[v],
{
    if prev.contains_key(v) && dist.contains_key(prev[v]) && 0 <= dist[prev[v]] < dist[v] {
        canon(prev, dist, prev[v]).push(v)
    } else {
        seq![v]
    }
}

/// The traced walk of a reached cell is a walk from the start, one cell
/// longer than its distance.
proof fn lemma_canon_walk(
    cells: Set<(i64, i64)>,
    prev: Map<(i64, i64), (i64, i64)>,
    dist: Map<(i64, i64), int>,
    a: (i64, i64),
    v: (i64, i64),
)
    requires
        bfs_tree(cells, prev, dist, a),
        dist.contains_key(v),
    ensures
        walk_between(cells, canon(prev, dist, v), a, v),
        canon(prev, dist, v).len() == dist[v] + 1,
    decreases dist[v],
{
    if v == a {
        assert(canon(prev, dist, v) == seq![v]) by {
            if prev.contains_key(v) && dist.contains_key(prev[v]) && 0 <= dist[prev[v]] < dist[v] {
                assert(false);
            }
        }
        assert(walk_between(cells, seq![v], a, v));
    } else {
        let u = prev[v];
        lemma_canon_walk(cells, prev, dist, a, u);
        let w = canon(prev, dist, u);
        assert(canon(prev, dist, v) == w.push(v));
        lemma_walk_extend(cells, w, a, v);
    }
}

/// Adding a reached cell `n` leaves the traced walks of the cells reached
/// before unchanged.
proof fn lemma_canon_keep(
    cells: Set<(i64, i64)>,
    prev: Map<(i64, i64), (i64, i64)>,
    dist: Map<(i64, i64), int>,
    a: (i64, i64),
    n: (i64, i64),
    c: (i64, i64),
    k: int,
    v: (i64, i64),
)
    requires
        bfs_tree(cells, prev, dist, a),
        !dist.contains_key(n),
        dist.contains_key(v),
    ensures
        canon(prev.insert(n, c), dist.insert(n, k), v) == canon(prev, dist, v),
    decreases dist[v],
{
    if v != a {
        lemma_canon_keep(cells, prev, dist, a, n, c, k, prev[v]);
    }
}

/// The newly reached cell `n` with parent `c` is traced through `c`.
proof fn lemma_canon_new(
    cells: Set<(i64, i64)>,
    prev: Map<(i64, i64), (i64, i64)>,
    dist: Map<(i64, i64), int>,
    a: (i64, i64),
    n: (i64, i64),
    c: (i64, i64),
)
    requires
        bfs_tree(cells, prev, dist, a),
        !dist.contains_key(n),
        dist.contains_key(c),
    ensures
        canon(prev.insert(n, c), dist.insert(n, dist[c] + 1), n) == canon(prev, dist, c).push(n),
{
    lemma_canon_keep(cells, prev, dist, a, n, c, dist[c] + 1, c);
}

/// Whether two cells are the same cell.
fn same_cell(p: (i64, i64), q: (i64, i64)) -> (r: bool)
    ensures
        r == (p == q),
{
    p.0 == q.0 && p.1 == q.1
}

/// Follow the parents from `b` back to `a` and return the walk `a → b`.
fn trace_back(
    prev: &BTreeMap<(i64, i64), (i64, i64)>,
    a: (i64, i64),
    b: (i64, i64),
    Ghost(cells): Ghost<Set<(i64, i64)>>,
    Ghost(dist): Ghost<Map<(i64, i64), int>>,
) -> (r: Vec<(i64, i64)>)
    requires
        bfs_tree(cells, prev@, dist, a),
        dist.contains_key(b),
    ensures
        r@ == canon(prev@, dist, b),
        walk_between(cells, r@, a, b),
        r@.len() == dist[b] + 1,
{
    let ghost full = canon(prev@, dist, b);
    proof {
        lemma_canon_walk(cells, prev@, dist, a, b);
    }
    let mut back: Vec<(i64, i64)> = Vec::new();
    back.push(b);
    let mut cur = b;
    while !same_cell(cur, a)
        invariant
            bfs_tree(cells, prev@, dist, a),
            full == canon(prev@, dist, b),
            full.len() == dist[b] + 1,
            dist.contains_key(b),
            dist.contains_key(cur),
            back@.len() >= 1,
            back@.len() == dist[b] - dist[cur] + 1,
            back@[back@.len() - 1] == cur,
            canon(prev@, dist, cur) == full.take(dist[cur] + 1),
            forall|k: int| 0 <= k < back@.len() ==> #[trigger] back@[k] == full[full.len() - 1 - k],
        decreases dist[cur],
    {
        let p = *prev.get(&cur).unwrap();
        proof {
            lemma_canon_walk(cells, prev@, dist, a, cur);
            lemma_canon_walk(cells, prev@, dist, a, p);
            assert(canon(prev@, dist, cur) == canon(prev@, dist, p).push(cur));
            assert(dist[cur] == dist[p] + 1);
            let cp = canon(prev@, dist, p);
            assert(cp.len() == dist[p] + 1);
            assert(cp =~= cp.push(cur).take(dist[p] + 1));
            assert(full.take(dist[cur] + 1).take(dist[p] + 1) =~= full.take(dist[p] + 1));
            assert(cp =~= full.take(dist[p] + 1));
            assert(full[dist[p]] == p) by {
                assert(canon(prev@, dist, p)[dist[p]] == p);
            }
        }
        let ghost old_back = back@;
        back.push(p);
        proof {
            assert forall|k: int| 0 <= k < back@.len() implies #[trigger] back@[k] == full[full.len() - 1 - k] by {
                if k < old_back.len() {
                    assert(back@[k] == old_back[k]);
                }
            }
        }
        cur = p;
    }
    let n = back.len();
    let mut r: Vec<(i64, i64)> = Vec::new();
    let mut i: usize = 0;
    while i < n
        invariant
            n == back@.len(),
            n == full.len(),
            0 <= i <= n,
            r@.len() == i,
            forall|k: int| 0 <= k < back@.len() ==> #[trigger] back@[k] == full[full.len() - 1 - k],
            forall|k: int| 0 <= k < i ==> #[trigger] r@[k] == full[k],
        decreases n - i,
    {
        proof {
            assert(back@[n - 1 - i] == full[i as int]);
        }
        r.push(back[n - 1 - i]);
        i = i + 1;
    }
    assert(r@ =~= full);
    r
}

/// Each of the six unit offsets is a unit step.
proof fn lemma_unit_step(k: int)
    requires
        0 <= k < 6,
    ensures
        is_unit_step(unit_of(k)),
{
}

/// The queue holds reached cells at distance `level` or `level + 1`, nearer first.
spec fn queue_ok(q: Seq<(i64, i64)>, dist: Map<(i64, i64), int>, level: int) -> bool {
    &&& forall|i: int|
        0 <= i < q.len() ==> dist.contains_key(#[trigger] q[i]) && level <= dist[q[i]] <= level + 1
    &&& forall|i: int, j: int| 0 <= i < j < q.len() ==> dist[#[trigger] q[i]] <= dist[#[trigger] q[j]]
}

/// No walk from `a` is shorter than the distance recorded for its end.
spec fn dist_is_lower_bound(
    cells: Set<(i64, i64)>,
    dist: Map<(i64, i64), int>,
    a: (i64, i64),
) -> bool {
    forall|v: (i64, i64), w: Seq<(i64, i64)>|
        #[trigger] walk_between(cells, w, a, v) && dist.contains_key(v) ==> w.len() - 1 >= dist[v]
}

/// `w` is the first of the shortest walks from `a` to `b` through `cells`:
/// every other walk of its length parts from it at a step where `w` takes
/// the earlier direction of `hex_directions`.
pub open spec fn is_first_shortest_walk(
    cells: Set<(i64, i64)>,
    w: Seq<(i64, i64)>,
    a: (i64, i64),
    b: (i64, i64),
) -> bool {
    &&& is_shortest_walk(cells, w, a, b)
    &&& forall|v: Seq<(i64, i64)>|
        #[trigger] walk_between(cells, v, a, b) && v.len() == w.len() ==> v == w || walk_precedes(w, v)
}

/// Every reached cell's traced walk is the first of its shortest walks.
spec fn traced_first(
    cells: Set<(i64, i64)>,
    prev: Map<(i64, i64), (i64, i64)>,
    dist: Map<(i64, i64), int>,
    a: (i64, i64),
) -> bool {
    forall|v: (i64, i64), w: Seq<(i64, i64)>|
        #[trigger] walk_between(cells, w, a, v) && dist.contains_key(v) && w.len() == dist[v] + 1
            ==> w == canon(prev, dist, v) || walk_precedes(canon(prev, dist, v), w)
}

/// Queued cells at one distance wait in the order of their traced walks.
spec fn queue_in_walk_order(
    q: Seq<(i64, i64)>,
    prev: Map<(i64, i64), (i64, i64)>,
    dist: Map<(i64, i64), int>,
) -> bool {
    forall|i: int, j: int|
        0 <= i < j < q.len() && dist[q[i]] == dist[q[j]] ==> walk_precedes(
            canon(prev, dist, #[trigger] q[i]),
            canon(prev, dist, #[trigger] q[j]),
        )
}

/// A queued cell one step beyond `c` was reached from `c` by an earlier
/// direction than `k`, or from a cell whose traced walk comes before `c`'s.
spec fn reached_before(
    prev: Map<(i64, i64), (i64, i64)>,
    dist: Map<(i64, i64), int>,
    x: (i64, i64),
    c: (i64, i64),
    k: int,
) -> bool {
    &&& prev.contains_key(x)
    &&& dist.contains_key(prev[x])
    &&& dist[prev[x]] == dist[c]
    &&& (prev[x] == c && step_index((x.0 - c.0, x.1 - c.1)) < k) || (prev[x] != c && walk_precedes(
        canon(prev, dist, prev[x]),
        canon(prev, dist, c),
    ))
}

/// The unit offsets have their own positions as step indices.
proof fn lemma_step_index_unit(k: int)
    requires
        0 <= k < 6,
    ensures
        step_index(unit_of(k)) == k,
{
}

/// A shortest walk from `a` to `b` through the keys of `cells`, found
/// breadth-first with neighbours tried in the order of `hex_directions`:
/// the first of the shortest walks in that order of directions. `None` when
/// an endpoint is not a cell or no walk joins them.
pub fn shortest_path<V>(cells: &BTreeMap<(i64, i64), V>, a: (i64, i64), b: (i64, i64)) -> (r: Option<
    Vec<(i64, i64)>,
>)
    requires
        forall|c: (i64, i64)|
            #[trigger] cells@.contains_key(c) ==> i64::MIN < c.0 < i64::MAX && i64::MIN < c.1
                < i64::MAX,
    ensures
        r is None <==> !(cells@.contains_key(a) && cells@.contains_key(b) && connected(
            cells@.dom(),
            a,
            b,
        )),
        r matches Some(p) ==> is_first_shortest_walk(cells@.dom(), p@, a, b),
{
    if !cells.contains_key(&a) || !cells.contains_key(&b) {
        return None;
    }
    let ghost dom = cells@.dom();
    if same_cell(a, b) {
        let mut p: Vec<(i64, i64)> = Vec::new();
        p.push(a);
        assert(walk_between(dom, p@, a, b));
        assert forall|v: Seq<(i64, i64)>|
            #[trigger] walk_between(dom, v, a, b) && v.len() == p@.len() implies v == p@ || walk_precedes(
            p@,
            v,
        ) by {
            assert(v =~= p@);
        }
        return Some(p);
    }
    let mut prev: BTreeMap<(i64, i64), (i64, i64)> = BTreeMap::new();
    let mut visited: BTreeSet<(i64, i64)> = BTreeSet::new();
    let mut queue: VecDeque<(i64, i64)> = VecDeque::new();
    visited.insert(a);
    queue.push_back(a);
    let ghost mut dist: Map<(i64, i64), int> = Map::empty().insert(a, 0int);
    let ghost mut level: int = 0;
    let ghost mut started: bool = false;
    let ghost mut last: (i64, i64) = a;
    proof {
        assert(visited@ =~= dist.dom());
        assert(queue@[0] == a);
        assert(queue@ =~= seq![a]);
        assert forall|v: (i64, i64), w: Seq<(i64, i64)>|
            #[trigger] walk_between(dom, w, a, v) && dist.contains_key(v) implies w.len() - 1
            >= dist[v] by {}
        assert forall|v: (i64, i64), w: Seq<(i64, i64)>|
            #[trigger] walk_between(dom, w, a, v) && dist.contains_key(v) && w.len() == dist[v] + 1
                implies w == canon(prev@, dist, v) || walk_precedes(canon(prev@, dist, v), w) by {
            assert(v == a);
            assert(canon(prev@, dist, v) == seq![a]);
            assert(w =~= seq![a]);
        }
        lemma_len_subset(visited@, dom);
    }
    loop
        invariant
            dom == cells@.dom(),
            dom.finite(),
            forall|c: (i64, i64)|
                #[trigger] cells@.contains_key(c) ==> i64::MIN < c.0 < i64::MAX && i64::MIN < c.1
                    < i64::MAX,
            dom.contains(a),
            dom.contains(b),
            a != b,
            visited@ == dist.dom(),
            visited@.finite(),
            visited@.len() <= dom.len(),
            !visited@.contains(b),
            bfs_tree(dom, prev@, dist, a),
            queue_ok(queue@, dist, level),
            forall|v: (i64, i64), u: (i64, i64)|
                dist.contains_key(v) && dom.contains(u) && #[trigger] adjacent(v, u)
                    && !queue@.contains(v) ==> dist.contains_key(u),
            dist_is_lower_bound(dom, dist, a),
            traced_first(dom, prev@, dist, a),
            queue_in_walk_order(queue@, prev@, dist),
            !started ==> queue@ == seq![a],
            started ==> dist.contains_key(last) && dist[last] == level,
            started ==> forall|k: int|
                0 <= k < queue@.len() && dist[#[trigger] queue@[k]] == level ==> walk_precedes(
                    canon(prev@, dist, last),
                    canon(prev@, dist, queue@[k]),
                ),
            started ==> forall|k: int|
                0 <= k < queue@.len() && dist[#[trigger] queue@[k]] == level + 1 ==> reached_before(
                    prev@,
                    dist,
                    queue@[k],
                    last,
                    6,
                ),
        ensures
            queue@.len() == 0,
        decreases dom.len() - visited@.len() + queue@.len(),
    {
        let ghost q_before = queue@;
        let ghost level_before = level;
        let c = match queue.pop_front() {
            Some(c) => c,
            None => break,
        };
        proof {
            level = dist[c];
            assert forall|v: (i64, i64)| q_before.contains(v) && !queue@.contains(v) implies v
                == c by {
                let qi = choose|qi: int| 0 <= qi < q_before.len() && q_before[qi] == v;
                if qi > 0 {
                    assert(queue@[qi - 1] == v);
                }
            }
            assert forall|i: int| 0 <= i < queue@.len() implies dist.contains_key(#[trigger] queue@[i])
                && level <= dist[queue@[i]] <= level + 1 by {
                assert(queue@[i] == q_before[i + 1]);
                assert(dist[q_before[0]] <= dist[q_before[i + 1]]);
            }
            assert forall|i: int, j: int| 0 <= i < j < queue@.len() implies dist[#[trigger] queue@[i]]
                <= dist[#[trigger] queue@[j]] by {
                assert(queue@[i] == q_before[i + 1] && queue@[j] == q_before[j + 1]);
            }
            assert forall|i: int, j: int|
                0 <= i < j < queue@.len() && dist[queue@[i]] == dist[queue@[j]] implies walk_precedes(
                canon(prev@, dist, #[trigger] queue@[i]),
                canon(prev@, dist, #[trigger] queue@[j]),
            ) by {
                assert(queue@[i] == q_before[i + 1] && queue@[j] == q_before[j + 1]);
            }
            // the cell just taken comes first among those queued at its distance
            assert forall|k: int|
                0 <= k < queue@.len() && dist[#[trigger] queue@[k]] == level implies walk_precedes(
                canon(prev@, dist, c),
                canon(prev@, dist, queue@[k]),
            ) by {
                assert(queue@[k] == q_before[k + 1]);
                assert(q_before[0] == c);
            }
            // the cells queued one step further were reached before `c` was taken
            assert forall|k: int|
                0 <= k < queue@.len() && dist[#[trigger] queue@[k]] == level + 1 implies reached_before(
                prev@,
                dist,
                queue@[k],
                c,
                0,
            ) by {
                assert(queue@[k] == q_before[k + 1]);
                if !started {
                    assert(q_before.len() == 1);
                }
                if level == level_before {
                    let x = queue@[k];
                    assert(reached_before(prev@, dist, x, last, 6));
                    assert(q_before[0] == c);
                    assert(walk_precedes(canon(prev@, dist, last), canon(prev@, dist, c)));
                    if prev@[x] != last {
                        lemma_precedes_trans(
                            canon(prev@, dist, prev@[x]),
                            canon(prev@, dist, last),
                            canon(prev@, dist, c),
                        );
                    }
                    if prev@[x] == c {
                        lemma_precedes_irreflexive(canon(prev@, dist, c));
                    }
                } else {
                    assert(dist[q_before[0]] <= dist[q_before[k + 1]]);
                }
            }
        }
        let ns = match neighbors_of(c) {
            Some(ns) => ns,
            None => {
                return None;
            },
        };
        let ghost measure = dom.len() - visited@.len() + queue@.len();
        let mut i: usize = 0;
        while i < 6
            invariant
                dom == cells@.dom(),
                dom.finite(),
                dom.contains(a),
                dom.contains(b),
                a != b,
                visited@ == dist.dom(),
                visited@.finite(),
                visited@.len() <= dom.len(),
                !visited@.contains(b),
                bfs_tree(dom, prev@, dist, a),
                queue_ok(queue@, dist, level),
                dist.contains_key(c),
                dist[c] == level,
                0 <= i <= 6,
                forall|k: int|
                    0 <= k < 6 ==> #[trigger] pt(ns[k]) == (c.0 + unit_of(k).0, c.1 + unit_of(k).1),
                forall|k: int| 0 <= k < i ==> dom.contains(#[trigger] ns[k]) ==> dist.contains_key(ns[k]),
                forall|v: (i64, i64), u: (i64, i64)|
                    dist.contains_key(v) && dom.contains(u) && #[trigger] adjacent(v, u)
                        && !queue@.contains(v) && v != c ==> dist.contains_key(u),
                dist_is_lower_bound(dom, dist, a),
                dom.len() - visited@.len() + queue@.len() == measure,
                traced_first(dom, prev@, dist, a),
                queue_in_walk_order(queue@, prev@, dist),
                forall|k: int|
                    0 <= k < queue@.len() && dist[#[trigger] queue@[k]] == level ==> walk_precedes(
                        canon(prev@, dist, c),
                        canon(prev@, dist, queue@[k]),
                    ),
                forall|k: int|
                    0 <= k < queue@.len() && dist[#[trigger] queue@[k]] == level + 1 ==> reached_before(
                        prev@,
                        dist,
                        queue@[k],
                        c,
                        i as int,
                    ),
            decreases 6 - i,
        {
            let n = ns[i];
            if cells.contains_key(&n) && !visited.contains(&n) {
                proof {
                    assert forall|w: Seq<(i64, i64)>| #[trigger] walk_between(dom, w, a, n) implies w.len()
                        - 1 >= level + 1 by {
                        let j = lemma_walk_exit(dom, dist.dom(), w);
                        lemma_walk_prefix(dom, w, j);
                        assert(walk_between(dom, w.subrange(0, j + 1), a, w[j]));
                        if queue@.contains(w[j]) {
                            let qi = choose|qi: int| 0 <= qi < queue@.len() && queue@[qi] == w[j];
                            assert(level <= dist[queue@[qi]]);
                        } else if w[j] != c {
                            assert(adjacent(w[j], w[j + 1]));
                            assert(dist.contains_key(w[j + 1]));
                        }
                    }
                    lemma_unit_step(i as int);
                    lemma_step_index_unit(i as int);
                    assert(pt(ns[i as int]) == (c.0 + unit_of(i as int).0, c.1 + unit_of(i as int).1));
                    assert((n.0 - c.0, n.1 - c.1) == unit_of(i as int));
                    assert(adjacent(c, n));
                    // the traced walk through `c` is the first shortest walk to `n`
                    lemma_canon_walk(dom, prev@, dist, a, c);
                    assert forall|w: Seq<(i64, i64)>|
                        #[trigger] walk_between(dom, w, a, n) && w.len() == level + 2 implies w
                        == canon(prev@, dist, c).push(n) || walk_precedes(
                        canon(prev@, dist, c).push(n),
                        w,
                    ) by {
                        let wp = w.subrange(0, level + 1);
                        let u = w[level];
                        lemma_walk_prefix(dom, w, level);
                        assert(walk_between(dom, wp, a, u));
                        if !dist.contains_key(u) {
                            let j = lemma_walk_exit(dom, dist.dom(), wp);
                            lemma_walk_prefix(dom, wp, j);
                            assert(walk_between(dom, wp.subrange(0, j + 1), a, wp[j]));
                            if queue@.contains(wp[j]) {
                                let qi = choose|qi: int| 0 <= qi < queue@.len() && queue@[qi] == wp[j];
                                assert(level <= dist[queue@[qi]]);
                            } else if wp[j] != c {
                                assert(adjacent(wp[j], wp[j + 1]));
                            }
                        }
                        assert(adjacent(w[level], w[level + 1]));
                        assert(w[level + 1] == n);
                        if u != c {
                            assert(queue@.contains(u));
                        }
                        let uk: int = choose|qi: int| 0 <= qi < queue@.len() && queue@[qi] == u;
                        if u != c {
                            assert(level <= dist[queue@[uk]]);
                        }
                        assert(dist[u] == level);
                        assert(w =~= wp.push(n));
                        if wp == canon(prev@, dist, u) {
                            if u == c {
                            } else {
                                assert(walk_precedes(canon(prev@, dist, c), canon(prev@, dist, queue@[uk])));
                                lemma_precedes_extend(canon(prev@, dist, c), wp, n, n);
                            }
                        } else {
                            assert(walk_precedes(canon(prev@, dist, u), wp));
                            if u == c {
                                lemma_precedes_extend(canon(prev@, dist, c), wp, n, n);
                            } else {
                                assert(walk_precedes(canon(prev@, dist, c), canon(prev@, dist, queue@[uk])));
                                lemma_precedes_trans(canon(prev@, dist, c), canon(prev@, dist, u), wp);
                                lemma_precedes_extend(canon(prev@, dist, c), wp, n, n);
                            }
                        }
                    }
                }
                let ghost old_dist = dist;
                let ghost old_prev = prev@;
                let ghost old_queue = queue@;
                prev.insert(n, c);
                proof {
                    dist = dist.insert(n, level + 1);
                    lemma_canon_new(dom, old_prev, old_dist, a, n, c);
                    assert forall|v: (i64, i64)| old_dist.contains_key(v) implies #[trigger] canon(
                        prev@,
                        dist,
                        v,
                    ) == canon(old_prev, old_dist, v) by {
                        lemma_canon_keep(dom, old_prev, old_dist, a, n, c, level + 1, v);
                    }
                }
                if same_cell(n, b) {
                    let p = trace_back(&prev, a, b, Ghost(dom), Ghost(dist));
                    proof {
                        assert forall|v: Seq<(i64, i64)>| #[trigger] walk_between(dom, v, a, b) implies p@.len()
                            <= v.len() by {}
                    }
                    return Some(p);
                }
                visited.insert(n);
                queue.push_back(n);
                proof {
                    assert(visited@ =~= dist.dom());
                    lemma_len_subset(visited@, dom);
                    assert(queue@ == old_queue.push(n));
                    assert forall|v: (i64, i64), w: Seq<(i64, i64)>|
                        #[trigger] walk_between(dom, w, a, v) && dist.contains_key(v) implies w.len()
                        - 1 >= dist[v] by {
                        if v != n {
                            assert(old_dist.contains_key(v));
                        }
                    }
                    assert forall|v: (i64, i64), w: Seq<(i64, i64)>|
                        #[trigger] walk_between(dom, w, a, v) && dist.contains_key(v) && w.len() == dist[v]
                            + 1 implies w == canon(prev@, dist, v) || walk_precedes(canon(prev@, dist, v), w) by {
                        if v != n {
                            assert(old_dist.contains_key(v));
                            assert(canon(prev@, dist, v) == canon(old_prev, old_dist, v));
                        }
                    }
                    assert forall|v: (i64, i64), u: (i64, i64)|
                        dist.contains_key(v) && dom.contains(u) && #[trigger] adjacent(v, u)
                            && !queue@.contains(v) && v != c implies dist.contains_key(u) by {
                        if v != n {
                            assert(!old_queue.contains(v)) by {
                                if old_queue.contains(v) {
                                    let qi = choose|qi: int| 0 <= qi < old_queue.len() && old_queue[qi] == v;
                                    assert(queue@[qi] == v);
                                }
                            }
                        } else {
                            assert(queue@[queue@.len() - 1] == n);
                        }
                    }
                    assert forall|ii: int| 0 <= ii < queue@.len() implies dist.contains_key(#[trigger] queue@[ii])
                        && level <= dist[queue@[ii]] <= level + 1 by {
                        if ii < old_queue.len() {
                            assert(queue@[ii] == old_queue[ii]);
                        }
                    }
                    assert forall|ii: int, jj: int| 0 <= ii < jj < queue@.len() implies dist[#[trigger] queue@[ii]]
                        <= dist[#[trigger] queue@[jj]] by {
                        assert(queue@[ii] == old_queue[ii]);
                        if jj < old_queue.len() {
                            assert(queue@[jj] == old_queue[jj]);
                        }
                    }
                    assert forall|ii: int, jj: int|
                        0 <= ii < jj < queue@.len() && dist[queue@[ii]] == dist[queue@[jj]] implies walk_precedes(
                        canon(prev@, dist, #[trigger] queue@[ii]),
                        canon(prev@, dist, #[trigger] queue@[jj]),
                    ) by {
                        let x = queue@[ii];
                        assert(x == old_queue[ii]);
                        assert(old_dist.contains_key(x));
                        assert(canon(prev@, dist, x) == canon(old_prev, old_dist, x));
                        if jj < old_queue.len() {
                            assert(queue@[jj] == old_queue[jj]);
                            assert(canon(prev@, dist, queue@[jj]) == canon(old_prev, old_dist, old_queue[jj]));
                        } else {
                            assert(queue@[jj] == n);
                            assert(reached_before(old_prev, old_dist, x, c, i as int));
                            let px = old_prev[x];
                            assert(canon(old_prev, old_dist, x) == canon(old_prev, old_dist, px).push(x));
                            if px == c {
                                assert(canon(old_prev, old_dist, c).len() == level + 1);
                                assert(canon(old_prev, old_dist, c)[level] == c);
                                lemma_precedes_last_step(canon(old_prev, old_dist, c), x, n);
                            } else {
                                lemma_precedes_extend(canon(old_prev, old_dist, px), canon(old_prev, old_dist, c), x, n);
                            }
                        }
                    }
                    assert forall|k: int|
                        0 <= k < queue@.len() && dist[#[trigger] queue@[k]] == level implies walk_precedes(
                        canon(prev@, dist, c),
                        canon(prev@, dist, queue@[k]),
                    ) by {
                        assert(queue@[k] == old_queue[k]);
                    }
                    assert forall|k: int|
                        0 <= k < queue@.len() && dist[#[trigger] queue@[k]] == level + 1 implies reached_before(
                        prev@,
                        dist,
                        queue@[k],
                        c,
                        i + 1,
                    ) by {
                        if k < old_queue.len() {
                            let x = old_queue[k];
                            assert(queue@[k] == x);
                            assert(reached_before(old_prev, old_dist, x, c, i as int));
                            assert(prev@[x] == old_prev[x]);
                            assert(canon(prev@, dist, old_prev[x]) == canon(old_prev, old_dist, old_prev[x]));
                        } else {
                            assert(queue@[k] == n);
                        }
                    }
                }
            } else {
                proof {
                    assert forall|k: int|
                        0 <= k < queue@.len() && dist[#[trigger] queue@[k]] == level + 1 implies reached_before(
                        prev@,
                        dist,
                        queue@[k],
                        c,
                        i + 1,
                    ) by {}
                }
            }
            i = i + 1;
        }
        proof {
            assert forall|u: (i64, i64)| dom.contains(u) && #[trigger] adjacent(c, u) implies dist.contains_key(u) by {
                lemma_neighbours_enumerated(c, ns, u);
            }
            lemma_len_subset(visited@, dom);
            started = true;
            last = c;
        }
    }
    proof {
        assert forall|w: Seq<(i64, i64)>| #[trigger] walk_between(dom, w, a, b) implies false by {
            let j = lemma_walk_exit(dom, dist.dom(), w);
            assert(adjacent(w[j], w[j + 1]));
            assert(!queue@.contains(w[j]));
        }
    }
    None
}

/// Two cells are hex neighbours exactly when they are one hex step apart,
/// and the relation is symmetric.
pub proof fn law_adjacent_iff_distance_one(p: (i64, i64), q: (i64, i64))
    ensures
        adjacent(p, q) <==> hex_metric((p.0 - q.0, p.1 - q.1)) == 1,
        adjacent(p, q) <==> adjacent(q, p),
{
}

/// The cells joined to `s` by a walk through `cells`: the connected
/// component of `s`.
pub open spec fn component(cells: Set<(i64, i64)>, s: (i64, i64)) -> Set<(i64, i64)> {
    Set::new(|x: (i64, i64)| connected(cells, s, x))
}

/// `seen` is a union of whole components: a neighbour in `cells` of a cell
/// of `seen` is in `seen`.
pub open spec fn closed_in(cells: Set<(i64, i64)>, seen: Set<(i64, i64)>) -> bool {
    forall|x: (i64, i64), y: (i64, i64)|
        seen.contains(x) && cells.contains(y) && #[trigger] adjacent(x, y) ==> seen.contains(y)
}

/// A walk extended by a neighbouring cell is a walk.
proof fn lemma_walk_extend(
    cells: Set<(i64, i64)>,
    w: Seq<(i64, i64)>,
    s: (i64, i64),
    n: (i64, i64),
)
    requires
        walk_between(cells, w, s, w[w.len() - 1]),
        cells.contains(n),
        adjacent(w[w.len() - 1], n),
    ensures
        walk_between(cells, w.push(n), s, n),
{
    let v = w.push(n);
    assert forall|i: int| 0 <= i < v.len() implies cells.contains(#[trigger] v[i]) by {
        if i < w.len() {
            assert(v[i] == w[i]);
        }
    }
    assert forall|i: int, k: int| 0 <= i && k == i + 1 && k < v.len() implies adjacent(
        #[trigger] v[i],
        #[trigger] v[k],
    ) by {
        assert(v[i] == w[i]);
        if k < w.len() {
            assert(v[k] == w[k]);
        }
    }
}

/// A walk read backwards is a walk.
proof fn lemma_walk_reverse(cells: Set<(i64, i64)>, w: Seq<(i64, i64)>)
    requires
        is_walk(cells, w),
    ensures
        walk_between(cells, w.reverse(), w[w.len() - 1], w[0]),
{
    let v = w.reverse();
    assert forall|i: int| 0 <= i < v.len() implies cells.contains(#[trigger] v[i]) by {
        assert(v[i] == w[w.len() - 1 - i]);
    }
    assert forall|i: int, k: int| 0 <= i && k == i + 1 && k < v.len() implies adjacent(
        #[trigger] v[i],
        #[trigger] v[k],
    ) by {
        assert(v[i] == w[w.len() - 1 - i] && v[k] == w[w.len() - 1 - k]);
        assert(adjacent(w[w.len() - 1 - k], w[w.len() - 1 - i]));
    }
}

/// Two walks that meet end to start make one walk.
proof fn lemma_walk_concat(
    cells: Set<(i64, i64)>,
    w1: Seq<(i64, i64)>,
    w2: Seq<(i64, i64)>,
    x: (i64, i64),
    y: (i64, i64),
    z: (i64, i64),
)
    requires
        walk_between(cells, w1, x, y),
        walk_between(cells, w2, y, z),
    ensures
        walk_between(cells, w1 + w2.drop_first(), x, z),
{
    let t = w2.drop_first();
    let v = w1 + t;
    assert forall|i: int| 0 <= i < v.len() implies cells.contains(#[trigger] v[i]) by {
        if i < w1.len() {
            assert(v[i] == w1[i]);
        } else {
            assert(v[i] == w2[i - w1.len() + 1]);
        }
    }
    assert forall|i: int, k: int| 0 <= i && k == i + 1 && k < v.len() implies adjacent(
        #[trigger] v[i],
        #[trigger] v[k],
    ) by {
        if k < w1.len() {
            assert(v[i] == w1[i] && v[k] == w1[k]);
        } else if i == w1.len() - 1 {
            assert(v[i] == w2[0] && v[k] == w2[1]);
        } else {
            assert(v[i] == w2[i - w1.len() + 1] && v[k] == w2[k - w1.len() + 1]);
        }
    }
    if w2.len() == 1 {
        assert(v =~= w1);
    } else {
        assert(v[v.len() - 1] == w2[w2.len() - 1]);
    }
}

/// Connection through `cells` is an equivalence on the cells: a cell's
/// component is the component of each of its members.
pub proof fn law_component_shared(cells: Set<(i64, i64)>, x: (i64, i64), y: (i64, i64))
    requires
        connected(cells, x, y),
    ensures
        connected(cells, y, x),
        component(cells, x) == component(cells, y),
        component(cells, x).contains(x),
{
    let w = choose|w: Seq<(i64, i64)>| walk_between(cells, w, x, y);
    lemma_walk_reverse(cells, w);
    assert(walk_between(cells, w.reverse(), y, x));
    assert(walk_between(cells, seq![x], x, x));
    assert forall|z: (i64, i64)| connected(cells, x, z) <==> connected(cells, y, z) by {
        if connected(cells, x, z) {
            let u = choose|u: Seq<(i64, i64)>| walk_between(cells, u, x, z);
            lemma_walk_concat(cells, w.reverse(), u, y, x, z);
            assert(walk_between(cells, w.reverse() + u.drop_first(), y, z));
        }
        if connected(cells, y, z) {
            let u = choose|u: Seq<(i64, i64)>| walk_between(cells, u, y, z);
            lemma_walk_concat(cells, w, u, x, y, z);
            assert(walk_between(cells, w + u.drop_first(), x, z));
        }
    }
    assert(component(cells, x) =~= component(cells, y));
}

/// A walk that starts in a closed set stays in it.
proof fn lemma_closed_walk(cells: Set<(i64, i64)>, seen: Set<(i64, i64)>, w: Seq<(i64, i64)>)
    requires
        closed_in(cells, seen),
        is_walk(cells, w),
        seen.contains(w[0]),
    ensures
        seen.contains(w[w.len() - 1]),
{
    if !seen.contains(w[w.len() - 1]) {
        let j = lemma_walk_exit(cells, seen, w);
        assert(adjacent(w[j], w[j + 1]));
    }
}

/// The neighbours of `c` among the six computed cells `ns` are all of its
/// hex neighbours.
proof fn lemma_neighbours_enumerated(c: (i64, i64), ns: [(i64, i64); 6], u: (i64, i64))
    requires
        forall|k: int|
            0 <= k < 6 ==> #[trigger] pt(ns[k]) == (c.0 + unit_of(k).0, c.1 + unit_of(k).1),
        adjacent(c, u),
    ensures
        exists|k: int| 0 <= k < 6 && #[trigger] ns[k] == u,
{
    let k: int = if (u.0 - c.0, u.1 - c.1) == unit_of(0) {
        0
    } else if (u.0 - c.0, u.1 - c.1) == unit_of(1) {
        1
    } else if (u.0 - c.0, u.1 - c.1) == unit_of(2) {
        2
    } else if (u.0 - c.0, u.1 - c.1) == unit_of(3) {
        3
    } else if (u.0 - c.0, u.1 - c.1) == unit_of(4) {
        4
    } else {
        5
    };
    assert(pt(ns[k]) == (c.0 + unit_of(k).0, c.1 + unit_of(k).1));
    assert(ns[k] == u);
}

/// Flood from `seed` through the cells of `hot` not yet in `seen`: the
/// cells of the seed's component, breadth-first with the seed first, each
/// also added to `seen`.
fn flood(hot: &BTreeSet<(i64, i64)>, seen: &mut BTreeSet<(i64, i64)>, seed: (i64, i64)) -> (comp: Vec<
    (i64, i64),
>)
    requires
        forall|c: (i64, i64)|
            #[trigger] hot@.contains(c) ==> i64::MIN < c.0 < i64::MAX && i64::MIN < c.1 < i64::MAX,
        hot@.finite(),
        hot@.contains(seed),
        !old(seen)@.contains(seed),
        old(seen)@.subset_of(hot@),
        closed_in(hot@, old(seen)@),
    ensures
        comp@.len() >= 1,
        comp@[0] == seed,
        comp@.no_duplicates(),
        comp@.to_set() == component(hot@, seed),
        final(seen)@ == old(seen)@.union(component(hot@, seed)),
{
    let ghost seen0 = seen@;
    let ghost cells = hot@;
    let mut comp: Vec<(i64, i64)> = Vec::new();
    let mut queue: VecDeque<(i64, i64)> = VecDeque::new();
    seen.insert(seed);
    queue.push_back(seed);
    let ghost mut disc: Seq<(i64, i64)> = seq![seed];
    proof {
        assert(walk_between(cells, seq![seed], seed, seed));
        assert(comp@ + queue@ =~= disc);
        assert(seen@ =~= seen0.union(disc.to_set())) by {
            assert(disc.to_set() =~= set![seed]) by {
                assert(disc.to_set().contains(seed)) by {
                    assert(disc[0] == seed);
                }
            }
        }
        vstd::set_lib::lemma_len_subset(seen@, cells);
    }
    loop
        invariant
            cells == hot@,
            forall|c: (i64, i64)|
                #[trigger] cells.contains(c) ==> i64::MIN < c.0 < i64::MAX && i64::MIN < c.1
                    < i64::MAX,
            cells.finite(),
            cells.contains(seed),
            !seen0.contains(seed),
            seen0.subset_of(cells),
            closed_in(cells, seen0),
            disc.len() >= 1,
            disc[0] == seed,
            disc.no_duplicates(),
            comp@ + queue@ == disc,
            seen@ == seen0.union(disc.to_set()),
            seen@.subset_of(cells),
            seen@.finite(),
            seen@.len() <= cells.len(),
            forall|i: int|
                0 <= i < disc.len() ==> cells.contains(#[trigger] disc[i]) && !seen0.contains(disc[i])
                    && connected(cells, seed, disc[i]),
            forall|i: int, y: (i64, i64)|
                0 <= i < comp@.len() && cells.contains(y) && #[trigger] adjacent(comp@[i], y)
                    ==> seen@.contains(y),
        ensures
            queue@.len() == 0,
        decreases cells.len() - seen@.len() + queue@.len(),
    {
        let ghost q_before = queue@;
        let ghost comp_before = comp@;
        let c = match queue.pop_front() {
            Some(c) => c,
            None => break,
        };
        comp.push(c);
        proof {
            assert(comp@ + queue@ =~= disc) by {
                assert(disc =~= comp_before + q_before);
            }
            assert(comp@[comp@.len() - 1] == c);
            assert(disc[comp@.len() - 1] == c);
        }
        match neighbors_of(c) {
            Some(ns) => {
                let ghost measure = cells.len() - seen@.len() + queue@.len();
                let mut i: usize = 0;
                while i < 6
                    invariant
                        cells == hot@,
                        forall|c2: (i64, i64)|
                            #[trigger] cells.contains(c2) ==> i64::MIN < c2.0 < i64::MAX && i64::MIN
                                < c2.1 < i64::MAX,
                        cells.finite(),
                        cells.contains(seed),
                        !seen0.contains(seed),
                        seen0.subset_of(cells),
                        closed_in(cells, seen0),
                        disc.len() >= 1,
                        disc[0] == seed,
                        disc.no_duplicates(),
                        comp@ + queue@ == disc,
                        comp@.len() >= 1,
                        comp@[comp@.len() - 1] == c,
                        seen@ == seen0.union(disc.to_set()),
                        seen@.subset_of(cells),
                        seen@.finite(),
                        seen@.len() <= cells.len(),
                        forall|i: int|
                            0 <= i < disc.len() ==> cells.contains(#[trigger] disc[i]) && !seen0.contains(
                                disc[i],
                            ) && connected(cells, seed, disc[i]),
                        forall|i: int, y: (i64, i64)|
                            0 <= i < comp@.len() - 1 && cells.contains(y) && #[trigger] adjacent(
                                comp@[i],
                                y,
                            ) ==> seen@.contains(y),
                        0 <= i <= 6,
                        forall|k: int|
                            0 <= k < 6 ==> #[trigger] pt(ns[k]) == (c.0 + unit_of(k).0, c.1 + unit_of(k).1),
                        forall|k: int|
                            0 <= k < i ==> cells.contains(#[trigger] ns[k]) ==> seen@.contains(ns[k]),
                        cells.len() - seen@.len() + queue@.len() == measure,
                    decreases 6 - i,
                {
                    let n = ns[i];
                    if !seen.contains(&n) && hot.contains(&n) {
                        let ghost old_disc = disc;
                        let ghost old_queue = queue@;
                        proof {
                            assert(disc[comp@.len() - 1] == c);
                            let w = choose|w: Seq<(i64, i64)>| walk_between(cells, w, seed, c);
                            lemma_unit_step(i as int);
                            assert(pt(ns[i as int]) == (c.0 + unit_of(i as int).0, c.1 + unit_of(i as int).1));
                            assert((n.0 - c.0, n.1 - c.1) == unit_of(i as int));
                            lemma_walk_extend(cells, w, seed, n);
                            assert(walk_between(cells, w.push(n), seed, n));
                            assert(!disc.to_set().contains(n));
                        }
                        seen.insert(n);
                        queue.push_back(n);
                        proof {
                            disc = disc.push(n);
                            assert(comp@ + queue@ =~= disc) by {
                                assert(queue@ == old_queue.push(n));
                            }
                            assert(disc.to_set() =~= old_disc.to_set().insert(n)) by {
                                assert forall|x: (i64, i64)| disc.to_set().contains(x) <==> old_disc.to_set().insert(n).contains(x) by {
                                    if disc.to_set().contains(x) {
                                        let j = choose|j: int| 0 <= j < disc.len() && disc[j] == x;
                                        if j < old_disc.len() {
                                            assert(old_disc[j] == x);
                                        }
                                    }
                                    if old_disc.to_set().contains(x) {
                                        let j = choose|j: int| 0 <= j < old_disc.len() && old_disc[j] == x;
                                        assert(disc[j] == x);
                                    }
                                    if x == n {
                                        assert(disc[disc.len() - 1] == n);
                                    }
                                }
                            }
                            assert(seen@ =~= seen0.union(disc.to_set()));
                            assert forall|ii: int| 0 <= ii < disc.len() implies cells.contains(#[trigger] disc[ii])
                                && !seen0.contains(disc[ii]) && connected(cells, seed, disc[ii]) by {
                                if ii < old_disc.len() {
                                    assert(disc[ii] == old_disc[ii]);
                                }
                            }
                            assert(disc.no_duplicates()) by {
                                assert forall|a: int, b: int| 0 <= a < b < disc.len() implies disc[a] != disc[b] by {
                                    if b == disc.len() - 1 {
                                        assert(old_disc.to_set().contains(old_disc[a]));
                                    }
                                }
                            }
                            vstd::set_lib::lemma_len_subset(seen@, cells);
                        }
                    }
                    i = i + 1;
                }
                proof {
                    assert forall|ii: int, y: (i64, i64)|
                        0 <= ii < comp@.len() && cells.contains(y) && #[trigger] adjacent(comp@[ii], y)
                            implies seen@.contains(y) by {
                        if ii == comp@.len() - 1 {
                            lemma_neighbours_enumerated(c, ns, y);
                        }
                    }
                }
            },
            None => {
                assert(false);
            },
        }
    }
    proof {
        assert(comp@ =~= disc);
        assert(closed_in(cells, seen@)) by {
            assert forall|x: (i64, i64), y: (i64, i64)|
                seen@.contains(x) && cells.contains(y) && #[trigger] adjacent(x, y) implies seen@.contains(y) by {
                if !seen0.contains(x) {
                    assert(disc.to_set().contains(x));
                    let j = choose|j: int| 0 <= j < disc.len() && disc[j] == x;
                    assert(adjacent(comp@[j], y));
                }
            }
        }
        assert forall|x: (i64, i64)| #[trigger] component(cells, seed).contains(x) implies disc.to_set().contains(x) by {
            let w = choose|w: Seq<(i64, i64)>| walk_between(cells, w, seed, x);
            assert(seen@.contains(seed)) by {
                assert(disc.to_set().contains(disc[0]));
            }
            lemma_closed_walk(cells, seen@, w);
            if seen0.contains(x) {
                lemma_walk_reverse(cells, w);
                lemma_closed_walk(cells, seen0, w.reverse());
            }
        }
        assert forall|x: (i64, i64)| disc.to_set().contains(x) implies #[trigger] component(cells, seed).contains(x) by {
            let j = choose|j: int| 0 <= j < disc.len() && disc[j] == x;
        }
        assert(disc.to_set() =~= component(cells, seed));
    }
    comp
}

/// `best` is a largest component of `cells`, and among the largest the one
/// whose least cell (in coordinate order) comes first; `best` starts at that
/// least cell and lists each cell of the component once.
pub open spec fn is_first_largest_component(cells: Set<(i64, i64)>, best: Seq<(i64, i64)>) -> bool {
    &&& best.len() >= 1
    &&& best.no_duplicates()
    &&& cells.contains(best[0])
    &&& best.to_set() == component(cells, best[0])
    &&& forall|x: (i64, i64)|
        #[trigger] component(cells, best[0]).contains(x) ==> !coord_lt(pt(x), pt(best[0]))
    &&& forall|h: (i64, i64)| #[trigger] cells.contains(h) ==> component(cells, h).len() <= best.len()
    &&& forall|h: (i64, i64)|
        #[trigger] cells.contains(h) && coord_lt(pt(h), pt(best[0])) ==> component(cells, h).len()
            < best.len()
}

/// The largest component of `hot`, scanning the cells in the order of
/// `order` (increasing coordinates) and keeping the first of the largest;
/// empty when `hot` is empty.
pub(crate) fn largest_component(hot: &BTreeSet<(i64, i64)>, order: &Vec<(i64, i64)>) -> (best: Vec<(i64, i64)>)
    requires
        forall|c: (i64, i64)|
            #[trigger] hot@.contains(c) ==> i64::MIN < c.0 < i64::MAX && i64::MIN < c.1 < i64::MAX,
        hot@.finite(),
        forall|c: (i64, i64)| #[trigger] hot@.contains(c) ==> order@.contains(c),
        forall|i: int, j: int|
            0 <= i < j < order@.len() ==> coord_lt(pt(#[trigger] order@[i]), pt(#[trigger] order@[j])),
    ensures
        best@.len() == 0 <==> hot@.is_empty(),
        best@.len() > 0 ==> is_first_largest_component(hot@, best@),
{
    let ghost cells = hot@;
    let mut best: Vec<(i64, i64)> = Vec::new();
    let mut seen: BTreeSet<(i64, i64)> = BTreeSet::new();
    let ghost mut best_idx: int = 0;
    let mut i: usize = 0;
    while i < order.len()
        invariant
            cells == hot@,
            forall|c: (i64, i64)|
                #[trigger] cells.contains(c) ==> i64::MIN < c.0 < i64::MAX && i64::MIN < c.1
                    < i64::MAX,
            cells.finite(),
            forall|c: (i64, i64)| #[trigger] cells.contains(c) ==> order@.contains(c),
            forall|a: int, b: int|
                0 <= a < b < order@.len() ==> coord_lt(pt(#[trigger] order@[a]), pt(#[trigger] order@[b])),
            0 <= i <= order@.len(),
            seen@.subset_of(cells),
            seen@.finite(),
            closed_in(cells, seen@),
            forall|j: int| 0 <= j < i && cells.contains(#[trigger] order@[j]) ==> seen@.contains(order@[j]),
            best@.len() == 0 ==> seen@.is_empty(),
            best@.len() > 0 ==> {
                &&& best@.no_duplicates()
                &&& cells.contains(best@[0])
                &&& seen@.contains(best@[0])
                &&& best@.to_set() == component(cells, best@[0])
                &&& forall|x: (i64, i64)|
                    #[trigger] component(cells, best@[0]).contains(x) ==> !coord_lt(pt(x), pt(best@[0]))
                &&& 0 <= best_idx < i
                &&& order@[best_idx] == best@[0]
            },
            forall|x: (i64, i64)| #[trigger] seen@.contains(x) ==> component(cells, x).len() <= best@.len(),
            forall|x: (i64, i64)|
                #[trigger] seen@.contains(x) && best@.len() > 0 && coord_lt(pt(x), pt(best@[0]))
                    ==> component(cells, x).len() < best@.len(),
        decreases order@.len() - i,
    {
        let k = order[i];
        if hot.contains(&k) && !seen.contains(&k) {
            let ghost seen_before = seen@;
            let comp = flood(hot, &mut seen, k);
            proof {
                let cc = component(cells, k);
                comp@.unique_seq_to_set();
                // the seed is the least cell of its component
                assert forall|x: (i64, i64)| #[trigger] cc.contains(x) implies !coord_lt(pt(x), pt(k)) by {
                    if coord_lt(pt(x), pt(k)) {
                        let jx = choose|jx: int| 0 <= jx < order@.len() && order@[jx] == x;
                        if jx >= i {
                            if jx > i {
                                assert(coord_lt(pt(order@[i as int]), pt(order@[jx])));
                            }
                        }
                        assert(seen_before.contains(x));
                        law_component_shared(cells, k, x);
                        let w = choose|w: Seq<(i64, i64)>| walk_between(cells, w, x, k);
                        lemma_closed_walk(cells, seen_before, w);
                    }
                }
                // every member of the new component has it as its component
                assert forall|x: (i64, i64)| #[trigger] cc.contains(x) implies component(cells, x) == cc by {
                    law_component_shared(cells, k, x);
                }
                // the union stays closed
                assert forall|x: (i64, i64), y: (i64, i64)|
                    seen@.contains(x) && cells.contains(y) && #[trigger] adjacent(x, y) implies seen@.contains(y) by {
                    if cc.contains(x) {
                        let w = choose|w: Seq<(i64, i64)>| walk_between(cells, w, k, x);
                        lemma_walk_extend(cells, w, k, y);
                        assert(walk_between(cells, w.push(y), k, y));
                        assert(cc.contains(y));
                    }
                }
                vstd::set_lib::lemma_len_subset(seen@, cells);
                assert(seen@.subset_of(cells)) by {
                    assert forall|x: (i64, i64)| seen@.contains(x) implies cells.contains(x) by {
                        if cc.contains(x) {
                            let w = choose|w: Seq<(i64, i64)>| walk_between(cells, w, k, x);
                            assert(cells.contains(w[w.len() - 1]));
                        }
                    }
                }
            }
            if comp.len() > best.len() {
                best = comp;
                proof {
                    best_idx = i as int;
                    assert(best@.to_set().contains(best@[0]));
                }
            } else {
                proof {
                    assert(coord_lt(pt(order@[best_idx]), pt(order@[i as int])));
                }
            }
        }
        i = i + 1;
    }
    proof {
        assert forall|h: (i64, i64)| #[trigger] cells.contains(h) implies seen@.contains(h) by {
            let jh = choose|jh: int| 0 <= jh < order@.len() && order@[jh] == h;
        }
        if best@.len() == 0 {
            assert(cells =~= Set::<(i64, i64)>::empty());
        } else {
            assert(!cells.is_empty()) by {
                assert(cells.contains(best@[0]));
            }
        }
    }
    best
}

/// The hex distance is a metric on offsets: zero only at zero, symmetric,
/// and subadditive (the triangle inequality); a unit step has length 1.
pub proof fn law_hex_metric(d: (int, int), e: (int, int))
    ensures
        hex_metric(d) >= 0,
        hex_metric(d) == 0 <==> d == (0int, 0int),
        hex_metric((-d.0, -d.1)) == hex_metric(d),
        hex_metric((d.0 + e.0, d.1 + e.1)) <= hex_metric(d) + hex_metric(e),
        is_unit_step(d) <==> hex_metric(d) == 1,
{
}

/// From a nonzero offset some unit step brings the distance down by one.
proof fn lemma_step_toward(d: (int, int)) -> (k: int)
    requires
        d != (0int, 0int),
    ensures
        0 <= k < 6,
        hex_metric((d.0 - unit_of(k).0, d.1 - unit_of(k).1)) == hex_metric(d) - 1,
        d.0 - unit_of(k).0 == 0 || (d.0 - unit_of(k).0 > 0 <==> d.0 > 0),
        d.1 - unit_of(k).1 == 0 || (d.1 - unit_of(k).1 > 0 <==> d.1 > 0),
{
    let (x, y) = d;
    if x > 0 && y > 0 {
        2
    } else if x > 0 {
        0
    } else if y > 0 {
        1
    } else if x < 0 && y < 0 {
        5
    } else if x < 0 {
        3
    } else {
        4
    }
}

/// A walk through the lattice takes at least as many steps as the hex
/// distance between its ends.
pub proof fn law_walk_at_least_distance(cells: Set<(i64, i64)>, w: Seq<(i64, i64)>)
    requires
        is_walk(cells, w),
    ensures
        hex_metric((w[w.len() - 1].0 - w[0].0, w[w.len() - 1].1 - w[0].1)) <= w.len() - 1,
    decreases w.len(),
{
    if w.len() > 1 {
        let t = w.drop_last();
        assert forall|i: int| 0 <= i < t.len() implies cells.contains(#[trigger] t[i]) by {
            assert(t[i] == w[i]);
        }
        assert forall|i: int, k: int| 0 <= i && k == i + 1 && k < t.len() implies adjacent(
            #[trigger] t[i],
            #[trigger] t[k],
        ) by {
            assert(t[i] == w[i] && t[k] == w[k]);
        }
        law_walk_at_least_distance(cells, t);
        let a = w[0];
        let m = w[w.len() - 2];
        let z = w[w.len() - 1];
        assert(adjacent(m, z));
        law_hex_metric((m.0 - a.0, m.1 - a.1), (z.0 - m.0, z.1 - m.1));
    }
}

/// Between any two cells there is a walk through the whole lattice with
/// exactly as many steps as their hex distance: the hex distance is the
/// least number of unit steps between them.
pub proof fn law_distance_is_attained(p: (i64, i64), q: (i64, i64)) -> (w: Seq<(i64, i64)>)
    ensures
        walk_between(Set::full(), w, p, q),
        w.len() == hex_metric((q.0 - p.0, q.1 - p.1)) + 1,
    decreases hex_metric((q.0 - p.0, q.1 - p.1)),
{
    let d = (q.0 - p.0, q.1 - p.1);
    if d == (0int, 0int) {
        assert(p == q);
        let w = seq![p];
        assert(walk_between(Set::full(), w, p, q));
        w
    } else {
        let k = lemma_step_toward(d);
        let u = unit_of(k);
        let p2: (i64, i64) = ((p.0 + u.0) as i64, (p.1 + u.1) as i64);
        assert(p2.0 == p.0 + u.0 && p2.1 == p.1 + u.1);
        let rest = law_distance_is_attained(p2, q);
        let w = seq![p] + rest;
        assert(adjacent(p, p2)) by {
            lemma_unit_step(k);
        }
        assert forall|i: int| 0 <= i < w.len() implies Set::<(i64, i64)>::full().contains(#[trigger] w[i]) by {}
        assert forall|i: int, j: int| 0 <= i && j == i + 1 && j < w.len() implies adjacent(
            #[trigger] w[i],
            #[trigger] w[j],
        ) by {
            if i == 0 {
                assert(w[j] == rest[0]);
            } else {
                assert(w[i] == rest[i - 1] && w[j] == rest[j - 1]);
            }
        }
        assert(w[w.len() - 1] == rest[rest.len() - 1]);
        w
    }
}

} // verus!
