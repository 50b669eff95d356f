use vstd::prelude::*;

use crate::grid::{adjacent, is_annotation, CellState, Grid, Pos};
use crate::grid::{lemma_idx, lemma_idx_inj};
use crate::search::{connects, disc, dist_of, lemma_distinct_positions_bound, rooted, visited_seq};
use crate::search::{dist_closed, is_path, reach_closed, reachable, TraceStep};

verus! {

/// The predecessor records form well-founded chains: every discovered
/// cell other than the root has a discovered, adjacent, free predecessor
/// exactly one step closer to the root.
pub(crate) open spec fn pred_wf(g: Grid, d: Seq<usize>, pr: Seq<Pos>, s: Pos) -> bool {
    &&& d.len() == g.rows * g.cols
    &&& pr.len() == g.rows * g.cols
    &&& rooted(g, d, s)
    &&& forall|p: Pos|
        g.in_bounds(p) && #[trigger] disc(g, d, p) && p != s ==> {
            let pp = pr[g.idx(p)];
            &&& g.free(pp)
            &&& g.in_bounds(pp)
            &&& disc(g, d, pp)
            &&& adjacent(pp, p)
            &&& dist_of(g, d, p) == dist_of(g, d, pp) + 1
        }
    &&& forall|p: Pos|
        g.in_bounds(p) && #[trigger] disc(g, d, p) && dist_of(g, d, p) == 0 ==> p == s
}

/// The invariant of one breadth-first side: the queue lists exactly the
/// discovered cells in discovery order, distances along it never decrease
/// and span at most two levels, and every neighbour of a settled cell
/// (one before index `h`) is discovered at most one level further out.
#[verifier::opaque]
pub(crate) open spec fn side_inv(
    g: Grid,
    s: Pos,
    d: Seq<usize>,
    pr: Seq<Pos>,
    q: Seq<Pos>,
    h: int,
) -> bool {
    &&& g.wf()
    &&& pred_wf(g, d, pr, s)
    &&& 0 <= h <= q.len()
    &&& q.len() >= 1
    &&& q[0] == s
    &&& forall|i: int| 0 <= i < q.len() ==> g.free(#[trigger] q[i]) && disc(g, d, q[i])
    &&& q.no_duplicates()
    &&& forall|p: Pos| g.in_bounds(p) && #[trigger] disc(g, d, p) ==> q.contains(p)
    &&& forall|i: int| 0 <= i < q.len() ==> dist_of(g, d, #[trigger] q[i]) <= i
    &&& forall|i: int, j: int|
        #![trigger q[i], q[j]]
        0 <= i <= j < q.len() ==> dist_of(g, d, q[i]) <= dist_of(g, d, q[j])
    &&& (h < q.len() ==> dist_of(g, d, q[q.len() - 1]) <= dist_of(g, d, q[h]) + 1)
    &&& forall|i: int, v: Pos|
        #![trigger q[i], adjacent(q[i], v)]
        0 <= i < h && g.free(v) && adjacent(q[i], v) ==> disc(g, d, v) && dist_of(g, d, v)
            <= dist_of(g, d, q[i]) + 1
}

/// Appending a step extends the finalized-cell record exactly when the
/// step is a `Visited` mark.
pub(crate) proof fn lemma_visited_seq_push(t: Seq<TraceStep>, x: TraceStep)
    ensures
        visited_seq(t.push(x)) == (if x.mark is Visited {
            visited_seq(t).push(x.pos)
        } else {
            visited_seq(t)
        }),
{
    assert(t.push(x).drop_last() =~= t);
    assert(t.push(x).last() == x);
}

/// The facts of `side_inv` that the settling step reads directly.
pub(crate) proof fn lemma_side_inv_facts(g: Grid, s: Pos, d: Seq<usize>, pr: Seq<Pos>, q: Seq<Pos>, h: int)
    requires
        side_inv(g, s, d, pr, q, h),
        0 <= h < q.len(),
    ensures
        g.wf(),
        pred_wf(g, d, pr, s),
        d.len() == g.rows * g.cols,
        pr.len() == g.rows * g.cols,
        q.len() <= g.rows * g.cols,
        g.free(q[h]),
        g.in_bounds(q[h]),
        disc(g, d, q[h]),
        dist_of(g, d, q[h]) <= h,
        0 <= dist_of(g, d, q[h]),
{
    reveal(side_inv);
    assert forall|i: int| 0 <= i < q.len() implies g.in_bounds(#[trigger] q[i]) by {
        assert(g.free(q[i]));
    };
    lemma_distinct_positions_bound(g, q);
    assert(g.free(q[h]));
}

/// Updating the entry of one in-bounds position leaves the entry of
/// every other in-bounds position unchanged.
pub(crate) proof fn lemma_update_elsewhere<T>(g: Grid, a0: Seq<T>, a1: Seq<T>, v: Pos, x: T)
    requires
        g.in_bounds(v),
        a0.len() == g.rows * g.cols,
        a1 == a0.update(g.idx(v), x),
    ensures
        forall|p: Pos| g.in_bounds(p) && p != v ==> a1[g.idx(p)] == a0[g.idx(p)],
{
    lemma_idx(g, v);
    assert forall|p: Pos| g.in_bounds(p) && p != v implies a1[g.idx(p)] == a0[g.idx(p)] by {
        lemma_idx(g, p);
        if g.idx(p) == g.idx(v) {
            lemma_idx_inj(g, p, v);
        }
    };
}

/// A discovered cell is never more than one level beyond the cell about
/// to be settled.
pub(crate) proof fn lemma_already_disc_bound(
    g: Grid,
    s: Pos,
    d: Seq<usize>,
    pr: Seq<Pos>,
    q: Seq<Pos>,
    h: int,
    w: Pos,
)
    requires
        side_inv(g, s, d, pr, q, h),
        0 <= h < q.len(),
        g.in_bounds(w),
        disc(g, d, w),
    ensures
        dist_of(g, d, w) <= dist_of(g, d, q[h]) + 1,
{
    reveal(side_inv);
    assert(q.contains(w));
    let i = choose|i: int| 0 <= i < q.len() && q[i] == w;
    assert(dist_of(g, d, q[i]) <= dist_of(g, d, q[q.len() - 1]));
    assert(dist_of(g, d, q[q.len() - 1]) <= dist_of(g, d, q[h]) + 1);
}

/// The queue-shaped clauses of `side_inv` after discovering `v` from the
/// settled cell `u = q0[h]`.
#[verifier::rlimit(100)]
pub(crate) proof fn lemma_disc_queue(
    g: Grid,
    s: Pos,
    d0: Seq<usize>,
    d1: Seq<usize>,
    pr0: Seq<Pos>,
    q0: Seq<Pos>,
    q1: Seq<Pos>,
    h: int,
    u: Pos,
    v: Pos,
    du: usize,
)
    requires
        side_inv(g, s, d0, pr0, q0, h),
        0 <= h < q0.len(),
        q0[h] == u,
        du as int == dist_of(g, d0, u),
        du as int <= h,
        g.free(v),
        g.in_bounds(v),
        adjacent(u, v),
        !disc(g, d0, v),
        du + 1 < usize::MAX,
        d1 == d0.update(g.idx(v), (du + 1) as usize),
        q1 == q0.push(v),
    ensures
        q1.len() == q0.len() + 1,
        q1[0] == s,
        rooted(g, d1, s),
        forall|i: int| 0 <= i < q1.len() ==> g.free(#[trigger] q1[i]) && disc(g, d1, q1[i]),
        q1.no_duplicates(),
        forall|p: Pos| g.in_bounds(p) && #[trigger] disc(g, d1, p) ==> q1.contains(p),
        forall|i: int| 0 <= i < q1.len() ==> dist_of(g, d1, #[trigger] q1[i]) <= i,
        forall|i: int, j: int|
            #![trigger q1[i], q1[j]]
            0 <= i <= j < q1.len() ==> dist_of(g, d1, q1[i]) <= dist_of(g, d1, q1[j]),
        h < q1.len() && dist_of(g, d1, q1[q1.len() - 1]) <= dist_of(g, d1, q1[h]) + 1,
        disc(g, d1, v),
        dist_of(g, d1, v) == du + 1,
        forall|p: Pos|
            g.in_bounds(p) && #[trigger] disc(g, d0, p) ==> disc(g, d1, p) && dist_of(g, d1, p)
                == dist_of(g, d0, p),
{
    reveal(side_inv);
    lemma_idx(g, v);
    lemma_update_elsewhere(g, d0, d1, v, (du + 1) as usize);
    assert(disc(g, d1, v) && dist_of(g, d1, v) == du + 1);
    assert forall|p: Pos| g.in_bounds(p) && #[trigger] disc(g, d0, p) implies disc(g, d1, p)
        && dist_of(g, d1, p) == dist_of(g, d0, p) by {
        assert(p != v);
    };
    assert forall|i: int| 0 <= i < q1.len() implies g.free(#[trigger] q1[i]) && disc(
        g,
        d1,
        q1[i],
    ) by {
        if i < q0.len() {
            assert(q1[i] == q0[i]);
            assert(g.free(q0[i]) && disc(g, d0, q0[i]));
        } else {
            assert(q1[i] == v);
        }
    };
    assert forall|i: int, j: int|
        0 <= i < q1.len() && 0 <= j < q1.len() && i != j implies q1[i] != q1[j] by {
        if i < q0.len() && j < q0.len() {
        } else if i < q0.len() {
            assert(q1[j] == v && disc(g, d0, q0[i]));
        } else if j < q0.len() {
            assert(q1[i] == v && disc(g, d0, q0[j]));
        }
    };
    assert forall|p: Pos| g.in_bounds(p) && #[trigger] disc(g, d1, p) implies q1.contains(p) by {
        broadcast use vstd::seq_lib::lemma_seq_contains_after_push;

        if p == v {
            assert(q1[q0.len() as int] == v);
        } else {
            assert(p != v);
            assert(disc(g, d0, p));
            assert(q0.contains(p));
        }
    };
    assert forall|i: int| 0 <= i < q1.len() implies dist_of(g, d1, #[trigger] q1[i]) <= i by {
        if i < q0.len() {
            assert(q1[i] == q0[i] && disc(g, d0, q0[i]) && dist_of(g, d0, q0[i]) <= i);
        } else {
            assert(q1[i] == v && i == q0.len());
        }
    };
    assert forall|i: int, j: int|
        #![trigger q1[i], q1[j]]
        0 <= i <= j < q1.len() implies dist_of(g, d1, q1[i]) <= dist_of(g, d1, q1[j]) by {
        if j < q0.len() {
            assert(q1[i] == q0[i] && q1[j] == q0[j]);
            assert(disc(g, d0, q0[i]) && disc(g, d0, q0[j]));
        } else if i < q0.len() {
            assert(q1[j] == v);
            assert(q1[i] == q0[i] && disc(g, d0, q0[i]));
            assert(dist_of(g, d0, q0[i]) <= dist_of(g, d0, q0[q0.len() - 1]));
            assert(dist_of(g, d0, q0[q0.len() - 1]) <= dist_of(g, d0, q0[h]) + 1);
        }
    };
    assert(q1[q1.len() - 1] == v);
    assert(q1[h] == q0[h]);
    assert(s != v);
    assert(dist_of(g, d1, s) == dist_of(g, d0, s));
}

/// The predecessor chains stay well-formed after discovering `v` with
/// predecessor `u`.
#[verifier::rlimit(100)]
pub(crate) proof fn lemma_disc_pred(
    g: Grid,
    s: Pos,
    d0: Seq<usize>,
    d1: Seq<usize>,
    pr0: Seq<Pos>,
    pr1: Seq<Pos>,
    q0: Seq<Pos>,
    h: int,
    u: Pos,
    v: Pos,
    du: usize,
)
    requires
        side_inv(g, s, d0, pr0, q0, h),
        0 <= h < q0.len(),
        q0[h] == u,
        du as int == dist_of(g, d0, u),
        du as int <= h,
        g.free(v),
        g.in_bounds(v),
        adjacent(u, v),
        !disc(g, d0, v),
        du + 1 < usize::MAX,
        d1 == d0.update(g.idx(v), (du + 1) as usize),
        pr1 == pr0.update(g.idx(v), u),
    ensures
        pred_wf(g, d1, pr1, s),
        forall|p: Pos| g.in_bounds(p) && p != v ==> pr1[g.idx(p)] == pr0[g.idx(p)],
{
    reveal(side_inv);
    lemma_idx(g, v);
    lemma_update_elsewhere(g, d0, d1, v, (du + 1) as usize);
    lemma_update_elsewhere(g, pr0, pr1, v, u);
    assert(g.free(u) && disc(g, d0, u));
    assert(disc(g, d1, u) && dist_of(g, d1, u) == du as int) by {
        assert(u != v);
    };
    assert(disc(g, d1, v) && dist_of(g, d1, v) == du + 1);
    assert(pr1[g.idx(v)] == u);
    assert(s != v);
    assert(dist_of(g, d1, s) == dist_of(g, d0, s));
    assert forall|p: Pos| g.in_bounds(p) && #[trigger] disc(g, d1, p) && p != s implies {
        let pp = pr1[g.idx(p)];
        &&& g.free(pp)
        &&& g.in_bounds(pp)
        &&& disc(g, d1, pp)
        &&& adjacent(pp, p)
        &&& dist_of(g, d1, p) == dist_of(g, d1, pp) + 1
    } by {
        if p == v {
        } else {
            assert(disc(g, d0, p) && dist_of(g, d1, p) == dist_of(g, d0, p));
            let pp = pr0[g.idx(p)];
            assert(g.free(pp) && disc(g, d0, pp));
            assert(pp != v);
            assert(disc(g, d1, pp) && dist_of(g, d1, pp) == dist_of(g, d0, pp));
        }
    };
    assert forall|p: Pos|
        g.in_bounds(p) && #[trigger] disc(g, d1, p) && dist_of(g, d1, p) == 0 implies p == s by {
        if p != v {
            assert(disc(g, d0, p) && dist_of(g, d0, p) == dist_of(g, d1, p));
        }
    };
}

/// The settled-closure clause survives the discovery of `v`: a new cell
/// cannot border an already settled cell.
#[verifier::rlimit(100)]
pub(crate) proof fn lemma_disc_closure(
    g: Grid,
    s: Pos,
    d0: Seq<usize>,
    d1: Seq<usize>,
    pr0: Seq<Pos>,
    q0: Seq<Pos>,
    q1: Seq<Pos>,
    h: int,
    u: Pos,
    v: Pos,
    du: usize,
)
    requires
        side_inv(g, s, d0, pr0, q0, h),
        0 <= h < q0.len(),
        q0[h] == u,
        du as int == dist_of(g, d0, u),
        g.free(v),
        g.in_bounds(v),
        !disc(g, d0, v),
        du + 1 < usize::MAX,
        d1 == d0.update(g.idx(v), (du + 1) as usize),
        q1 == q0.push(v),
    ensures
        forall|i: int, w: Pos|
            #![trigger q1[i], adjacent(q1[i], w)]
            0 <= i < h && g.free(w) && adjacent(q1[i], w) ==> disc(g, d1, w) && dist_of(g, d1, w)
                <= dist_of(g, d1, q1[i]) + 1,
{
    reveal(side_inv);
    lemma_idx(g, v);
    lemma_update_elsewhere(g, d0, d1, v, (du + 1) as usize);
    assert forall|i: int, w: Pos|
        #![trigger q1[i], adjacent(q1[i], w)]
        0 <= i < h && g.free(w) && adjacent(q1[i], w) implies disc(g, d1, w) && dist_of(g, d1, w)
        <= dist_of(g, d1, q1[i]) + 1 by {
        assert(q1[i] == q0[i]);
        assert(adjacent(q0[i], w));
        assert(disc(g, d0, w) && dist_of(g, d0, w) <= dist_of(g, d0, q0[i]) + 1);
        assert(w != v);
        assert(disc(g, d0, q0[i]));
        assert(q0[i] != v);
        assert(dist_of(g, d1, w) == dist_of(g, d0, w));
        assert(dist_of(g, d1, q1[i]) == dist_of(g, d0, q0[i]));
    };
}

/// Re-assembles `side_inv` after the discovery of `v`.
pub(crate) proof fn settle_discovery_facts(
    g: Grid,
    s: Pos,
    d0: Seq<usize>,
    d1: Seq<usize>,
    pr0: Seq<Pos>,
    pr1: Seq<Pos>,
    q0: Seq<Pos>,
    q1: Seq<Pos>,
    h: int,
    u: Pos,
    v: Pos,
    du: usize,
)
    requires
        side_inv(g, s, d0, pr0, q0, h),
        0 <= h < q0.len(),
        q0[h] == u,
        du as int == dist_of(g, d0, u),
        du as int <= h,
        g.free(v),
        g.in_bounds(v),
        adjacent(u, v),
        !disc(g, d0, v),
        du + 1 < usize::MAX,
        d1 == d0.update(g.idx(v), (du + 1) as usize),
        pr1 == pr0.update(g.idx(v), u),
        q1 == q0.push(v),
    ensures
        side_inv(g, s, d1, pr1, q1, h),
        disc(g, d1, v),
        dist_of(g, d1, v) == du + 1,
        forall|p: Pos|
            g.in_bounds(p) && #[trigger] disc(g, d0, p) ==> disc(g, d1, p) && dist_of(g, d1, p)
                == dist_of(g, d0, p),
        forall|p: Pos| g.in_bounds(p) && p != v ==> pr1[g.idx(p)] == pr0[g.idx(p)],
{
    lemma_disc_queue(g, s, d0, d1, pr0, q0, q1, h, u, v, du);
    lemma_disc_pred(g, s, d0, d1, pr0, pr1, q0, h, u, v, du);
    lemma_disc_closure(g, s, d0, d1, pr0, q0, q1, h, u, v, du);
    assert(g.wf()) by {
        reveal(side_inv);
    };
    assert(side_inv(g, s, d1, pr1, q1, h)) by {
        reveal(side_inv);
    };
}

/// Once every neighbour of `q[h]` is discovered at most one level out,
/// the cell at `h` counts as settled.
#[verifier::rlimit(100)]
pub(crate) proof fn lemma_settle_complete(
    g: Grid,
    s: Pos,
    d: Seq<usize>,
    pr: Seq<Pos>,
    q: Seq<Pos>,
    h: int,
    ns: Seq<Pos>,
)
    requires
        side_inv(g, s, d, pr, q, h),
        0 <= h < q.len(),
        forall|w: Pos| g.free(w) && adjacent(q[h], w) ==> ns.contains(w),
        forall|k: int|
            0 <= k < ns.len() ==> disc(g, d, #[trigger] ns[k]) && dist_of(g, d, ns[k]) <= dist_of(
                g,
                d,
                q[h],
            ) + 1,
    ensures
        side_inv(g, s, d, pr, q, h + 1),
{
    reveal(side_inv);
    assert forall|i: int, w: Pos|
        #![trigger q[i], adjacent(q[i], w)]
        0 <= i < h + 1 && g.free(w) && adjacent(q[i], w) implies disc(g, d, w) && dist_of(g, d, w)
        <= dist_of(g, d, q[i]) + 1 by {
        if i == h {
            assert(ns.contains(w));
            let k = choose|k: int| 0 <= k < ns.len() && ns[k] == w;
            assert(disc(g, d, ns[k]));
        }
    };
    if h + 1 < q.len() {
        assert(dist_of(g, d, q[h]) <= dist_of(g, d, q[h + 1]));
    }
}

/// Settles the cell at queue index `h`: discovers each of its free
/// neighbours that is still undiscovered, then records the cell itself as
/// finalized. The queue only grows, discovered cells keep their distance
/// and predecessor, and the trace gains exactly one `Visited` entry.
#[verifier::rlimit(100)]
pub(crate) fn settle_one(
    g: &Grid,
    s: Pos,
    dist: &mut Vec<usize>,
    pred: &mut Vec<Pos>,
    queue: &mut Vec<Pos>,
    h: usize,
    trace: &mut Vec<TraceStep>,
)
    requires
        side_inv(*g, s, old(dist)@, old(pred)@, old(queue)@, h as int),
        h < old(queue)@.len(),
    ensures
        side_inv(*g, s, final(dist)@, final(pred)@, final(queue)@, h + 1),
        final(queue)@.len() >= old(queue)@.len(),
        forall|i: int| 0 <= i < old(queue)@.len() ==> final(queue)@[i] == old(queue)@[i],
        forall|p: Pos|
            g.in_bounds(p) && #[trigger] disc(*g, old(dist)@, p) ==> disc(*g, final(dist)@, p)
                && dist_of(*g, final(dist)@, p) == dist_of(*g, old(dist)@, p) && final(pred)@[g.idx(
                p,
            )] == old(pred)@[g.idx(p)],
        final(trace)@.len() >= old(trace)@.len(),
        forall|k: int| 0 <= k < old(trace)@.len() ==> final(trace)@[k] == old(trace)@[k],
        forall|k: int|
            old(trace)@.len() <= k < final(trace)@.len() ==> g.free(
                (#[trigger] final(trace)@[k]).pos,
            ) && crate::grid::is_annotation(final(trace)@[k].mark),
        visited_seq(final(trace)@) == visited_seq(old(trace)@).push(old(queue)@[h as int]),
{
    proof {
        lemma_side_inv_facts(*g, s, dist@, pred@, queue@, h as int);
    }
    let u = queue[h];
    proof {
        lemma_idx(*g, u);
    }
    let ui = u.row * g.cols + u.col;
    let du = dist[ui];
    let ns = g.neighbors(u);
    let ghost t0 = trace@;
    let mut j: usize = 0;
    while j < ns.len()
        invariant
            side_inv(*g, s, dist@, pred@, queue@, h as int),
            h < queue@.len(),
            queue@[h as int] == u,
            u == old(queue)@[h as int],
            dist@.len() == g.rows * g.cols,
            pred@.len() == g.rows * g.cols,
            du as int == dist_of(*g, dist@, u),
            du as int <= h as int,
            g.wf(),
            g.free(u),
            g.in_bounds(u),
            j <= ns@.len(),
            forall|k: int| 0 <= k < ns@.len() ==> g.free(#[trigger] ns@[k]) && adjacent(u, ns@[k]),
            forall|q2: Pos| g.free(q2) && adjacent(u, q2) ==> ns@.contains(q2),
            forall|k: int|
                0 <= k < j ==> disc(*g, dist@, #[trigger] ns@[k]) && dist_of(*g, dist@, ns@[k])
                    <= du + 1,
            queue@.len() >= old(queue)@.len(),
            forall|i: int| 0 <= i < old(queue)@.len() ==> queue@[i] == old(queue)@[i],
            forall|p: Pos|
                g.in_bounds(p) && #[trigger] disc(*g, old(dist)@, p) ==> disc(*g, dist@, p)
                    && dist_of(*g, dist@, p) == dist_of(*g, old(dist)@, p) && pred@[g.idx(p)] == old(
                    pred,
                )@[g.idx(p)],
            trace@.len() >= t0.len(),
            forall|k: int| 0 <= k < t0.len() ==> trace@[k] == t0[k],
            forall|k: int|
                t0.len() <= k < trace@.len() ==> g.free((#[trigger] trace@[k]).pos)
                    && crate::grid::is_annotation(trace@[k].mark),
            visited_seq(trace@) == visited_seq(t0),
            t0 == old(trace)@,
        decreases ns@.len() - j,
    {
        let v = ns[j];
        proof {
            lemma_idx(*g, v);
        }
        let vi = v.row * g.cols + v.col;
        if dist[vi] == usize::MAX {
            proof {
                lemma_side_inv_facts(*g, s, dist@, pred@, queue@, h as int);
            }
            let ghost d0 = dist@;
            let ghost p0 = pred@;
            let ghost q0 = queue@;
            dist[vi] = du + 1;
            pred[vi] = u;
            queue.push(v);
            let ghost tprev = trace@;
            trace.push(TraceStep { pos: v, mark: CellState::Frontier(du + 1) });
            proof {
                lemma_visited_seq_push(
                    tprev,
                    TraceStep { pos: v, mark: CellState::Frontier((du + 1) as usize) },
                );
                settle_discovery_facts(
                    *g,
                    s,
                    d0,
                    dist@,
                    p0,
                    pred@,
                    q0,
                    queue@,
                    h as int,
                    u,
                    v,
                    du,
                );
            }
        } else {
            proof {
                lemma_already_disc_bound(*g, s, dist@, pred@, queue@, h as int, v);
            }
        }
        j += 1;
    }
    let ghost t1 = trace@;
    trace.push(TraceStep { pos: u, mark: CellState::Visited(du) });
    proof {
        lemma_visited_seq_push(t1, TraceStep { pos: u, mark: CellState::Visited(du) });
        assert(visited_seq(trace@) == visited_seq(old(trace)@).push(u));
        lemma_settle_complete(*g, s, dist@, pred@, queue@, h as int, ns@);
    }
}

/// When the queue is exhausted the discovered set is closed under free
/// adjacency, with distances growing by at most one per step.
pub(crate) proof fn lemma_exhausted_closed(
    g: Grid,
    s: Pos,
    d: Seq<usize>,
    pr: Seq<Pos>,
    q: Seq<Pos>,
)
    requires
        side_inv(g, s, d, pr, q, q.len() as int),
    ensures
        dist_closed(g, d),
        reach_closed(g, d),
        rooted(g, d, s),
        pred_wf(g, d, pr, s),
        q.no_duplicates(),
        forall|p: Pos| g.in_bounds(p) && #[trigger] disc(g, d, p) ==> g.free(p) && q.contains(p),
        forall|i: int| 0 <= i < q.len() ==> g.free(#[trigger] q[i]) && disc(g, d, q[i]),
{
    reveal(side_inv);
    assert forall|p: Pos| g.in_bounds(p) && #[trigger] disc(g, d, p) implies g.free(p)
        && q.contains(p) by {
        assert(q.contains(p));
        let i = choose|i: int| 0 <= i < q.len() && q[i] == p;
        assert(g.free(q[i]));
    };
    assert forall|u: Pos, v: Pos|
        #![trigger disc(g, d, u), adjacent(u, v)]
        g.in_bounds(u) && disc(g, d, u) && g.free(v) && adjacent(u, v) implies disc(g, d, v)
        && dist_of(g, d, v) <= dist_of(g, d, u) + 1 by {
        assert(q.contains(u));
        let i = choose|i: int| 0 <= i < q.len() && q[i] == u;
        assert(adjacent(q[i], v));
    };
}

/// Starts one breadth-first side at the root `s`.
pub(crate) fn init_side(g: &Grid, s: Pos) -> (out: (Vec<usize>, Vec<Pos>, Vec<Pos>))
    requires
        g.wf(),
        g.free(s),
    ensures
        side_inv(*g, s, out.0@, out.1@, out.2@, 0),
        out.2@ == seq![s],
        disc(*g, out.0@, s),
        dist_of(*g, out.0@, s) == 0,
{
    let n = g.rows * g.cols;
    let mut dist: Vec<usize> = vec![usize::MAX; n];
    let pred: Vec<Pos> = vec![s; n];
    let mut queue: Vec<Pos> = Vec::new();
    proof {
        lemma_idx(*g, s);
    }
    let si = s.row * g.cols + s.col;
    dist[si] = 0;
    queue.push(s);
    proof {
        assert(queue@ =~= seq![s]);
        assert(disc(*g, dist@, s) && dist_of(*g, dist@, s) == 0);
        assert forall|p: Pos|
            g.in_bounds(p) && #[trigger] disc(*g, dist@, p) implies p == s && queue@.contains(
            p,
        ) by {
            lemma_idx(*g, p);
            if g.idx(p) != g.idx(s) {
                assert(dist@[g.idx(p)] == usize::MAX);
            } else {
                lemma_idx_inj(*g, p, s);
            }
            assert(queue@[0] == s);
        };
        assert(side_inv(*g, s, dist@, pred@, queue@, 0)) by {
            reveal(side_inv);
        };
    }
    (dist, pred, queue)
}

/// Walks the predecessor chain from a discovered cell back to the root:
/// the chain starts at `from`, ends at the root, steps between adjacent
/// free cells, and its length is the recorded distance plus one.
#[verifier::rlimit(100)]
pub(crate) fn chain_to_root(
    g: &Grid,
    s: Pos,
    dist: &Vec<usize>,
    pred: &Vec<Pos>,
    from: Pos,
) -> (chain: Vec<Pos>)
    requires
        g.wf(),
        pred_wf(*g, dist@, pred@, s),
        g.in_bounds(from),
        g.free(from),
        disc(*g, dist@, from),
    ensures
        chain@.len() == dist_of(*g, dist@, from) + 1,
        chain@[0] == from,
        chain@[chain@.len() - 1] == s,
        forall|i: int| 0 <= i < chain@.len() ==> g.free(#[trigger] chain@[i]),
        forall|i: int| 0 <= i < chain@.len() - 1 ==> adjacent(#[trigger] chain@[i], chain@[i + 1]),
        chain@.no_duplicates(),
{
    let mut chain: Vec<Pos> = Vec::new();
    chain.push(from);
    let mut cur = from;
    while !(cur.row == s.row && cur.col == s.col)
        invariant
            g.wf(),
            pred_wf(*g, dist@, pred@, s),
            g.in_bounds(cur),
            g.free(cur),
            disc(*g, dist@, cur),
            chain@.len() >= 1,
            chain@[0] == from,
            chain@[chain@.len() - 1] == cur,
            disc(*g, dist@, from),
            dist_of(*g, dist@, cur) == dist_of(*g, dist@, from) - (chain@.len() - 1),
            forall|i: int|
                0 <= i < chain@.len() ==> g.free(#[trigger] chain@[i]) && dist_of(
                    *g,
                    dist@,
                    chain@[i],
                ) == dist_of(*g, dist@, from) - i,
            forall|i: int|
                0 <= i < chain@.len() - 1 ==> adjacent(#[trigger] chain@[i + 1], chain@[i]),
        decreases dist_of(*g, dist@, cur),
    {
        proof {
            lemma_idx(*g, cur);
            assert(cur != s);
            assert(dist_of(*g, dist@, cur) != 0);
        }
        let ci = cur.row * g.cols + cur.col;
        let pp = pred[ci];
        chain.push(pp);
        cur = pp;
    }
    proof {
        assert(cur == s);
        assert(dist_of(*g, dist@, cur) == 0);
        assert forall|i: int| 0 <= i < chain@.len() - 1 implies adjacent(
            #[trigger] chain@[i],
            chain@[i + 1],
        ) by {
            assert(adjacent(chain@[i + 1], chain@[i]));
        };
        assert forall|i: int, j: int|
            0 <= i < chain@.len() && 0 <= j < chain@.len() && i != j implies chain@[i]
            != chain@[j] by {
            assert(dist_of(*g, dist@, chain@[i]) != dist_of(*g, dist@, chain@[j]));
        };
    }
    chain
}

/// Every discovered cell is reachable from the root: the predecessor
/// chain spells out a path.
pub(crate) proof fn lemma_disc_reachable(g: Grid, d: Seq<usize>, pr: Seq<Pos>, s: Pos, p: Pos)
    requires
        pred_wf(g, d, pr, s),
        g.in_bounds(p),
        g.free(p),
        disc(g, d, p),
    ensures
        reachable(g, s, p),
    decreases dist_of(g, d, p),
{
    if p == s {
        assert(connects(g, seq![s], s, s)) by {
            assert(seq![s][0] == s);
        };
    } else {
        let pp = pr[g.idx(p)];
        assert(dist_of(g, d, p) == dist_of(g, d, pp) + 1);
        lemma_disc_reachable(g, d, pr, s, pp);
        let q = choose|q: Seq<Pos>| connects(g, q, s, pp);
        let q2 = q.push(p);
        assert(connects(g, q2, s, p)) by {
            assert forall|i: int| 0 <= i < q2.len() implies g.free(#[trigger] q2[i]) by {
                if i < q.len() {
                    assert(q2[i] == q[i]);
                } else {
                    assert(q2[i] == p);
                }
            };
            assert forall|i: int| 0 <= i < q2.len() - 1 implies adjacent(
                #[trigger] q2[i],
                q2[i + 1],
            ) by {
                if i < q.len() - 1 {
                    assert(q2[i] == q[i] && q2[i + 1] == q[i + 1]);
                    assert(adjacent(q[i], q[i + 1]));
                } else {
                    assert(q2[i] == q[q.len() - 1] && q2[i + 1] == p);
                    assert(adjacent(pp, p));
                }
            };
            assert(q2[0] == q[0]);
        };
    }
}

/// The queue never holds more cells than the grid.
pub(crate) proof fn lemma_queue_bound(g: Grid, s: Pos, d: Seq<usize>, pr: Seq<Pos>, q: Seq<Pos>, h: int)
    requires
        side_inv(g, s, d, pr, q, h),
    ensures
        q.len() <= g.rows * g.cols,
        h <= q.len(),
{
    reveal(side_inv);
    assert forall|i: int| 0 <= i < q.len() implies g.in_bounds(#[trigger] q[i]) by {
        assert(g.free(q[i]));
    };
    lemma_distinct_positions_bound(g, q);
}

/// Appends one `OnPath` step for every cell of the path; the finalized
/// record of the trace is unchanged.
pub(crate) fn append_path_steps(g: &Grid, trace: &mut Vec<TraceStep>, path: &Vec<Pos>)
    requires
        forall|i: int| 0 <= i < path@.len() ==> g.free(#[trigger] path@[i]),
    ensures
        final(trace)@.len() >= old(trace)@.len(),
        forall|k: int| 0 <= k < old(trace)@.len() ==> final(trace)@[k] == old(trace)@[k],
        forall|k: int|
            old(trace)@.len() <= k < final(trace)@.len() ==> g.free(
                (#[trigger] final(trace)@[k]).pos,
            ) && is_annotation(final(trace)@[k].mark),
        visited_seq(final(trace)@) == visited_seq(old(trace)@),
{
    let mut t: usize = 0;
    while t < path.len()
        invariant
            t <= path@.len(),
            forall|i: int| 0 <= i < path@.len() ==> g.free(#[trigger] path@[i]),
            trace@.len() >= old(trace)@.len(),
            forall|k: int| 0 <= k < old(trace)@.len() ==> trace@[k] == old(trace)@[k],
            forall|k: int|
                old(trace)@.len() <= k < trace@.len() ==> g.free((#[trigger] trace@[k]).pos)
                    && is_annotation(trace@[k].mark),
            visited_seq(trace@) == visited_seq(old(trace)@),
        decreases path@.len() - t,
    {
        let pt = path[t];
        let ghost tprev = trace@;
        trace.push(TraceStep { pos: pt, mark: CellState::OnPath });
        proof {
            lemma_visited_seq_push(tprev, TraceStep { pos: pt, mark: CellState::OnPath });
        }
        t += 1;
    }
}

/// A reversed root chain is a path from the root to the chain's head.
pub(crate) proof fn lemma_chain_reversed_connects(
    g: Grid,
    s: Pos,
    from: Pos,
    back: Seq<Pos>,
    path: Seq<Pos>,
)
    requires
        back.len() >= 1,
        back[0] == from,
        back[back.len() - 1] == s,
        forall|i: int| 0 <= i < back.len() ==> g.free(#[trigger] back[i]),
        forall|i: int| 0 <= i < back.len() - 1 ==> adjacent(#[trigger] back[i], back[i + 1]),
        path.len() == back.len(),
        forall|i: int| 0 <= i < back.len() ==> path[i] == back[back.len() - 1 - i],
    ensures
        connects(g, path, s, from),
{
    let bl = back.len() as int;
    assert forall|i: int| 0 <= i < path.len() implies g.free(#[trigger] path[i]) by {
        assert(g.free(back[bl - 1 - i]));
    };
    assert forall|i: int| 0 <= i < path.len() - 1 implies adjacent(
        #[trigger] path[i],
        path[i + 1],
    ) by {
        let j = bl - 2 - i;
        assert(path[i] == back[j + 1]);
        assert(path[i + 1] == back[j]);
        assert(adjacent(back[j], back[j + 1]));
    };
    assert(is_path(g, path));
    assert(path[0] == back[bl - 1]);
    assert(path[path.len() - 1] == back[0]);
}

/// A copy of the positions in reverse order.
pub(crate) fn reversed(v: &Vec<Pos>) -> (r: Vec<Pos>)
    ensures
        r@.len() == v@.len(),
        forall|i: int| 0 <= i < v@.len() ==> r@[i] == v@[v@.len() - 1 - i],
        v@.no_duplicates() ==> r@.no_duplicates(),
{
    let mut r: Vec<Pos> = Vec::new();
    let mut k = v.len();
    while k > 0
        invariant
            k <= v@.len(),
            r@.len() == v@.len() - k,
            forall|i: int| 0 <= i < r@.len() ==> r@[i] == v@[v@.len() - 1 - i],
        decreases k,
    {
        k -= 1;
        r.push(v[k]);
    }
    proof {
        if v@.no_duplicates() {
            assert forall|i: int, j: int|
                0 <= i < r@.len() && 0 <= j < r@.len() && i != j implies r@[i] != r@[j] by {
                assert(r@[i] == v@[v@.len() - 1 - i]);
                assert(r@[j] == v@[v@.len() - 1 - j]);
            };
        }
    }
    r
}

} // verus!
