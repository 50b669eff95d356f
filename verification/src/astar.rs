use vstd::prelude::*;

use crate::engine::{chain_to_root, lemma_update_elsewhere, lemma_visited_seq_push, pred_wf, reversed};
use crate::grid::{adjacent, is_annotation, lemma_idx, lemma_idx_inj, CellState, Grid, GridError, Pos};
use crate::search::{connects, disc, dist_of, is_path, lemma_distinct_positions_bound};
use crate::search::{lemma_path_single, lemma_undisc_unreachable, reach_closed, rooted};
use crate::search::{search_post, visited_seq, SearchResult, TraceStep};

verus! {

/// One frontier entry: a discovered, unsettled cell and the running
/// number of its insertion, used to break priority ties.
#[derive(Clone, Copy, PartialEq, Eq, Structural, Debug)]
pub(crate) struct OpenEntry {
    pub pos: Pos,
    pub ins: usize,
}

/// Is the cell settled?
pub(crate) open spec fn closed_at(g: Grid, c: Seq<bool>, p: Pos) -> bool {
    c[g.idx(p)]
}

/// Does some frontier entry carry this cell?
pub(crate) open spec fn in_open(open: Seq<OpenEntry>, p: Pos) -> bool {
    exists|k: int| 0 <= k < open.len() && (#[trigger] open[k]).pos == p
}

/// How many cells are settled.
pub(crate) open spec fn count_true(s: Seq<bool>) -> int
    decreases s.len(),
{
    if s.len() == 0 {
        0
    } else {
        count_true(s.drop_last()) + if s.last() {
            1int
        } else {
            0int
        }
    }
}

pub(crate) proof fn lemma_count_true_bound(s: Seq<bool>)
    ensures
        0 <= count_true(s) <= s.len(),
    decreases s.len(),
{
    if s.len() > 0 {
        lemma_count_true_bound(s.drop_last());
    }
}

pub(crate) proof fn lemma_count_true_update(s: Seq<bool>, i: int)
    requires
        0 <= i < s.len(),
        !s[i],
    ensures
        count_true(s.update(i, true)) == count_true(s) + 1,
    decreases s.len(),
{
    let t = s.update(i, true);
    if i == s.len() - 1 {
        assert(t.drop_last() =~= s.drop_last());
    } else {
        assert(t.drop_last() =~= s.drop_last().update(i, true));
        lemma_count_true_update(s.drop_last(), i);
    }
}

/// The invariant of the best-first search: the seen list records exactly
/// the discovered cells, predecessors point to settled cells, the open
/// list holds exactly the discovered unsettled cells, and (but for the
/// cell `ex` being settled right now) every free neighbour of a settled
/// cell is discovered.
#[verifier::opaque]
pub(crate) open spec fn astar_inv(
    g: Grid,
    s: Pos,
    d: Seq<usize>,
    pr: Seq<Pos>,
    sn: Seq<Pos>,
    open: Seq<OpenEntry>,
    c: Seq<bool>,
    ex: Option<Pos>,
) -> bool {
    &&& g.wf()
    &&& pred_wf(g, d, pr, s)
    &&& c.len() == g.rows * g.cols
    &&& forall|i: int| 0 <= i < sn.len() ==> g.free(#[trigger] sn[i]) && disc(g, d, sn[i])
    &&& sn.no_duplicates()
    &&& forall|p: Pos| g.in_bounds(p) && #[trigger] disc(g, d, p) ==> sn.contains(p)
    &&& forall|p: Pos| g.in_bounds(p) && #[trigger] disc(g, d, p) ==> dist_of(g, d, p) < sn.len()
    &&& forall|p: Pos| g.in_bounds(p) && #[trigger] closed_at(g, c, p) ==> disc(g, d, p)
    &&& forall|i: int|
        0 <= i < open.len() ==> {
            let p = (#[trigger] open[i]).pos;
            &&& g.free(p)
            &&& g.in_bounds(p)
            &&& disc(g, d, p)
            &&& !closed_at(g, c, p)
        }
    &&& forall|i: int, j: int| 0 <= i < j < open.len() ==> open[i].pos != open[j].pos
    &&& forall|p: Pos|
        g.in_bounds(p) && #[trigger] disc(g, d, p) && !closed_at(g, c, p) && Option::Some(p) != ex
            ==> in_open(open, p)
    &&& forall|p: Pos|
        g.in_bounds(p) && #[trigger] disc(g, d, p) && p != s ==> closed_at(g, c, pr[g.idx(p)])
    &&& forall|u: Pos, w: Pos|
        #![trigger closed_at(g, c, u), adjacent(u, w)]
        g.in_bounds(u) && closed_at(g, c, u) && Option::Some(u) != ex && g.free(w) && adjacent(
            u,
            w,
        ) ==> disc(g, d, w)
}

/// After the removal, no frontier entry carries the popped cell.
#[verifier::rlimit(100)]
pub(crate) proof fn lemma_pop_removes(
    g: Grid,
    s: Pos,
    d: Seq<usize>,
    pr: Seq<Pos>,
    sn: Seq<Pos>,
    open0: Seq<OpenEntry>,
    open1: Seq<OpenEntry>,
    c: Seq<bool>,
    k: int,
)
    requires
        forall|i: int, j: int| 0 <= i < j < open0.len() ==> open0[i].pos != open0[j].pos,
        0 <= k < open0.len(),
        open1 == open0.update(k, open0.last()).drop_last(),
    ensures
        !in_open(open1, open0[k].pos),
{
    let u = open0[k].pos;
    assert forall|i: int| 0 <= i < open1.len() implies (#[trigger] open1[i]).pos != u by {
        if i == k {
            assert(open1[i] == open0[open0.len() - 1]);
            assert(open0.len() - 1 != k);
        } else {
            assert(open1[i] == open0[i]);
        }
    };
}

/// The facts of `astar_inv` that the search body reads directly.
pub(crate) proof fn lemma_astar_facts(
    g: Grid,
    s: Pos,
    d: Seq<usize>,
    pr: Seq<Pos>,
    sn: Seq<Pos>,
    open: Seq<OpenEntry>,
    c: Seq<bool>,
    ex: Option<Pos>,
)
    requires
        astar_inv(g, s, d, pr, sn, open, c, ex),
    ensures
        g.wf(),
        pred_wf(g, d, pr, s),
        d.len() == g.rows * g.cols,
        pr.len() == g.rows * g.cols,
        c.len() == g.rows * g.cols,
        sn.len() <= g.rows * g.cols,
        rooted(g, d, s),
        forall|i: int|
            0 <= i < open.len() ==> {
                let p = (#[trigger] open[i]).pos;
                &&& g.free(p)
                &&& g.in_bounds(p)
                &&& disc(g, d, p)
                &&& !closed_at(g, c, p)
                &&& dist_of(g, d, p) < g.rows * g.cols
            },
        forall|p: Pos|
            g.in_bounds(p) && #[trigger] disc(g, d, p) ==> dist_of(g, d, p) < g.rows * g.cols
                && dist_of(g, d, p) < sn.len(),
        forall|i: int, j: int| 0 <= i < j < open.len() ==> open[i].pos != open[j].pos,
        forall|p: Pos|
            g.in_bounds(p) && #[trigger] disc(g, d, p) && !closed_at(g, c, p) && Option::Some(p)
                != ex ==> in_open(open, p),
{
    reveal(astar_inv);
    assert forall|i: int| 0 <= i < sn.len() implies g.in_bounds(#[trigger] sn[i]) by {
        assert(g.free(sn[i]));
    };
    lemma_distinct_positions_bound(g, sn);
    assert forall|p: Pos|
        g.in_bounds(p) && #[trigger] disc(g, d, p) implies dist_of(g, d, p) < g.rows * g.cols
        && dist_of(g, d, p) < sn.len() by {
        assert(dist_of(g, d, p) < sn.len());
    };
}

/// The Manhattan distance between two positions: the admissible heuristic
/// of the 4-connected grid.
pub open spec fn manhattan_dist(a: Pos, b: Pos) -> int {
    (if a.row >= b.row {
        a.row - b.row
    } else {
        b.row - a.row
    }) + (if a.col >= b.col {
        a.col - b.col
    } else {
        b.col - a.col
    })
}

/// Computes the Manhattan distance of two in-bounds positions.
pub fn manhattan(g: &Grid, a: Pos, b: Pos) -> (d: usize)
    requires
        g.wf(),
        g.in_bounds(a),
        g.in_bounds(b),
    ensures
        d == manhattan_dist(a, b),
        d <= usize::MAX / 2,
{
    proof {
        assert(g.rows + g.cols <= g.rows * g.cols + 1) by (nonlinear_arith)
            requires
                g.rows >= 1,
                g.cols >= 1,
        ;
    }
    let dr = if a.row >= b.row {
        a.row - b.row
    } else {
        b.row - a.row
    };
    let dc = if a.col >= b.col {
        a.col - b.col
    } else {
        b.col - a.col
    };
    dr + dc
}

/// The clauses of `astar_inv` that do not mention the open list.
#[verifier::rlimit(100)]
pub(crate) proof fn lemma_inv_base(
    g: Grid,
    s: Pos,
    d: Seq<usize>,
    pr: Seq<Pos>,
    sn: Seq<Pos>,
    open: Seq<OpenEntry>,
    c: Seq<bool>,
)
    requires
        astar_inv(g, s, d, pr, sn, open, c, Option::None),
    ensures
        g.wf(),
        pred_wf(g, d, pr, s),
        c.len() == g.rows * g.cols,
        forall|i: int| 0 <= i < sn.len() ==> g.free(#[trigger] sn[i]) && disc(g, d, sn[i]),
        sn.no_duplicates(),
        forall|p: Pos|
            g.in_bounds(p) && #[trigger] disc(g, d, p) ==> sn.contains(p) && dist_of(g, d, p)
                < sn.len(),
        forall|p: Pos| g.in_bounds(p) && #[trigger] closed_at(g, c, p) ==> disc(g, d, p),
        forall|p: Pos|
            g.in_bounds(p) && #[trigger] disc(g, d, p) && p != s ==> closed_at(
                g,
                c,
                pr[g.idx(p)],
            ),
        forall|u2: Pos, w2: Pos|
            #![trigger closed_at(g, c, u2), adjacent(u2, w2)]
            g.in_bounds(u2) && closed_at(g, c, u2) && g.free(w2) && adjacent(u2, w2) ==> disc(
                g,
                d,
                w2,
            ),
{
    reveal(astar_inv);
}

/// Settling a popped frontier cell: removing its entry, marking it
/// settled, relaxing each neighbour, and recording the trace, all keep
/// `astar_inv`; the pieces below re-establish the invariant one phase at
/// a time.
#[verifier::rlimit(100)]
pub(crate) proof fn lemma_pop_clauses(
    g: Grid,
    s: Pos,
    d: Seq<usize>,
    pr: Seq<Pos>,
    sn: Seq<Pos>,
    open0: Seq<OpenEntry>,
    open1: Seq<OpenEntry>,
    c: Seq<bool>,
    k: int,
)
    requires
        forall|i: int|
            0 <= i < open0.len() ==> {
                let p = (#[trigger] open0[i]).pos;
                &&& g.free(p)
                &&& g.in_bounds(p)
                &&& disc(g, d, p)
                &&& !closed_at(g, c, p)
            },
        forall|i: int, j: int| 0 <= i < j < open0.len() ==> open0[i].pos != open0[j].pos,
        forall|p: Pos|
            g.in_bounds(p) && #[trigger] disc(g, d, p) && !closed_at(g, c, p) ==> in_open(
                open0,
                p,
            ),
        0 <= k < open0.len(),
        open1 == open0.update(k, open0.last()).drop_last(),
    ensures
        g.free(open0[k].pos),
        g.in_bounds(open0[k].pos),
        disc(g, d, open0[k].pos),
        !closed_at(g, c, open0[k].pos),
        forall|i: int|
            0 <= i < open1.len() ==> {
                let p = (#[trigger] open1[i]).pos;
                &&& g.free(p)
                &&& g.in_bounds(p)
                &&& disc(g, d, p)
                &&& !closed_at(g, c, p)
            },
        forall|i: int, j: int| 0 <= i < j < open1.len() ==> open1[i].pos != open1[j].pos,
        forall|p: Pos|
            g.in_bounds(p) && #[trigger] disc(g, d, p) && !closed_at(g, c, p) && Option::Some(p)
                != Option::Some(open0[k].pos) ==> in_open(open1, p),
{
    let u = open0[k].pos;
    assert forall|i: int| 0 <= i < open1.len() implies {
        let p = (#[trigger] open1[i]).pos;
        &&& g.free(p)
        &&& g.in_bounds(p)
        &&& disc(g, d, p)
        &&& !closed_at(g, c, p)
    } by {
        if i == k {
            assert(open1[i] == open0[open0.len() - 1]);
        } else {
            assert(open1[i] == open0[i]);
        }
    };
    assert forall|i: int, j: int|
        0 <= i < j < open1.len() implies open1[i].pos != open1[j].pos by {
        if i == k {
            assert(open1[i] == open0[open0.len() - 1] && open1[j] == open0[j]);
        } else if j == k {
            assert(open1[j] == open0[open0.len() - 1] && open1[i] == open0[i]);
        }
    };
    assert forall|p: Pos|
        g.in_bounds(p) && #[trigger] disc(g, d, p) && !closed_at(g, c, p) && Option::Some(p)
            != Option::Some(u) implies in_open(open1, p) by {
        assert(in_open(open0, p));
        let k2 = choose|k2: int| 0 <= k2 < open0.len() && (#[trigger] open0[k2]).pos == p;
        assert(open0[k2].pos != u);
        assert(k2 != k);
        if k2 == open0.len() - 1 {
            assert(0 <= k < open1.len() && open1[k].pos == p);
        } else {
            assert(open1[k2].pos == p);
        }
    };
}

/// Removing the popped entry from the frontier keeps the invariant, the
/// popped cell now standing as the exception.
pub(crate) proof fn lemma_astar_pop(
    g: Grid,
    s: Pos,
    d: Seq<usize>,
    pr: Seq<Pos>,
    sn: Seq<Pos>,
    open0: Seq<OpenEntry>,
    open1: Seq<OpenEntry>,
    c: Seq<bool>,
    k: int,
)
    requires
        astar_inv(g, s, d, pr, sn, open0, c, Option::None),
        0 <= k < open0.len(),
        open1 == open0.update(k, open0.last()).drop_last(),
    ensures
        astar_inv(g, s, d, pr, sn, open1, c, Option::Some(open0[k].pos)),
        g.free(open0[k].pos),
        g.in_bounds(open0[k].pos),
        disc(g, d, open0[k].pos),
        !closed_at(g, c, open0[k].pos),
{
    lemma_inv_base(g, s, d, pr, sn, open0, c);
    lemma_astar_facts(g, s, d, pr, sn, open0, c, Option::None);
    lemma_pop_clauses(g, s, d, pr, sn, open0, open1, c, k);
    let u = open0[k].pos;
    assert forall|u2: Pos, w2: Pos|
        #![trigger closed_at(g, c, u2), adjacent(u2, w2)]
        g.in_bounds(u2) && closed_at(g, c, u2) && Option::Some(u2) != Option::Some(u) && g.free(w2)
            && adjacent(u2, w2) implies disc(g, d, w2) by {
        assert(adjacent(u2, w2));
    };
    lemma_astar_assemble(g, s, d, pr, sn, open1, c, u);
}

#[verifier::rlimit(100)]
pub(crate) proof fn lemma_astar_close(
    g: Grid,
    s: Pos,
    d: Seq<usize>,
    pr: Seq<Pos>,
    sn: Seq<Pos>,
    open: Seq<OpenEntry>,
    c0: Seq<bool>,
    c1: Seq<bool>,
    u: Pos,
)
    requires
        astar_inv(g, s, d, pr, sn, open, c0, Option::Some(u)),
        g.in_bounds(u),
        disc(g, d, u),
        !closed_at(g, c0, u),
        !in_open(open, u),
        c1 == c0.update(g.idx(u), true),
    ensures
        astar_inv(g, s, d, pr, sn, open, c1, Option::Some(u)),
        closed_at(g, c1, u),
        count_true(c1) == count_true(c0) + 1,
        forall|p: Pos| g.in_bounds(p) && #[trigger] closed_at(g, c0, p) ==> closed_at(g, c1, p),
        forall|p: Pos| g.in_bounds(p) && p != u && !closed_at(g, c0, p) ==> !closed_at(g, c1, p),
{
    reveal(astar_inv);
    lemma_idx(g, u);
    lemma_count_true_update(c0, g.idx(u));
    lemma_update_elsewhere(g, c0, c1, u, true);
    assert forall|p: Pos| g.in_bounds(p) && #[trigger] closed_at(g, c1, p) implies disc(
        g,
        d,
        p,
    ) by {
        if p != u {
            assert(closed_at(g, c0, p));
        }
    };
    assert forall|i: int| 0 <= i < open.len() implies {
        let p = (#[trigger] open[i]).pos;
        &&& g.free(p)
        &&& g.in_bounds(p)
        &&& disc(g, d, p)
        &&& !closed_at(g, c1, p)
    } by {
        let p = open[i].pos;
        assert(!closed_at(g, c0, p));
        assert(p != u) by {
            if p == u {
                assert(in_open(open, u));
            }
        };
    };
    assert forall|p: Pos|
        g.in_bounds(p) && #[trigger] disc(g, d, p) && p != s implies closed_at(
        g,
        c1,
        pr[g.idx(p)],
    ) by {
        assert(closed_at(g, c0, pr[g.idx(p)]));
        if pr[g.idx(p)] != u {
        }
    };
    assert forall|u2: Pos, w: Pos|
        #![trigger closed_at(g, c1, u2), adjacent(u2, w)]
        g.in_bounds(u2) && closed_at(g, c1, u2) && Option::Some(u2) != Option::Some(u) && g.free(w)
            && adjacent(u2, w) implies disc(g, d, w) by {
        assert(u2 != u);
        assert(closed_at(g, c0, u2));
    };
}

#[verifier::rlimit(100)]
pub(crate) proof fn lemma_astar_discover(
    g: Grid,
    s: Pos,
    d0: Seq<usize>,
    d1: Seq<usize>,
    pr0: Seq<Pos>,
    pr1: Seq<Pos>,
    sn0: Seq<Pos>,
    sn1: Seq<Pos>,
    open0: Seq<OpenEntry>,
    open1: Seq<OpenEntry>,
    c: Seq<bool>,
    u: Pos,
    w: Pos,
    du: usize,
    ins: usize,
)
    requires
        astar_inv(g, s, d0, pr0, sn0, open0, c, Option::Some(u)),
        g.in_bounds(u),
        disc(g, d0, u),
        closed_at(g, c, u),
        du as int == dist_of(g, d0, u),
        (du as int) < sn0.len(),
        g.free(w),
        g.in_bounds(w),
        adjacent(u, w),
        !disc(g, d0, w),
        du + 1 < usize::MAX,
        d1 == d0.update(g.idx(w), (du + 1) as usize),
        pr1 == pr0.update(g.idx(w), u),
        sn1 == sn0.push(w),
        open1 == open0.push(OpenEntry { pos: w, ins }),
    ensures
        astar_inv(g, s, d1, pr1, sn1, open1, c, Option::Some(u)),
        disc(g, d1, w),
        dist_of(g, d1, w) == du + 1,
        forall|p: Pos|
            g.in_bounds(p) && #[trigger] disc(g, d0, p) ==> disc(g, d1, p) && dist_of(g, d1, p)
                == dist_of(g, d0, p),
{
    reveal(astar_inv);
    lemma_idx(g, w);
    lemma_update_elsewhere(g, d0, d1, w, (du + 1) as usize);
    lemma_update_elsewhere(g, pr0, pr1, w, u);
    assert(disc(g, d1, w) && dist_of(g, d1, w) == du + 1);
    assert forall|p: Pos| g.in_bounds(p) && #[trigger] disc(g, d0, p) implies disc(g, d1, p)
        && dist_of(g, d1, p) == dist_of(g, d0, p) by {
        assert(p != w);
    };
    assert forall|p: Pos| g.in_bounds(p) && #[trigger] disc(g, d1, p) && p != w implies disc(
        g,
        d0,
        p,
    ) && dist_of(g, d0, p) == dist_of(g, d1, p) by {
        assert(d1[g.idx(p)] == d0[g.idx(p)]);
    };
    assert(s != w);
    assert forall|i: int| 0 <= i < sn1.len() implies g.free(#[trigger] sn1[i]) && disc(
        g,
        d1,
        sn1[i],
    ) by {
        if i < sn0.len() {
            assert(sn1[i] == sn0[i] && disc(g, d0, sn0[i]));
        } else {
            assert(sn1[i] == w);
        }
    };
    assert forall|i: int, j: int|
        0 <= i < sn1.len() && 0 <= j < sn1.len() && i != j implies sn1[i] != sn1[j] by {
        if i < sn0.len() && j < sn0.len() {
        } else if i < sn0.len() {
            assert(sn1[j] == w && disc(g, d0, sn0[i]));
        } else if j < sn0.len() {
            assert(sn1[i] == w && disc(g, d0, sn0[j]));
        }
    };
    assert forall|p: Pos| g.in_bounds(p) && #[trigger] disc(g, d1, p) implies sn1.contains(p) by {
        broadcast use vstd::seq_lib::lemma_seq_contains_after_push;

        if p == w {
            assert(sn1[sn0.len() as int] == w);
        } else {
            assert(disc(g, d0, p));
            assert(sn0.contains(p));
        }
    };
    assert forall|p: Pos| g.in_bounds(p) && #[trigger] disc(g, d1, p) implies dist_of(g, d1, p)
        < sn1.len() by {
        if p != w {
            assert(disc(g, d0, p) && dist_of(g, d0, p) < sn0.len());
        }
    };
    assert forall|p: Pos| g.in_bounds(p) && #[trigger] closed_at(g, c, p) implies disc(
        g,
        d1,
        p,
    ) by {
        assert(disc(g, d0, p));
    };
    assert forall|i: int| 0 <= i < open1.len() implies {
        let p = (#[trigger] open1[i]).pos;
        &&& g.free(p)
        &&& g.in_bounds(p)
        &&& disc(g, d1, p)
        &&& !closed_at(g, c, p)
    } by {
        if i < open0.len() {
            assert(open1[i] == open0[i]);
            assert(disc(g, d0, open0[i].pos));
        } else {
            assert(open1[i].pos == w);
            assert(!closed_at(g, c, w)) by {
                if closed_at(g, c, w) {
                    assert(disc(g, d0, w));
                }
            };
        }
    };
    assert forall|i: int, j: int|
        0 <= i < j < open1.len() implies open1[i].pos != open1[j].pos by {
        if j < open0.len() {
        } else {
            assert(open1[j].pos == w);
            assert(open1[i] == open0[i]);
            assert(disc(g, d0, open0[i].pos));
        }
    };
    assert forall|p: Pos|
        g.in_bounds(p) && #[trigger] disc(g, d1, p) && !closed_at(g, c, p) && Option::Some(p)
            != Option::Some(u) implies in_open(open1, p) by {
        if p == w {
            assert(0 <= open0.len() < open1.len() && open1[open0.len() as int].pos == w);
        } else {
            assert(disc(g, d0, p));
            assert(in_open(open0, p));
            let k2 = choose|k2: int| 0 <= k2 < open0.len() && (#[trigger] open0[k2]).pos == p;
            assert(open1[k2].pos == p);
        }
    };
    assert forall|p: Pos|
        g.in_bounds(p) && #[trigger] disc(g, d1, p) && p != s implies closed_at(
        g,
        c,
        pr1[g.idx(p)],
    ) by {
        if p == w {
            assert(pr1[g.idx(w)] == u);
        } else {
            assert(disc(g, d0, p));
            assert(pr1[g.idx(p)] == pr0[g.idx(p)]);
        }
    };
    assert forall|u2: Pos, w2: Pos|
        #![trigger closed_at(g, c, u2), adjacent(u2, w2)]
        g.in_bounds(u2) && closed_at(g, c, u2) && Option::Some(u2) != Option::Some(u) && g.free(w2)
            && adjacent(u2, w2) implies disc(g, d1, w2) by {
        assert(disc(g, d0, w2));
    };
    assert forall|p: Pos| g.in_bounds(p) && #[trigger] disc(g, d1, p) && p != s implies {
        let pp = pr1[g.idx(p)];
        &&& g.free(pp)
        &&& g.in_bounds(pp)
        &&& disc(g, d1, pp)
        &&& adjacent(pp, p)
        &&& dist_of(g, d1, p) == dist_of(g, d1, pp) + 1
    } by {
        if p == w {
            assert(pr1[g.idx(w)] == u);
            assert(u != w);
            assert(disc(g, d1, u) && dist_of(g, d1, u) == du as int);
            assert(g.free(u)) by {
                assert(sn0.contains(u));
                let k2 = choose|k2: int| 0 <= k2 < sn0.len() && sn0[k2] == u;
                assert(g.free(sn0[k2]));
            };
        } else {
            assert(disc(g, d0, p));
            let pp = pr0[g.idx(p)];
            assert(g.free(pp) && disc(g, d0, pp));
            assert(pp != w);
            assert(pr1[g.idx(p)] == pp);
        }
    };
    assert forall|p: Pos|
        g.in_bounds(p) && #[trigger] disc(g, d1, p) && dist_of(g, d1, p) == 0 implies p == s by {
        if p != w {
            assert(disc(g, d0, p) && dist_of(g, d0, p) == dist_of(g, d1, p));
        }
    };
}

#[verifier::rlimit(100)]
pub(crate) proof fn lemma_astar_decrease_data(
    g: Grid,
    s: Pos,
    d0: Seq<usize>,
    d1: Seq<usize>,
    pr0: Seq<Pos>,
    sn: Seq<Pos>,
    open: Seq<OpenEntry>,
    c: Seq<bool>,
    u: Pos,
    w: Pos,
    du: usize,
)
    requires
        astar_inv(g, s, d0, pr0, sn, open, c, Option::Some(u)),
        g.in_bounds(u),
        disc(g, d0, u),
        du as int == dist_of(g, d0, u),
        g.free(w),
        g.in_bounds(w),
        disc(g, d0, w),
        !closed_at(g, c, w),
        du + 1 < dist_of(g, d0, w),
        d1 == d0.update(g.idx(w), (du + 1) as usize),
    ensures
        disc(g, d1, w),
        dist_of(g, d1, w) == du + 1,
        w != s,
        rooted(g, d1, s),
        forall|p: Pos|
            g.in_bounds(p) && #[trigger] disc(g, d0, p) ==> disc(g, d1, p) && (p != w
                ==> dist_of(g, d1, p) == dist_of(g, d0, p)),
        forall|p: Pos| g.in_bounds(p) && #[trigger] disc(g, d1, p) ==> disc(g, d0, p),
        forall|i: int| 0 <= i < sn.len() ==> g.free(#[trigger] sn[i]) && disc(g, d1, sn[i]),
        forall|p: Pos|
            g.in_bounds(p) && #[trigger] disc(g, d1, p) ==> sn.contains(p) && dist_of(g, d1, p)
                < sn.len(),
        forall|p: Pos|
            g.in_bounds(p) && #[trigger] disc(g, d1, p) && dist_of(g, d1, p) == 0 ==> p == s,
        g.wf(),
        c.len() == g.rows * g.cols,
        d1.len() == g.rows * g.cols,
        sn.no_duplicates(),
        forall|i: int, j: int| 0 <= i < j < open.len() ==> open[i].pos != open[j].pos,
{
    reveal(astar_inv);
    lemma_idx(g, w);
    lemma_update_elsewhere(g, d0, d1, w, (du + 1) as usize);
    assert(disc(g, d1, w) && dist_of(g, d1, w) == du + 1);
    assert(w != s) by {
        assert(dist_of(g, d0, s) == 0);
    };
    assert forall|p: Pos| g.in_bounds(p) && #[trigger] disc(g, d0, p) implies disc(g, d1, p) && (
    p != w ==> dist_of(g, d1, p) == dist_of(g, d0, p)) by {
        if p != w {
            assert(d1[g.idx(p)] == d0[g.idx(p)]);
        }
    };
    assert forall|p: Pos| g.in_bounds(p) && #[trigger] disc(g, d1, p) implies disc(g, d0, p) by {
        if p != w {
            assert(d1[g.idx(p)] == d0[g.idx(p)]);
        }
    };
    assert forall|i: int| 0 <= i < sn.len() implies g.free(#[trigger] sn[i]) && disc(
        g,
        d1,
        sn[i],
    ) by {
        assert(disc(g, d0, sn[i]));
    };
    assert forall|p: Pos| g.in_bounds(p) && #[trigger] disc(g, d1, p) implies sn.contains(p)
        && dist_of(g, d1, p) < sn.len() by {
        assert(disc(g, d0, p));
        assert(dist_of(g, d0, p) < sn.len());
        if p == w {
            assert(dist_of(g, d1, w) < dist_of(g, d0, w));
        }
    };
    assert forall|p: Pos|
        g.in_bounds(p) && #[trigger] disc(g, d1, p) && dist_of(g, d1, p) == 0 implies p == s by {
        assert(disc(g, d0, p));
        if p == w {
            assert(dist_of(g, d1, w) == du + 1);
        } else {
            assert(dist_of(g, d0, p) == dist_of(g, d1, p));
        }
    };
}

#[verifier::rlimit(100)]
pub(crate) proof fn lemma_astar_decrease_pred(
    g: Grid,
    s: Pos,
    d0: Seq<usize>,
    d1: Seq<usize>,
    pr0: Seq<Pos>,
    pr1: Seq<Pos>,
    sn: Seq<Pos>,
    open: Seq<OpenEntry>,
    c: Seq<bool>,
    u: Pos,
    w: Pos,
    du: usize,
)
    requires
        astar_inv(g, s, d0, pr0, sn, open, c, Option::Some(u)),
        g.in_bounds(u),
        disc(g, d0, u),
        closed_at(g, c, u),
        du as int == dist_of(g, d0, u),
        g.free(w),
        g.in_bounds(w),
        adjacent(u, w),
        disc(g, d0, w),
        !closed_at(g, c, w),
        du + 1 < dist_of(g, d0, w),
        d1 == d0.update(g.idx(w), (du + 1) as usize),
        pr1 == pr0.update(g.idx(w), u),
    ensures
        forall|p: Pos|
            g.in_bounds(p) && #[trigger] disc(g, d1, p) && p != s ==> {
                let pp = pr1[g.idx(p)];
                &&& g.free(pp)
                &&& g.in_bounds(pp)
                &&& disc(g, d1, pp)
                &&& adjacent(pp, p)
                &&& dist_of(g, d1, p) == dist_of(g, d1, pp) + 1
            },
        forall|p: Pos|
            g.in_bounds(p) && #[trigger] disc(g, d1, p) && p != s ==> closed_at(
                g,
                c,
                pr1[g.idx(p)],
            ),
        pr1.len() == g.rows * g.cols,
{
    reveal(astar_inv);
    lemma_idx(g, w);
    lemma_update_elsewhere(g, d0, d1, w, (du + 1) as usize);
    lemma_update_elsewhere(g, pr0, pr1, w, u);
    assert(g.free(u)) by {
        assert(sn.contains(u));
        let k2 = choose|k2: int| 0 <= k2 < sn.len() && sn[k2] == u;
        assert(g.free(sn[k2]));
    };
    assert(u != w) by {
        assert(closed_at(g, c, u) && !closed_at(g, c, w));
    };
    assert(disc(g, d1, u) && dist_of(g, d1, u) == du as int);
    assert(disc(g, d1, w) && dist_of(g, d1, w) == du + 1);
    assert forall|p: Pos| g.in_bounds(p) && #[trigger] disc(g, d1, p) && p != s implies {
        let pp = pr1[g.idx(p)];
        &&& g.free(pp)
        &&& g.in_bounds(pp)
        &&& disc(g, d1, pp)
        &&& adjacent(pp, p)
        &&& dist_of(g, d1, p) == dist_of(g, d1, pp) + 1
    } by {
        if p == w {
            assert(pr1[g.idx(w)] == u);
        } else {
            assert(d1[g.idx(p)] == d0[g.idx(p)]);
            assert(disc(g, d0, p));
            let pp = pr0[g.idx(p)];
            assert(g.free(pp) && disc(g, d0, pp) && closed_at(g, c, pr0[g.idx(p)]));
            assert(pp != w) by {
                assert(!closed_at(g, c, w));
            };
            assert(pr1[g.idx(p)] == pp);
            assert(dist_of(g, d1, pp) == dist_of(g, d0, pp));
        }
    };
    assert forall|p: Pos|
        g.in_bounds(p) && #[trigger] disc(g, d1, p) && p != s implies closed_at(
        g,
        c,
        pr1[g.idx(p)],
    ) by {
        if p == w {
            assert(pr1[g.idx(w)] == u);
        } else {
            assert(d1[g.idx(p)] == d0[g.idx(p)]);
            assert(disc(g, d0, p));
            assert(pr1[g.idx(p)] == pr0[g.idx(p)]);
        }
    };
}

#[verifier::rlimit(100)]
pub(crate) proof fn lemma_astar_decrease_rest(
    g: Grid,
    s: Pos,
    d0: Seq<usize>,
    d1: Seq<usize>,
    pr0: Seq<Pos>,
    sn: Seq<Pos>,
    open: Seq<OpenEntry>,
    c: Seq<bool>,
    u: Pos,
    w: Pos,
    du: usize,
)
    requires
        astar_inv(g, s, d0, pr0, sn, open, c, Option::Some(u)),
        g.in_bounds(w),
        disc(g, d0, w),
        du + 1 < dist_of(g, d0, w),
        d1 == d0.update(g.idx(w), (du + 1) as usize),
    ensures
        forall|p: Pos| g.in_bounds(p) && #[trigger] closed_at(g, c, p) ==> disc(g, d1, p),
        forall|i: int|
            0 <= i < open.len() ==> {
                let p = (#[trigger] open[i]).pos;
                &&& g.free(p)
                &&& g.in_bounds(p)
                &&& disc(g, d1, p)
                &&& !closed_at(g, c, p)
            },
        forall|p: Pos|
            g.in_bounds(p) && #[trigger] disc(g, d1, p) && !closed_at(g, c, p) && Option::Some(p)
                != Option::Some(u) ==> in_open(open, p),
        forall|u2: Pos, w2: Pos|
            #![trigger closed_at(g, c, u2), adjacent(u2, w2)]
            g.in_bounds(u2) && closed_at(g, c, u2) && Option::Some(u2) != Option::Some(u) && g.free(
                w2,
            ) && adjacent(u2, w2) ==> disc(g, d1, w2),
{
    reveal(astar_inv);
    lemma_idx(g, w);
    lemma_update_elsewhere(g, d0, d1, w, (du + 1) as usize);
    assert forall|p: Pos| g.in_bounds(p) && #[trigger] disc(g, d1, p) implies disc(g, d0, p) by {
        if p != w {
            assert(d1[g.idx(p)] == d0[g.idx(p)]);
        }
    };
    assert forall|p: Pos| g.in_bounds(p) && #[trigger] disc(g, d0, p) implies disc(g, d1, p) by {
        if p != w {
            assert(d1[g.idx(p)] == d0[g.idx(p)]);
        }
    };
    assert forall|p: Pos| g.in_bounds(p) && #[trigger] closed_at(g, c, p) implies disc(
        g,
        d1,
        p,
    ) by {
        assert(disc(g, d0, p));
    };
    assert forall|i: int| 0 <= i < open.len() implies {
        let p = (#[trigger] open[i]).pos;
        &&& g.free(p)
        &&& g.in_bounds(p)
        &&& disc(g, d1, p)
        &&& !closed_at(g, c, p)
    } by {
        assert(disc(g, d0, open[i].pos));
    };
    assert forall|p: Pos|
        g.in_bounds(p) && #[trigger] disc(g, d1, p) && !closed_at(g, c, p) && Option::Some(p)
            != Option::Some(u) implies in_open(open, p) by {
        assert(disc(g, d0, p));
    };
    assert forall|u2: Pos, w2: Pos|
        #![trigger closed_at(g, c, u2), adjacent(u2, w2)]
        g.in_bounds(u2) && closed_at(g, c, u2) && Option::Some(u2) != Option::Some(u) && g.free(w2)
            && adjacent(u2, w2) implies disc(g, d1, w2) by {
        assert(disc(g, d0, w2));
    };
}

/// Re-assembles `astar_inv` from its separately proven clauses, with no
/// other facts in scope.
pub(crate) proof fn lemma_astar_assemble(
    g: Grid,
    s: Pos,
    d1: Seq<usize>,
    pr1: Seq<Pos>,
    sn: Seq<Pos>,
    open: Seq<OpenEntry>,
    c: Seq<bool>,
    u: Pos,
)
    requires
        g.wf(),
        pred_wf(g, d1, pr1, s),
        c.len() == g.rows * g.cols,
        forall|i: int| 0 <= i < sn.len() ==> g.free(#[trigger] sn[i]) && disc(g, d1, sn[i]),
        sn.no_duplicates(),
        forall|p: Pos|
            g.in_bounds(p) && #[trigger] disc(g, d1, p) ==> sn.contains(p) && dist_of(g, d1, p)
                < sn.len(),
        forall|p: Pos| g.in_bounds(p) && #[trigger] closed_at(g, c, p) ==> disc(g, d1, p),
        forall|i: int|
            0 <= i < open.len() ==> {
                let p = (#[trigger] open[i]).pos;
                &&& g.free(p)
                &&& g.in_bounds(p)
                &&& disc(g, d1, p)
                &&& !closed_at(g, c, p)
            },
        forall|i: int, j: int| 0 <= i < j < open.len() ==> open[i].pos != open[j].pos,
        forall|p: Pos|
            g.in_bounds(p) && #[trigger] disc(g, d1, p) && !closed_at(g, c, p) && Option::Some(p)
                != Option::Some(u) ==> in_open(open, p),
        forall|p: Pos|
            g.in_bounds(p) && #[trigger] disc(g, d1, p) && p != s ==> closed_at(
                g,
                c,
                pr1[g.idx(p)],
            ),
        forall|u2: Pos, w2: Pos|
            #![trigger closed_at(g, c, u2), adjacent(u2, w2)]
            g.in_bounds(u2) && closed_at(g, c, u2) && Option::Some(u2) != Option::Some(u) && g.free(
                w2,
            ) && adjacent(u2, w2) ==> disc(g, d1, w2),
    ensures
        astar_inv(g, s, d1, pr1, sn, open, c, Option::Some(u)),
{
    reveal(astar_inv);
}

#[verifier::rlimit(100)]
pub(crate) proof fn lemma_astar_decrease(
    g: Grid,
    s: Pos,
    d0: Seq<usize>,
    d1: Seq<usize>,
    pr0: Seq<Pos>,
    pr1: Seq<Pos>,
    sn: Seq<Pos>,
    open: Seq<OpenEntry>,
    c: Seq<bool>,
    u: Pos,
    w: Pos,
    du: usize,
)
    requires
        astar_inv(g, s, d0, pr0, sn, open, c, Option::Some(u)),
        g.in_bounds(u),
        disc(g, d0, u),
        closed_at(g, c, u),
        du as int == dist_of(g, d0, u),
        g.free(w),
        g.in_bounds(w),
        adjacent(u, w),
        disc(g, d0, w),
        !closed_at(g, c, w),
        du + 1 < dist_of(g, d0, w),
        d1 == d0.update(g.idx(w), (du + 1) as usize),
        pr1 == pr0.update(g.idx(w), u),
    ensures
        astar_inv(g, s, d1, pr1, sn, open, c, Option::Some(u)),
        disc(g, d1, w),
        dist_of(g, d1, w) == du + 1,
        forall|p: Pos|
            g.in_bounds(p) && #[trigger] disc(g, d0, p) ==> disc(g, d1, p) && (p != w
                ==> dist_of(g, d1, p) == dist_of(g, d0, p)),
{
    lemma_astar_decrease_data(g, s, d0, d1, pr0, sn, open, c, u, w, du);
    lemma_astar_decrease_pred(g, s, d0, d1, pr0, pr1, sn, open, c, u, w, du);
    lemma_astar_decrease_rest(g, s, d0, d1, pr0, sn, open, c, u, w, du);
    assert(pred_wf(g, d1, pr1, s));
    lemma_astar_assemble(g, s, d1, pr1, sn, open, c, u);
}

/// Once every free neighbour of the settling cell is discovered, the
/// exception is no longer needed.
#[verifier::rlimit(100)]
pub(crate) proof fn lemma_astar_settle_done(
    g: Grid,
    s: Pos,
    d: Seq<usize>,
    pr: Seq<Pos>,
    sn: Seq<Pos>,
    open: Seq<OpenEntry>,
    c: Seq<bool>,
    u: Pos,
    ns: Seq<Pos>,
)
    requires
        astar_inv(g, s, d, pr, sn, open, c, Option::Some(u)),
        g.in_bounds(u),
        closed_at(g, c, u),
        forall|w: Pos| g.free(w) && adjacent(u, w) ==> ns.contains(w),
        forall|k: int| 0 <= k < ns.len() ==> disc(g, d, #[trigger] ns[k]),
    ensures
        astar_inv(g, s, d, pr, sn, open, c, Option::None),
{
    reveal(astar_inv);
    assert forall|u2: Pos, w: Pos|
        #![trigger closed_at(g, c, u2), adjacent(u2, w)]
        g.in_bounds(u2) && closed_at(g, c, u2) && g.free(w) && adjacent(u2, w) implies disc(
        g,
        d,
        w,
    ) by {
        if u2 == u {
            assert(ns.contains(w));
            let k = choose|k: int| 0 <= k < ns.len() && ns[k] == w;
            assert(disc(g, d, ns[k]));
        }
    };
    assert forall|p: Pos|
        g.in_bounds(p) && #[trigger] disc(g, d, p) && !closed_at(g, c, p) implies in_open(
        open,
        p,
    ) by {
        assert(p != u);
    };
}

/// With an empty frontier every discovered cell is settled, so the
/// discovered set is closed under free adjacency.
pub(crate) proof fn lemma_astar_exhausted(
    g: Grid,
    s: Pos,
    d: Seq<usize>,
    pr: Seq<Pos>,
    sn: Seq<Pos>,
    open: Seq<OpenEntry>,
    c: Seq<bool>,
)
    requires
        astar_inv(g, s, d, pr, sn, open, c, Option::None),
        open.len() == 0,
    ensures
        reach_closed(g, d),
        rooted(g, d, s),
        pred_wf(g, d, pr, s),
{
    reveal(astar_inv);
    assert forall|u: Pos, v: Pos|
        #![trigger disc(g, d, u), adjacent(u, v)]
        g.in_bounds(u) && disc(g, d, u) && g.free(v) && adjacent(u, v) implies disc(g, d, v) by {
        assert(closed_at(g, c, u)) by {
            if !closed_at(g, c, u) {
                assert(in_open(open, u));
            }
        };
        assert(adjacent(u, v));
    };
}

/// All-false settlement marks count zero.
pub(crate) proof fn lemma_count_true_zero(s: Seq<bool>)
    requires
        forall|j: int| 0 <= j < s.len() ==> !s[j],
    ensures
        count_true(s) == 0,
    decreases s.len(),
{
    if s.len() > 0 {
        lemma_count_true_zero(s.drop_last());
    }
}

/// Pushing a fresh element keeps a sequence duplicate-free.
pub(crate) proof fn lemma_push_no_dup(v: Seq<Pos>, u: Pos)
    requires
        v.no_duplicates(),
        !v.contains(u),
    ensures
        v.push(u).no_duplicates(),
{
    let w = v.push(u);
    assert forall|i: int, j: int| 0 <= i < w.len() && 0 <= j < w.len() && i != j implies w[i]
        != w[j] by {
        if j == v.len() as int && 0 <= i < v.len() {
            assert(w[i] == v[i]);
            if v[i] == u {
                assert(v.contains(u));
            }
        }
        if i == v.len() as int && 0 <= j < v.len() {
            assert(w[j] == v[j]);
            if v[j] == u {
                assert(v.contains(u));
            }
        }
    };
}

/// Starts the best-first search at the root `s`.
#[verifier::rlimit(100)]
pub(crate) fn astar_init(g: &Grid, s: Pos) -> (out: (
    Vec<usize>,
    Vec<Pos>,
    Vec<bool>,
    Vec<Pos>,
    Vec<OpenEntry>,
))
    requires
        g.wf(),
        g.free(s),
    ensures
        astar_inv(*g, s, out.0@, out.1@, out.3@, out.4@, out.2@, Option::None),
        count_true(out.2@) == 0,
        out.2@.len() == g.rows * g.cols,
        out.0@.len() == g.rows * g.cols,
        out.1@.len() == g.rows * g.cols,
        disc(*g, out.0@, s),
        out.3@.len() == 1,
        out.4@.len() == 1,
{
    let n = g.rows * g.cols;
    let mut dist: Vec<usize> = vec![usize::MAX; n];
    let pred: Vec<Pos> = vec![s; n];
    let closed: Vec<bool> = vec![false; n];
    let mut seen: Vec<Pos> = Vec::new();
    let mut open: Vec<OpenEntry> = Vec::new();
    proof {
        lemma_idx(*g, s);
    }
    let si = s.row * g.cols + s.col;
    dist[si] = 0;
    seen.push(s);
    open.push(OpenEntry { pos: s, ins: 0 });
    proof {
        lemma_count_true_zero(closed@);
        assert(seen@ =~= seq![s]);
        assert(disc(*g, dist@, s) && dist_of(*g, dist@, s) == 0);
        assert forall|p: Pos| g.in_bounds(p) && #[trigger] disc(*g, dist@, p) implies p == s by {
            lemma_idx(*g, p);
            if g.idx(p) != g.idx(s) {
                assert(dist@[g.idx(p)] == usize::MAX);
            } else {
                lemma_idx_inj(*g, p, s);
            }
        };
        assert forall|p: Pos| g.in_bounds(p) implies !closed_at(*g, closed@, p) by {
            lemma_idx(*g, p);
        };
        assert(astar_inv(*g, s, dist@, pred@, seen@, open@, closed@, Option::None)) by {
            reveal(astar_inv);
            assert(seen@[0] == s && open@[0].pos == s);
            assert forall|p: Pos|
                g.in_bounds(p) && #[trigger] disc(*g, dist@, p) implies seen@.contains(p)
                && dist_of(*g, dist@, p) < seen@.len() by {
                assert(p == s);
                assert(seen@[0] == s);
            };
            assert forall|p: Pos|
                g.in_bounds(p) && #[trigger] disc(*g, dist@, p) && !closed_at(*g, closed@, p)
                    && Option::Some(p) != Option::<Pos>::None implies in_open(open@, p) by {
                assert(p == s);
                assert(0 <= 0 < open@.len() && open@[0].pos == s);
            };
        };
    }
    (dist, pred, closed, seen, open)
}

/// Relaxes one free neighbour `w` of the cell `u` being settled: an
/// undiscovered neighbour is discovered one step beyond `u`; a discovered,
/// unsettled neighbour is re-routed through `u` when that is strictly
/// shorter; anything else is left alone.
#[verifier::rlimit(100)]
pub(crate) fn relax_neighbor(
    g: &Grid,
    s: Pos,
    u: Pos,
    du: usize,
    w: Pos,
    dist: &mut Vec<usize>,
    pred: &mut Vec<Pos>,
    closed: &Vec<bool>,
    seen: &mut Vec<Pos>,
    open: &mut Vec<OpenEntry>,
    ins_ctr: &mut usize,
    trace: &mut Vec<TraceStep>,
)
    requires
        g.wf(),
        astar_inv(*g, s, old(dist)@, old(pred)@, old(seen)@, old(open)@, closed@, Option::Some(u)),
        g.in_bounds(u),
        g.free(u),
        disc(*g, old(dist)@, u),
        closed_at(*g, closed@, u),
        du as int == dist_of(*g, old(dist)@, u),
        (du as int) < old(seen)@.len(),
        old(dist)@.len() == g.rows * g.cols,
        old(pred)@.len() == g.rows * g.cols,
        closed@.len() == g.rows * g.cols,
        *old(ins_ctr) as int <= old(seen)@.len(),
        g.free(w),
        adjacent(u, w),
        forall|k: int|
            0 <= k < old(trace)@.len() ==> g.free((#[trigger] old(trace)@[k]).pos)
                && is_annotation(old(trace)@[k].mark),
        visited_seq(old(trace)@).no_duplicates(),
        forall|p: Pos|
            visited_seq(old(trace)@).contains(p) ==> g.in_bounds(p) && closed_at(*g, closed@, p),
    ensures
        astar_inv(
            *g,
            s,
            final(dist)@,
            final(pred)@,
            final(seen)@,
            final(open)@,
            closed@,
            Option::Some(u),
        ),
        disc(*g, final(dist)@, w),
        forall|p: Pos|
            g.in_bounds(p) && #[trigger] disc(*g, old(dist)@, p) ==> disc(*g, final(dist)@, p),
        disc(*g, final(dist)@, u),
        dist_of(*g, final(dist)@, u) == du as int,
        final(seen)@.len() >= old(seen)@.len(),
        final(dist)@.len() == g.rows * g.cols,
        final(pred)@.len() == g.rows * g.cols,
        *final(ins_ctr) as int <= final(seen)@.len(),
        forall|k: int|
            0 <= k < final(trace)@.len() ==> g.free((#[trigger] final(trace)@[k]).pos)
                && is_annotation(final(trace)@[k].mark),
        visited_seq(final(trace)@) == visited_seq(old(trace)@),
{
    proof {
        lemma_idx(*g, w);
        lemma_astar_facts(*g, s, dist@, pred@, seen@, open@, closed@, Option::Some(u));
    }
    let wi = w.row * g.cols + w.col;
    let dw = dist[wi];
    if dw == usize::MAX {
        let ghost d0 = dist@;
        let ghost p0 = pred@;
        let ghost sn0 = seen@;
        let ghost o0 = open@;
        dist[wi] = du + 1;
        pred[wi] = u;
        seen.push(w);
        open.push(OpenEntry { pos: w, ins: *ins_ctr });
        *ins_ctr += 1;
        let ghost tp = trace@;
        trace.push(TraceStep { pos: w, mark: CellState::Frontier(du + 1) });
        proof {
            lemma_astar_discover(
                *g,
                s,
                d0,
                dist@,
                p0,
                pred@,
                sn0,
                seen@,
                o0,
                open@,
                closed@,
                u,
                w,
                du,
                (*ins_ctr - 1) as usize,
            );
            lemma_visited_seq_push(
                tp,
                TraceStep { pos: w, mark: CellState::Frontier((du + 1) as usize) },
            );
        }
    } else {
        let wclosed = closed[wi];
        if !wclosed && du + 1 < dw {
            let ghost d0 = dist@;
            let ghost p0 = pred@;
            dist[wi] = du + 1;
            pred[wi] = u;
            let ghost tp = trace@;
            trace.push(TraceStep { pos: w, mark: CellState::Frontier(du + 1) });
            proof {
                lemma_astar_decrease(
                    *g,
                    s,
                    d0,
                    dist@,
                    p0,
                    pred@,
                    seen@,
                    open@,
                    closed@,
                    u,
                    w,
                    du,
                );
                lemma_visited_seq_push(
                    tp,
                    TraceStep { pos: w, mark: CellState::Frontier((du + 1) as usize) },
                );
            }
        }
    }
}

/// One round of the best-first search: pops the frontier cell with the
/// least distance-plus-heuristic priority (ties broken by lower
/// heuristic, then insertion order), settles it, and relaxes its
/// neighbours; when the settled cell is the end, returns the
/// reconstructed path instead.
#[verifier::rlimit(100)]
pub(crate) fn astar_step(
    g: &Grid,
    s: Pos,
    e: Pos,
    dist: &mut Vec<usize>,
    pred: &mut Vec<Pos>,
    closed: &mut Vec<bool>,
    seen: &mut Vec<Pos>,
    open: &mut Vec<OpenEntry>,
    ins_ctr: &mut usize,
    trace: &mut Vec<TraceStep>,
) -> (found: Option<Vec<Pos>>)
    requires
        g.wf(),
        g.free(s),
        g.free(e),
        g.in_bounds(e),
        s != e,
        astar_inv(
            *g,
            s,
            old(dist)@,
            old(pred)@,
            old(seen)@,
            old(open)@,
            old(closed)@,
            Option::None,
        ),
        old(open)@.len() > 0,
        old(dist)@.len() == g.rows * g.cols,
        old(pred)@.len() == g.rows * g.cols,
        old(closed)@.len() == g.rows * g.cols,
        *old(ins_ctr) as int <= old(seen)@.len(),
        forall|k: int|
            0 <= k < old(trace)@.len() ==> g.free((#[trigger] old(trace)@[k]).pos)
                && is_annotation(old(trace)@[k].mark),
        visited_seq(old(trace)@).no_duplicates(),
        forall|p: Pos|
            visited_seq(old(trace)@).contains(p) ==> g.in_bounds(p) && closed_at(
                *g,
                old(closed)@,
                p,
            ),
    ensures
        final(dist)@.len() == g.rows * g.cols,
        final(pred)@.len() == g.rows * g.cols,
        final(closed)@.len() == g.rows * g.cols,
        *final(ins_ctr) as int <= final(seen)@.len(),
        forall|k: int|
            0 <= k < final(trace)@.len() ==> g.free((#[trigger] final(trace)@[k]).pos)
                && is_annotation(final(trace)@[k].mark),
        visited_seq(final(trace)@).no_duplicates(),
        match found {
            Option::None => {
                &&& astar_inv(
                    *g,
                    s,
                    final(dist)@,
                    final(pred)@,
                    final(seen)@,
                    final(open)@,
                    final(closed)@,
                    Option::None,
                )
                &&& count_true(final(closed)@) == count_true(old(closed)@) + 1
                &&& forall|p: Pos|
                    visited_seq(final(trace)@).contains(p) ==> g.in_bounds(p) && closed_at(
                        *g,
                        final(closed)@,
                        p,
                    )
            },
            Option::Some(path) => connects(*g, path@, s, e) && path@.no_duplicates(),
        },
{
    proof {
        lemma_astar_facts(*g, s, dist@, pred@, seen@, open@, closed@, Option::None);
    }
    let mut best: usize = 0;
    let mut bj: usize = 1;
    while bj < open.len()
        invariant
            g.wf(),
            g.in_bounds(e),
            open@.len() > 0,
            best < open@.len(),
            bj <= open@.len(),
            dist@.len() == g.rows * g.cols,
            forall|i: int|
                0 <= i < open@.len() ==> {
                    let p = (#[trigger] open@[i]).pos;
                    &&& g.in_bounds(p)
                    &&& disc(*g, dist@, p)
                    &&& dist_of(*g, dist@, p) < g.rows * g.cols
                },
        decreases open@.len() - bj,
    {
        let eb = open[best];
        let ej = open[bj];
        proof {
            lemma_idx(*g, eb.pos);
            lemma_idx(*g, ej.pos);
        }
        let db = dist[eb.pos.row * g.cols + eb.pos.col];
        let dj = dist[ej.pos.row * g.cols + ej.pos.col];
        let hb = manhattan(g, eb.pos, e);
        let hj = manhattan(g, ej.pos, e);
        let fb = db + hb;
        let fj = dj + hj;
        if fj < fb || (fj == fb && (hj < hb || (hj == hb && ej.ins < eb.ins))) {
            best = bj;
        }
        bj += 1;
    }
    let ghost open0 = open@;
    let ent = open.swap_remove(best);
    let u = ent.pos;
    proof {
        lemma_astar_pop(*g, s, dist@, pred@, seen@, open0, open@, closed@, best as int);
        lemma_pop_removes(*g, s, dist@, pred@, seen@, open0, open@, closed@, best as int);
        lemma_idx(*g, u);
    }
    let ui = u.row * g.cols + u.col;
    let du = dist[ui];
    let ghost c0 = closed@;
    closed[ui] = true;
    proof {
        lemma_astar_close(*g, s, dist@, pred@, seen@, open@, c0, closed@, u);
    }
    let ghost tprev = trace@;
    trace.push(TraceStep { pos: u, mark: CellState::Visited(du) });
    proof {
        lemma_visited_seq_push(tprev, TraceStep { pos: u, mark: CellState::Visited(du) });
        assert(!visited_seq(tprev).contains(u)) by {
            if visited_seq(tprev).contains(u) {
                assert(closed_at(*g, c0, u));
            }
        };
        lemma_push_no_dup(visited_seq(tprev), u);
        assert forall|p: Pos| visited_seq(trace@).contains(p) implies g.in_bounds(p) && closed_at(
            *g,
            closed@,
            p,
        ) by {
            let vs0 = visited_seq(tprev);
            assert(visited_seq(trace@) == vs0.push(u));
            assert(vs0.push(u).contains(p));
            let k = choose|k: int| 0 <= k < vs0.push(u).len() && vs0.push(u)[k] == p;
            if k < vs0.len() {
                assert(vs0.push(u)[k] == vs0[k]);
                assert(vs0.contains(p));
                assert(g.in_bounds(p) && closed_at(*g, c0, p));
            } else {
                assert(vs0.push(u)[k] == u);
            }
        };
    }
    if u.row == e.row && u.col == e.col {
        proof {
            lemma_astar_facts(*g, s, dist@, pred@, seen@, open@, closed@, Option::Some(u));
        }
        let back = chain_to_root(g, s, &dist, &pred, e);
        let path = reversed(&back);
        crate::engine::append_path_steps(g, &mut *trace, &path);
        proof {
            crate::engine::lemma_chain_reversed_connects(*g, s, e, back@, path@);
        }
        return Option::Some(path);
    }
    proof {
        lemma_astar_facts(*g, s, dist@, pred@, seen@, open@, closed@, Option::Some(u));
    }
    let ns = g.neighbors(u);
    let mut j: usize = 0;
    while j < ns.len()
        invariant
            g.wf(),
            astar_inv(*g, s, dist@, pred@, seen@, open@, closed@, Option::Some(u)),
            g.in_bounds(u),
            g.free(u),
            disc(*g, dist@, u),
            closed_at(*g, closed@, u),
            du as int == dist_of(*g, dist@, u),
            (du as int) < seen@.len(),
            dist@.len() == g.rows * g.cols,
            pred@.len() == g.rows * g.cols,
            closed@.len() == g.rows * g.cols,
            *ins_ctr as int <= seen@.len(),
            j <= ns@.len(),
            forall|k: int| 0 <= k < ns@.len() ==> g.free(#[trigger] ns@[k]) && adjacent(u, ns@[k]),
            forall|q2: Pos| g.free(q2) && adjacent(u, q2) ==> ns@.contains(q2),
            forall|k: int| 0 <= k < j ==> disc(*g, dist@, #[trigger] ns@[k]),
            forall|k: int|
                0 <= k < trace@.len() ==> g.free((#[trigger] trace@[k]).pos) && is_annotation(
                    trace@[k].mark,
                ),
            visited_seq(trace@).no_duplicates(),
            forall|p: Pos|
                visited_seq(trace@).contains(p) ==> g.in_bounds(p) && closed_at(*g, closed@, p),
            count_true(closed@) == count_true(old(closed)@) + 1,
        decreases ns@.len() - j,
    {
        let w = ns[j];
        relax_neighbor(
            g,
            s,
            u,
            du,
            w,
            &mut *dist,
            &mut *pred,
            &*closed,
            &mut *seen,
            &mut *open,
            &mut *ins_ctr,
            &mut *trace,
        );
        j += 1;
    }
    proof {
        lemma_astar_settle_done(*g, s, dist@, pred@, seen@, open@, closed@, u, ns@);
    }
    Option::None
}

/// Best-first search from the grid's start to its end, expanding the
/// frontier cell with the least distance-plus-Manhattan-heuristic
/// priority, breaking ties by lower heuristic and then by insertion
/// order, and relaxing a frontier cost only when a strictly shorter path
/// appears. Returns a path, or `Unreachable` exactly when no path
/// exists, together with the search trace; fails when the grid has no
/// start or no end.
#[verifier::rlimit(100)]
pub fn astar(g: &Grid) -> (r: Result<(SearchResult, Vec<TraceStep>), GridError>)
    requires
        g.wf(),
    ensures
        search_post(*g, r, false, true),
{
    let s = match g.start {
        Option::Some(s) => s,
        Option::None => {
            return Err(GridError::InvalidConfiguration);
        },
    };
    let e = match g.end {
        Option::Some(e) => e,
        Option::None => {
            return Err(GridError::InvalidConfiguration);
        },
    };
    if s.row == e.row && s.col == e.col {
        let mut p: Vec<Pos> = Vec::new();
        p.push(s);
        proof {
            lemma_path_single(*g, s);
            assert(p@ =~= seq![s]);
        }
        return Ok((SearchResult::Found(p), Vec::new()));
    }
    let n = g.rows * g.cols;
    let (mut dist, mut pred, mut closed, mut seen, mut open) = astar_init(g, s);
    let mut ins_ctr: usize = 1;
    let mut trace: Vec<TraceStep> = Vec::new();
    while open.len() > 0
        invariant
            g.wf(),
            g.start == Option::Some(s),
            g.end == Option::Some(e),
            g.free(s),
            g.free(e),
            g.in_bounds(e),
            s != e,
            n == g.rows * g.cols,
            astar_inv(*g, s, dist@, pred@, seen@, open@, closed@, Option::None),
            dist@.len() == n,
            pred@.len() == n,
            closed@.len() == n,
            ins_ctr as int <= seen@.len(),
            forall|k: int|
                0 <= k < trace@.len() ==> g.free((#[trigger] trace@[k]).pos) && is_annotation(
                    trace@[k].mark,
                ),
            visited_seq(trace@).no_duplicates(),
            forall|p: Pos|
                visited_seq(trace@).contains(p) ==> g.in_bounds(p) && closed_at(*g, closed@, p),
        decreases n as int - count_true(closed@),
    {
        let found = astar_step(
            g,
            s,
            e,
            &mut dist,
            &mut pred,
            &mut closed,
            &mut seen,
            &mut open,
            &mut ins_ctr,
            &mut trace,
        );
        proof {
            lemma_count_true_bound(closed@);
        }
        match found {
            Option::Some(path) => {
                return Ok((SearchResult::Found(path), trace));
            },
            Option::None => {},
        }
    }
    proof {
        lemma_astar_exhausted(*g, s, dist@, pred@, seen@, open@, closed@);
        lemma_idx(*g, e);
    }
    let ei = e.row * g.cols + e.col;
    if dist[ei] == usize::MAX {
        proof {
            lemma_undisc_unreachable(*g, dist@, s, e);
        }
        return Ok((SearchResult::Unreachable, trace));
    }
    proof {
        lemma_astar_facts(*g, s, dist@, pred@, seen@, open@, closed@, Option::None);
    }
    let back = chain_to_root(g, s, &dist, &pred, e);
    let path = reversed(&back);
    crate::engine::append_path_steps(g, &mut trace, &path);
    proof {
        crate::engine::lemma_chain_reversed_connects(*g, s, e, back@, path@);
    }
    Ok((SearchResult::Found(path), trace))
}

} // verus!
