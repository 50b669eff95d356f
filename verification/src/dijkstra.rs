use vstd::prelude::*;

use crate::engine::{chain_to_root, init_side, lemma_disc_reachable, lemma_exhausted_closed};
use crate::engine::{lemma_side_inv_facts, lemma_visited_seq_push, reversed, settle_one, side_inv};
use crate::grid::{adjacent, is_annotation, lemma_idx, CellState, Grid, GridError, Pos};
use crate::search::{connects, disc, dist_of, is_path, lemma_dist_minimal, lemma_path_single};
use crate::search::{lemma_path_all_disc, lemma_undisc_unreachable, reachable, search_post};
use crate::search::{search_trace_covers, visited_seq, SearchResult, TraceStep};

verus! {

/// Uniform-cost search over the unit-cost grid, expanding the frontier in
/// first-in first-out order among equal costs. Returns a shortest path
/// from the start to the end, or `Unreachable`, together with the search
/// trace; fails when the grid has no start or no end.
pub fn dijkstra(g: &Grid) -> (r: Result<(SearchResult, Vec<TraceStep>), GridError>)
    requires
        g.wf(),
    ensures
        search_post(*g, r, true, true),
        search_trace_covers(*g, r, false),
{
    let s = match g.start {
        Option::Some(s) => s,
        Option::None => {
            return Err(GridError::InvalidConfiguration);
        },
    };
    let e = match g.end {
        Option::Some(e) => e,
        Option::None => {
            return Err(GridError::InvalidConfiguration);
        },
    };
    if s.row == e.row && s.col == e.col {
        let mut p: Vec<Pos> = Vec::new();
        p.push(s);
        proof {
            lemma_path_single(*g, s);
            assert(p@ =~= seq![s]);
        }
        return Ok((SearchResult::Found(p), Vec::new()));
    }
    let (mut dist, mut pred, mut queue) = init_side(g, s);
    let mut trace: Vec<TraceStep> = Vec::new();
    proof {
        assert(visited_seq(trace@) =~= queue@.subrange(0, 0));
    }
    let mut h: usize = 0;
    while h < queue.len()
        invariant
            g.wf(),
            side_inv(*g, s, dist@, pred@, queue@, h as int),
            h <= queue@.len(),
            visited_seq(trace@) == queue@.subrange(0, h as int),
            forall|k: int|
                0 <= k < trace@.len() ==> g.free((#[trigger] trace@[k]).pos) && is_annotation(
                    trace@[k].mark,
                ),
        decreases g.rows * g.cols - h,
    {
        proof {
            lemma_side_inv_facts(*g, s, dist@, pred@, queue@, h as int);
        }
        let ghost qold = queue@;
        settle_one(g, s, &mut dist, &mut pred, &mut queue, h, &mut trace);
        proof {
            assert(queue@.subrange(0, h as int) =~= qold.subrange(0, h as int));
            assert(visited_seq(trace@) =~= queue@.subrange(0, h + 1));
        }
        h += 1;
    }
    proof {
        lemma_exhausted_closed(*g, s, dist@, pred@, queue@);
        assert(queue@.subrange(0, queue@.len() as int) =~= queue@);
        lemma_idx(*g, e);
        assert forall|p: Pos| #[trigger] visited_seq(trace@).contains(p) implies reachable(
            *g,
            s,
            p,
        ) by {
            let i = choose|i: int| 0 <= i < queue@.len() && queue@[i] == p;
            assert(g.free(queue@[i]) && disc(*g, dist@, queue@[i]));
            lemma_disc_reachable(*g, dist@, pred@, s, p);
        };
        assert forall|p: Pos| reachable(*g, s, p) implies #[trigger] visited_seq(
            trace@,
        ).contains(p) by {
            let q2 = choose|q2: Seq<Pos>| connects(*g, q2, s, p);
            lemma_path_all_disc(*g, dist@, s, q2, q2.len() - 1);
            assert(g.free(p));
            assert(queue@.contains(p));
        };
    }
    let ei = e.row * g.cols + e.col;
    if dist[ei] == usize::MAX {
        proof {
            lemma_undisc_unreachable(*g, dist@, s, e);
        }
        return Ok((SearchResult::Unreachable, trace));
    }
    let back = chain_to_root(g, s, &dist, &pred, e);
    let path = reversed(&back);
    let ghost bl = back@.len() as int;
    let mut t: usize = 0;
    while t < path.len()
        invariant
            g.wf(),
            t <= path@.len(),
            path@.len() == bl,
            forall|i: int| 0 <= i < path@.len() ==> g.free(#[trigger] path@[i]),
            visited_seq(trace@) == queue@.subrange(0, queue@.len() as int),
            forall|k: int|
                0 <= k < trace@.len() ==> g.free((#[trigger] trace@[k]).pos) && is_annotation(
                    trace@[k].mark,
                ),
        decreases path@.len() - t,
    {
        let pt = path[t];
        let ghost tprev = trace@;
        trace.push(TraceStep { pos: pt, mark: CellState::OnPath });
        proof {
            lemma_visited_seq_push(tprev, TraceStep { pos: pt, mark: CellState::OnPath });
        }
        t += 1;
    }
    proof {
        assert(path@[0] == back@[bl - 1]);
        assert(path@[path@.len() - 1] == back@[0]);
        assert forall|i: int| 0 <= i < path@.len() - 1 implies adjacent(
            #[trigger] path@[i],
            path@[i + 1],
        ) by {
            let j = bl - 2 - i;
            assert(path@[i] == back@[j + 1]);
            assert(path@[i + 1] == back@[j]);
            assert(adjacent(back@[j], back@[j + 1]));
        };
        assert(is_path(*g, path@));
        assert(connects(*g, path@, s, e));
        assert forall|q2: Seq<Pos>| connects(*g, q2, s, e) implies path@.len() <= q2.len() by {
            lemma_dist_minimal(*g, dist@, s, e, q2);
        };
    }
    Ok((SearchResult::Found(path), trace))
}

} // verus!
