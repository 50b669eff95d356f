use vstd::prelude::*;

use crate::engine::{append_path_steps, chain_to_root, init_side, lemma_chain_reversed_connects};
use crate::engine::{lemma_disc_reachable, lemma_exhausted_closed, lemma_queue_bound};
use crate::engine::{lemma_side_inv_facts, reversed, settle_one, side_inv};
use crate::grid::{is_annotation, lemma_idx, Grid, GridError, Pos};
use crate::search::{connects, disc, lemma_dist_minimal, lemma_path_all_disc, lemma_path_single};
use crate::search::{lemma_undisc_unreachable, reachable, search_post, search_trace_covers};
use crate::search::{visited_seq, SearchResult, TraceStep};

verus! {

broadcast use vstd::seq_lib::lemma_seq_contains_after_push;

/// Dijkstra expansion from both endpoints at once: a frontier rooted at
/// the start and one rooted at the end are expanded alternately, one cell
/// per turn, into one shared trace, until both are exhausted; the path is
/// then read off the forward predecessor chain. Returns a shortest path,
/// or `Unreachable`, together with the trace; fails when the grid has no
/// start or no end.
#[verifier::rlimit(100)]
pub fn bidirectional_dijkstra(g: &Grid) -> (r: Result<(SearchResult, Vec<TraceStep>), GridError>)
    requires
        g.wf(),
    ensures
        search_post(*g, r, true, false),
        search_trace_covers(*g, r, true),
{
    let s = match g.start {
        Option::Some(s) => s,
        Option::None => {
            return Err(GridError::InvalidConfiguration);
        },
    };
    let e = match g.end {
        Option::Some(e) => e,
        Option::None => {
            return Err(GridError::InvalidConfiguration);
        },
    };
    if s.row == e.row && s.col == e.col {
        let mut p: Vec<Pos> = Vec::new();
        p.push(s);
        proof {
            lemma_path_single(*g, s);
            assert(p@ =~= seq![s]);
        }
        return Ok((SearchResult::Found(p), Vec::new()));
    }
    let n = g.rows * g.cols;
    let (mut df, mut pf, mut qf) = init_side(g, s);
    let (mut db, mut pb, mut qb) = init_side(g, e);
    let mut trace: Vec<TraceStep> = Vec::new();
    let mut hf: usize = 0;
    let mut hb: usize = 0;
    while hf < qf.len() || hb < qb.len()
        invariant
            g.wf(),
            n == g.rows * g.cols,
            side_inv(*g, s, df@, pf@, qf@, hf as int),
            side_inv(*g, e, db@, pb@, qb@, hb as int),
            hf <= qf@.len(),
            hb <= qb@.len(),
            hf <= n,
            hb <= n,
            forall|k: int|
                0 <= k < trace@.len() ==> g.free((#[trigger] trace@[k]).pos) && is_annotation(
                    trace@[k].mark,
                ),
            forall|p: Pos|
                #[trigger] visited_seq(trace@).contains(p) ==> g.in_bounds(p) && (disc(*g, df@, p)
                    || disc(*g, db@, p)),
            forall|i: int| 0 <= i < hf ==> visited_seq(trace@).contains(#[trigger] qf@[i]),
            forall|i: int| 0 <= i < hb ==> visited_seq(trace@).contains(#[trigger] qb@[i]),
        decreases 2 * n - hf - hb,
    {
        if hf < qf.len() {
            proof {
                lemma_side_inv_facts(*g, s, df@, pf@, qf@, hf as int);
            }
            let ghost tb = trace@;
            let ghost qfb = qf@;
            let ghost dfb = df@;
            settle_one(g, s, &mut df, &mut pf, &mut qf, hf, &mut trace);
            proof {
                lemma_queue_bound(*g, s, df@, pf@, qf@, hf + 1);
                let u = qfb[hf as int];
                assert(visited_seq(trace@) == visited_seq(tb).push(u));
                assert(g.in_bounds(u) && disc(*g, df@, u));
                assert forall|p: Pos| #[trigger] visited_seq(trace@).contains(p) implies
                    g.in_bounds(p) && (disc(*g, df@, p) || disc(*g, db@, p)) by {
                    if p != u {
                        assert(visited_seq(tb).contains(p));
                        if disc(*g, dfb, p) {
                            assert(disc(*g, df@, p));
                        }
                    }
                };
                assert forall|i: int| 0 <= i < hf + 1 implies visited_seq(trace@).contains(
                    #[trigger] qf@[i],
                ) by {
                    if i < hf {
                        assert(qf@[i] == qfb[i]);
                        assert(visited_seq(tb).contains(qf@[i]));
                    } else {
                        assert(qf@[i] == u);
                    }
                };
                assert forall|i: int| 0 <= i < hb implies visited_seq(trace@).contains(
                    #[trigger] qb@[i],
                ) by {
                    assert(visited_seq(tb).contains(qb@[i]));
                };
            }
            hf += 1;
        }
        if hb < qb.len() {
            proof {
                lemma_side_inv_facts(*g, e, db@, pb@, qb@, hb as int);
            }
            let ghost tb = trace@;
            let ghost qbb = qb@;
            let ghost dbb = db@;
            settle_one(g, e, &mut db, &mut pb, &mut qb, hb, &mut trace);
            proof {
                lemma_queue_bound(*g, e, db@, pb@, qb@, hb + 1);
                let u = qbb[hb as int];
                assert(visited_seq(trace@) == visited_seq(tb).push(u));
                assert(g.in_bounds(u) && disc(*g, db@, u));
                assert forall|p: Pos| #[trigger] visited_seq(trace@).contains(p) implies
                    g.in_bounds(p) && (disc(*g, df@, p) || disc(*g, db@, p)) by {
                    if p != u {
                        assert(visited_seq(tb).contains(p));
                        if disc(*g, dbb, p) {
                            assert(disc(*g, db@, p));
                        }
                    }
                };
                assert forall|i: int| 0 <= i < hb + 1 implies visited_seq(trace@).contains(
                    #[trigger] qb@[i],
                ) by {
                    if i < hb {
                        assert(qb@[i] == qbb[i]);
                        assert(visited_seq(tb).contains(qb@[i]));
                    } else {
                        assert(qb@[i] == u);
                    }
                };
                assert forall|i: int| 0 <= i < hf implies visited_seq(trace@).contains(
                    #[trigger] qf@[i],
                ) by {
                    assert(visited_seq(tb).contains(qf@[i]));
                };
            }
            hb += 1;
        }
    }
    proof {
        lemma_exhausted_closed(*g, s, df@, pf@, qf@);
        lemma_exhausted_closed(*g, e, db@, pb@, qb@);
        lemma_idx(*g, e);
        assert forall|p: Pos| #[trigger] visited_seq(trace@).contains(p) implies (reachable(
            *g,
            s,
            p,
        ) || reachable(*g, e, p)) by {
            if disc(*g, df@, p) {
                assert(g.free(p));
                lemma_disc_reachable(*g, df@, pf@, s, p);
            } else {
                assert(disc(*g, db@, p));
                assert(g.free(p));
                lemma_disc_reachable(*g, db@, pb@, e, p);
            }
        };
        assert forall|p: Pos| reachable(*g, s, p) implies #[trigger] visited_seq(
            trace@,
        ).contains(p) by {
            let q2 = choose|q2: Seq<Pos>| connects(*g, q2, s, p);
            lemma_path_all_disc(*g, df@, s, q2, q2.len() - 1);
            assert(g.free(p));
            assert(qf@.contains(p));
            let i = choose|i: int| 0 <= i < qf@.len() && qf@[i] == p;
            assert(visited_seq(trace@).contains(qf@[i]));
        };
        assert forall|p: Pos| reachable(*g, e, p) implies #[trigger] visited_seq(
            trace@,
        ).contains(p) by {
            let q2 = choose|q2: Seq<Pos>| connects(*g, q2, e, p);
            lemma_path_all_disc(*g, db@, e, q2, q2.len() - 1);
            assert(g.free(p));
            assert(qb@.contains(p));
            let i = choose|i: int| 0 <= i < qb@.len() && qb@[i] == p;
            assert(visited_seq(trace@).contains(qb@[i]));
        };
    }
    let ei = e.row * g.cols + e.col;
    if df[ei] == usize::MAX {
        proof {
            lemma_undisc_unreachable(*g, df@, s, e);
        }
        return Ok((SearchResult::Unreachable, trace));
    }
    let back = chain_to_root(g, s, &df, &pf, e);
    let path = reversed(&back);
    append_path_steps(g, &mut trace, &path);
    proof {
        lemma_chain_reversed_connects(*g, s, e, back@, path@);
        assert forall|q2: Seq<Pos>| connects(*g, q2, s, e) implies path@.len() <= q2.len() by {
            lemma_dist_minimal(*g, df@, s, e, q2);
        };
    }
    Ok((SearchResult::Found(path), trace))
}

} // verus!
