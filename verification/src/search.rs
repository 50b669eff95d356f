use vstd::prelude::*;

use crate::grid::{adjacent, is_annotation, CellState, Grid, Pos};
use crate::grid::{lemma_idx, lemma_idx_inj};

verus! {

/// Which search algorithm to run.
#[derive(Copy, Clone, Eq, PartialEq, Structural, Ord, PartialOrd, Debug)]
pub enum PathAlgorithms {
    Astar,
    Dijkstra,
    BidirectionalDijkstra,
}

/// One recorded step of a search: the cell that changed and its new mark.
#[derive(Copy, Clone, Eq, PartialEq, Structural, Debug)]
pub struct TraceStep {
    pub pos: Pos,
    pub mark: CellState,
}

/// Terminal outcome of a search.
#[derive(Clone, Eq, PartialEq, Debug)]
pub enum SearchResult {
    Found(Vec<Pos>),
    Unreachable,
}

/// A walk over free cells, each step between 4-connected neighbours.
pub open spec fn is_path(g: Grid, p: Seq<Pos>) -> bool {
    &&& p.len() >= 1
    &&& forall|i: int| 0 <= i < p.len() ==> g.free(#[trigger] p[i])
    &&& forall|i: int| 0 <= i < p.len() - 1 ==> adjacent(#[trigger] p[i], p[i + 1])
}

/// A path that starts at `s` and ends at `e`.
pub open spec fn connects(g: Grid, p: Seq<Pos>, s: Pos, e: Pos) -> bool {
    is_path(g, p) && p[0] == s && p[p.len() - 1] == e
}

/// Some sequence of non-wall 4-connected moves leads from `s` to `e`.
pub open spec fn reachable(g: Grid, s: Pos, e: Pos) -> bool {
    exists|p: Seq<Pos>| connects(g, p, s, e)
}

/// A connecting path that is as short as every connecting path.
pub open spec fn is_shortest(g: Grid, p: Seq<Pos>, s: Pos, e: Pos) -> bool {
    connects(g, p, s, e) && forall|q: Seq<Pos>| connects(g, q, s, e) ==> p.len() <= q.len()
}

/// The outcome is truthful: a found path connects start to end, and
/// `Unreachable` is only reported when no connecting path exists.
pub open spec fn result_valid(g: Grid, s: Pos, e: Pos, res: SearchResult) -> bool {
    match res {
        SearchResult::Found(p) => connects(g, p@, s, e),
        SearchResult::Unreachable => !reachable(g, s, e),
    }
}

/// Success is owed: whenever some connecting path exists, a path is found.
pub open spec fn result_complete(g: Grid, s: Pos, e: Pos, res: SearchResult) -> bool {
    reachable(g, s, e) ==> res is Found
}

/// A found path is as short as any connecting path.
pub open spec fn result_shortest(g: Grid, s: Pos, e: Pos, res: SearchResult) -> bool {
    match res {
        SearchResult::Found(p) => is_shortest(g, p@, s, e),
        SearchResult::Unreachable => true,
    }
}

/// The cells recorded as finalized by a trace, in order.
pub open spec fn visited_seq(t: Seq<TraceStep>) -> Seq<Pos>
    decreases t.len(),
{
    if t.len() == 0 {
        Seq::empty()
    } else {
        let rest = visited_seq(t.drop_last());
        if t.last().mark is Visited {
            rest.push(t.last().pos)
        } else {
            rest
        }
    }
}

/// Every trace step annotates a free cell.
pub open spec fn trace_steps_ok(g: Grid, t: Seq<TraceStep>) -> bool {
    forall|i: int| 0 <= i < t.len() ==> g.free((#[trigger] t[i]).pos) && is_annotation(t[i].mark)
}

/// What a whole search returns: on a grid with a start and an end, a
/// truthful and complete result with a well-formed trace, a single-cell
/// path and an empty trace when start and end coincide, and (for the
/// searches that promise it) a shortest path; on a grid missing either
/// endpoint, the configuration error.
pub open spec fn search_post(
    g: Grid,
    r: Result<(SearchResult, Vec<TraceStep>), crate::grid::GridError>,
    shortest: bool,
    once: bool,
) -> bool {
    match r {
        Ok(out) => match (g.start, g.end) {
            (Option::Some(s), Option::Some(e)) => {
                &&& result_valid(g, s, e, out.0)
                &&& result_complete(g, s, e, out.0)
                &&& (shortest ==> result_shortest(g, s, e, out.0))
                &&& (match out.0 {
                    SearchResult::Found(p) => p@.no_duplicates(),
                    SearchResult::Unreachable => true,
                })
                &&& trace_steps_ok(g, out.1@)
                &&& (once ==> visited_seq(out.1@).no_duplicates())
                &&& (s == e ==> out.1@.len() == 0 && match out.0 {
                    SearchResult::Found(p) => p@ == seq![s],
                    SearchResult::Unreachable => false,
                })
            },
            _ => false,
        },
        Err(err) => err is InvalidConfiguration && (g.start is None || g.end is None),
    }
}

/// The trace finalizes exactly the cells the search explored: those
/// reachable from the start (and, for a two-ended search, those from
/// which the end can be reached).
pub open spec fn trace_covers(g: Grid, t: Seq<TraceStep>, s: Pos, e: Pos, two_sided: bool) -> bool {
    forall|p: Pos|
        #[trigger] visited_seq(t).contains(p) <==> (reachable(g, s, p) || (two_sided && reachable(
            g,
            e,
            p,
        )))
}

/// On a grid with distinct start and end, the search's trace finalized
/// exactly the explored cells.
pub open spec fn search_trace_covers(
    g: Grid,
    r: Result<(SearchResult, Vec<TraceStep>), crate::grid::GridError>,
    two_sided: bool,
) -> bool {
    match r {
        Ok(out) => match (g.start, g.end) {
            (Option::Some(s), Option::Some(e)) => s != e ==> trace_covers(
                g,
                out.1@,
                s,
                e,
                two_sided,
            ),
            _ => true,
        },
        Err(_) => true,
    }
}

/// A single free cell is a shortest path from itself to itself.
pub proof fn lemma_path_single(g: Grid, s: Pos)
    requires
        g.free(s),
    ensures
        is_shortest(g, seq![s], s, s),
{
    let p = seq![s];
    assert(p[0] == s);
    assert(forall|q: Seq<Pos>| connects(g, q, s, s) ==> p.len() <= q.len());
}

/// Law: two shortest paths between the same endpoints have equal length;
/// any two searches that both return shortest paths agree on path length.
pub proof fn lemma_shortest_paths_equal_len(g: Grid, s: Pos, e: Pos, p: Seq<Pos>, q: Seq<Pos>)
    requires
        is_shortest(g, p, s, e),
        is_shortest(g, q, s, e),
    ensures
        p.len() == q.len(),
{
}

/// Pairwise-distinct in-bounds positions are at most as many as cells.
pub proof fn lemma_distinct_positions_bound(g: Grid, q: Seq<Pos>)
    requires
        forall|i: int| 0 <= i < q.len() ==> g.in_bounds(#[trigger] q[i]),
        q.no_duplicates(),
    ensures
        q.len() <= g.rows * g.cols,
{
    let n = g.rows * g.cols;
    let f = |p: Pos| g.idx(p);
    let qi = q.map_values(f);
    assert forall|i: int, j: int|
        0 <= i < qi.len() && 0 <= j < qi.len() && i != j implies qi[i] != qi[j] by {
        if qi[i] == qi[j] {
            lemma_idx_inj(g, q[i], q[j]);
        }
    };
    qi.unique_seq_to_set();
    assert forall|x: int| qi.to_set().contains(x) implies vstd::set_lib::set_int_range(
        0,
        n as int,
    ).contains(x) by {
        let i = choose|i: int| 0 <= i < qi.len() && qi[i] == x;
        lemma_idx(g, q[i]);
    };
    vstd::set_lib::lemma_int_range(0, n as int);
    vstd::set_lib::lemma_len_subset(qi.to_set(), vstd::set_lib::set_int_range(0, n as int));
}

/// Has the search discovered `p`? `usize::MAX` marks the undiscovered.
pub open spec fn disc(g: Grid, d: Seq<usize>, p: Pos) -> bool {
    d[g.idx(p)] != usize::MAX
}

/// The tentative distance recorded for `p`.
pub open spec fn dist_of(g: Grid, d: Seq<usize>, p: Pos) -> int {
    d[g.idx(p)] as int
}

/// The root is discovered at distance zero.
pub open spec fn rooted(g: Grid, d: Seq<usize>, s: Pos) -> bool {
    g.free(s) && disc(g, d, s) && dist_of(g, d, s) == 0
}

/// Every free neighbour of a discovered cell has been discovered.
pub open spec fn reach_closed(g: Grid, d: Seq<usize>) -> bool {
    forall|u: Pos, v: Pos|
        #![trigger disc(g, d, u), adjacent(u, v)]
        g.in_bounds(u) && disc(g, d, u) && g.free(v) && adjacent(u, v) ==> disc(g, d, v)
}

/// Every free neighbour of a discovered cell has been discovered, at a
/// distance greater by at most one.
pub open spec fn dist_closed(g: Grid, d: Seq<usize>) -> bool {
    forall|u: Pos, v: Pos|
        #![trigger disc(g, d, u), adjacent(u, v)]
        g.in_bounds(u) && disc(g, d, u) && g.free(v) && adjacent(u, v) ==> disc(g, d, v) && dist_of(
            g,
            d,
            v,
        ) <= dist_of(g, d, u) + 1
}

/// Along any path from the root, every cell is discovered.
pub proof fn lemma_path_all_disc(g: Grid, d: Seq<usize>, s: Pos, p: Seq<Pos>, i: int)
    requires
        rooted(g, d, s),
        reach_closed(g, d),
        is_path(g, p),
        p[0] == s,
        0 <= i < p.len(),
    ensures
        disc(g, d, p[i]),
    decreases i,
{
    if i > 0 {
        lemma_path_all_disc(g, d, s, p, i - 1);
        assert(adjacent(p[i - 1], p[i]));
        assert(g.free(p[i - 1]) && g.free(p[i]));
    }
}

/// Along any path from the root, the recorded distance of the cell at
/// index `i` is at most `i`.
pub proof fn lemma_path_dist_bound(g: Grid, d: Seq<usize>, s: Pos, p: Seq<Pos>, i: int)
    requires
        rooted(g, d, s),
        dist_closed(g, d),
        is_path(g, p),
        p[0] == s,
        0 <= i < p.len(),
    ensures
        disc(g, d, p[i]),
        dist_of(g, d, p[i]) <= i,
    decreases i,
{
    if i > 0 {
        lemma_path_dist_bound(g, d, s, p, i - 1);
        assert(adjacent(p[i - 1], p[i]));
        assert(g.free(p[i - 1]) && g.free(p[i]));
    }
}

/// With a closed discovery set, an undiscovered cell is unreachable.
pub proof fn lemma_undisc_unreachable(g: Grid, d: Seq<usize>, s: Pos, e: Pos)
    requires
        rooted(g, d, s),
        reach_closed(g, d),
        !disc(g, d, e),
    ensures
        !reachable(g, s, e),
{
    if reachable(g, s, e) {
        let p = choose|p: Seq<Pos>| connects(g, p, s, e);
        lemma_path_all_disc(g, d, s, p, p.len() - 1);
    }
}

/// Runs the selected algorithm on the grid.
pub fn run_search(g: &Grid, alg: PathAlgorithms) -> (r: Result<
    (SearchResult, Vec<TraceStep>),
    crate::grid::GridError,
>)
    requires
        g.wf(),
    ensures
        search_post(
            *g,
            r,
            alg is Dijkstra || alg is BidirectionalDijkstra,
            !(alg is BidirectionalDijkstra),
        ),
        alg is Dijkstra ==> search_trace_covers(*g, r, false),
        alg is BidirectionalDijkstra ==> search_trace_covers(*g, r, true),
{
    match alg {
        PathAlgorithms::Astar => crate::astar::astar(g),
        PathAlgorithms::Dijkstra => crate::dijkstra::dijkstra(g),
        PathAlgorithms::BidirectionalDijkstra => crate::bidi::bidirectional_dijkstra(g),
    }
}

/// With distance-closed discovery, the recorded distance of `e` is a
/// lower bound on the length of every connecting path.
pub proof fn lemma_dist_minimal(g: Grid, d: Seq<usize>, s: Pos, e: Pos, q: Seq<Pos>)
    requires
        rooted(g, d, s),
        dist_closed(g, d),
        connects(g, q, s, e),
    ensures
        dist_of(g, d, e) <= q.len() - 1,
{
    lemma_path_dist_bound(g, d, s, q, q.len() - 1);
}

} // verus!
