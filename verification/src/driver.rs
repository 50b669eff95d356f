use vstd::prelude::*;

use crate::grid::{is_annotation, step_cells, CellState, Grid, GridError, Pos};
use crate::search::{result_complete, result_shortest, result_valid, run_search, search_post};
use crate::search::{trace_covers, trace_steps_ok, visited_seq};
use crate::search::{PathAlgorithms, SearchResult, TraceStep};

verus! {

/// The cells after playing the trace steps `t[from..to]`, in order,
/// each through the grid's per-step annotation rule.
pub open spec fn played_cells(
    g: Grid,
    cells: Seq<CellState>,
    t: Seq<TraceStep>,
    from: int,
    to: int,
) -> Seq<CellState>
    decreases to - from,
{
    if from < to {
        played_cells(g, step_cells(g, cells, t[from].pos, t[from].mark), t, from + 1, to)
    } else {
        cells
    }
}

/// Playing one more step applies it to the already-played cells.
pub proof fn lemma_played_cells_snoc(
    g: Grid,
    cells: Seq<CellState>,
    t: Seq<TraceStep>,
    from: int,
    to: int,
)
    requires
        from <= to,
    ensures
        played_cells(g, cells, t, from, to + 1) == step_cells(
            g,
            played_cells(g, cells, t, from, to),
            t[to].pos,
            t[to].mark,
        ),
    decreases to - from,
{
    if from < to {
        lemma_played_cells_snoc(g, step_cells(g, cells, t[from].pos, t[from].mark), t, from + 1, to);
    } else {
        assert(played_cells(g, step_cells(g, cells, t[from].pos, t[from].mark), t, from + 1, to + 1)
            == step_cells(g, cells, t[from].pos, t[from].mark));
    }
}

/// The playback state of the animation driver.
#[derive(Clone, Copy, PartialEq, Eq, Structural, Debug)]
pub enum DriverState {
    Idle,
    Running,
    Paused,
    Finished,
}

/// Plays a search trace against a grid at a configurable rate,
/// independent of any rendering surface.
pub struct Driver {
    pub state: DriverState,
    pub trace: Vec<TraceStep>,
    pub next: usize,
    pub rate: usize,
}

impl Driver {
    pub open spec fn wf(self) -> bool {
        &&& self.next <= self.trace@.len()
        &&& self.rate >= 1
        &&& (self.state is Idle ==> self.next == 0 && self.trace@.len() == 0)
        &&& (self.state is Finished ==> self.next == self.trace@.len())
    }

    /// A fresh driver: idle, playing one step per tick.
    pub fn new() -> (d: Driver)
        ensures
            d.wf(),
            d.state is Idle,
            d.rate == 1,
    {
        Driver { state: DriverState::Idle, trace: Vec::new(), next: 0, rate: 1 }
    }

    /// Sets how many trace steps one tick applies; adjustable in any
    /// state without restarting the search.
    pub fn set_rate(&mut self, r: usize)
        requires
            old(self).wf(),
            r >= 1,
        ensures
            final(self).wf(),
            final(self).rate == r,
            final(self).state == old(self).state,
            final(self).trace@ == old(self).trace@,
            final(self).next == old(self).next,
    {
        self.rate = r;
    }

    /// May the user edit walls right now? Only while no run is in
    /// progress: the grid has a single owner at a time.
    pub fn edits_allowed(&self) -> (b: bool)
        ensures
            b == (self.state is Idle || self.state is Finished),
    {
        matches!(self.state, DriverState::Idle | DriverState::Finished)
    }

    /// Starts a run: computes the whole search eagerly and begins playing
    /// its trace. Fails with `InvalidConfiguration` when the grid has no
    /// start or no end; the driver is then unchanged.
    pub fn start(&mut self, g: &Grid, alg: PathAlgorithms) -> (r: Result<SearchResult, GridError>)
        requires
            old(self).wf(),
            old(self).state is Idle,
            g.wf(),
        ensures
            final(self).wf(),
            final(self).rate == old(self).rate,
            match r {
                Ok(res) => {
                    &&& final(self).state is Running
                    &&& final(self).next == 0
                    &&& trace_steps_ok(*g, final(self).trace@)
                    &&& (!(alg is BidirectionalDijkstra) ==> visited_seq(
                        final(self).trace@,
                    ).no_duplicates())
                    &&& (match res {
                        SearchResult::Found(p) => p@.no_duplicates(),
                        SearchResult::Unreachable => true,
                    })
                    &&& match (g.start, g.end) {
                        (Option::Some(s), Option::Some(e)) => {
                            &&& result_valid(*g, s, e, res)
                            &&& result_complete(*g, s, e, res)
                            &&& ((alg is Dijkstra || alg is BidirectionalDijkstra)
                                ==> result_shortest(*g, s, e, res))
                            &&& (s == e ==> final(self).trace@.len() == 0)
                            &&& (alg is Dijkstra && s != e ==> trace_covers(
                                *g,
                                final(self).trace@,
                                s,
                                e,
                                false,
                            ))
                            &&& (alg is BidirectionalDijkstra && s != e ==> trace_covers(
                                *g,
                                final(self).trace@,
                                s,
                                e,
                                true,
                            ))
                        },
                        _ => false,
                    }
                },
                Err(err) => {
                    &&& err is InvalidConfiguration
                    &&& (g.start is None || g.end is None)
                    &&& final(self).state == old(self).state
                    &&& final(self).next == old(self).next
                    &&& final(self).trace@ == old(self).trace@
                },
            },
    {
        match run_search(g, alg) {
            Ok(rt) => {
                let (res, tr) = rt;
                self.trace = tr;
                self.next = 0;
                self.state = DriverState::Running;
                Ok(res)
            },
            Err(err) => Err(err),
        }
    }

    /// Running pauses; any other state is left alone.
    pub fn pause(&mut self)
        requires
            old(self).wf(),
        ensures
            final(self).wf(),
            final(self).state == (if old(self).state is Running {
                DriverState::Paused
            } else {
                old(self).state
            }),
            final(self).trace@ == old(self).trace@,
            final(self).next == old(self).next,
            final(self).rate == old(self).rate,
    {
        if matches!(self.state, DriverState::Running) {
            self.state = DriverState::Paused;
        }
    }

    /// Paused resumes; any other state is left alone.
    pub fn resume(&mut self)
        requires
            old(self).wf(),
        ensures
            final(self).wf(),
            final(self).state == (if old(self).state is Paused {
                DriverState::Running
            } else {
                old(self).state
            }),
            final(self).trace@ == old(self).trace@,
            final(self).next == old(self).next,
            final(self).rate == old(self).rate,
    {
        if matches!(self.state, DriverState::Paused) {
            self.state = DriverState::Running;
        }
    }

    /// One tick: while running, applies up to `rate` steps of the trace
    /// to the grid, and finishes when the trace is exhausted. Walls, the
    /// start and the end are never altered; in any other state nothing
    /// changes.
    pub fn tick(&mut self, g: &mut Grid)
        requires
            old(self).wf(),
            old(g).wf(),
        ensures
            final(self).wf(),
            final(g).wf(),
            final(self).rate == old(self).rate,
            final(self).trace@ == old(self).trace@,
            final(g).rows == old(g).rows,
            final(g).cols == old(g).cols,
            final(g).start == old(g).start,
            final(g).end == old(g).end,
            forall|q: Pos|
                old(g).in_bounds(q) && (old(g).cell(q) is Wall || old(g).cell(q) is Start
                    || old(g).cell(q) is End) ==> #[trigger] final(g).cell(q) == old(g).cell(q),
            !(old(self).state is Running) ==> final(self).next == old(self).next
                && final(self).state == old(self).state && final(g).cells@ == old(g).cells@,
            old(self).state is Running ==> {
                &&& final(self).next == (if old(self).next + old(self).rate
                    <= old(self).trace@.len() {
                    old(self).next + old(self).rate
                } else {
                    old(self).trace@.len() as int
                })
                &&& final(self).state == (if final(self).next == old(self).trace@.len() {
                    DriverState::Finished
                } else {
                    DriverState::Running
                })
                &&& final(g).cells@ == played_cells(
                    *old(g),
                    old(g).cells@,
                    old(self).trace@,
                    old(self).next as int,
                    final(self).next as int,
                )
            },
    {
        if !matches!(self.state, DriverState::Running) {
            return ;
        }
        let mut k: usize = 0;
        while k < self.rate && self.next < self.trace.len()
            invariant
                self.wf(),
                g.wf(),
                self.state is Running,
                k <= self.rate,
                self.rate == old(self).rate,
                self.trace@ == old(self).trace@,
                self.next == old(self).next + k,
                self.next <= self.trace@.len(),
                g.rows == old(g).rows,
                g.cols == old(g).cols,
                g.start == old(g).start,
                g.end == old(g).end,
                forall|q: Pos|
                    old(g).in_bounds(q) && (old(g).cell(q) is Wall || old(g).cell(q) is Start
                        || old(g).cell(q) is End) ==> #[trigger] g.cell(q) == old(g).cell(q),
                g.cells@ == played_cells(
                    *old(g),
                    old(g).cells@,
                    old(self).trace@,
                    old(self).next as int,
                    self.next as int,
                ),
            decreases self.rate - k,
        {
            let st = self.trace[self.next];
            let ghost cells_before = g.cells@;
            let ghost next_before = self.next as int;
            g.apply_step(st.pos, st.mark);
            proof {
                lemma_played_cells_snoc(
                    *old(g),
                    old(g).cells@,
                    old(self).trace@,
                    old(self).next as int,
                    next_before,
                );
                assert(step_cells(*old(g), cells_before, st.pos, st.mark) == step_cells(
                    *g,
                    cells_before,
                    st.pos,
                    st.mark,
                ));
            }
            self.next += 1;
            k += 1;
        }
        if self.next == self.trace.len() {
            self.state = DriverState::Finished;
        }
    }

    /// Back to idle from any state: discards the trace and resets the
    /// grid's search annotations; walls, start and end stay in place.
    pub fn clear(&mut self, g: &mut Grid)
        requires
            old(self).wf(),
            old(g).wf(),
        ensures
            final(self).wf(),
            final(self).state is Idle,
            final(self).next == 0,
            final(self).trace@.len() == 0,
            final(self).rate == old(self).rate,
            final(g).wf(),
            final(g).rows == old(g).rows,
            final(g).cols == old(g).cols,
            final(g).start == old(g).start,
            final(g).end == old(g).end,
            forall|q: Pos|
                old(g).in_bounds(q) ==> #[trigger] final(g).cell(q) == (if is_annotation(
                    old(g).cell(q),
                ) {
                    CellState::Open
                } else {
                    old(g).cell(q)
                }),
    {
        self.state = DriverState::Idle;
        self.next = 0;
        self.trace = Vec::new();
        g.clear_search();
    }
}

} // verus!
