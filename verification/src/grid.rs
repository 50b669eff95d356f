use vstd::prelude::*;

verus! {

broadcast use vstd::seq_lib::lemma_seq_contains_after_push;

/// A cell position: row and column on the grid.
#[derive(Clone, Copy, PartialEq, Eq, Structural, Hash, Debug)]
pub struct Pos {
    pub row: usize,
    pub col: usize,
}

/// Classification of a single cell.
///
/// `Frontier` and `Visited` carry the tentative (respectively settled)
/// distance from the start cell at the moment the search marked the cell.
#[derive(Clone, Copy, PartialEq, Eq, Structural, Debug)]
pub enum CellState {
    Open,
    Wall,
    Start,
    End,
    Frontier(usize),
    Visited(usize),
    OnPath,
}

/// Errors reported by grid operations and the animation driver.
#[derive(Clone, Copy, PartialEq, Eq, Structural, Debug)]
pub enum GridError {
    OutOfBounds,
    InvalidConfiguration,
}

/// The mode of a pointer-driven wall-editing gesture.
#[derive(Clone, Copy, PartialEq, Eq, Structural, Debug)]
pub enum Interaction {
    Inactive,
    Drawing,
    Erasing,
    Panning,
    Locked,
}

/// Whether two positions are 4-connected neighbours.
pub open spec fn adjacent(a: Pos, b: Pos) -> bool {
    ||| (a.row == b.row && (a.col + 1 == b.col || b.col + 1 == a.col))
    ||| (a.col == b.col && (a.row + 1 == b.row || b.row + 1 == a.row))
}

/// Is `c` one of the transient search annotations?
pub open spec fn is_annotation(c: CellState) -> bool {
    c is Frontier || c is Visited || c is OnPath
}

/// A rectangular grid of cells holding at most one start and one end.
pub struct Grid {
    pub rows: usize,
    pub cols: usize,
    pub cells: Vec<CellState>,
    pub start: Option<Pos>,
    pub end: Option<Pos>,
}

impl Grid {
    pub open spec fn in_bounds(self, p: Pos) -> bool {
        p.row < self.rows && p.col < self.cols
    }

    /// Index of a position in the row-major cell vector.
    pub open spec fn idx(self, p: Pos) -> int {
        p.row * self.cols + p.col
    }

    pub open spec fn cell(self, p: Pos) -> CellState {
        self.cells@[self.idx(p)]
    }

    /// In bounds and not a wall: a cell that a path may cross.
    pub open spec fn free(self, p: Pos) -> bool {
        self.in_bounds(p) && !(self.cell(p) is Wall)
    }

    pub open spec fn wf(self) -> bool {
        &&& self.cells@.len() == self.rows * self.cols
        &&& self.rows * self.cols <= usize::MAX / 4
        &&& match self.start {
            Option::Some(s) => self.in_bounds(s) && (self.cell(s) is Start || (self.end
                == Option::Some(s) && self.cell(s) is End)),
            Option::None => true,
        }
        &&& match self.end {
            Option::Some(e) => self.in_bounds(e) && (self.cell(e) is End || (self.start
                == Option::Some(e) && self.cell(e) is Start)),
            Option::None => true,
        }
        &&& forall|p: Pos|
            #[trigger] self.in_bounds(p) && self.cell(p) is Start ==> self.start == Option::Some(p)
        &&& forall|p: Pos|
            #[trigger] self.in_bounds(p) && self.cell(p) is End ==> self.end == Option::Some(p)
    }
}

/// The row-major index of an in-bounds position lies inside the cell vector.
pub proof fn lemma_idx(g: Grid, p: Pos)
    requires
        g.in_bounds(p),
    ensures
        0 <= g.idx(p) < g.rows * g.cols,
{
    assert(p.row * g.cols + p.col < g.rows * g.cols) by (nonlinear_arith)
        requires
            p.row < g.rows,
            p.col < g.cols,
    ;
}

/// Row-major indexing is injective on in-bounds positions.
pub proof fn lemma_idx_inj(g: Grid, p: Pos, q: Pos)
    requires
        g.in_bounds(p),
        g.in_bounds(q),
        g.idx(p) == g.idx(q),
    ensures
        p == q,
{
    assert(p.row == q.row && p.col == q.col) by (nonlinear_arith)
        requires
            p.row * g.cols + p.col == q.row * g.cols + q.col,
            p.col < g.cols,
            q.col < g.cols,
    ;
}

/// An edit that never adds or removes a `Start` or `End` cell, and keeps
/// the start and end fields, preserves well-formedness.
pub proof fn lemma_edit_preserves_wf(g0: Grid, g1: Grid)
    requires
        g0.wf(),
        g1.rows == g0.rows,
        g1.cols == g0.cols,
        g1.start == g0.start,
        g1.end == g0.end,
        g1.cells@.len() == g0.cells@.len(),
        forall|j: int|
            0 <= j < g0.cells@.len() && g1.cells@[j] != #[trigger] g0.cells@[j] ==> {
                &&& !(g1.cells@[j] is Start)
                &&& !(g1.cells@[j] is End)
                &&& !(g0.cells@[j] is Start)
                &&& !(g0.cells@[j] is End)
            },
    ensures
        g1.wf(),
{
    assert forall|p: Pos| #[trigger] g1.in_bounds(p) && g1.cell(p) is Start implies g1.start
        == Option::Some(p) by {
        lemma_idx(g1, p);
        assert(g0.in_bounds(p));
        assert(g0.cell(p) is Start);
    };
    assert forall|p: Pos| #[trigger] g1.in_bounds(p) && g1.cell(p) is End implies g1.end
        == Option::Some(p) by {
        lemma_idx(g1, p);
        assert(g0.in_bounds(p));
        assert(g0.cell(p) is End);
    };
    match g0.start {
        Option::Some(s) => {
            lemma_idx(g0, s);
            assert(g1.cell(s) == g0.cell(s));
        },
        Option::None => {},
    }
    match g0.end {
        Option::Some(e) => {
            lemma_idx(g0, e);
            assert(g1.cell(e) == g0.cell(e));
        },
        Option::None => {},
    }
}

/// The cell sequence after toggling a wall at index `i`: `Open` and `Wall`
/// flip into each other, every other state is left alone.
pub open spec fn toggle_cells(cells: Seq<CellState>, i: int) -> Seq<CellState> {
    if cells[i] is Open {
        cells.update(i, CellState::Wall)
    } else if cells[i] is Wall {
        cells.update(i, CellState::Open)
    } else {
        cells
    }
}

/// The cell sequence after one animation step writes `mark` at `p`:
/// only an annotation mark lands, and only on an in-bounds cell that is
/// open or already annotated; `g` supplies the grid's dimensions.
pub open spec fn step_cells(g: Grid, cells: Seq<CellState>, p: Pos, mark: CellState) -> Seq<
    CellState,
> {
    if g.in_bounds(p) && is_annotation(mark) && (cells[g.idx(p)] is Open || is_annotation(
        cells[g.idx(p)],
    )) {
        cells.update(g.idx(p), mark)
    } else {
        cells
    }
}

/// Law: toggling a wall at the same index twice restores the cells to
/// their original state.
pub proof fn lemma_toggle_wall_involutive(cells: Seq<CellState>, i: int)
    requires
        0 <= i < cells.len(),
    ensures
        toggle_cells(toggle_cells(cells, i), i) == cells,
{
    if cells[i] is Open {
        assert(toggle_cells(toggle_cells(cells, i), i) =~= cells);
    } else if cells[i] is Wall {
        assert(toggle_cells(toggle_cells(cells, i), i) =~= cells);
    }
}

impl Grid {
    /// Creates a grid of the given dimensions with every cell open.
    pub fn new(rows: usize, cols: usize) -> (g: Grid)
        requires
            rows * cols <= usize::MAX / 4,
        ensures
            g.wf(),
            g.rows == rows,
            g.cols == cols,
            g.start is None,
            g.end is None,
            forall|p: Pos| g.in_bounds(p) ==> #[trigger] g.cell(p) is Open,
    {
        let n = rows * cols;
        let cells = vec![CellState::Open; n];
        let g = Grid { rows, cols, cells, start: Option::None, end: Option::None };
        proof {
            assert forall|p: Pos| g.in_bounds(p) implies #[trigger] g.cell(p) is Open by {
                lemma_idx(g, p);
            };
        }
        g
    }

    /// Reads one cell.
    pub fn cell_at(&self, p: Pos) -> (c: CellState)
        requires
            self.wf(),
            self.in_bounds(p),
        ensures
            c == self.cell(p),
    {
        proof {
            lemma_idx(*self, p);
        }
        let i = p.row * self.cols + p.col;
        self.cells[i]
    }

    /// Flips a cell between `Open` and `Wall`; does nothing when the
    /// position is out of bounds or the cell holds anything else.
    pub fn toggle_wall(&mut self, p: Pos)
        requires
            old(self).wf(),
        ensures
            final(self).wf(),
            final(self).rows == old(self).rows,
            final(self).cols == old(self).cols,
            final(self).start == old(self).start,
            final(self).end == old(self).end,
            old(self).in_bounds(p) ==> final(self).cells@ == toggle_cells(
                old(self).cells@,
                old(self).idx(p),
            ),
            !old(self).in_bounds(p) ==> final(self).cells@ == old(self).cells@,
    {
        if p.row < self.rows && p.col < self.cols {
            proof {
                lemma_idx(*self, p);
            }
            let i = p.row * self.cols + p.col;
            let c = self.cells[i];
            match c {
                CellState::Open => {
                    self.cells[i] = CellState::Wall;
                },
                CellState::Wall => {
                    self.cells[i] = CellState::Open;
                },
                _ => {},
            }
            proof {
                lemma_edit_preserves_wf(*old(self), *self);
            }
        }
    }
}

impl Grid {
    /// Resets every `Wall` cell to `Open`; start and end are untouched.
    pub fn clear_walls(&mut self)
        requires
            old(self).wf(),
        ensures
            final(self).wf(),
            final(self).rows == old(self).rows,
            final(self).cols == old(self).cols,
            final(self).start == old(self).start,
            final(self).end == old(self).end,
            final(self).cells@.len() == old(self).cells@.len(),
            forall|p: Pos|
                old(self).in_bounds(p) ==> #[trigger] final(self).cell(p) == (
                if old(self).cell(p) is Wall {
                    CellState::Open
                } else {
                    old(self).cell(p)
                }),
    {
        let n = self.cells.len();
        let mut out: Vec<CellState> = Vec::new();
        let mut k: usize = 0;
        while k < n
            invariant
                n == self.cells@.len(),
                k <= n,
                out@.len() == k,
                forall|j: int|
                    0 <= j < k ==> #[trigger] out@[j] == (if self.cells@[j] is Wall {
                        CellState::Open
                    } else {
                        self.cells@[j]
                    }),
            decreases n - k,
        {
            let c = self.cells[k];
            match c {
                CellState::Wall => out.push(CellState::Open),
                _ => out.push(c),
            }
            k += 1;
        }
        self.cells = out;
        proof {
            lemma_edit_preserves_wf(*old(self), *self);
            assert forall|p: Pos| old(self).in_bounds(p) implies #[trigger] self.cell(p) == (
            if old(self).cell(p) is Wall {
                CellState::Open
            } else {
                old(self).cell(p)
            }) by {
                lemma_idx(*old(self), p);
            };
        }
    }

    /// Resets every `Frontier`, `Visited` and `OnPath` cell to `Open`;
    /// walls, start and end are untouched.
    pub fn clear_search(&mut self)
        requires
            old(self).wf(),
        ensures
            final(self).wf(),
            final(self).rows == old(self).rows,
            final(self).cols == old(self).cols,
            final(self).start == old(self).start,
            final(self).end == old(self).end,
            final(self).cells@.len() == old(self).cells@.len(),
            forall|p: Pos|
                old(self).in_bounds(p) ==> #[trigger] final(self).cell(p) == (
                if is_annotation(old(self).cell(p)) {
                    CellState::Open
                } else {
                    old(self).cell(p)
                }),
    {
        let n = self.cells.len();
        let mut out: Vec<CellState> = Vec::new();
        let mut k: usize = 0;
        while k < n
            invariant
                n == self.cells@.len(),
                k <= n,
                out@.len() == k,
                forall|j: int|
                    0 <= j < k ==> #[trigger] out@[j] == (if is_annotation(self.cells@[j]) {
                        CellState::Open
                    } else {
                        self.cells@[j]
                    }),
            decreases n - k,
        {
            let c = self.cells[k];
            match c {
                CellState::Frontier(_) => out.push(CellState::Open),
                CellState::Visited(_) => out.push(CellState::Open),
                CellState::OnPath => out.push(CellState::Open),
                _ => out.push(c),
            }
            k += 1;
        }
        self.cells = out;
        proof {
            lemma_edit_preserves_wf(*old(self), *self);
            assert forall|p: Pos| old(self).in_bounds(p) implies #[trigger] self.cell(p) == (
            if is_annotation(old(self).cell(p)) {
                CellState::Open
            } else {
                old(self).cell(p)
            }) by {
                lemma_idx(*old(self), p);
            };
        }
    }

    /// Makes `p` the start. Fails on an out-of-bounds position or on a
    /// wall; the grid is then unchanged. A previous start cell elsewhere
    /// reverts to `Open` (or stays marked for the end where the end also
    /// sits there); the end is never displaced, and the start may share
    /// the end's cell.
    pub fn set_start(&mut self, p: Pos) -> (r: Result<(), GridError>)
        requires
            old(self).wf(),
        ensures
            final(self).wf(),
            final(self).rows == old(self).rows,
            final(self).cols == old(self).cols,
            match r {
                Ok(()) => {
                    &&& old(self).in_bounds(p)
                    &&& !(old(self).cell(p) is Wall)
                    &&& final(self).start == Option::Some(p)
                    &&& final(self).end == old(self).end
                    &&& final(self).cell(p) == (if old(self).end == Option::Some(p) {
                        old(self).cell(p)
                    } else {
                        CellState::Start
                    })
                    &&& forall|q: Pos|
                        old(self).in_bounds(q) && q != p ==> #[trigger] final(self).cell(q) == (
                        if old(self).start == Option::Some(q) {
                            if old(self).end == Option::Some(q) {
                                CellState::End
                            } else {
                                CellState::Open
                            }
                        } else {
                            old(self).cell(q)
                        })
                },
                Err(e) => {
                    &&& final(self).start == old(self).start
                    &&& final(self).end == old(self).end
                    &&& final(self).cells@ == old(self).cells@
                    &&& (e is OutOfBounds <==> !old(self).in_bounds(p))
                    &&& (e is InvalidConfiguration <==> old(self).in_bounds(p) && old(self).cell(
                        p,
                    ) is Wall)
                },
            },
    {
        if !(p.row < self.rows && p.col < self.cols) {
            return Err(GridError::OutOfBounds);
        }
        proof {
            lemma_idx(*self, p);
        }
        let i = p.row * self.cols + p.col;
        let c = self.cells[i];
        if let CellState::Wall = c {
            return Err(GridError::InvalidConfiguration);
        }
        match self.start {
            Option::Some(s) => {
                if !(s.row == p.row && s.col == p.col) {
                    proof {
                        lemma_idx(*self, s);
                    }
                    let si = s.row * self.cols + s.col;
                    let coincident = match self.end {
                        Option::Some(e0) => e0 == s,
                        Option::None => false,
                    };
                    if coincident {
                        self.cells[si] = CellState::End;
                    } else {
                        self.cells[si] = CellState::Open;
                    }
                }
            },
            Option::None => {},
        }
        let target_is_end = match self.end {
            Option::Some(e0) => e0 == p,
            Option::None => false,
        };
        if !target_is_end {
            self.cells[i] = CellState::Start;
        }
        self.start = Option::Some(p);
        proof {
            let g0 = *old(self);
            let g1 = *self;
            assert forall|q: Pos| #[trigger] g1.in_bounds(q) && g1.cell(q) is Start implies g1.start
                == Option::Some(q) by {
                lemma_idx(g1, q);
                if g1.idx(q) == g0.idx(p) {
                    lemma_idx_inj(g1, q, p);
                } else {
                    match g0.start {
                        Option::Some(s) => {
                            lemma_idx(g0, s);
                            if g1.idx(q) == g0.idx(s) {
                                lemma_idx_inj(g1, q, s);
                            } else {
                                assert(g0.in_bounds(q));
                                assert(g0.cell(q) is Start);
                            }
                        },
                        Option::None => {
                            assert(g0.in_bounds(q));
                            assert(g0.cell(q) is Start);
                        },
                    }
                }
            };
            assert forall|q: Pos| #[trigger] g1.in_bounds(q) && g1.cell(q) is End implies g1.end
                == Option::Some(q) by {
                lemma_idx(g1, q);
                if g1.idx(q) == g0.idx(p) {
                    lemma_idx_inj(g1, q, p);
                } else {
                    match g0.start {
                        Option::Some(s) => {
                            lemma_idx(g0, s);
                            if g1.idx(q) == g0.idx(s) {
                                lemma_idx_inj(g1, q, s);
                            } else {
                                assert(g0.in_bounds(q));
                                assert(g0.cell(q) is End);
                            }
                        },
                        Option::None => {
                            assert(g0.in_bounds(q));
                            assert(g0.cell(q) is End);
                        },
                    }
                }
            };
            match g1.end {
                Option::Some(e0) => {
                    lemma_idx(g0, e0);
                    if g1.idx(e0) == g0.idx(p) {
                        lemma_idx_inj(g0, e0, p);
                    }
                    match g0.start {
                        Option::Some(s) => {
                            if g0.idx(e0) == g0.idx(s) {
                                lemma_idx_inj(g0, e0, s);
                            }
                        },
                        Option::None => {},
                    }
                },
                Option::None => {},
            }
            assert forall|q: Pos| g0.in_bounds(q) && q != p implies #[trigger] g1.cell(q) == (
            if g0.start == Option::Some(q) {
                if g0.end == Option::Some(q) {
                    CellState::End
                } else {
                    CellState::Open
                }
            } else {
                g0.cell(q)
            }) by {
                lemma_idx(g0, q);
                if g0.idx(q) == g0.idx(p) {
                    lemma_idx_inj(g0, q, p);
                }
                match g0.start {
                    Option::Some(s) => {
                        if g0.idx(q) == g0.idx(s) {
                            lemma_idx_inj(g0, q, s);
                        }
                    },
                    Option::None => {},
                }
            };
        }
        Ok(())
    }

    /// Makes `p` the end. Fails on an out-of-bounds position or on a
    /// wall; the grid is then unchanged. A previous end cell elsewhere
    /// reverts to `Open` (or stays marked for the start where the start
    /// also sits there); the start is never displaced, and the end may
    /// share the start's cell.
    pub fn set_end(&mut self, p: Pos) -> (r: Result<(), GridError>)
        requires
            old(self).wf(),
        ensures
            final(self).wf(),
            final(self).rows == old(self).rows,
            final(self).cols == old(self).cols,
            match r {
                Ok(()) => {
                    &&& old(self).in_bounds(p)
                    &&& !(old(self).cell(p) is Wall)
                    &&& final(self).end == Option::Some(p)
                    &&& final(self).start == old(self).start
                    &&& final(self).cell(p) == (if old(self).start == Option::Some(p) {
                        old(self).cell(p)
                    } else {
                        CellState::End
                    })
                    &&& forall|q: Pos|
                        old(self).in_bounds(q) && q != p ==> #[trigger] final(self).cell(q) == (
                        if old(self).end == Option::Some(q) {
                            if old(self).start == Option::Some(q) {
                                CellState::Start
                            } else {
                                CellState::Open
                            }
                        } else {
                            old(self).cell(q)
                        })
                },
                Err(e) => {
                    &&& final(self).start == old(self).start
                    &&& final(self).end == old(self).end
                    &&& final(self).cells@ == old(self).cells@
                    &&& (e is OutOfBounds <==> !old(self).in_bounds(p))
                    &&& (e is InvalidConfiguration <==> old(self).in_bounds(p) && old(self).cell(
                        p,
                    ) is Wall)
                },
            },
    {
        if !(p.row < self.rows && p.col < self.cols) {
            return Err(GridError::OutOfBounds);
        }
        proof {
            lemma_idx(*self, p);
        }
        let i = p.row * self.cols + p.col;
        let c = self.cells[i];
        if let CellState::Wall = c {
            return Err(GridError::InvalidConfiguration);
        }
        match self.end {
            Option::Some(e0) => {
                if !(e0.row == p.row && e0.col == p.col) {
                    proof {
                        lemma_idx(*self, e0);
                    }
                    let ei = e0.row * self.cols + e0.col;
                    let coincident = match self.start {
                        Option::Some(s0) => s0 == e0,
                        Option::None => false,
                    };
                    if coincident {
                        self.cells[ei] = CellState::Start;
                    } else {
                        self.cells[ei] = CellState::Open;
                    }
                }
            },
            Option::None => {},
        }
        let target_is_start = match self.start {
            Option::Some(s0) => s0 == p,
            Option::None => false,
        };
        if !target_is_start {
            self.cells[i] = CellState::End;
        }
        self.end = Option::Some(p);
        proof {
            let g0 = *old(self);
            let g1 = *self;
            assert forall|q: Pos| #[trigger] g1.in_bounds(q) && g1.cell(q) is End implies g1.end
                == Option::Some(q) by {
                lemma_idx(g1, q);
                if g1.idx(q) == g0.idx(p) {
                    lemma_idx_inj(g1, q, p);
                } else {
                    match g0.end {
                        Option::Some(e0) => {
                            lemma_idx(g0, e0);
                            if g1.idx(q) == g0.idx(e0) {
                                lemma_idx_inj(g1, q, e0);
                            } else {
                                assert(g0.in_bounds(q));
                                assert(g0.cell(q) is End);
                            }
                        },
                        Option::None => {
                            assert(g0.in_bounds(q));
                            assert(g0.cell(q) is End);
                        },
                    }
                }
            };
            assert forall|q: Pos| #[trigger] g1.in_bounds(q) && g1.cell(q) is Start implies g1.start
                == Option::Some(q) by {
                lemma_idx(g1, q);
                if g1.idx(q) == g0.idx(p) {
                    lemma_idx_inj(g1, q, p);
                } else {
                    match g0.end {
                        Option::Some(e0) => {
                            lemma_idx(g0, e0);
                            if g1.idx(q) == g0.idx(e0) {
                                lemma_idx_inj(g1, q, e0);
                            } else {
                                assert(g0.in_bounds(q));
                                assert(g0.cell(q) is Start);
                            }
                        },
                        Option::None => {
                            assert(g0.in_bounds(q));
                            assert(g0.cell(q) is Start);
                        },
                    }
                }
            };
            match g1.start {
                Option::Some(s0) => {
                    lemma_idx(g0, s0);
                    if g1.idx(s0) == g0.idx(p) {
                        lemma_idx_inj(g0, s0, p);
                    }
                    match g0.end {
                        Option::Some(e0) => {
                            if g0.idx(s0) == g0.idx(e0) {
                                lemma_idx_inj(g0, s0, e0);
                            }
                        },
                        Option::None => {},
                    }
                },
                Option::None => {},
            }
            assert forall|q: Pos| g0.in_bounds(q) && q != p implies #[trigger] g1.cell(q) == (
            if g0.end == Option::Some(q) {
                if g0.start == Option::Some(q) {
                    CellState::Start
                } else {
                    CellState::Open
                }
            } else {
                g0.cell(q)
            }) by {
                lemma_idx(g0, q);
                if g0.idx(q) == g0.idx(p) {
                    lemma_idx_inj(g0, q, p);
                }
                match g0.end {
                    Option::Some(e0) => {
                        if g0.idx(q) == g0.idx(e0) {
                            lemma_idx_inj(g0, q, e0);
                        }
                    },
                    Option::None => {},
                }
            };
        }
        Ok(())
    }

    /// The in-bounds, non-wall 4-connected neighbours of `p`.
    pub fn neighbors(&self, p: Pos) -> (ns: Vec<Pos>)
        requires
            self.wf(),
            self.in_bounds(p),
        ensures
            forall|i: int|
                0 <= i < ns@.len() ==> self.free(#[trigger] ns@[i]) && adjacent(p, ns@[i]),
            forall|q: Pos| self.free(q) && adjacent(p, q) ==> ns@.contains(q),
            ns@.no_duplicates(),
    {
        let mut ns: Vec<Pos> = Vec::new();
        if p.row > 0 {
            let q = Pos { row: p.row - 1, col: p.col };
            let c = self.cell_at(q);
            if !(matches!(c, CellState::Wall)) {
                ns.push(q);
            }
        }
        let ghost s1 = ns@;
        if p.row + 1 < self.rows {
            let q = Pos { row: p.row + 1, col: p.col };
            let c = self.cell_at(q);
            if !(matches!(c, CellState::Wall)) {
                ns.push(q);
            }
        }
        let ghost s2 = ns@;
        if p.col > 0 {
            let q = Pos { row: p.row, col: p.col - 1 };
            let c = self.cell_at(q);
            if !(matches!(c, CellState::Wall)) {
                ns.push(q);
            }
        }
        let ghost s3 = ns@;
        if p.col + 1 < self.cols {
            let q = Pos { row: p.row, col: p.col + 1 };
            let c = self.cell_at(q);
            if !(matches!(c, CellState::Wall)) {
                ns.push(q);
            }
        }
        proof {
            assert forall|q: Pos| self.free(q) && adjacent(p, q) implies ns@.contains(q) by {
                if q.col == p.col && q.row + 1 == p.row {
                    assert(s1.contains(q));
                    assert(s2.contains(q));
                    assert(s3.contains(q));
                } else if q.col == p.col && q.row == p.row + 1 {
                    assert(s2.contains(q));
                    assert(s3.contains(q));
                } else if q.row == p.row && q.col + 1 == p.col {
                    assert(s3.contains(q));
                } else {
                    assert(q.row == p.row && q.col == p.col + 1);
                }
            };
        }
        ns
    }

    /// One animation step: writes a search annotation into its cell. A
    /// step is ignored when its mark is not an annotation, or when the
    /// target is out of bounds, a wall, the start or the end: the search
    /// only ever annotates open cells.
    pub fn apply_step(&mut self, p: Pos, mark: CellState)
        requires
            old(self).wf(),
        ensures
            final(self).wf(),
            final(self).rows == old(self).rows,
            final(self).cols == old(self).cols,
            final(self).start == old(self).start,
            final(self).end == old(self).end,
            final(self).cells@.len() == old(self).cells@.len(),
            forall|q: Pos|
                old(self).in_bounds(q) ==> #[trigger] final(self).cell(q) == (if q == p
                    && is_annotation(mark) && (old(self).cell(q) is Open || is_annotation(
                    old(self).cell(q),
                )) {
                    mark
                } else {
                    old(self).cell(q)
                }),
            final(self).cells@ == step_cells(*old(self), old(self).cells@, p, mark),
    {
        let annot = matches!(mark, CellState::Frontier(_) | CellState::Visited(_) | CellState::OnPath);
        if annot && p.row < self.rows && p.col < self.cols {
            proof {
                lemma_idx(*self, p);
            }
            let i = p.row * self.cols + p.col;
            let c = self.cells[i];
            let writable = matches!(
                c,
                CellState::Open | CellState::Frontier(_) | CellState::Visited(_) | CellState::OnPath
            );
            if writable {
                self.cells[i] = mark;
                proof {
                    lemma_edit_preserves_wf(*old(self), *self);
                    assert forall|q: Pos| old(self).in_bounds(q) && q != p implies #[trigger] self
                        .cell(q) == old(self).cell(q) by {
                        lemma_idx(*old(self), q);
                        if old(self).idx(q) == old(self).idx(p) {
                            lemma_idx_inj(*old(self), q, p);
                        }
                    };
                }
            }
        }
    }

    /// Pointer pressed over cell `p` while no gesture is active: an open
    /// cell starts a drawing gesture and becomes a wall, a wall starts an
    /// erasing gesture and becomes open. Any other press changes nothing.
    pub fn pointer_down(&mut self, inter: Interaction, p: Pos) -> (next: Interaction)
        requires
            old(self).wf(),
        ensures
            final(self).wf(),
            final(self).rows == old(self).rows,
            final(self).cols == old(self).cols,
            final(self).start == old(self).start,
            final(self).end == old(self).end,
            (inter is Inactive && old(self).in_bounds(p) && (old(self).cell(p) is Open
                || old(self).cell(p) is Wall)) ==> {
                &&& final(self).cells@ == toggle_cells(old(self).cells@, old(self).idx(p))
                &&& next == (if old(self).cell(p) is Open {
                    Interaction::Drawing
                } else {
                    Interaction::Erasing
                })
            },
            !(inter is Inactive && old(self).in_bounds(p) && (old(self).cell(p) is Open
                || old(self).cell(p) is Wall)) ==> {
                &&& final(self).cells@ == old(self).cells@
                &&& next == inter
            },
    {
        if matches!(inter, Interaction::Inactive) && p.row < self.rows && p.col < self.cols {
            let c = self.cell_at(p);
            match c {
                CellState::Open => {
                    self.toggle_wall(p);
                    Interaction::Drawing
                },
                CellState::Wall => {
                    self.toggle_wall(p);
                    Interaction::Erasing
                },
                _ => inter,
            }
        } else {
            inter
        }
    }

    /// Pointer dragged over cell `p`: a drawing gesture turns an open cell
    /// into a wall, an erasing gesture turns a wall into an open cell.
    pub fn pointer_move(&mut self, inter: Interaction, p: Pos)
        requires
            old(self).wf(),
        ensures
            final(self).wf(),
            final(self).rows == old(self).rows,
            final(self).cols == old(self).cols,
            final(self).start == old(self).start,
            final(self).end == old(self).end,
            (old(self).in_bounds(p) && ((inter is Drawing && old(self).cell(p) is Open) || (
            inter is Erasing && old(self).cell(p) is Wall))) ==> final(self).cells@ == toggle_cells(
                old(self).cells@,
                old(self).idx(p),
            ),
            !(old(self).in_bounds(p) && ((inter is Drawing && old(self).cell(p) is Open) || (
            inter is Erasing && old(self).cell(p) is Wall))) ==> final(self).cells@ == old(
                self,
            ).cells@,
    {
        if p.row < self.rows && p.col < self.cols {
            let c = self.cell_at(p);
            let hit = match inter {
                Interaction::Drawing => matches!(c, CellState::Open),
                Interaction::Erasing => matches!(c, CellState::Wall),
                _ => false,
            };
            if hit {
                self.toggle_wall(p);
            }
        }
    }

    /// Maps a continuous point, given in pixels together with the pixel
    /// size of one square cell, to the cell that contains it: the pure
    /// coordinate mapping shared by input handling and rendering.
    pub fn pos_at_point(&self, x: usize, y: usize, cell_size: usize) -> (r: Result<Pos, GridError>)
        requires
            self.wf(),
        ensures
            match r {
                Ok(p) => {
                    &&& cell_size > 0
                    &&& p.row == y as int / cell_size as int
                    &&& p.col == x as int / cell_size as int
                    &&& self.in_bounds(p)
                },
                Err(e) => {
                    &&& e is OutOfBounds
                    &&& (cell_size == 0 || y as int / cell_size as int >= self.rows || x as int
                        / cell_size as int >= self.cols)
                },
            },
    {
        if cell_size == 0 {
            return Err(GridError::OutOfBounds);
        }
        let row = y / cell_size;
        let col = x / cell_size;
        if row < self.rows && col < self.cols {
            Ok(Pos { row, col })
        } else {
            Err(GridError::OutOfBounds)
        }
    }
}

/// Pointer released: every gesture ends.
pub fn pointer_up(inter: Interaction) -> (next: Interaction)
    ensures
        next is Inactive,
{
    let _ = inter;
    Interaction::Inactive
}

} // verus!

