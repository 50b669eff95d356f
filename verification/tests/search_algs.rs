use pathgrid::grid::{CellState, Grid, GridError, Pos};
use pathgrid::search::{run_search, PathAlgorithms, SearchResult, TraceStep};

fn p(row: usize, col: usize) -> Pos {
    Pos { row, col }
}

const ALGS: [PathAlgorithms; 3] = [
    PathAlgorithms::Dijkstra,
    PathAlgorithms::Astar,
    PathAlgorithms::BidirectionalDijkstra,
];

fn grid_with(rows: usize, cols: usize, s: Pos, e: Pos, walls: &[Pos]) -> Grid {
    let mut g = Grid::new(rows, cols);
    g.set_start(s).unwrap();
    g.set_end(e).unwrap();
    for &w in walls {
        g.toggle_wall(w);
    }
    g
}

fn found_path(r: Result<(SearchResult, Vec<TraceStep>), GridError>) -> Vec<Pos> {
    match r.unwrap().0 {
        SearchResult::Found(path) => path,
        SearchResult::Unreachable => panic!("expected a path"),
    }
}

fn is_unreachable(r: Result<(SearchResult, Vec<TraceStep>), GridError>) -> bool {
    matches!(r.unwrap().0, SearchResult::Unreachable)
}

fn visited_cells(trace: &[TraceStep]) -> Vec<Pos> {
    trace
        .iter()
        .filter(|st| matches!(st.mark, CellState::Visited(_)))
        .map(|st| st.pos)
        .collect()
}

/// An independent flood fill, for checking reachability results.
fn flood_reaches(g: &Grid, s: Pos, e: Pos) -> bool {
    let mut seen = vec![false; g.rows * g.cols];
    let mut stack = vec![s];
    seen[s.row * g.cols + s.col] = true;
    while let Some(u) = stack.pop() {
        if u == e {
            return true;
        }
        for v in g.neighbors(u) {
            let vi = v.row * g.cols + v.col;
            if !seen[vi] {
                seen[vi] = true;
                stack.push(v);
            }
        }
    }
    false
}

fn check_path_valid(g: &Grid, s: Pos, e: Pos, path: &[Pos]) {
    assert!(!path.is_empty());
    assert_eq!(path[0], s);
    assert_eq!(*path.last().unwrap(), e);
    for w in path.windows(2) {
        let dr = w[0].row.abs_diff(w[1].row);
        let dc = w[0].col.abs_diff(w[1].col);
        assert_eq!(dr + dc, 1, "steps must be 4-connected");
    }
    for &q in path {
        assert!(!matches!(g.cell_at(q), CellState::Wall));
    }
}

#[test]
fn dijkstra_5x5_open_grid_has_manhattan_path() {
    let g = grid_with(5, 5, p(0, 0), p(4, 4), &[]);
    let (res, trace) = run_search(&g, PathAlgorithms::Dijkstra).unwrap();
    let path = match res {
        SearchResult::Found(path) => path,
        SearchResult::Unreachable => panic!("expected a path"),
    };
    assert_eq!(path.len(), 9);
    check_path_valid(&g, p(0, 0), p(4, 4), &path);
    let visited = visited_cells(&trace);
    assert_eq!(visited.len(), 25, "exhaustive run settles every open cell");
    for (i, a) in visited.iter().enumerate() {
        for b in visited[i + 1..].iter() {
            assert_ne!(a, b, "no cell is finalized twice");
        }
    }
}

#[test]
fn complete_wall_row_is_unreachable_for_all() {
    let walls = [p(2, 0), p(2, 1), p(2, 2), p(2, 3), p(2, 4)];
    for alg in ALGS {
        let g = grid_with(5, 5, p(0, 0), p(4, 4), &walls);
        assert!(is_unreachable(run_search(&g, alg)));
    }
}

#[test]
fn start_equals_end_gives_single_cell_path_and_empty_trace() {
    for alg in ALGS {
        let mut g = Grid::new(4, 4);
        g.set_start(p(2, 2)).unwrap();
        g.set_end(p(2, 2)).unwrap();
        let (res, trace) = run_search(&g, alg).unwrap();
        match res {
            SearchResult::Found(path) => assert_eq!(path, vec![p(2, 2)]),
            SearchResult::Unreachable => panic!("expected a path"),
        }
        assert!(trace.is_empty());
    }
}

#[test]
fn astar_matches_dijkstra_length_and_visits_no_more() {
    let walls = [p(1, 1), p(1, 2), p(1, 3), p(2, 3), p(3, 1), p(3, 2)];
    let gd = grid_with(5, 5, p(0, 0), p(4, 4), &walls);
    let (rd, td) = run_search(&gd, PathAlgorithms::Dijkstra).unwrap();
    let (ra, ta) = run_search(&gd, PathAlgorithms::Astar).unwrap();
    let pd = match rd {
        SearchResult::Found(path) => path,
        SearchResult::Unreachable => panic!("expected a path"),
    };
    let pa = match ra {
        SearchResult::Found(path) => path,
        SearchResult::Unreachable => panic!("expected a path"),
    };
    assert_eq!(pd.len(), pa.len(), "both search results are optimal");
    check_path_valid(&gd, p(0, 0), p(4, 4), &pa);
    assert!(
        visited_cells(&ta).len() <= visited_cells(&td).len(),
        "the admissible heuristic never settles more cells"
    );
}

#[test]
fn bidirectional_matches_dijkstra_length() {
    let walls = [p(0, 3), p(1, 3), p(2, 3), p(4, 1), p(3, 1), p(2, 1)];
    let g = grid_with(5, 5, p(0, 0), p(4, 4), &walls);
    let d = found_path(run_search(&g, PathAlgorithms::Dijkstra));
    let b = found_path(run_search(&g, PathAlgorithms::BidirectionalDijkstra));
    assert_eq!(d.len(), b.len());
    check_path_valid(&g, p(0, 0), p(4, 4), &b);
}

#[test]
fn unreachable_agrees_with_flood_fill() {
    let patterns: [&[Pos]; 4] = [
        &[],
        &[p(0, 1), p(1, 1), p(1, 0)],
        &[p(0, 2), p(1, 2), p(2, 2), p(3, 2)],
        &[p(0, 2), p(1, 2), p(2, 2), p(3, 2), p(4, 2)],
    ];
    for walls in patterns {
        for alg in ALGS {
            let g = grid_with(5, 5, p(0, 0), p(4, 4), walls);
            let reaches = flood_reaches(&g, p(0, 0), p(4, 4));
            let r = run_search(&g, alg).unwrap().0;
            match r {
                SearchResult::Found(path) => {
                    assert!(reaches);
                    check_path_valid(&g, p(0, 0), p(4, 4), &path);
                },
                SearchResult::Unreachable => assert!(!reaches),
            }
        }
    }
}

#[test]
fn enclosed_start_is_unreachable() {
    let walls = [p(0, 1), p(1, 0), p(1, 1)];
    for alg in ALGS {
        let g = grid_with(4, 4, p(0, 0), p(3, 3), &walls);
        assert!(is_unreachable(run_search(&g, alg)));
    }
}

#[test]
fn missing_endpoints_fail_with_configuration_error() {
    for alg in ALGS {
        let g = Grid::new(3, 3);
        assert_eq!(run_search(&g, alg).unwrap_err(), GridError::InvalidConfiguration);
        let mut g2 = Grid::new(3, 3);
        g2.set_start(p(0, 0)).unwrap();
        assert_eq!(run_search(&g2, alg).unwrap_err(), GridError::InvalidConfiguration);
    }
}

#[test]
fn repeated_runs_are_deterministic() {
    let walls = [p(1, 1), p(2, 3), p(3, 0)];
    for alg in ALGS {
        let g = grid_with(5, 5, p(0, 4), p(4, 0), &walls);
        let first = run_search(&g, alg).unwrap();
        let second = run_search(&g, alg).unwrap();
        assert_eq!(first.0, second.0, "equal grids give equal outcomes");
        assert_eq!(first.1, second.1, "equal grids give identical traces");
    }
}

#[test]
fn dijkstra_trace_finalizes_exactly_the_reachable_cells() {
    let walls = [p(2, 0), p(2, 1), p(2, 2), p(2, 3), p(2, 4)];
    let g = grid_with(5, 5, p(0, 0), p(4, 4), &walls);
    let (_, trace) = run_search(&g, PathAlgorithms::Dijkstra).unwrap();
    let visited = visited_cells(&trace);
    assert_eq!(visited.len(), 10, "the start's component above the wall row");
    assert!(visited.iter().all(|q| q.row < 2));
}

#[test]
fn dijkstra_trace_records_settled_distance_of_end() {
    let g = grid_with(3, 3, p(0, 0), p(2, 2), &[]);
    let (_, trace) = run_search(&g, PathAlgorithms::Dijkstra).unwrap();
    let end_mark = trace
        .iter()
        .find(|st| st.pos == p(2, 2) && matches!(st.mark, CellState::Visited(_)))
        .expect("the end cell is settled");
    assert_eq!(end_mark.mark, CellState::Visited(4));
}
