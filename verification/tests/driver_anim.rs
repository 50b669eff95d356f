use pathgrid::driver::{Driver, DriverState};
use pathgrid::grid::{CellState, Grid, GridError, Pos};
use pathgrid::search::{PathAlgorithms, SearchResult};

fn p(row: usize, col: usize) -> Pos {
    Pos { row, col }
}

#[test]
fn start_without_endpoints_fails() {
    let g = Grid::new(3, 3);
    let mut d = Driver::new();
    assert_eq!(d.start(&g, PathAlgorithms::Dijkstra), Err(GridError::InvalidConfiguration));
    assert_eq!(d.state, DriverState::Idle);
}

#[test]
fn full_playback_reaches_finished_and_annotates_the_grid() {
    let mut g = Grid::new(3, 3);
    g.set_start(p(0, 0)).unwrap();
    g.set_end(p(2, 2)).unwrap();
    g.toggle_wall(p(1, 1));
    let mut d = Driver::new();
    let res = d.start(&g, PathAlgorithms::Dijkstra).unwrap();
    assert!(matches!(res, SearchResult::Found(_)));
    assert_eq!(d.state, DriverState::Running);
    assert!(!d.edits_allowed());
    let mut ticks = 0;
    while d.state == DriverState::Running {
        d.tick(&mut g);
        ticks += 1;
        assert!(ticks < 1000, "playback must terminate");
    }
    assert_eq!(d.state, DriverState::Finished);
    assert!(d.edits_allowed());
    assert_eq!(g.cell_at(p(0, 0)), CellState::Start);
    assert_eq!(g.cell_at(p(2, 2)), CellState::End);
    assert_eq!(g.cell_at(p(1, 1)), CellState::Wall);
    let on_path = (0..3)
        .flat_map(|r| (0..3).map(move |c| (r, c)))
        .filter(|&(r, c)| g.cell_at(p(r, c)) == CellState::OnPath)
        .count();
    assert_eq!(on_path, 3, "a five-cell path minus start and end");
    assert!(matches!(g.cell_at(p(0, 1)), CellState::Visited(_)));
}

#[test]
fn rate_controls_steps_per_tick() {
    let mut g = Grid::new(4, 4);
    g.set_start(p(0, 0)).unwrap();
    g.set_end(p(3, 3)).unwrap();
    let mut d = Driver::new();
    d.start(&g, PathAlgorithms::Dijkstra).unwrap();
    let total = d.trace.len();
    assert!(total > 3);
    d.tick(&mut g);
    assert_eq!(d.next, 1);
    d.set_rate(3);
    d.tick(&mut g);
    assert_eq!(d.next, 4);
    d.set_rate(1000);
    d.tick(&mut g);
    assert_eq!(d.next, total);
    assert_eq!(d.state, DriverState::Finished);
}

#[test]
fn pause_and_resume_toggle_playback() {
    let mut g = Grid::new(3, 3);
    g.set_start(p(0, 0)).unwrap();
    g.set_end(p(2, 2)).unwrap();
    let mut d = Driver::new();
    d.start(&g, PathAlgorithms::Astar).unwrap();
    d.pause();
    assert_eq!(d.state, DriverState::Paused);
    let before = d.next;
    d.tick(&mut g);
    assert_eq!(d.next, before, "a paused driver applies nothing");
    d.resume();
    assert_eq!(d.state, DriverState::Running);
    d.tick(&mut g);
    assert_eq!(d.next, before + 1);
    d.pause();
    d.pause();
    assert_eq!(d.state, DriverState::Paused);
}

#[test]
fn clear_resets_driver_and_search_annotations() {
    let mut g = Grid::new(3, 3);
    g.set_start(p(0, 0)).unwrap();
    g.set_end(p(2, 2)).unwrap();
    g.toggle_wall(p(2, 0));
    let mut d = Driver::new();
    d.start(&g, PathAlgorithms::BidirectionalDijkstra).unwrap();
    d.set_rate(50);
    while d.state == DriverState::Running {
        d.tick(&mut g);
    }
    d.clear(&mut g);
    assert_eq!(d.state, DriverState::Idle);
    assert_eq!(d.next, 0);
    assert!(d.trace.is_empty());
    assert_eq!(d.rate, 50, "clearing keeps the configured rate");
    assert_eq!(g.cell_at(p(0, 1)), CellState::Open);
    assert_eq!(g.cell_at(p(1, 1)), CellState::Open);
    assert_eq!(g.cell_at(p(2, 0)), CellState::Wall);
    assert_eq!(g.cell_at(p(0, 0)), CellState::Start);
    assert_eq!(g.cell_at(p(2, 2)), CellState::End);
}
