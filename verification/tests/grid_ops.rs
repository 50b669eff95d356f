use pathgrid::grid::{CellState, Grid, GridError, Interaction, Pos};

fn p(row: usize, col: usize) -> Pos {
    Pos { row, col }
}

#[test]
fn toggle_wall_twice_restores_open() {
    let mut g = Grid::new(3, 3);
    g.toggle_wall(p(1, 1));
    assert_eq!(g.cell_at(p(1, 1)), CellState::Wall);
    g.toggle_wall(p(1, 1));
    assert_eq!(g.cell_at(p(1, 1)), CellState::Open);
}

#[test]
fn toggle_wall_twice_restores_wall() {
    let mut g = Grid::new(3, 3);
    g.toggle_wall(p(0, 2));
    g.toggle_wall(p(0, 2));
    g.toggle_wall(p(0, 2));
    assert_eq!(g.cell_at(p(0, 2)), CellState::Wall);
}

#[test]
fn toggle_wall_out_of_bounds_is_ignored() {
    let mut g = Grid::new(2, 2);
    g.toggle_wall(p(5, 0));
    for r in 0..2 {
        for c in 0..2 {
            assert_eq!(g.cell_at(p(r, c)), CellState::Open);
        }
    }
}

#[test]
fn toggle_wall_on_start_is_ignored() {
    let mut g = Grid::new(3, 3);
    g.set_start(p(1, 1)).unwrap();
    g.toggle_wall(p(1, 1));
    assert_eq!(g.cell_at(p(1, 1)), CellState::Start);
}

#[test]
fn set_start_on_wall_fails() {
    let mut g = Grid::new(3, 3);
    g.toggle_wall(p(0, 0));
    assert_eq!(g.set_start(p(0, 0)), Err(GridError::InvalidConfiguration));
    assert_eq!(g.start, None);
}

#[test]
fn set_start_out_of_bounds_fails() {
    let mut g = Grid::new(3, 3);
    assert_eq!(g.set_start(p(3, 0)), Err(GridError::OutOfBounds));
}

#[test]
fn set_start_moves_the_start() {
    let mut g = Grid::new(3, 3);
    g.set_start(p(0, 0)).unwrap();
    g.set_start(p(2, 2)).unwrap();
    assert_eq!(g.cell_at(p(0, 0)), CellState::Open);
    assert_eq!(g.cell_at(p(2, 2)), CellState::Start);
    assert_eq!(g.start, Some(p(2, 2)));
}

#[test]
fn start_and_end_may_share_a_cell() {
    let mut g = Grid::new(3, 3);
    g.set_start(p(1, 1)).unwrap();
    g.set_end(p(1, 1)).unwrap();
    assert_eq!(g.cell_at(p(1, 1)), CellState::Start);
    assert_eq!(g.start, Some(p(1, 1)));
    assert_eq!(g.end, Some(p(1, 1)));
    g.set_end(p(2, 2)).unwrap();
    assert_eq!(g.cell_at(p(1, 1)), CellState::Start);
    assert_eq!(g.cell_at(p(2, 2)), CellState::End);
    g.set_start(p(2, 2)).unwrap();
    assert_eq!(g.cell_at(p(1, 1)), CellState::Open);
    assert_eq!(g.cell_at(p(2, 2)), CellState::End);
    assert_eq!(g.start, Some(p(2, 2)));
    assert_eq!(g.end, Some(p(2, 2)));
}

#[test]
fn clear_walls_keeps_start_and_end() {
    let mut g = Grid::new(4, 4);
    g.set_start(p(0, 0)).unwrap();
    g.set_end(p(3, 3)).unwrap();
    g.toggle_wall(p(1, 1));
    g.toggle_wall(p(2, 2));
    g.clear_walls();
    assert_eq!(g.cell_at(p(1, 1)), CellState::Open);
    assert_eq!(g.cell_at(p(2, 2)), CellState::Open);
    assert_eq!(g.cell_at(p(0, 0)), CellState::Start);
    assert_eq!(g.cell_at(p(3, 3)), CellState::End);
}

#[test]
fn clear_search_keeps_walls_start_and_end() {
    let mut g = Grid::new(4, 4);
    g.set_start(p(0, 0)).unwrap();
    g.set_end(p(3, 3)).unwrap();
    g.toggle_wall(p(1, 1));
    g.apply_step(p(2, 2), CellState::Visited(4));
    g.apply_step(p(0, 1), CellState::Frontier(1));
    g.apply_step(p(1, 0), CellState::OnPath);
    g.clear_search();
    assert_eq!(g.cell_at(p(2, 2)), CellState::Open);
    assert_eq!(g.cell_at(p(0, 1)), CellState::Open);
    assert_eq!(g.cell_at(p(1, 0)), CellState::Open);
    assert_eq!(g.cell_at(p(1, 1)), CellState::Wall);
    assert_eq!(g.cell_at(p(0, 0)), CellState::Start);
    assert_eq!(g.cell_at(p(3, 3)), CellState::End);
}

#[test]
fn apply_step_never_touches_walls_or_endpoints() {
    let mut g = Grid::new(3, 3);
    g.set_start(p(0, 0)).unwrap();
    g.toggle_wall(p(1, 1));
    g.apply_step(p(0, 0), CellState::Visited(0));
    g.apply_step(p(1, 1), CellState::OnPath);
    assert_eq!(g.cell_at(p(0, 0)), CellState::Start);
    assert_eq!(g.cell_at(p(1, 1)), CellState::Wall);
}

#[test]
fn neighbors_at_corner_and_next_to_wall() {
    let mut g = Grid::new(3, 3);
    let corner = g.neighbors(p(0, 0));
    assert_eq!(corner.len(), 2);
    assert!(corner.contains(&p(1, 0)));
    assert!(corner.contains(&p(0, 1)));
    g.toggle_wall(p(1, 0));
    let after = g.neighbors(p(0, 0));
    assert_eq!(after, vec![p(0, 1)]);
}

#[test]
fn pos_at_point_maps_pixels_to_cells() {
    let g = Grid::new(4, 6);
    assert_eq!(g.pos_at_point(0, 0, 10), Ok(p(0, 0)));
    assert_eq!(g.pos_at_point(59, 39, 10), Ok(p(3, 5)));
    assert_eq!(g.pos_at_point(25, 14, 10), Ok(p(1, 2)));
    assert_eq!(g.pos_at_point(60, 0, 10), Err(GridError::OutOfBounds));
    assert_eq!(g.pos_at_point(0, 40, 10), Err(GridError::OutOfBounds));
    assert_eq!(g.pos_at_point(0, 0, 0), Err(GridError::OutOfBounds));
}

#[test]
fn pointer_gesture_draws_and_erases() {
    let mut g = Grid::new(3, 3);
    let inter = g.pointer_down(Interaction::Inactive, p(0, 0));
    assert_eq!(inter, Interaction::Drawing);
    assert_eq!(g.cell_at(p(0, 0)), CellState::Wall);
    g.pointer_move(inter, p(0, 1));
    g.pointer_move(inter, p(0, 2));
    assert_eq!(g.cell_at(p(0, 1)), CellState::Wall);
    assert_eq!(g.cell_at(p(0, 2)), CellState::Wall);
    let up = pathgrid::grid::pointer_up(inter);
    assert_eq!(up, Interaction::Inactive);
    let erase = g.pointer_down(up, p(0, 1));
    assert_eq!(erase, Interaction::Erasing);
    assert_eq!(g.cell_at(p(0, 1)), CellState::Open);
    g.pointer_move(erase, p(0, 2));
    assert_eq!(g.cell_at(p(0, 2)), CellState::Open);
    assert_eq!(g.cell_at(p(0, 0)), CellState::Wall);
}
