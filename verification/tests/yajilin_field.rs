use puzrs::grid::Grid;
use puzrs::yajilin::field::{
    acts_on_neighbor, cell_or_clue, cell_plan, clue_border_edges, clue_fits_check, initial_cells, inspect_clue,
    is_cell_center, neighbor_offset, neighborhood, ray_actions, vertex_rule, CellPlan,
    ClueAction, RayAction, VertexRule,
};
use puzrs::yajilin::{Cell, Clue, Edge};

#[test]
fn clue_right_two_blocks_both_ends() {
    let mut problem = Grid::new(5, 5, Clue::NoClue);
    problem.set(2, 1, Clue::Right(2));
    let cells = initial_cells(&problem);
    assert_eq!(cells.get(2, 1), Cell::Clue);
    assert_eq!(cells.get(2, 2), Cell::Undecided);
    assert_eq!(
        inspect_clue(&problem, &cells, 2, 1),
        vec![ClueAction::Block(2, 2), ClueAction::Block(2, 4)]
    );
}

#[test]
fn clue_sight_stops_at_same_arrow() {
    let mut problem = Grid::new(3, 3, Clue::NoClue);
    problem.set(2, 2, Clue::Up(1));
    problem.set(0, 2, Clue::Up(1));
    let cells = initial_cells(&problem);
    // The upper arrow already accounts for the one block: nothing to decide.
    assert_eq!(inspect_clue(&problem, &cells, 2, 2), vec![]);
}

#[test]
fn clue_too_large_is_inconsistent() {
    let mut problem = Grid::new(3, 3, Clue::NoClue);
    problem.set(0, 0, Clue::Down(3));
    let cells = initial_cells(&problem);
    assert_eq!(inspect_clue(&problem, &cells, 0, 0), vec![ClueAction::Inconsistent]);
    // A cell without an arrow decides nothing.
    assert_eq!(inspect_clue(&problem, &cells, 1, 1), vec![]);
}

#[test]
fn ray_actions_examples() {
    assert_eq!(
        ray_actions(&vec![Cell::Blocked, Cell::Undecided, Cell::Undecided], 2),
        vec![RayAction::Block(0), RayAction::Block(2)]
    );
    assert_eq!(ray_actions(&vec![Cell::Line, Cell::Undecided], 1), vec![RayAction::Block(1)]);
    assert_eq!(ray_actions(&vec![Cell::Undecided; 5], 2), vec![]);
    assert_eq!(ray_actions(&vec![Cell::Line, Cell::Line], 2), vec![RayAction::Inconsistent]);
    assert_eq!(
        ray_actions(&vec![Cell::Line, Cell::Line], 1),
        vec![RayAction::Block(0), RayAction::Block(1)]
    );
    assert_eq!(ray_actions(&vec![], 0), vec![]);
}

#[test]
fn new_field_edges() {
    let mut problem = Grid::new(3, 3, Clue::NoClue);
    problem.set(1, 1, Clue::Up(1));
    problem.set(2, 0, Clue::Empty);
    assert_eq!(
        clue_border_edges(&problem),
        vec![(1, 2), (3, 2), (2, 1), (2, 3), (3, 0), (5, 0), (4, -1), (4, 1)]
    );
    let cells = initial_cells(&problem);
    assert_eq!(cells.get(1, 1), Cell::Clue);
    assert_eq!(cells.get(2, 0), Cell::Clue);
    assert_eq!(cells.get(0, 0), Cell::Undecided);
}

#[test]
fn cell_plans() {
    assert_eq!(cell_plan(Cell::Undecided, Cell::Line), CellPlan::WriteAndCheck);
    assert_eq!(cell_plan(Cell::Undecided, Cell::Blocked), CellPlan::WriteAndBlockNeighbors);
    assert_eq!(cell_plan(Cell::Undecided, Cell::Clue), CellPlan::Write);
    assert_eq!(cell_plan(Cell::Line, Cell::Line), CellPlan::Keep);
    assert_eq!(cell_plan(Cell::Line, Cell::Blocked), CellPlan::Conflict);
    assert_eq!(cell_plan(Cell::Blocked, Cell::Line), CellPlan::Conflict);
}

#[test]
fn vertex_rules() {
    assert_eq!(vertex_rule(0, 0, Cell::Line, 1, 0), VertexRule::Inconsistent);
    assert_eq!(vertex_rule(2, 2, Cell::Line, 1, 1), VertexRule::ExtendLines);
    assert_eq!(vertex_rule(2, 2, Cell::Line, 2, 1), VertexRule::Nothing);
    assert_eq!(vertex_rule(1, 0, Cell::Line, 0, 0), VertexRule::Nothing);
    assert_eq!(vertex_rule(0, 2, Cell::Undecided, 0, 2), VertexRule::SpreadLine);
    assert_eq!(vertex_rule(0, 2, Cell::Undecided, 1, 1), VertexRule::Nothing);
    assert_eq!(vertex_rule(4, 0, Cell::Clue, 0, 0), VertexRule::InspectClue);
    assert_eq!(vertex_rule(4, 0, Cell::Blocked, 0, 0), VertexRule::Nothing);
    assert!(is_cell_center(2, 4));
    assert!(!is_cell_center(2, 3));
    assert!(acts_on_neighbor(VertexRule::ExtendLines, Edge::Undecided));
    assert!(!acts_on_neighbor(VertexRule::ExtendLines, Edge::Blank));
    assert!(acts_on_neighbor(VertexRule::SpreadLine, Edge::Undecided));
    assert!(!acts_on_neighbor(VertexRule::SpreadLine, Edge::Line));
    assert!(!acts_on_neighbor(VertexRule::Nothing, Edge::Undecided));
}

#[test]
fn neighbours_and_outside() {
    assert_eq!(neighbor_offset(0), (-1, 0));
    assert_eq!(neighbor_offset(1), (0, -1));
    assert_eq!(neighbor_offset(2), (1, 0));
    assert_eq!(neighbor_offset(3), (0, 1));
    assert_eq!(neighborhood(2, 3), ((2, 2), (2, 4)));
    assert_eq!(neighborhood(3, 2), ((2, 2), (4, 2)));
    let cells = Grid::new(2, 2, Cell::Line);
    assert_eq!(cell_or_clue(&cells, 1, 1), Cell::Line);
    assert_eq!(cell_or_clue(&cells, -1, 0), Cell::Clue);
    assert_eq!(cell_or_clue(&cells, 0, 2), Cell::Clue);
}

#[test]
fn clue_shapes() {
    assert!(Clue::Up(1).same_shape(Clue::Up(3)));
    assert!(!Clue::Up(1).same_shape(Clue::Down(1)));
    assert!(!Clue::Empty.same_shape(Clue::Empty));
    assert_eq!(Clue::Left(4).clue_number(), 4);
    assert_eq!(Clue::Empty.clue_number(), 0);
}

#[test]
fn clue_fit_checks() {
    let mut problem = Grid::new(3, 3, Clue::NoClue);
    problem.set(2, 0, Clue::Up(i32::MIN));
    assert!(!clue_fits_check(&problem, 2, 0));
    problem.set(0, 0, Clue::Up(-1));
    // The sight of (2, 0) now stops at (0, 0), whose number is taken off: MIN - (-1).
    assert!(clue_fits_check(&problem, 2, 0));
    problem.set(1, 1, Clue::Left(5));
    assert!(clue_fits_check(&problem, 1, 1));
    assert!(clue_fits_check(&problem, 2, 2));
    problem.set(1, 2, Clue::Left(i32::MAX));
    problem.set(1, 1, Clue::Left(-1));
    assert!(!clue_fits_check(&problem, 1, 2));
}

#[test]
fn ray_blocks_forced_only_when_in_every_placement() {
    // Five open cells and three blocks: the only placement is at 0, 2 and 4.
    assert_eq!(
        ray_actions(&vec![Cell::Undecided; 5], 3),
        vec![RayAction::Block(0), RayAction::Block(2), RayAction::Block(4)]
    );
    // Four open cells and two blocks: {0, 2}, {0, 3} and {1, 3} share no cell.
    assert_eq!(ray_actions(&vec![Cell::Undecided; 4], 2), vec![]);
    // A line cell at 1: every placement of two blocks uses place 0.
    assert_eq!(
        ray_actions(&vec![Cell::Undecided, Cell::Line, Cell::Undecided, Cell::Undecided], 2),
        vec![RayAction::Block(0)]
    );
    // Three blocks never fit in three cells.
    assert_eq!(ray_actions(&vec![Cell::Undecided; 3], 3), vec![RayAction::Inconsistent]);
}
