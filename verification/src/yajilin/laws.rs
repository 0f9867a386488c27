use vstd::prelude::*;

use crate::grid::Grid;
use crate::yajilin::field::{
    cell_plan_spec, direction_spec, ray_scan, unit_step, vertex_rule_spec, CellPlan, VertexRule,
};
use crate::yajilin::{clue_number_spec, same_shape_spec, Cell, Clue};

verus! {

// ---------------------------------------------------------------------------
// How far a clue sees
// ---------------------------------------------------------------------------
/// Both clues are arrows, and they point the same way.
pub open spec fn points_like(a: Clue, c: Clue) -> bool {
    match (direction_spec(a), direction_spec(c)) {
        (Some((ay, ax, _)), Some((cy, cx, _))) => ay == cy && ax == cx,
        _ => false,
    }
}

/// The clue `t` steps of `(dy, dx)` away from `(y, x)`.
pub open spec fn clue_along(g: Grid<Clue>, y: int, x: int, dy: int, dx: int, t: int) -> Clue {
    g.at(y + dy * t, x + dx * t)
}

/// The place `t` steps of `(dy, dx)` away from `(y, x)` lies in the grid.
pub open spec fn inside_along(g: Grid<Clue>, y: int, x: int, dy: int, dx: int, t: int) -> bool {
    g.contains(y + dy * t, x + dx * t)
}

proof fn lemma_same_shape_points_like(a: Clue, c: Clue)
    ensures
        same_shape_spec(a, c) == points_like(a, c),
{
}

/// The sight of a clue runs from `(y, x)` in steps of `(dy, dx)` over every cell that
/// is not an arrow pointing the same way as `c` (clue cells of other kinds included),
/// and ends at the border or at the first arrow pointing the same way, whose number it
/// reports (0 at the border).
pub proof fn lemma_sight_extent(g: Grid<Clue>, y: int, x: int, dy: int, dx: int, c: Clue)
    requires
        unit_step(dy, dx),
    ensures
        ray_scan(g, y, x, dy, dx, c).0 >= 0,
        forall|t: int|
            0 <= t < ray_scan(g, y, x, dy, dx, c).0 ==> #[trigger] inside_along(g, y, x, dy, dx, t)
                && !points_like(clue_along(g, y, x, dy, dx, t), c),
        inside_along(g, y, x, dy, dx, ray_scan(g, y, x, dy, dx, c).0) ==> points_like(
            clue_along(g, y, x, dy, dx, ray_scan(g, y, x, dy, dx, c).0),
            c,
        ) && ray_scan(g, y, x, dy, dx, c).1 == clue_number_spec(
            clue_along(g, y, x, dy, dx, ray_scan(g, y, x, dy, dx, c).0),
        ),
        !inside_along(g, y, x, dy, dx, ray_scan(g, y, x, dy, dx, c).0) ==> ray_scan(
            g,
            y,
            x,
            dy,
            dx,
            c,
        ).1 == 0,
    decreases crate::yajilin::field::scan_measure(g.rows_spec(), g.cols_spec(), y, x, dy, dx),
{
    lemma_same_shape_points_like(g.at(y, x), c);
    assert(y + dy * 0 == y && x + dx * 0 == x);
    if g.contains(y, x) && !same_shape_spec(g.at(y, x), c) {
        lemma_sight_extent(g, y + dy, x + dx, dy, dx, c);
        let r = ray_scan(g, y + dy, x + dx, dy, dx, c);
        assert forall|t: int| 0 <= t < r.0 + 1 implies #[trigger] inside_along(g, y, x, dy, dx, t)
            && !points_like(clue_along(g, y, x, dy, dx, t), c) by {
            if t > 0 {
                assert(y + dy + dy * (t - 1) == y + dy * t) by (nonlinear_arith);
                assert(x + dx + dx * (t - 1) == x + dx * t) by (nonlinear_arith);
                assert(inside_along(g, y + dy, x + dx, dy, dx, t - 1));
            }
        }
        let k = r.0;
        assert(y + dy + dy * k == y + dy * (k + 1)) by (nonlinear_arith);
        assert(x + dx + dx * k == x + dx * (k + 1)) by (nonlinear_arith);
    }
}

// ---------------------------------------------------------------------------
// What a point of the loop forces
// ---------------------------------------------------------------------------
/// A way the loop can meet an undecided cell with `n_line` line edges and `n_undecided`
/// undecided edges around it: the cell is blocked and no line touches it, or the cell
/// carries the line, which leaves it through exactly two edges, `k` of them undecided now.
pub open spec fn undecided_cell_completion(n_line: int, n_undecided: int, blocked: bool, k: int) -> bool {
    if blocked {
        n_line == 0 && k == 0
    } else {
        0 <= k <= n_undecided && n_line + k == 2
    }
}

/// In that completion, every neighbour across an undecided edge carries the line: a
/// block's neighbours all do, and a line reaches the neighbours across the edges it uses.
pub open spec fn reaches_every_undecided_edge(n_undecided: int, blocked: bool, k: int) -> bool {
    blocked || k == n_undecided
}

/// A way the line through a line cell with `n_line` line edges and `n_undecided`
/// undecided edges can leave it: through exactly two edges, `k` of them undecided now.
pub open spec fn line_cell_completion(n_line: int, n_undecided: int, k: int) -> bool {
    0 <= k <= n_undecided && n_line + k == 2
}

/// The rules for a point of the loop are sound: the line is spread from an undecided
/// cell only when some completion exists and in every completion each neighbour across
/// an undecided edge carries the line; a line cell is found inconsistent only when the
/// line cannot leave it through two edges, and its lines are extended only when every
/// way out uses each undecided edge.
pub proof fn lemma_vertex_rule_sound(y: int, x: int, cell: Cell, n_line: int, n_undecided: int)
    requires
        0 <= n_line,
        0 <= n_undecided,
    ensures
        cell == Cell::Undecided && vertex_rule_spec(y, x, cell, n_line, n_undecided)
            == VertexRule::SpreadLine ==> {
            &&& exists|blocked: bool, k: int| #[trigger]
                undecided_cell_completion(n_line, n_undecided, blocked, k)
            &&& forall|blocked: bool, k: int| #[trigger]
                undecided_cell_completion(n_line, n_undecided, blocked, k)
                    ==> reaches_every_undecided_edge(n_undecided, blocked, k)
        },
        cell == Cell::Line && vertex_rule_spec(y, x, cell, n_line, n_undecided)
            == VertexRule::Inconsistent ==> forall|k: int| !#[trigger] line_cell_completion(
            n_line,
            n_undecided,
            k,
        ),
        cell == Cell::Line && vertex_rule_spec(y, x, cell, n_line, n_undecided)
            == VertexRule::ExtendLines ==> {
            &&& exists|k: int| #[trigger] line_cell_completion(n_line, n_undecided, k)
            &&& forall|k: int| #[trigger] line_cell_completion(n_line, n_undecided, k) ==> k
                == n_undecided
        },
        cell != Cell::Undecided ==> vertex_rule_spec(y, x, cell, n_line, n_undecided)
            != VertexRule::SpreadLine,
{
    if cell == Cell::Undecided && vertex_rule_spec(y, x, cell, n_line, n_undecided)
        == VertexRule::SpreadLine {
        assert(undecided_cell_completion(n_line, n_undecided, false, n_undecided - n_line));
    }
    if cell == Cell::Line && vertex_rule_spec(y, x, cell, n_line, n_undecided)
        == VertexRule::ExtendLines {
        assert(line_cell_completion(n_line, n_undecided, 2 - n_line));
    }
}

// ---------------------------------------------------------------------------
// Deciding a cell
// ---------------------------------------------------------------------------
/// The plan writes the new value into the cell.
pub open spec fn plan_writes(p: CellPlan) -> bool {
    p == CellPlan::Write || p == CellPlan::WriteAndCheck || p == CellPlan::WriteAndBlockNeighbors
}

/// The value a cell holding `current` holds after it is decided to `v`.
pub open spec fn value_after(current: Cell, v: Cell) -> Cell {
    if plan_writes(cell_plan_spec(current, v)) {
        v
    } else {
        current
    }
}

/// Deciding a cell: only an undecided cell is written; a decided cell is in conflict
/// exactly when it holds another value, and is otherwise left as it is; and deciding a
/// cell a second time to the same value changes nothing.
pub proof fn lemma_cell_plan_laws(current: Cell, v: Cell)
    ensures
        plan_writes(cell_plan_spec(current, v)) <==> current == Cell::Undecided,
        cell_plan_spec(current, v) == CellPlan::Conflict <==> (current != Cell::Undecided
            && current != v),
        cell_plan_spec(current, v) == CellPlan::Keep <==> (current != Cell::Undecided && current
            == v),
        cell_plan_spec(current, v) == CellPlan::WriteAndBlockNeighbors <==> (current
            == Cell::Undecided && v == Cell::Blocked),
        cell_plan_spec(current, v) == CellPlan::WriteAndCheck <==> (current == Cell::Undecided
            && v == Cell::Line),
        v != Cell::Undecided && cell_plan_spec(current, v) != CellPlan::Conflict ==> cell_plan_spec(
            value_after(current, v),
            v,
        ) == CellPlan::Keep && value_after(value_after(current, v), v) == value_after(current, v),
{
}

} // verus!
