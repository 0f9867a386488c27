use vstd::prelude::*;

use crate::grid::Grid;
use crate::tapa::{Clue, NO_CLUE};

verus! {

/// Whether a cell may, must, or must not hold a clue in a generated problem.
#[derive(Clone, Copy, Debug, PartialEq, Eq, Structural)]
pub enum ClueConstraint {
    Any,
    Forced,
    Prohibited,
}

/// The settings of the problem generator.
pub struct GeneratorOption {
    pub clue_constraint: Grid<ClueConstraint>,
    pub max_clue: Option<i32>,
    pub use_trial_and_error: bool,
}

/// Grids this generator works on: rectangular, with ten steps per cell counted in an
/// `i32`.
pub open spec fn small_grid<T>(g: Grid<T>) -> bool {
    &&& g.wf()
    &&& 0 <= g.rows_spec()
    &&& 0 <= g.cols_spec()
    &&& g.rows_spec() * g.cols_spec() * 10 <= i32::MAX
}

/// A board with some cell has sides of at most a tenth of the `i32` range.
proof fn lemma_small_sides<T>(g: Grid<T>)
    requires
        small_grid(g),
        g.rows_spec() >= 1,
        g.cols_spec() >= 1,
    ensures
        g.rows_spec() <= 0x0CCC_CCCC,
        g.cols_spec() <= 0x0CCC_CCCC,
{
    let r = g.rows_spec();
    let c = g.cols_spec();
    assert(r <= 0x0CCC_CCCC && c <= 0x0CCC_CCCC) by (nonlinear_arith)
        requires
            r >= 1,
            c >= 1,
            r * c * 10 <= 0x7FFF_FFFF,
    ;
}

/// Both grids have the same shape.
pub open spec fn same_shape<T, U>(a: Grid<T>, b: Grid<U>) -> bool {
    a.rows_spec() == b.rows_spec() && a.cols_spec() == b.cols_spec()
}

// ---------------------------------------------------------------------------
// Forced clues
// ---------------------------------------------------------------------------
/// The number of cells of row `y` before column `x` where a clue is forced.
pub open spec fn forced_in_row(g: Grid<ClueConstraint>, y: int, x: int) -> int
    decreases x,
{
    if x <= 0 {
        0
    } else {
        forced_in_row(g, y, x - 1) + if g.at(y, x - 1) == ClueConstraint::Forced {
            1int
        } else {
            0
        }
    }
}

/// The number of cells of the rows before `y` where a clue is forced.
pub open spec fn forced_before(g: Grid<ClueConstraint>, y: int) -> int
    decreases y,
{
    if y <= 0 {
        0
    } else {
        forced_before(g, y - 1) + forced_in_row(g, y - 1, g.cols_spec())
    }
}

proof fn lemma_forced_in_row_bound(g: Grid<ClueConstraint>, y: int, x: int)
    requires
        0 <= x,
    ensures
        0 <= forced_in_row(g, y, x) <= x,
    decreases x,
{
    if x > 0 {
        lemma_forced_in_row_bound(g, y, x - 1);
    }
}

proof fn lemma_forced_before_bound(g: Grid<ClueConstraint>, y: int)
    requires
        0 <= y,
        0 <= g.cols_spec(),
    ensures
        0 <= forced_before(g, y) <= y * g.cols_spec(),
    decreases y,
{
    if y > 0 {
        lemma_forced_before_bound(g, y - 1);
        lemma_forced_in_row_bound(g, y - 1, g.cols_spec());
        assert((y - 1) * g.cols_spec() + g.cols_spec() == y * g.cols_spec()) by (nonlinear_arith);
    }
}

/// The cells where the constraints force a clue, and how many there are.
pub fn forced_clues(constraint: &Grid<ClueConstraint>) -> (r: (Grid<bool>, i32))
    requires
        small_grid(*constraint),
    ensures
        r.0.wf(),
        same_shape(r.0, *constraint),
        forall|y: int, x: int|
            r.0.contains(y, x) ==> #[trigger] r.0.at(y, x) == (constraint.at(y, x)
                == ClueConstraint::Forced),
        r.1 == forced_before(*constraint, constraint.rows_spec()),
        r.1 == mark_count(r.0),
{
    let height = constraint.height();
    let width = constraint.width();
    let mut has_clue = Grid::new(height, width, false);
    let mut n_clues: i32 = 0;
    let mut y: i32 = 0;
    while y < height
        invariant
            small_grid(*constraint),
            has_clue.wf(),
            height == constraint.rows_spec(),
            width == constraint.cols_spec(),
            same_shape(has_clue, *constraint),
            0 <= y <= height,
            forall|i: int, j: int|
                has_clue.contains(i, j) ==> #[trigger] has_clue.at(i, j) == (i < y && constraint.at(
                    i,
                    j,
                ) == ClueConstraint::Forced),
            n_clues == forced_before(*constraint, y as int),
        decreases height - y,
    {
        proof {
            lemma_forced_before_bound(*constraint, y as int);
            assert(y * width <= 0x0CCC_CCCC) by (nonlinear_arith)
                requires
                    0 <= y < height,
                    0 <= width,
                    height * width * 10 <= 0x7FFF_FFFF,
            ;
            if width >= 1 {
                lemma_small_sides(*constraint);
            }
        }
        let ghost base = n_clues;
        let mut x: i32 = 0;
        while x < width
            invariant
                small_grid(*constraint),
                has_clue.wf(),
                height == constraint.rows_spec(),
                width == constraint.cols_spec(),
                same_shape(has_clue, *constraint),
                0 <= y < height,
                0 <= x <= width,
                forall|i: int, j: int|
                    has_clue.contains(i, j) ==> #[trigger] has_clue.at(i, j) == ((i < y || (i == y
                        && j < x)) && constraint.at(i, j) == ClueConstraint::Forced),
                base == forced_before(*constraint, y as int),
                0 <= base <= 0x1000_0000,
                width <= 0x0CCC_CCCC,
                n_clues == base + forced_in_row(*constraint, y as int, x as int),
            decreases width - x,
        {
            proof {
                lemma_forced_in_row_bound(*constraint, y as int, x as int);
            }
            if constraint.get(y, x) == ClueConstraint::Forced {
                has_clue.set(y, x, true);
                n_clues += 1;
            }
            x += 1;
        }
        y += 1;
    }
    proof {
        lemma_forced_count_is_marks(*constraint, has_clue, n_clues as int);
    }
    (has_clue, n_clues)
}

// ---------------------------------------------------------------------------
// Choosing the cells to change
// ---------------------------------------------------------------------------
/// The cell `(y, x)` lies next to (but is not) its own point reflection through the
/// centre of a `height` by `width` grid.
pub open spec fn near_own_mirror_spec(height: int, width: int, y: int, x: int) -> bool {
    let y2 = height - 1 - y;
    let x2 = width - 1 - x;
    -1 <= y - y2 <= 1 && -1 <= x - x2 <= 1 && (y != y2 || x != x2)
}

proof fn lemma_square_small(d: int)
    ensures
        d * d >= 0,
        d * d == 0 <==> d == 0,
        d * d <= 2 <==> -1 <= d <= 1,
        -1 <= d <= 1 ==> d * d <= 1,
{
    assert(d * d >= 0) by (nonlinear_arith);
    assert(d * d == 0 <==> d == 0) by (nonlinear_arith);
    assert(d >= 2 ==> d * d >= 4) by (nonlinear_arith);
    assert(d <= -2 ==> d * d >= 4) by (nonlinear_arith);
    assert(-1 <= d <= 1 ==> d * d <= 1) by (nonlinear_arith);
}

/// Being next to one's own point reflection holds of a cell exactly when it holds of
/// its reflection, and exactly when the cell and its reflection differ but lie within
/// one row and one column of each other (their squared distance is 1 or 2).
pub proof fn lemma_near_own_mirror(height: int, width: int, y: int, x: int)
    ensures
        near_own_mirror_spec(height, width, y, x) == near_own_mirror_spec(
            height,
            width,
            height - 1 - y,
            width - 1 - x,
        ),
        near_own_mirror_spec(height, width, y, x) <==> 0 < (y - (height - 1 - y)) * (y - (height
            - 1 - y)) + (x - (width - 1 - x)) * (x - (width - 1 - x)) <= 2,
{
    lemma_square_small(y - (height - 1 - y));
    lemma_square_small(x - (width - 1 - x));
}

/// No other cell of the 3 by 3 block around `(y, x)` holds a clue.
pub open spec fn no_clue_around_spec(has_clue: Grid<bool>, y: int, x: int) -> bool {
    forall|dy: int, dx: int|
        -1 <= dy <= 1 && -1 <= dx <= 1 && (dy != 0 || dx != 0) && has_clue.contains(y + dy, x + dx)
            ==> !#[trigger] has_clue.at(y + dy, x + dx)
}

/// Some cell of the 5 by 5 block around `(y, x)` is undecided.
pub open spec fn undecided_near_spec(undecided: Grid<bool>, y: int, x: int) -> bool {
    exists|dy: int, dx: int|
        -2 <= dy <= 2 && -2 <= dx <= 2 && undecided.contains(y + dy, x + dx)
            && #[trigger] undecided.at(y + dy, x + dx)
}

/// Whether no other cell of the 3 by 3 block around `(y, x)` holds a clue.
pub fn no_clue_around(has_clue: &Grid<bool>, y: i32, x: i32) -> (r: bool)
    requires
        small_grid(*has_clue),
        has_clue.contains(y as int, x as int),
    ensures
        r == no_clue_around_spec(*has_clue, y as int, x as int),
{
    proof {
        lemma_small_sides(*has_clue);
    }
    let mut isok = true;
    let mut dy: i32 = -1;
    while dy < 2
        invariant
            small_grid(*has_clue),
            has_clue.contains(y as int, x as int),
            has_clue.rows_spec() <= 0x0CCC_CCCC,
            has_clue.cols_spec() <= 0x0CCC_CCCC,
            -1 <= dy <= 2,
            isok == forall|ey: int, ex: int|
                -1 <= ey < dy && -1 <= ex <= 1 && (ey != 0 || ex != 0) && has_clue.contains(
                    y + ey,
                    x + ex,
                ) ==> !#[trigger] has_clue.at(y + ey, x + ex),
        decreases 2 - dy,
    {
        let mut dx: i32 = -1;
        while dx < 2
            invariant
                small_grid(*has_clue),
                has_clue.contains(y as int, x as int),
                has_clue.rows_spec() <= 0x0CCC_CCCC,
                has_clue.cols_spec() <= 0x0CCC_CCCC,
                -1 <= dy < 2,
                -1 <= dx <= 2,
                isok == forall|ey: int, ex: int|
                    ((-1 <= ey < dy && -1 <= ex <= 1) || (ey == dy && -1 <= ex < dx)) && (ey != 0
                        || ex != 0) && has_clue.contains(y + ey, x + ex) ==> !#[trigger] has_clue.at(
                        y + ey,
                        x + ex,
                    ),
            decreases 2 - dx,
        {
            if (dy != 0 || dx != 0) && has_clue.is_valid_coord(y + dy, x + dx) && has_clue.get(
                y + dy,
                x + dx,
            ) {
                isok = false;
            }
            dx += 1;
        }
        dy += 1;
    }
    isok
}

/// Whether some cell of the 5 by 5 block around `(y, x)` is undecided.
pub fn undecided_near(undecided: &Grid<bool>, y: i32, x: i32) -> (r: bool)
    requires
        small_grid(*undecided),
        undecided.contains(y as int, x as int),
    ensures
        r == undecided_near_spec(*undecided, y as int, x as int),
{
    proof {
        lemma_small_sides(*undecided);
    }
    let mut isok2 = false;
    let mut dy: i32 = -2;
    while dy < 3
        invariant
            small_grid(*undecided),
            undecided.contains(y as int, x as int),
            undecided.rows_spec() <= 0x0CCC_CCCC,
            undecided.cols_spec() <= 0x0CCC_CCCC,
            -2 <= dy <= 3,
            isok2 == exists|ey: int, ex: int|
                -2 <= ey < dy && -2 <= ex <= 2 && undecided.contains(y + ey, x + ex)
                    && #[trigger] undecided.at(y + ey, x + ex),
        decreases 3 - dy,
    {
        let mut dx: i32 = -2;
        while dx < 3
            invariant
                small_grid(*undecided),
                undecided.contains(y as int, x as int),
                undecided.rows_spec() <= 0x0CCC_CCCC,
                undecided.cols_spec() <= 0x0CCC_CCCC,
                -2 <= dy < 3,
                -2 <= dx <= 3,
                isok2 == exists|ey: int, ex: int|
                    ((-2 <= ey < dy && -2 <= ex <= 2) || (ey == dy && -2 <= ex < dx))
                        && undecided.contains(y + ey, x + ex) && #[trigger] undecided.at(
                        y + ey,
                        x + ex,
                    ),
            decreases 3 - dx,
        {
            if undecided.is_valid_coord(y + dy, x + dx) && undecided.get(y + dy, x + dx) {
                isok2 = true;
            }
            dx += 1;
        }
        dy += 1;
    }
    isok2
}

/// Whether the cell `(y, x)` lies next to (but is not) its own point reflection.
pub fn near_own_mirror(height: i32, width: i32, y: i32, x: i32) -> (r: bool)
    requires
        0 <= y < height,
        0 <= x < width,
    ensures
        r == near_own_mirror_spec(height as int, width as int, y as int, x as int),
{
    let y2 = height - 1 - y;
    let x2 = width - 1 - x;
    -1 <= y - y2 && y - y2 <= 1 && -1 <= x - x2 && x - x2 <= 1 && (y != y2 || x != x2)
}

/// Whether the generator considers changing the clue of a cell.
#[derive(Clone, Copy, Debug, PartialEq, Eq, Structural)]
pub enum UpdateTarget {
    /// The cell is left as it is.
    Skip,
    /// The cell's clue may change.
    Candidate,
    /// The cell's clue may change if a random draw in `[0, 1)` falls below 1.
    AfterDraw,
}

/// Whether the generator considers changing the clue of the cell `(y, x)`: not a black
/// cell, nor one where clues are prohibited, nor one next to its own reflection; then a
/// cell marked for a clue that has none yet, or a cell with no clue around it and some
/// undecided cell near it (one without a clue only after a random draw).
pub open spec fn update_target_spec(
    constraint: Grid<ClueConstraint>,
    black: Grid<bool>,
    undecided: Grid<bool>,
    has_clue: Grid<bool>,
    problem: Grid<Clue>,
    y: int,
    x: int,
) -> UpdateTarget {
    if black.at(y, x) || constraint.at(y, x) == ClueConstraint::Prohibited {
        UpdateTarget::Skip
    } else if near_own_mirror_spec(constraint.rows_spec(), constraint.cols_spec(), y, x) {
        UpdateTarget::Skip
    } else if has_clue.at(y, x) && problem.at(y, x) == NO_CLUE {
        UpdateTarget::Candidate
    } else if no_clue_around_spec(has_clue, y, x) && undecided_near_spec(undecided, y, x) {
        if problem.at(y, x) != NO_CLUE {
            UpdateTarget::Candidate
        } else {
            UpdateTarget::AfterDraw
        }
    } else {
        UpdateTarget::Skip
    }
}

/// The generator never considers putting a clue on a cell where clues are prohibited,
/// nor on a black cell.
pub proof fn lemma_prohibited_never_tried(
    constraint: Grid<ClueConstraint>,
    black: Grid<bool>,
    undecided: Grid<bool>,
    has_clue: Grid<bool>,
    problem: Grid<Clue>,
    y: int,
    x: int,
)
    requires
        constraint.at(y, x) == ClueConstraint::Prohibited || black.at(y, x),
    ensures
        update_target_spec(constraint, black, undecided, has_clue, problem, y, x)
            == UpdateTarget::Skip,
{
}

/// Whether the generator considers changing the clue of the cell `(y, x)`.
pub fn update_target(
    constraint: &Grid<ClueConstraint>,
    black: &Grid<bool>,
    undecided: &Grid<bool>,
    has_clue: &Grid<bool>,
    problem: &Grid<Clue>,
    y: i32,
    x: i32,
) -> (r: UpdateTarget)
    requires
        small_grid(*constraint),
        small_grid(*black),
        small_grid(*undecided),
        small_grid(*has_clue),
        small_grid(*problem),
        same_shape(*constraint, *black),
        same_shape(*constraint, *undecided),
        same_shape(*constraint, *has_clue),
        same_shape(*constraint, *problem),
        constraint.contains(y as int, x as int),
    ensures
        r == update_target_spec(*constraint, *black, *undecided, *has_clue, *problem, y as int, x as int),
{
    if black.get(y, x) || constraint.get(y, x) == ClueConstraint::Prohibited {
        return UpdateTarget::Skip;
    }
    if near_own_mirror(constraint.height(), constraint.width(), y, x) {
        return UpdateTarget::Skip;
    }
    let isok = no_clue_around(has_clue, y, x);
    let isok2 = undecided_near(undecided, y, x);
    if has_clue.get(y, x) && problem.get(y, x) == NO_CLUE {
        UpdateTarget::Candidate
    } else if isok && isok2 {
        if problem.get(y, x) != NO_CLUE {
            UpdateTarget::Candidate
        } else {
            UpdateTarget::AfterDraw
        }
    } else {
        UpdateTarget::Skip
    }
}

// ---------------------------------------------------------------------------
// The clues to try
// ---------------------------------------------------------------------------
/// The generator tries the clue `v` on a cell holding `current`: not removing a forced
/// clue, not the clue kinds 0, 21 and 22, and not the clue the cell holds.
pub open spec fn clue_tried(constraint: ClueConstraint, current: Clue, v: int) -> bool {
    &&& !(v == -1 && constraint == ClueConstraint::Forced)
    &&& v != 0 && v != 21 && v != 22
    &&& v != current
}

/// The clues from `v` up to (not including) `end` the generator tries, in order.
pub open spec fn clues_tried_from(constraint: ClueConstraint, current: Clue, v: int, end: int) -> Seq<Clue>
    decreases end - v,
{
    if v >= end {
        Seq::empty()
    } else if clue_tried(constraint, current, v) {
        seq![v as i32] + clues_tried_from(constraint, current, v + 1, end)
    } else {
        clues_tried_from(constraint, current, v + 1, end)
    }
}

/// The clues the generator tries on a cell holding `current`, among no clue (-1) and
/// the clue kinds below `clue_types`.
pub fn clue_candidates(constraint: ClueConstraint, current: Clue, clue_types: i32) -> (r: Vec<Clue>)
    ensures
        r@ == clues_tried_from(constraint, current, -1, clue_types as int),
{
    let mut result: Vec<Clue> = Vec::new();
    let mut v: i32 = -1;
    if clue_types < -1 {
        return result;
    }
    while v < clue_types
        invariant
            -1 <= v <= clue_types,
            result@ + clues_tried_from(constraint, current, v as int, clue_types as int)
                == clues_tried_from(constraint, current, -1, clue_types as int),
        decreases clue_types - v,
    {
        let ghost rest = clues_tried_from(constraint, current, v + 1, clue_types as int);
        if !(v == -1 && constraint == ClueConstraint::Forced) && v != 0 && v != 21 && v != 22
            && v != current {
            result.push(v);
            assert(result@ + rest =~= clues_tried_from(constraint, current, -1, clue_types as int));
        }
        v += 1;
    }
    assert(clues_tried_from(constraint, current, v as int, clue_types as int) =~= Seq::<Clue>::empty());
    assert(result@ =~= clues_tried_from(constraint, current, -1, clue_types as int));
    result
}

// ---------------------------------------------------------------------------
// Counting clues
// ---------------------------------------------------------------------------
/// The number of clues after putting `clue` on `(y, x)` and keeping the problem point
/// symmetric: removing a clue removes its reflection too (unless the reflection had no
/// clue, or is the cell itself); adding one counts the cell and its reflection where they
/// are not yet marked for clues.
pub open spec fn clue_count_after_spec(
    problem: Grid<Clue>,
    has_clue: Grid<bool>,
    n_clues: int,
    y: int,
    x: int,
    clue: Clue,
) -> int {
    let y2 = problem.rows_spec() - 1 - y;
    let x2 = problem.cols_spec() - 1 - x;
    let center = y == y2 && x == x2;
    if clue == NO_CLUE {
        if center {
            n_clues - 1
        } else if problem.at(y2, x2) == NO_CLUE {
            n_clues - 2
        } else {
            n_clues
        }
    } else {
        n_clues + (if !has_clue.at(y, x) {
            1int
        } else {
            0
        }) + (if !center && !has_clue.at(y2, x2) {
            1int
        } else {
            0
        })
    }
}

/// The number of clues after putting `clue` on `(y, x)` (see `clue_count_after_spec`).
pub fn clue_count_after(
    problem: &Grid<Clue>,
    has_clue: &Grid<bool>,
    n_clues: i32,
    y: i32,
    x: i32,
    clue: Clue,
) -> (r: i32)
    requires
        small_grid(*problem),
        small_grid(*has_clue),
        same_shape(*problem, *has_clue),
        problem.contains(y as int, x as int),
        i32::MIN <= clue_count_after_spec(*problem, *has_clue, n_clues as int, y as int, x as int, clue) <= i32::MAX,
    ensures
        r == clue_count_after_spec(*problem, *has_clue, n_clues as int, y as int, x as int, clue),
{
    let height = problem.height();
    let width = problem.width();
    let y2 = height - 1 - y;
    let x2 = width - 1 - x;
    let mut n_clues2 = n_clues;
    if clue == NO_CLUE {
        if y == y2 && x == x2 {
            n_clues2 -= 1;
        } else if problem.get(y2, x2) == NO_CLUE {
            n_clues2 -= 2;
        }
    } else {
        if !has_clue.get(y, x) {
            n_clues2 += 1;
        }
        if !(y == y2 && x == x2) && !has_clue.get(y2, x2) {
            n_clues2 += 1;
        }
    }
    n_clues2
}

/// Whether a problem with `n` clues exceeds the limit `max_clue`, if there is one.
pub fn exceeds_max_clue(max_clue: Option<i32>, n: i32) -> (r: bool)
    ensures
        r == match max_clue {
            Some(m) => m < n,
            None => false,
        },
{
    match max_clue {
        Some(m) => m < n,
        None => false,
    }
}

/// The energy of a candidate problem: the number of cells its clues decide, less four for
/// each clue.
pub fn energy(decided_cells: i32, n_clues: i32) -> (r: i32)
    requires
        i32::MIN <= 4 * n_clues <= i32::MAX,
        i32::MIN <= decided_cells - 4 * n_clues <= i32::MAX,
    ensures
        r == decided_cells - 4 * n_clues,
{
    decided_cells - 4 * n_clues
}

/// Whether `(i, j)` is marked for a clue after the change of `(y, x)` to `clue` was
/// accepted: a new clue marks the cell and its reflection; a removed clue unmarks both
/// when the reflection holds no clue either; other cells keep their mark.
pub open spec fn marked_spec(
    before: Grid<bool>,
    problem: Grid<Clue>,
    y: int,
    x: int,
    clue: Clue,
    i: int,
    j: int,
) -> bool {
    let y2 = problem.rows_spec() - 1 - y;
    let x2 = problem.cols_spec() - 1 - x;
    if (i == y && j == x) || (i == y2 && j == x2) {
        if clue == NO_CLUE {
            if problem.at(y2, x2) == NO_CLUE {
                false
            } else {
                before.at(i, j)
            }
        } else {
            true
        }
    } else {
        before.at(i, j)
    }
}

/// The marks are point-symmetric through the centre of the grid.
pub open spec fn point_symmetric(g: Grid<bool>) -> bool {
    forall|i: int, j: int|
        g.contains(i, j) ==> #[trigger] g.at(i, j) == g.at(
            g.rows_spec() - 1 - i,
            g.cols_spec() - 1 - j,
        )
}

/// Accepting a change keeps the clue marks point-symmetric.
pub proof fn lemma_marks_stay_symmetric(
    before: Grid<bool>,
    after: Grid<bool>,
    problem: Grid<Clue>,
    y: int,
    x: int,
    clue: Clue,
)
    requires
        point_symmetric(before),
        same_shape(before, problem),
        same_shape(after, problem),
        problem.contains(y, x),
        forall|i: int, j: int|
            after.contains(i, j) ==> #[trigger] after.at(i, j) == marked_spec(
                before,
                problem,
                y,
                x,
                clue,
                i,
                j,
            ),
    ensures
        point_symmetric(after),
{
    assert forall|i: int, j: int| after.contains(i, j) implies #[trigger] after.at(i, j)
        == after.at(after.rows_spec() - 1 - i, after.cols_spec() - 1 - j) by {
        let i2 = after.rows_spec() - 1 - i;
        let j2 = after.cols_spec() - 1 - j;
        assert(after.contains(i2, j2));
        assert(before.at(i, j) == before.at(i2, j2));
    }
}

/// Marks the cells that hold clues after the change of `(y, x)` to `clue` was accepted:
/// a new clue marks the cell and its reflection; a removed clue unmarks both once the
/// reflection holds no clue either.
pub fn mark_clues(has_clue: &mut Grid<bool>, problem: &Grid<Clue>, y: i32, x: i32, clue: Clue)
    requires
        small_grid(*old(has_clue)),
        small_grid(*problem),
        same_shape(*old(has_clue), *problem),
        problem.contains(y as int, x as int),
    ensures
        final(has_clue).wf(),
        same_shape(*final(has_clue), *problem),
        forall|i: int, j: int|
            final(has_clue).contains(i, j) ==> #[trigger] final(has_clue).at(i, j) == marked_spec(
                *old(has_clue),
                *problem,
                y as int,
                x as int,
                clue,
                i,
                j,
            ),
{
    let y2 = problem.height() - 1 - y;
    let x2 = problem.width() - 1 - x;
    if clue == NO_CLUE {
        if problem.get(y2, x2) == NO_CLUE {
            has_clue.set(y, x, false);
            has_clue.set(y2, x2, false);
        }
    } else {
        has_clue.set(y, x, true);
        has_clue.set(y2, x2, true);
    }
}

/// Every cell marked for a clue holds one.
pub open spec fn clues_filled_spec(has_clue: Grid<bool>, problem: Grid<Clue>) -> bool {
    forall|y: int, x: int|
        has_clue.contains(y, x) && #[trigger] has_clue.at(y, x) ==> problem.at(y, x) != NO_CLUE
}

/// Whether every cell marked for a clue holds one.
pub fn clues_filled(has_clue: &Grid<bool>, problem: &Grid<Clue>) -> (r: bool)
    requires
        small_grid(*has_clue),
        small_grid(*problem),
        same_shape(*has_clue, *problem),
    ensures
        r == clues_filled_spec(*has_clue, *problem),
{
    let height = has_clue.height();
    let width = has_clue.width();
    let mut clue_filled = true;
    let mut y: i32 = 0;
    while y < height
        invariant
            small_grid(*has_clue),
            small_grid(*problem),
            same_shape(*has_clue, *problem),
            height == has_clue.rows_spec(),
            width == has_clue.cols_spec(),
            0 <= y <= height,
            clue_filled == forall|i: int, j: int|
                0 <= i < y && has_clue.contains(i, j) && #[trigger] has_clue.at(i, j) ==> problem.at(
                    i,
                    j,
                ) != NO_CLUE,
        decreases height - y,
    {
        let mut x: i32 = 0;
        while x < width
            invariant
                small_grid(*has_clue),
                small_grid(*problem),
                same_shape(*has_clue, *problem),
                height == has_clue.rows_spec(),
                width == has_clue.cols_spec(),
                0 <= y < height,
                0 <= x <= width,
                clue_filled == forall|i: int, j: int|
                    (0 <= i < y || (i == y && j < x)) && has_clue.contains(i, j)
                        && #[trigger] has_clue.at(i, j) ==> problem.at(i, j) != NO_CLUE,
            decreases width - x,
        {
            if has_clue.get(y, x) && problem.get(y, x) == NO_CLUE {
                clue_filled = false;
            }
            x += 1;
        }
        y += 1;
    }
    clue_filled
}

// ---------------------------------------------------------------------------
// Bookkeeping across accepted changes
// ---------------------------------------------------------------------------
/// The number of marked cells of row `y` before column `x`.
pub open spec fn marks_in_row(g: Grid<bool>, y: int, x: int) -> int
    decreases x,
{
    if x <= 0 {
        0
    } else {
        marks_in_row(g, y, x - 1) + if g.at(y, x - 1) {
            1int
        } else {
            0
        }
    }
}

/// The number of marked cells of the rows before `y`.
pub open spec fn marks_before(g: Grid<bool>, y: int) -> int
    decreases y,
{
    if y <= 0 {
        0
    } else {
        marks_before(g, y - 1) + marks_in_row(g, y - 1, g.cols_spec())
    }
}

/// The number of marked cells.
pub open spec fn mark_count(g: Grid<bool>) -> int {
    marks_before(g, g.rows_spec())
}

/// 1 for a mark, 0 for none.
pub open spec fn mark_value(b: bool) -> int {
    if b {
        1
    } else {
        0
    }
}

/// What a change at `(a, b)` and at `(a2, b2)` (which may be the same cell) adds to the
/// marks of row `y` before column `x`.
pub open spec fn row_change(
    before: Grid<bool>,
    after: Grid<bool>,
    a: int,
    b: int,
    a2: int,
    b2: int,
    y: int,
    x: int,
) -> int {
    (if y == a && b < x {
        mark_value(after.at(a, b)) - mark_value(before.at(a, b))
    } else {
        0
    }) + (if y == a2 && b2 < x && (a2 != a || b2 != b) {
        mark_value(after.at(a2, b2)) - mark_value(before.at(a2, b2))
    } else {
        0
    })
}

proof fn lemma_row_change(
    before: Grid<bool>,
    after: Grid<bool>,
    a: int,
    b: int,
    a2: int,
    b2: int,
    y: int,
    x: int,
)
    requires
        same_shape(before, after),
        before.contains(a, b),
        before.contains(a2, b2),
        0 <= y < before.rows_spec(),
        0 <= x <= before.cols_spec(),
        forall|i: int, j: int|
            before.contains(i, j) && (i != a || j != b) && (i != a2 || j != b2) ==> #[trigger] after.at(
                i,
                j,
            ) == before.at(i, j),
    ensures
        marks_in_row(after, y, x) == marks_in_row(before, y, x) + row_change(
            before,
            after,
            a,
            b,
            a2,
            b2,
            y,
            x,
        ),
    decreases x,
{
    if x > 0 {
        lemma_row_change(before, after, a, b, a2, b2, y, x - 1);
        if (y != a || x - 1 != b) && (y != a2 || x - 1 != b2) {
            assert(after.at(y, x - 1) == before.at(y, x - 1));
        }
    }
}

proof fn lemma_rows_change(
    before: Grid<bool>,
    after: Grid<bool>,
    a: int,
    b: int,
    a2: int,
    b2: int,
    y: int,
)
    requires
        same_shape(before, after),
        before.contains(a, b),
        before.contains(a2, b2),
        0 <= y <= before.rows_spec(),
        forall|i: int, j: int|
            before.contains(i, j) && (i != a || j != b) && (i != a2 || j != b2) ==> #[trigger] after.at(
                i,
                j,
            ) == before.at(i, j),
    ensures
        marks_before(after, y) == marks_before(before, y) + (if a < y {
            mark_value(after.at(a, b)) - mark_value(before.at(a, b))
        } else {
            0
        }) + (if a2 < y && (a2 != a || b2 != b) {
            mark_value(after.at(a2, b2)) - mark_value(before.at(a2, b2))
        } else {
            0
        }),
    decreases y,
{
    if y > 0 {
        lemma_rows_change(before, after, a, b, a2, b2, y - 1);
        lemma_row_change(before, after, a, b, a2, b2, y - 1, before.cols_spec());
    }
}

proof fn lemma_forced_marks(constraint: Grid<ClueConstraint>, marks: Grid<bool>, y: int)
    requires
        same_shape(marks, constraint),
        0 <= y <= constraint.rows_spec(),
        0 <= constraint.cols_spec(),
        forall|i: int, j: int|
            marks.contains(i, j) ==> #[trigger] marks.at(i, j) == (constraint.at(i, j)
                == ClueConstraint::Forced),
    ensures
        marks_before(marks, y) == forced_before(constraint, y),
    decreases y,
{
    if y > 0 {
        lemma_forced_marks(constraint, marks, y - 1);
        lemma_forced_row_marks(constraint, marks, y - 1, constraint.cols_spec());
    }
}

proof fn lemma_forced_row_marks(constraint: Grid<ClueConstraint>, marks: Grid<bool>, y: int, x: int)
    requires
        same_shape(marks, constraint),
        0 <= y < constraint.rows_spec(),
        0 <= x <= constraint.cols_spec(),
        forall|i: int, j: int|
            marks.contains(i, j) ==> #[trigger] marks.at(i, j) == (constraint.at(i, j)
                == ClueConstraint::Forced),
    ensures
        marks_in_row(marks, y, x) == forced_in_row(constraint, y, x),
    decreases x,
{
    if x > 0 {
        lemma_forced_row_marks(constraint, marks, y, x - 1);
        assert(marks.at(y, x - 1) == (constraint.at(y, x - 1) == ClueConstraint::Forced));
    }
}

/// The forced clues the generator starts from are counted right: the count that
/// `forced_clues` returns is the number of cells it marks.
pub proof fn lemma_forced_count_is_marks(constraint: Grid<ClueConstraint>, marks: Grid<bool>, n: int)
    requires
        same_shape(marks, constraint),
        0 <= constraint.rows_spec(),
        0 <= constraint.cols_spec(),
        forall|i: int, j: int|
            marks.contains(i, j) ==> #[trigger] marks.at(i, j) == (constraint.at(i, j)
                == ClueConstraint::Forced),
        n == forced_before(constraint, constraint.rows_spec()),
    ensures
        n == mark_count(marks),
{
    lemma_forced_marks(constraint, marks, constraint.rows_spec());
}

/// Every cell that holds a clue is marked for one.
pub open spec fn clues_marked(has_clue: Grid<bool>, problem: Grid<Clue>) -> bool {
    forall|i: int, j: int|
        problem.contains(i, j) && #[trigger] problem.at(i, j) != NO_CLUE ==> has_clue.at(i, j)
}

/// An accepted change keeps the generator's bookkeeping: when `(y, x)` of `before_problem`
/// changes to another clue `clue`, the change passes the limit on clues, and the marks
/// are updated by `mark_clues`, then the marks stay point-symmetric, every clue stays
/// marked, the clue count from `clue_count_after` is the number of marks, and it stays
/// within the limit.
pub proof fn lemma_accepted_change_keeps_books(
    before_marks: Grid<bool>,
    after_marks: Grid<bool>,
    before_problem: Grid<Clue>,
    after_problem: Grid<Clue>,
    n_clues: int,
    max_clue: Option<i32>,
    y: int,
    x: int,
    clue: Clue,
)
    requires
        same_shape(before_marks, before_problem),
        same_shape(after_marks, before_problem),
        same_shape(after_problem, before_problem),
        before_problem.contains(y, x),
        clue != before_problem.at(y, x),
        after_problem.at(y, x) == clue,
        forall|i: int, j: int|
            after_problem.contains(i, j) && (i, j) != (y, x) ==> #[trigger] after_problem.at(i, j)
                == before_problem.at(i, j),
        point_symmetric(before_marks),
        clues_marked(before_marks, before_problem),
        n_clues == mark_count(before_marks),
        !(match max_clue {
            Some(m) => m < clue_count_after_spec(before_problem, before_marks, n_clues, y, x, clue),
            None => false,
        }),
        forall|i: int, j: int|
            after_marks.contains(i, j) ==> #[trigger] after_marks.at(i, j) == marked_spec(
                before_marks,
                after_problem,
                y,
                x,
                clue,
                i,
                j,
            ),
    ensures
        point_symmetric(after_marks),
        clues_marked(after_marks, after_problem),
        clue_count_after_spec(before_problem, before_marks, n_clues, y, x, clue) == mark_count(
            after_marks,
        ),
        match max_clue {
            Some(m) => clue_count_after_spec(before_problem, before_marks, n_clues, y, x, clue)
                <= m,
            None => true,
        },
{
    lemma_marks_stay_symmetric(before_marks, after_marks, after_problem, y, x, clue);
    let y2 = before_problem.rows_spec() - 1 - y;
    let x2 = before_problem.cols_spec() - 1 - x;
    assert(before_problem.contains(y2, x2));
    assert forall|i: int, j: int|
        after_problem.contains(i, j) && #[trigger] after_problem.at(i, j) != NO_CLUE implies after_marks.at(
        i,
        j,
    ) by {
        if (i, j) != (y, x) {
            assert(after_problem.at(i, j) == before_problem.at(i, j));
        }
    }
    assert forall|i: int, j: int|
        before_marks.contains(i, j) && (i != y || j != x) && (i != y2 || j != x2) implies #[trigger] after_marks.at(
        i,
        j,
    ) == before_marks.at(i, j) by {}
    lemma_rows_change(before_marks, after_marks, y, x, y2, x2, before_marks.rows_spec());
    assert(before_marks.at(y2, x2) == before_marks.at(y, x));
    if y2 != y || x2 != x {
        assert(after_problem.at(y2, x2) == before_problem.at(y2, x2));
    }
    if clue == NO_CLUE {
        assert(before_problem.at(y, x) != NO_CLUE);
        assert(before_marks.at(y, x));
    }
}

} // verus!
