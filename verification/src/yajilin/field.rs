use vstd::prelude::*;

use crate::grid::Grid;
use crate::yajilin::{clue_number_spec, same_shape_spec, Cell, Clue, Edge};

verus! {

// ---------------------------------------------------------------------------
// Counting the blocked cells a clue can see
// ---------------------------------------------------------------------------
/// A decision about the cells in the sight of a clue, by their place along the ray.
#[derive(Clone, Copy, Debug, PartialEq, Eq, Structural)]
pub enum RayAction {
    /// The cell at this place must be blocked.
    Block(i32),
    /// The clue cannot be satisfied.
    Inconsistent,
}

/// Cells that may hold a block: undecided and already blocked ones.
pub open spec fn may_block(c: Cell) -> bool {
    c == Cell::Undecided || c == Cell::Blocked
}

/// The most blocks the first `j` cells of the ray are counted to hold (blocks are never
/// side by side; a cell that may hold one is counted as holding it, its neighbour before
/// it then as not).
pub open spec fn left_hi(c: Seq<Cell>, j: int) -> int
    decreases j,
{
    if j <= 0 {
        0
    } else if may_block(c[j - 1]) {
        left_hi(
            c,
            if j >= 2 {
                j - 2
            } else {
                0
            },
        ) + 1
    } else {
        left_hi(c, j - 1)
    }
}

/// The most blocks the cells of the ray from place `j` on are counted to hold.
pub open spec fn right_hi(c: Seq<Cell>, j: int) -> int
    decreases c.len() - j,
{
    if j < 0 || j >= c.len() {
        0
    } else if may_block(c[j]) {
        right_hi(
            c,
            if j + 2 <= c.len() {
                j + 2
            } else {
                c.len() as int
            },
        ) + 1
    } else {
        right_hi(c, j + 1)
    }
}

/// The decisions for the places of the ray from `i` on, for a clue that needs `n` blocks:
/// where the blocks counted on both sides of a place fall short of `n - 1` the clue is
/// unsatisfiable (and nothing more is decided); where they make exactly `n - 1`, the
/// place must be blocked.
pub open spec fn ray_actions_from(c: Seq<Cell>, n: int, i: int) -> Seq<RayAction>
    decreases c.len() - i,
{
    if i < 0 || i >= c.len() {
        Seq::empty()
    } else {
        let total = left_hi(c, i) + right_hi(c, i + 1);
        if total < n - 1 {
            seq![RayAction::Inconsistent]
        } else if total == n - 1 {
            seq![RayAction::Block(i as i32)] + ray_actions_from(c, n, i + 1)
        } else {
            ray_actions_from(c, n, i + 1)
        }
    }
}

proof fn lemma_left_hi_bounds(c: Seq<Cell>, j: int)
    requires
        0 <= j <= c.len(),
    ensures
        0 <= left_hi(c, j) <= j,
    decreases j,
{
    if j > 0 {
        lemma_left_hi_bounds(c, j - 1);
        if j >= 2 {
            lemma_left_hi_bounds(c, j - 2);
        }
    }
}

proof fn lemma_right_hi_bounds(c: Seq<Cell>, j: int)
    requires
        0 <= j <= c.len(),
    ensures
        0 <= right_hi(c, j) <= c.len() - j,
    decreases c.len() - j,
{
    if j < c.len() {
        lemma_right_hi_bounds(c, j + 1);
        if j + 2 <= c.len() {
            lemma_right_hi_bounds(c, j + 2);
        }
    }
}

/// The decisions for the cells in the sight of a clue that needs `n` blocks.
pub fn ray_actions(ray: &Vec<Cell>, n: i32) -> (r: Vec<RayAction>)
    requires
        ray.len() < 0x4000_0000,
        n > i32::MIN,
    ensures
        r@ == ray_actions_from(ray@, n as int, 0),
{
    let k = ray.len();
    let ghost c = ray@;
    let mut dp_left: Vec<i32> = Vec::new();
    dp_left.push(0);
    let mut i: usize = 0;
    while i < k
        invariant
            c == ray@,
            k == ray.len(),
            k < 0x4000_0000,
            i <= k,
            dp_left.len() == i + 1,
            forall|j: int| 0 <= j <= i ==> #[trigger] dp_left@[j] == left_hi(c, j),
        decreases k - i,
    {
        proof {
            lemma_left_hi_bounds(c, i as int);
            if i >= 1 {
                lemma_left_hi_bounds(c, i - 1);
            }
        }
        let v = match ray[i] {
            Cell::Undecided | Cell::Blocked => {
                let prev = if i >= 1 { i - 1 } else { 0 };
                dp_left[prev] + 1
            },
            Cell::Clue | Cell::Line => dp_left[i],
        };
        dp_left.push(v);
        i += 1;
    }
    let mut dp_right: Vec<i32> = Vec::new();
    let mut j: usize = 0;
    while j <= k
        invariant
            j <= k + 1,
            k < 0x4000_0000,
            dp_right.len() == j,
            forall|t: int| 0 <= t < j ==> #[trigger] dp_right@[t] == 0,
        decreases k + 1 - j,
    {
        dp_right.push(0);
        j += 1;
    }
    let mut i: usize = 0;
    while i < k
        invariant
            c == ray@,
            k == ray.len(),
            k < 0x4000_0000,
            i <= k,
            dp_right.len() == k + 1,
            dp_right@[k as int] == 0,
            forall|t: int| k - i <= t <= k ==> #[trigger] dp_right@[t] == right_hi(c, t),
        decreases k - i,
    {
        let idx = k - 1 - i;
        proof {
            lemma_right_hi_bounds(c, idx + 1);
            if idx + 2 <= k {
                lemma_right_hi_bounds(c, idx + 2);
            }
        }
        let v = match ray[idx] {
            Cell::Undecided | Cell::Blocked => {
                let next = if idx + 2 <= k { idx + 2 } else { k };
                dp_right[next] + 1
            },
            Cell::Clue | Cell::Line => dp_right[idx + 1],
        };
        dp_right.set(idx, v);
        i += 1;
    }
    let mut result: Vec<RayAction> = Vec::new();
    let mut i: usize = 0;
    while i < k
        invariant
            c == ray@,
            k == ray.len(),
            k < 0x4000_0000,
            n > i32::MIN,
            i <= k,
            dp_left.len() == k + 1,
            dp_right.len() == k + 1,
            forall|t: int| 0 <= t <= k ==> #[trigger] dp_left@[t] == left_hi(c, t),
            forall|t: int| 0 <= t <= k ==> #[trigger] dp_right@[t] == right_hi(c, t),
            result@ + ray_actions_from(c, n as int, i as int) == ray_actions_from(c, n as int, 0),
        decreases k - i,
    {
        proof {
            lemma_left_hi_bounds(c, i as int);
            lemma_right_hi_bounds(c, i + 1);
        }
        let left_hi = dp_left[i];
        let right_hi = dp_right[i + 1];
        let ghost rest = ray_actions_from(c, n as int, i + 1);
        if left_hi + right_hi < n - 1 {
            result.push(RayAction::Inconsistent);
            assert(result@ =~= ray_actions_from(c, n as int, 0)) by {
                assert(ray_actions_from(c, n as int, i as int) == seq![RayAction::Inconsistent]);
            }
            return result;
        } else if left_hi + right_hi == n - 1 {
            result.push(RayAction::Block(i as i32));
            assert(ray_actions_from(c, n as int, i as int) == seq![RayAction::Block(i as i32)]
                + rest);
        }
        assert(result@ + rest =~= ray_actions_from(c, n as int, 0));
        i += 1;
    }
    assert(ray_actions_from(c, n as int, k as int) == Seq::<RayAction>::empty());
    assert(result@ =~= ray_actions_from(c, n as int, 0));
    result
}

// ---------------------------------------------------------------------------
// Inspecting a clue
// ---------------------------------------------------------------------------
/// A decision taken when a clue is inspected, in the order they are carried out.
#[derive(Clone, Copy, Debug, PartialEq, Eq, Structural)]
pub enum ClueAction {
    /// The cell at `(y, x)` must be blocked.
    Block(i32, i32),
    /// The clue cannot be satisfied.
    Inconsistent,
}

/// The direction `(dy, dx)` an arrow clue points and its number.
pub open spec fn direction_spec(c: Clue) -> Option<(i32, i32, i32)> {
    match c {
        Clue::Up(n) => Some((-1i32, 0i32, n)),
        Clue::Left(n) => Some((0i32, -1i32, n)),
        Clue::Right(n) => Some((0i32, 1i32, n)),
        Clue::Down(n) => Some((1i32, 0i32, n)),
        _ => None,
    }
}

/// `(dy, dx)` is one of the four unit steps.
pub open spec fn unit_step(dy: int, dx: int) -> bool {
    ||| dy == 0 && (dx == 1 || dx == -1)
    ||| dx == 0 && (dy == 1 || dy == -1)
}

/// How many steps of `(dy, dx)` from `(y, x)` lead out of a grid of `rows` by `cols`.
pub open spec fn scan_measure(rows: int, cols: int, y: int, x: int, dy: int, dx: int) -> int {
    if dy < 0 {
        y + 1
    } else if dy > 0 {
        rows - y
    } else if dx < 0 {
        x + 1
    } else {
        cols - x
    }
}

/// Walking from `(y, x)` in unit steps `(dy, dx)`: the number of cells passed before the
/// border of the grid or a clue pointing the same way as `c`, and the number of that
/// clue (0 when the border comes first).
pub open spec fn ray_scan(g: Grid<Clue>, y: int, x: int, dy: int, dx: int, c: Clue) -> (int, int)
    decreases scan_measure(g.rows_spec(), g.cols_spec(), y, x, dy, dx),
{
    if !unit_step(dy, dx) || !g.contains(y, x) {
        (0, 0)
    } else if same_shape_spec(g.at(y, x), c) {
        (0, clue_number_spec(g.at(y, x)) as int)
    } else {
        let r = ray_scan(g, y + dy, x + dx, dy, dx, c);
        (r.0 + 1, r.1)
    }
}

/// The number the cells in the sight of the clue at `(y, x)` must hold fits an `i32`
/// (as does one less).
pub open spec fn clue_fits(clues: Grid<Clue>, y: int, x: int) -> bool {
    match direction_spec(clues.at(y, x)) {
        Some((dy, dx, n)) => {
            let sub = ray_scan(clues, y + dy, x + dx, dy as int, dx as int, clues.at(y, x)).1;
            i32::MIN < n - sub <= i32::MAX
        },
        None => true,
    }
}

/// A decision about the `i`-th cell of the ray from `(y, x)` towards `(dy, dx)`, placed
/// on the grid.
pub open spec fn placed_action(y: int, x: int, dy: int, dx: int, a: RayAction) -> ClueAction {
    match a {
        RayAction::Block(i) => ClueAction::Block((y + dy * (i + 1)) as i32, (x + dx * (i + 1)) as i32),
        RayAction::Inconsistent => ClueAction::Inconsistent,
    }
}

/// The decisions of an inspection of the clue at `(y, x)`: the cells it sees (up to the
/// border or the next clue pointing the same way, whose number it leaves to that clue)
/// are counted as `ray_actions_from` says.
pub open spec fn clue_actions_spec(clues: Grid<Clue>, cells: Grid<Cell>, y: int, x: int) -> Seq<
    ClueAction,
> {
    match direction_spec(clues.at(y, x)) {
        None => Seq::empty(),
        Some((dy, dx, n)) => {
            let scan = ray_scan(clues, y + dy, x + dx, dy as int, dx as int, clues.at(y, x));
            let ray = Seq::new(scan.0 as nat, |i: int| cells.at(y + dy * (i + 1), x + dx * (i + 1)));
            ray_actions_from(ray, n - scan.1, 0).map_values(
                |a: RayAction| placed_action(y, x, dy as int, dx as int, a),
            )
        },
    }
}

proof fn lemma_scan_inside(g: Grid<Clue>, y: int, x: int, dy: int, dx: int, c: Clue, j: int)
    requires
        0 <= j < ray_scan(g, y, x, dy, dx, c).0,
    ensures
        g.contains(y + dy * j, x + dx * j),
        unit_step(dy, dx),
    decreases j,
{
    if j > 0 {
        lemma_scan_inside(g, y + dy, x + dx, dy, dx, c, j - 1);
        assert(y + dy + dy * (j - 1) == y + dy * j) by (nonlinear_arith);
        assert(x + dx + dx * (j - 1) == x + dx * j) by (nonlinear_arith);
    }
}

proof fn lemma_scan_bound(g: Grid<Clue>, y: int, x: int, dy: int, dx: int, c: Clue)
    ensures
        ray_scan(g, y, x, dy, dx, c).0 == 0 || (unit_step(dy, dx) && g.contains(y, x) && ray_scan(g, y, x, dy, dx, c).0
            <= scan_measure(g.rows_spec(), g.cols_spec(), y, x, dy, dx)),
    decreases scan_measure(g.rows_spec(), g.cols_spec(), y, x, dy, dx),
{
    if unit_step(dy, dx) && g.contains(y, x) && !same_shape_spec(g.at(y, x), c) {
        lemma_scan_bound(g, y + dy, x + dx, dy, dx, c);
    }
}

proof fn lemma_scan_nonneg(g: Grid<Clue>, y: int, x: int, dy: int, dx: int, c: Clue)
    ensures
        ray_scan(g, y, x, dy, dx, c).0 >= 0,
    decreases scan_measure(g.rows_spec(), g.cols_spec(), y, x, dy, dx),
{
    if unit_step(dy, dx) && g.contains(y, x) && !same_shape_spec(g.at(y, x), c) {
        lemma_scan_nonneg(g, y + dy, x + dx, dy, dx, c);
    }
}

/// A clue only ever blocks cells in its sight: every place decided from `s` on lies
/// between `s` and the end of the ray.
pub proof fn lemma_actions_in_range(c: Seq<Cell>, n: int, s: int)
    requires
        0 <= s,
        c.len() <= i32::MAX,
    ensures
        forall|t: int|
            0 <= t < ray_actions_from(c, n, s).len() ==> match #[trigger] ray_actions_from(
                c,
                n,
                s,
            )[t] {
                RayAction::Block(i) => s <= i < c.len(),
                RayAction::Inconsistent => true,
            },
    decreases c.len() - s,
{
    if s < c.len() {
        lemma_actions_in_range(c, n, s + 1);
        let total = left_hi(c, s) + right_hi(c, s + 1);
        if total == n - 1 {
            let rest = ray_actions_from(c, n, s + 1);
            assert(ray_actions_from(c, n, s) == seq![RayAction::Block(s as i32)] + rest);
            assert forall|t: int| 0 <= t < ray_actions_from(c, n, s).len() implies match #[trigger] ray_actions_from(
                c,
                n,
                s,
            )[t] {
                RayAction::Block(i) => s <= i < c.len(),
                RayAction::Inconsistent => true,
            } by {
                if t > 0 {
                    assert(ray_actions_from(c, n, s)[t] == rest[t - 1]);
                }
            }
        }
    }
}

/// Walking from the clue `clue` at `(y, x)` towards `(dy, dx)`: the number of cells it
/// sees before the border or a clue pointing the same way, and that clue's number (0 at
/// the border).
fn sight(clues: &Grid<Clue>, y: i32, x: i32, dy: i32, dx: i32, clue: Clue) -> (r: (i32, i32))
    requires
        clues.wf(),
        clues.rows_spec() < 0x4000_0000,
        clues.cols_spec() < 0x4000_0000,
        clues.contains(y as int, x as int),
        unit_step(dy as int, dx as int),
    ensures
        r.0 == ray_scan(*clues, (y + dy) as int, (x + dx) as int, dy as int, dx as int, clue).0,
        r.1 == ray_scan(*clues, (y + dy) as int, (x + dx) as int, dy as int, dx as int, clue).1,
        0 <= r.0 < 0x4000_0000,
{
    let ghost scan = ray_scan(*clues, (y + dy) as int, (x + dx) as int, dy as int, dx as int, clue);
    let mut sub: i32 = 0;
    let mut involving_cells: i32 = 0;
    let mut cy: i32 = y + dy;
    let mut cx: i32 = x + dx;
    proof {
        lemma_scan_nonneg(*clues, cy as int, cx as int, dy as int, dx as int, clue);
        lemma_scan_bound(*clues, cy as int, cx as int, dy as int, dx as int, clue);
    }
    while clues.is_valid_coord(cy, cx)
        invariant_except_break
            sub == 0,
        invariant
            clues.wf(),
            clues.rows_spec() < 0x4000_0000,
            clues.cols_spec() < 0x4000_0000,
            unit_step(dy as int, dx as int),
            0 <= involving_cells,
            cy == y + dy * (involving_cells + 1),
            cx == x + dx * (involving_cells + 1),
            -1 <= cy <= clues.rows_spec(),
            -1 <= cx <= clues.cols_spec(),
            ray_scan(*clues, cy as int, cx as int, dy as int, dx as int, clue).0 >= 0,
            involving_cells + ray_scan(*clues, cy as int, cx as int, dy as int, dx as int, clue).0
                == scan.0,
            ray_scan(*clues, cy as int, cx as int, dy as int, dx as int, clue).1 == scan.1,
            0 <= scan.0 < 0x4000_0000,
        ensures
            sub == scan.1,
            involving_cells == scan.0,
        decreases scan_measure(
            clues.rows_spec(),
            clues.cols_spec(),
            cy as int,
            cx as int,
            dy as int,
            dx as int,
        ),
    {
        let c = clues.get(cy, cx);
        if c.same_shape(clue) {
            sub = c.clue_number();
            break;
        }
        proof {
            lemma_scan_nonneg(*clues, cy + dy, cx + dx, dy as int, dx as int, clue);
            assert(y + dy * (involving_cells + 1) + dy == y + dy * (involving_cells + 2))
                by (nonlinear_arith);
            assert(x + dx * (involving_cells + 1) + dx == x + dx * (involving_cells + 2))
                by (nonlinear_arith);
        }
        cy += dy;
        cx += dx;
        involving_cells += 1;
    }
    (involving_cells, sub)
}

/// Whether the number left for the cells in the sight of the clue at `(y, x)` fits, so
/// that `inspect_clue` may be called there.
pub fn clue_fits_check(clues: &Grid<Clue>, y: i32, x: i32) -> (r: bool)
    requires
        clues.wf(),
        clues.rows_spec() < 0x4000_0000,
        clues.cols_spec() < 0x4000_0000,
        clues.contains(y as int, x as int),
    ensures
        r == clue_fits(*clues, y as int, x as int),
{
    let clue = clues.get(y, x);
    let (dy, dx, n): (i32, i32, i32) = match clue {
        Clue::Up(n) => (-1, 0, n),
        Clue::Left(n) => (0, -1, n),
        Clue::Right(n) => (0, 1, n),
        Clue::Down(n) => (1, 0, n),
        _ => {
            return true;
        },
    };
    let (_, sub) = sight(clues, y, x, dy, dx, clue);
    let d: i64 = n as i64 - sub as i64;
    (i32::MIN as i64) < d && d <= (i32::MAX as i64)
}

/// The decisions taken when the clue at `(y, x)` is inspected.
pub fn inspect_clue(clues: &Grid<Clue>, cells: &Grid<Cell>, y: i32, x: i32) -> (r: Vec<ClueAction>)
    requires
        clues.wf(),
        cells.wf(),
        clues.rows_spec() == cells.rows_spec(),
        clues.cols_spec() == cells.cols_spec(),
        clues.rows_spec() < 0x4000_0000,
        clues.cols_spec() < 0x4000_0000,
        clues.contains(y as int, x as int),
        clue_fits(*clues, y as int, x as int),
    ensures
        r@ == clue_actions_spec(*clues, *cells, y as int, x as int),
{
    let clue = clues.get(y, x);
    let (dy, dx, n0): (i32, i32, i32) = match clue {
        Clue::Up(n) => (-1, 0, n),
        Clue::Left(n) => (0, -1, n),
        Clue::Right(n) => (0, 1, n),
        Clue::Down(n) => (1, 0, n),
        _ => {
            return Vec::new();
        },
    };
    let ghost scan = ray_scan(*clues, (y + dy) as int, (x + dx) as int, dy as int, dx as int, clue);
    let (involving_cells, sub) = sight(clues, y, x, dy, dx, clue);
    let n: i32 = n0 - sub;
    let ghost ray_spec = Seq::new(
        scan.0 as nat,
        |i: int| cells.at(y + dy * (i + 1), x + dx * (i + 1)),
    );
    let mut ray: Vec<Cell> = Vec::new();
    let mut i: i32 = 0;
    while i < involving_cells
        invariant
            clues.wf(),
            cells.wf(),
            clues.rows_spec() == cells.rows_spec(),
            clues.cols_spec() == cells.cols_spec(),
            clues.rows_spec() < 0x4000_0000,
            clues.cols_spec() < 0x4000_0000,
            involving_cells == scan.0,
            scan == ray_scan(*clues, (y + dy) as int, (x + dx) as int, dy as int, dx as int, clue),
            0 <= scan.0,
            ray_spec.len() == scan.0,
            forall|t: int| 0 <= t < scan.0 ==> #[trigger] ray_spec[t] == cells.at(y + dy * (t + 1), x + dx * (t + 1)),
            0 <= i <= involving_cells,
            ray@ =~= ray_spec.take(i as int),
        decreases involving_cells - i,
    {
        proof {
            lemma_scan_inside(*clues, (y + dy) as int, (x + dx) as int, dy as int, dx as int, clue, i as int);
            assert(y + dy + dy * i == y + dy * (i + 1)) by (nonlinear_arith);
            assert(x + dx + dx * i == x + dx * (i + 1)) by (nonlinear_arith);
        }
        let cell = cells.get(y + dy * (i + 1), x + dx * (i + 1));
        proof {
            assert(cell == ray_spec[i as int]);
            assert(ray_spec.take(i + 1) =~= ray_spec.take(i as int).push(cell));
        }
        ray.push(cell);
        i += 1;
    }
    assert(ray@ =~= ray_spec);
    let actions = ray_actions(&ray, n);
    proof {
        assert(ray_spec.len() < 0x4000_0000);
        lemma_actions_in_range(ray_spec, n as int, 0);
    }
    let mut out: Vec<ClueAction> = Vec::new();
    let mut j: usize = 0;
    while j < actions.len()
        invariant
            clues.wf(),
            clues.rows_spec() < 0x4000_0000,
            clues.cols_spec() < 0x4000_0000,
            clues.contains(y as int, x as int),
            unit_step(dy as int, dx as int),
            involving_cells == scan.0,
            0 <= scan.0 < 0x4000_0000,
            actions@ == ray_actions_from(ray_spec, n as int, 0),
            ray_spec.len() == scan.0,
            forall|t: int|
                0 <= t < actions@.len() ==> match #[trigger] actions@[t] {
                    RayAction::Block(i) => 0 <= i < ray_spec.len(),
                    RayAction::Inconsistent => true,
                },
            j <= actions.len(),
            out@ =~= actions@.take(j as int).map_values(|a: RayAction| placed_action(y as int, x as int, dy as int, dx as int, a)),
        decreases actions.len() - j,
    {
        let a = actions[j];
        proof {
            assert(actions@.take(j + 1) =~= actions@.take(j as int).push(a));
            assert(actions@.take(j + 1).map_values(|a: RayAction| placed_action(y as int, x as int, dy as int, dx as int, a)) =~= actions@.take(j as int).map_values(|a: RayAction| placed_action(y as int, x as int, dy as int, dx as int, a)).push(placed_action(y as int, x as int, dy as int, dx as int, a)));
        }
        match a {
            RayAction::Block(i) => {
                assert(-0x4000_0000 <= dy * (i + 1) <= 0x4000_0000) by (nonlinear_arith)
                    requires
                        -1 <= dy <= 1,
                        0 <= i < 0x4000_0000,
                ;
                assert(-0x4000_0000 <= dx * (i + 1) <= 0x4000_0000) by (nonlinear_arith)
                    requires
                        -1 <= dx <= 1,
                        0 <= i < 0x4000_0000,
                ;
                let by = y + dy * (i + 1);
                let bx = x + dx * (i + 1);
                assert((y + dy * (i + 1)) as i32 == by);
                assert((x + dx * (i + 1)) as i32 == bx);
                out.push(ClueAction::Block(by, bx));
            },
            RayAction::Inconsistent => {
                out.push(ClueAction::Inconsistent);
            },
        }
        j += 1;
    }
    assert(actions@.take(actions@.len() as int) =~= actions@);
    out
}

// ---------------------------------------------------------------------------
// The cells and edges of a new field
// ---------------------------------------------------------------------------
/// The cells of a new field: clue cells hold `Cell::Clue`, the others are undecided.
pub fn initial_cells(clues: &Grid<Clue>) -> (r: Grid<Cell>)
    requires
        clues.wf(),
    ensures
        r.wf(),
        r.rows_spec() == clues.rows_spec(),
        r.cols_spec() == clues.cols_spec(),
        forall|y: int, x: int|
            r.contains(y, x) ==> #[trigger] r.at(y, x) == if clues.at(y, x) != Clue::NoClue {
                Cell::Clue
            } else {
                Cell::Undecided
            },
{
    let height = clues.height();
    let width = clues.width();
    let mut cell = Grid::new(height, width, Cell::Undecided);
    for y in 0..height
        invariant
            clues.wf(),
            cell.wf(),
            height == clues.rows_spec(),
            width == clues.cols_spec(),
            0 <= width,
            cell.rows_spec() == height,
            cell.cols_spec() == width,
            forall|i: int, j: int|
                cell.contains(i, j) ==> #[trigger] cell.at(i, j) == if i < y && clues.at(i, j)
                    != Clue::NoClue {
                    Cell::Clue
                } else {
                    Cell::Undecided
                },
    {
        let mut x: i32 = 0;
        while x < width
            invariant
                0 <= x <= width,
                clues.wf(),
                cell.wf(),
                0 <= y < height,
                height == clues.rows_spec(),
                width == clues.cols_spec(),
                cell.rows_spec() == height,
                cell.cols_spec() == width,
                forall|i: int, j: int|
                    cell.contains(i, j) ==> #[trigger] cell.at(i, j) == if (i < y || (i == y && j
                        < x)) && clues.at(i, j) != Clue::NoClue {
                        Cell::Clue
                    } else {
                        Cell::Undecided
                    },
            decreases width - x,
        {
            if clues.get(y, x) != Clue::NoClue {
                cell.set(y, x, Cell::Clue);
            }
            x += 1;
        }
    }
    cell
}

/// The four edges around the cell `(y, x)`, in edge coordinates: above, below, left, right.
pub open spec fn cell_edges(y: int, x: int) -> Seq<(i32, i32)> {
    seq![
        ((2 * y - 1) as i32, (2 * x) as i32),
        ((2 * y + 1) as i32, (2 * x) as i32),
        ((2 * y) as i32, (2 * x - 1) as i32),
        ((2 * y) as i32, (2 * x + 1) as i32),
    ]
}

/// The edges around the clue cells of row `y` before column `x`, in order.
pub open spec fn row_clue_edges(g: Grid<Clue>, y: int, x: int) -> Seq<(i32, i32)>
    decreases x,
{
    if x <= 0 {
        Seq::empty()
    } else {
        row_clue_edges(g, y, x - 1) + if g.at(y, x - 1) != Clue::NoClue {
            cell_edges(y, x - 1)
        } else {
            Seq::empty()
        }
    }
}

/// The edges around the clue cells of the rows before `y`, in order.
pub open spec fn clue_edges_before(g: Grid<Clue>, y: int) -> Seq<(i32, i32)>
    decreases y,
{
    if y <= 0 {
        Seq::empty()
    } else {
        clue_edges_before(g, y - 1) + row_clue_edges(g, y - 1, g.cols_spec())
    }
}

/// The edges that a new field decides blank, in order: the four around each clue cell,
/// row by row.
pub fn clue_border_edges(clues: &Grid<Clue>) -> (r: Vec<(i32, i32)>)
    requires
        clues.wf(),
        clues.rows_spec() < 0x4000_0000,
        clues.cols_spec() < 0x4000_0000,
    ensures
        r@ == clue_edges_before(*clues, clues.rows_spec()),
{
    let height = clues.height();
    let width = clues.width();
    let mut edges: Vec<(i32, i32)> = Vec::new();
    for y in 0..height
        invariant
            clues.wf(),
            height == clues.rows_spec(),
            width == clues.cols_spec(),
            height < 0x4000_0000,
            0 <= width < 0x4000_0000,
            edges@ == clue_edges_before(*clues, y as int),
    {
        let ghost before = edges@;
        let mut x: i32 = 0;
        while x < width
            invariant
                0 <= x <= width,
                clues.wf(),
                0 <= y < height,
                height == clues.rows_spec(),
                width == clues.cols_spec(),
                height < 0x4000_0000,
                width < 0x4000_0000,
                edges@ =~= before + row_clue_edges(*clues, y as int, x as int),
            decreases width - x,
        {
            if clues.get(y, x) != Clue::NoClue {
                let ghost prev = edges@;
                edges.push((y * 2 - 1, x * 2));
                edges.push((y * 2 + 1, x * 2));
                edges.push((y * 2, x * 2 - 1));
                edges.push((y * 2, x * 2 + 1));
                assert(edges@ =~= prev + cell_edges(y as int, x as int));
            }
            assert(row_clue_edges(*clues, y as int, x + 1) == row_clue_edges(*clues, y as int, x as int) + if clues.at(y as int, x as int) != Clue::NoClue {
                cell_edges(y as int, x as int)
            } else {
                Seq::empty()
            });
            assert(edges@ =~= before + row_clue_edges(*clues, y as int, x + 1));
            x += 1;
        }
        assert(clue_edges_before(*clues, y + 1) == clue_edges_before(*clues, y as int) + row_clue_edges(*clues, y as int, clues.cols_spec()));
    }
    edges
}

// ---------------------------------------------------------------------------
// Deciding a cell
// ---------------------------------------------------------------------------
/// What deciding a cell does.
#[derive(Clone, Copy, Debug, PartialEq, Eq, Structural)]
pub enum CellPlan {
    /// The cell is decided otherwise already: the field is inconsistent.
    Conflict,
    /// The cell already has this value: nothing happens.
    Keep,
    /// The value is written and nothing follows.
    Write,
    /// The value (a line) is written and the loop around the cell is checked.
    WriteAndCheck,
    /// The value (a block) is written; each neighbour that is not a clue must carry the
    /// line, and each edge between the cell and a neighbour is blank.
    WriteAndBlockNeighbors,
}

/// What deciding a cell that holds `current` to `v` does.
pub open spec fn cell_plan_spec(current: Cell, v: Cell) -> CellPlan {
    if current != Cell::Undecided {
        if current != v {
            CellPlan::Conflict
        } else {
            CellPlan::Keep
        }
    } else {
        match v {
            Cell::Line => CellPlan::WriteAndCheck,
            Cell::Blocked => CellPlan::WriteAndBlockNeighbors,
            _ => CellPlan::Write,
        }
    }
}

/// What deciding a cell that holds `current` to `v` does.
pub fn cell_plan(current: Cell, v: Cell) -> (r: CellPlan)
    ensures
        r == cell_plan_spec(current, v),
{
    if current != Cell::Undecided {
        if current != v {
            return CellPlan::Conflict;
        }
        return CellPlan::Keep;
    }
    match v {
        Cell::Undecided => CellPlan::Write,
        Cell::Clue => CellPlan::Write,
        Cell::Line => CellPlan::WriteAndCheck,
        Cell::Blocked => CellPlan::WriteAndBlockNeighbors,
    }
}

/// The offset of the `d`-th neighbour: up, left, down, right.
pub open spec fn neighbor_offset_spec(d: int) -> (i32, i32) {
    if d == 0 {
        (-1i32, 0i32)
    } else if d == 1 {
        (0i32, -1i32)
    } else if d == 2 {
        (1i32, 0i32)
    } else {
        (0i32, 1i32)
    }
}

/// The offset of the `d`-th neighbour: up, left, down, right.
pub fn neighbor_offset(d: usize) -> (r: (i32, i32))
    requires
        d < 4,
    ensures
        r == neighbor_offset_spec(d as int),
{
    if d == 0 {
        (-1, 0)
    } else if d == 1 {
        (0, -1)
    } else if d == 2 {
        (1, 0)
    } else {
        (0, 1)
    }
}

/// The cell at `(y, x)`, where every place outside the field counts as a clue.
pub fn cell_or_clue(cells: &Grid<Cell>, y: i32, x: i32) -> (r: Cell)
    requires
        cells.wf(),
    ensures
        r == if cells.contains(y as int, x as int) {
            cells.at(y as int, x as int)
        } else {
            Cell::Clue
        },
{
    if cells.is_valid_coord(y, x) {
        cells.get(y, x)
    } else {
        Cell::Clue
    }
}

// ---------------------------------------------------------------------------
// Inspecting a vertex of the loop
// ---------------------------------------------------------------------------
/// What an inspection of a point of the loop grid decides.
#[derive(Clone, Copy, Debug, PartialEq, Eq, Structural)]
pub enum VertexRule {
    /// Nothing.
    Nothing,
    /// The line through the cell cannot go on: the field is inconsistent.
    Inconsistent,
    /// Every edge around the cell that is not blank carries the line.
    ExtendLines,
    /// Every neighbour across an undecided edge carries the line.
    SpreadLine,
    /// The clue of the cell is inspected.
    InspectClue,
}

/// What inspecting the point `(y, x)` of the loop grid decides, for a point at the centre
/// of a cell holding `cell` with `n_line` line edges and `n_undecided` undecided edges
/// around it.
pub open spec fn vertex_rule_spec(y: int, x: int, cell: Cell, n_line: int, n_undecided: int) -> VertexRule {
    if !(y % 2 == 0 && x % 2 == 0) {
        VertexRule::Nothing
    } else if cell == Cell::Line {
        if n_line + n_undecided <= 1 {
            VertexRule::Inconsistent
        } else if n_line + n_undecided <= 2 {
            VertexRule::ExtendLines
        } else {
            VertexRule::Nothing
        }
    } else if cell == Cell::Undecided {
        if n_line == 0 && n_undecided == 2 {
            VertexRule::SpreadLine
        } else {
            VertexRule::Nothing
        }
    } else if cell == Cell::Clue {
        VertexRule::InspectClue
    } else {
        VertexRule::Nothing
    }
}

/// Whether the point `(y, x)` of the loop grid is the centre of a cell.
pub fn is_cell_center(y: i32, x: i32) -> (r: bool)
    ensures
        r == (y % 2 == 0 && x % 2 == 0),
{
    y % 2 == 0 && x % 2 == 0
}

/// What inspecting the point `(y, x)` of the loop grid decides (see `vertex_rule_spec`).
pub fn vertex_rule(y: i32, x: i32, cell: Cell, n_line: i32, n_undecided: i32) -> (r: VertexRule)
    requires
        i32::MIN <= n_line + n_undecided <= i32::MAX,
    ensures
        r == vertex_rule_spec(y as int, x as int, cell, n_line as int, n_undecided as int),
{
    if !(y % 2 == 0 && x % 2 == 0) {
        return VertexRule::Nothing;
    }
    if cell == Cell::Line || cell == Cell::Undecided {
        if cell == Cell::Line {
            if n_line + n_undecided <= 1 {
                VertexRule::Inconsistent
            } else if n_line + n_undecided <= 2 {
                VertexRule::ExtendLines
            } else {
                VertexRule::Nothing
            }
        } else {
            if n_line == 0 && n_undecided == 2 {
                VertexRule::SpreadLine
            } else {
                VertexRule::Nothing
            }
        }
    } else if cell == Cell::Clue {
        VertexRule::InspectClue
    } else {
        VertexRule::Nothing
    }
}

/// Whether the rule acts on a neighbour across an edge in state `edge`: `ExtendLines`
/// decides the edge a line unless it is blank; `SpreadLine` puts the line on the
/// neighbouring cell when the edge is undecided.
pub fn acts_on_neighbor(rule: VertexRule, edge: Edge) -> (r: bool)
    ensures
        r == match rule {
            VertexRule::ExtendLines => edge != Edge::Blank,
            VertexRule::SpreadLine => edge == Edge::Undecided,
            _ => false,
        },
{
    match rule {
        VertexRule::ExtendLines => edge != Edge::Blank,
        VertexRule::SpreadLine => edge == Edge::Undecided,
        _ => false,
    }
}

/// The points of the loop grid to check after the edge `(y, x)` changed: the two cells
/// it joins.
pub fn neighborhood(y: i32, x: i32) -> (r: ((i32, i32), (i32, i32)))
    requires
        i32::MIN < y < i32::MAX,
        i32::MIN < x < i32::MAX,
    ensures
        r == if y % 2 == 0 {
            ((y, (x - 1) as i32), (y, (x + 1) as i32))
        } else {
            (((y - 1) as i32, x), ((y + 1) as i32, x))
        },
{
    if y % 2 == 0 {
        ((y, x - 1), (y, x + 1))
    } else {
        ((y - 1, x), (y + 1, x))
    }
}

} // verus!
