use vstd::prelude::*;

verus! {

/// A rectangular grid of `height` rows and `width` columns.
#[derive(Clone, Debug)]
pub struct Grid<T> {
    height: i32,
    width: i32,
    rows: Vec<Vec<T>>,
}

impl<T> Grid<T> {
    /// The grid is rectangular: `height` rows of `width` values each.
    pub closed spec fn wf(self) -> bool {
        &&& 0 <= self.height
        &&& 0 <= self.width
        &&& self.rows.len() == self.height
        &&& forall|y: int| 0 <= y < self.height ==> (#[trigger] self.rows@[y]).len() == self.width
    }

    /// The number of rows.
    pub closed spec fn rows_spec(self) -> int {
        self.height as int
    }

    /// The number of columns.
    pub closed spec fn cols_spec(self) -> int {
        self.width as int
    }

    /// The value at row `y`, column `x`.
    pub closed spec fn at(self, y: int, x: int) -> T {
        self.rows@[y]@[x]
    }

    /// `(y, x)` lies inside the grid.
    pub open spec fn contains(self, y: int, x: int) -> bool {
        0 <= y < self.rows_spec() && 0 <= x < self.cols_spec()
    }

}

impl<T: Copy> Grid<T> {
    /// A grid of `height` rows and `width` columns holding `v` everywhere.
    pub fn new(height: i32, width: i32, v: T) -> (g: Grid<T>)
        requires
            0 <= height,
            0 <= width,
        ensures
            g.wf(),
            g.rows_spec() == height,
            g.cols_spec() == width,
            forall|y: int, x: int| g.contains(y, x) ==> #[trigger] g.at(y, x) == v,
    {
        let mut rows: Vec<Vec<T>> = Vec::new();
        let mut y: i32 = 0;
        while y < height
            invariant
                0 <= y <= height,
                0 <= width,
                rows.len() == y,
                forall|i: int| 0 <= i < y ==> (#[trigger] rows@[i]).len() == width,
                forall|i: int, j: int| 0 <= i < y && 0 <= j < width ==> #[trigger] rows@[i]@[j] == v,
            decreases height - y,
        {
            let mut row: Vec<T> = Vec::new();
            let mut x: i32 = 0;
            while x < width
                invariant
                    0 <= x <= width,
                    row.len() == x,
                    forall|j: int| 0 <= j < x ==> #[trigger] row@[j] == v,
                decreases width - x,
            {
                row.push(v);
                x += 1;
            }
            rows.push(row);
            y += 1;
        }
        Grid { height, width, rows }
    }

    /// The number of rows.
    pub fn height(&self) -> (r: i32)
        requires
            self.wf(),
        ensures
            r == self.rows_spec(),
            r >= 0,
    {
        self.height
    }

    /// The number of columns.
    pub fn width(&self) -> (r: i32)
        requires
            self.wf(),
        ensures
            r == self.cols_spec(),
            r >= 0,
    {
        self.width
    }

    /// Whether `(y, x)` lies inside the grid.
    pub fn is_valid_coord(&self, y: i32, x: i32) -> (r: bool)
        requires
            self.wf(),
        ensures
            r == self.contains(y as int, x as int),
    {
        0 <= y && y < self.height && 0 <= x && x < self.width
    }

    /// The value at `(y, x)`.
    pub fn get(&self, y: i32, x: i32) -> (r: T)
        requires
            self.wf(),
            self.contains(y as int, x as int),
        ensures
            r == self.at(y as int, x as int),
    {
        self.rows[y as usize][x as usize]
    }

    /// Writes `v` at `(y, x)`; every other place keeps its value.
    pub fn set(&mut self, y: i32, x: i32, v: T)
        requires
            old(self).wf(),
            old(self).contains(y as int, x as int),
        ensures
            final(self).wf(),
            final(self).rows_spec() == old(self).rows_spec(),
            final(self).cols_spec() == old(self).cols_spec(),
            final(self).at(y as int, x as int) == v,
            forall|i: int, j: int|
                final(self).contains(i, j) && (i, j) != (y as int, x as int) ==> #[trigger] final(self).at(i, j) == old(self).at(i, j),
    {
        let mut rows: Vec<Vec<T>> = Vec::new();
        std::mem::swap(&mut rows, &mut self.rows);
        let mut row: Vec<T> = Vec::new();
        std::mem::swap(&mut row, &mut rows[y as usize]);
        row.set(x as usize, v);
        rows.set(y as usize, row);
        self.rows = rows;
    }
}

} // verus!
