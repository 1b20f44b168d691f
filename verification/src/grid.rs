//! Square grids of small values, addressed as `(x, y)` with `(0, 0)` the
//! top-left, `x` growing rightwards and `y` growing downwards. The grid is
//! stored column-major: the outer vector is indexed by `x`.
use vstd::prelude::*;

use crate::text::digit_val;
use crate::text::is_digit;
use crate::text::lines_of;
use crate::text::split_lines;

verus! {

/// The rows of a nested vector as a mathematical matrix.
pub open spec fn rows_view<T>(v: Vec<Vec<T>>) -> Seq<Seq<T>> {
    v@.map_values(|row: Vec<T>| row@)
}

/// (0,0) is the top-left.
pub struct Grid<T>(pub Vec<Vec<T>>);

impl<T> View for Grid<T> {
    type V = Seq<Seq<T>>;

    open spec fn view(&self) -> Seq<Seq<T>> {
        self.0@.map_values(|row: Vec<T>| row@)
    }
}

impl<T> Grid<T> {
    /// A grid is square: every column is exactly as long as the column list.
    pub open spec fn wf(&self) -> bool {
        forall|i: int| 0 <= i < self@.len() ==> (#[trigger] self@[i]).len() == self@.len()
    }

    /// The side length of the square grid.
    pub fn side_len(&self) -> (n: usize)
        ensures
            n == self@.len(),
    {
        self.0.len()
    }
}

impl<T: Copy> Grid<T> {
    /// The value at column `x`, row `y`.
    pub fn get(&self, x: usize, y: usize) -> (r: T)
        requires
            self.wf(),
            x < self@.len(),
            y < self@.len(),
        ensures
            r == self@[x as int][y as int],
    {
        proof {
            assert(self@.len() == self.0@.len());
            assert(self@[x as int] == self.0@[x as int]@);
        }
        self.0[x][y]
    }

    /// Overwrite the value at column `x`, row `y`.
    pub fn set(&mut self, x: usize, y: usize, val: T)
        requires
            old(self).wf(),
            x < old(self)@.len(),
            y < old(self)@.len(),
        ensures
            final(self)@ == old(self)@.update(
                x as int,
                old(self)@[x as int].update(y as int, val),
            ),
            final(self).wf(),
    {
        proof {
            assert(self@.len() == self.0@.len());
            assert(self@[x as int] == self.0@[x as int]@);
        }
        self.0[x][y] = val;
        proof {
            assert(self@ =~= old(self)@.update(
                x as int,
                old(self)@[x as int].update(y as int, val),
            ));
        }
    }

    /// A square grid with every cell holding `fill`.
    pub fn filled(side_len: usize, fill: T) -> (g: Self)
        ensures
            g.wf(),
            g@.len() == side_len,
            forall|x: int, y: int|
                0 <= x < side_len && 0 <= y < side_len ==> #[trigger] g@[x][y] == fill,
    {
        let mut cols: Vec<Vec<T>> = Vec::new();
        for x in 0..side_len
            invariant
                cols@.len() == x,
                forall|i: int| 0 <= i < x ==> (#[trigger] cols@[i])@.len() == side_len,
                forall|i: int, j: int|
                    0 <= i < x && 0 <= j < side_len ==> #[trigger] cols@[i]@[j] == fill,
        {
            let mut col: Vec<T> = Vec::new();
            for y in 0..side_len
                invariant
                    col@.len() == y,
                    forall|j: int| 0 <= j < y ==> #[trigger] col@[j] == fill,
            {
                col.push(fill);
            }
            cols.push(col);
        }
        let g = Grid(cols);
        proof {
            assert(forall|i: int| 0 <= i < side_len ==> (#[trigger] g@[i]) == cols@[i]@);
        }
        g
    }
}

impl Grid<u8> {
    /// An all-zero grid of the given side length.
    pub fn new(side_len: usize) -> (g: Self)
        ensures
            g.wf(),
            g@.len() == side_len,
            forall|x: int, y: int|
                0 <= x < side_len && 0 <= y < side_len ==> #[trigger] g@[x][y] == 0,
    {
        Grid::filled(side_len, 0)
    }

    /// The greatest value held anywhere in the grid.
    pub fn max(&self) -> (m: u8)
        requires
            self.wf(),
            self@.len() >= 1,
        ensures
            forall|x: int, y: int|
                0 <= x < self@.len() && 0 <= y < self@.len() ==> #[trigger] self@[x][y] <= m,
            exists|x: int, y: int|
                0 <= x < self@.len() && 0 <= y < self@.len() && #[trigger] self@[x][y] == m,
    {
        let mut greatest_so_far = self.get(0, 0);
        let n = self.side_len();
        for x in 0..n
            invariant
                self.wf(),
                n == self@.len(),
                n >= 1,
                forall|i: int, j: int|
                    0 <= i < x && 0 <= j < n ==> #[trigger] self@[i][j] <= greatest_so_far,
                exists|i: int, j: int|
                    0 <= i < n && 0 <= j < n && #[trigger] self@[i][j] == greatest_so_far,
        {
            for y in 0..n
                invariant
                    self.wf(),
                    n == self@.len(),
                    0 <= x < n,
                    forall|i: int, j: int|
                        0 <= i < x && 0 <= j < n ==> #[trigger] self@[i][j] <= greatest_so_far,
                    forall|j: int| 0 <= j < y ==> #[trigger] self@[x as int][j] <= greatest_so_far,
                    exists|i: int, j: int|
                        0 <= i < n && 0 <= j < n && #[trigger] self@[i][j] == greatest_so_far,
            {
                let this = self.get(x, y);
                if this > greatest_so_far {
                    greatest_so_far = this;
                }
            }
        }
        greatest_so_far
    }
}

impl Grid<bool> {
    /// An all-false grid of the given side length.
    pub fn new(side_len: usize) -> (g: Self)
        ensures
            g.wf(),
            g@.len() == side_len,
            forall|x: int, y: int|
                0 <= x < side_len && 0 <= y < side_len ==> #[trigger] g@[x][y] == false,
    {
        Grid::filled(side_len, false)
    }
}

/// Swap the two axes of a rectangular nested vector.
pub fn transpose<T: Copy>(v: Vec<Vec<T>>) -> (r: Vec<Vec<T>>)
    requires
        v@.len() >= 1,
        forall|i: int| 0 <= i < v@.len() ==> (#[trigger] v@[i])@.len() == v@[0]@.len(),
    ensures
        rows_view(r).len() == v@[0]@.len(),
        forall|i: int| 0 <= i < rows_view(r).len() ==> (#[trigger] rows_view(r)[i]).len()
            == v@.len(),
        forall|i: int, j: int|
            0 <= i < v@[0]@.len() && 0 <= j < v@.len() ==> #[trigger] rows_view(r)[i][j]
                == rows_view(v)[j][i],
{
    let len = v[0].len();
    let mut r: Vec<Vec<T>> = Vec::new();
    for i in 0..len
        invariant
            len == v@[0]@.len(),
            v@.len() >= 1,
            forall|k: int| 0 <= k < v@.len() ==> (#[trigger] v@[k])@.len() == len,
            r@.len() == i,
            forall|k: int| 0 <= k < i ==> (#[trigger] r@[k])@.len() == v@.len(),
            forall|k: int, j: int|
                0 <= k < i && 0 <= j < v@.len() ==> #[trigger] r@[k]@[j] == v@[j]@[k],
    {
        let mut row: Vec<T> = Vec::new();
        for j in 0..v.len()
            invariant
                len == v@[0]@.len(),
                0 <= i < len,
                forall|k: int| 0 <= k < v@.len() ==> (#[trigger] v@[k])@.len() == len,
                row@.len() == j,
                forall|k: int| 0 <= k < j ==> #[trigger] row@[k] == v@[k]@[i as int],
        {
            let x = v[j][i];
            row.push(x);
        }
        r.push(row);
    }
    r
}

/// Whether the input blob draws a square grid of decimal digits: at least
/// one line, every line exactly as long as the line count, digits only.
pub open spec fn valid_grid_input(s: Seq<char>) -> bool {
    &&& lines_of(s).len() >= 1
    &&& forall|y: int| 0 <= y < lines_of(s).len() ==> (#[trigger] lines_of(s)[y]).len()
        == lines_of(s).len()
    &&& forall|y: int, x: int|
        0 <= y < lines_of(s).len() && 0 <= x < lines_of(s).len() ==> is_digit(
            #[trigger] lines_of(s)[y][x],
        )
}

impl Grid<u8> {
    /// Read a digit grid from its textual drawing, one row per line.
    pub fn parse(input: &str) -> (g: Self)
        requires
            valid_grid_input(input@),
        ensures
            g.wf(),
            g@.len() == lines_of(input@).len(),
            forall|x: int, y: int|
                0 <= x < g@.len() && 0 <= y < g@.len() ==> #[trigger] g@[x][y] == digit_val(
                    lines_of(input@)[y][x],
                ),
    {
        let lines = split_lines(input);
        let n = lines.len();
        let mut rows: Vec<Vec<u8>> = Vec::new();
        for y in 0..n
            invariant
                lines@.map_values(|line: Vec<char>| line@) == lines_of(input@),
                n == lines_of(input@).len(),
                valid_grid_input(input@),
                rows@.len() == y,
                forall|k: int| 0 <= k < y ==> (#[trigger] rows@[k])@.len() == n,
                forall|k: int, x: int|
                    0 <= k < y && 0 <= x < n ==> #[trigger] rows@[k]@[x] == digit_val(
                        lines_of(input@)[k][x],
                    ),
        {
            let line = &lines[y];
            proof {
                assert(line@ == lines_of(input@)[y as int]);
            }
            let mut row: Vec<u8> = Vec::new();
            for x in 0..n
                invariant
                    line@ == lines_of(input@)[y as int],
                    line@.len() == n,
                    0 <= y < n,
                    n == lines_of(input@).len(),
                    valid_grid_input(input@),
                    row@.len() == x,
                    forall|k: int| 0 <= k < x ==> #[trigger] row@[k] == digit_val(
                        lines_of(input@)[y as int][k],
                    ),
            {
                let c = line[x];
                proof {
                    assert(is_digit(lines_of(input@)[y as int][x as int]));
                }
                row.push(((c as u32) - 48) as u8);
            }
            rows.push(row);
        }
        let cols = transpose(rows);
        let g = Grid(cols);
        proof {
            assert(forall|i: int| 0 <= i < g@.len() ==> (#[trigger] g@[i]) == rows_view(cols)[i]);
            assert(g.wf());
        }
        g
    }
}

} // verus!
