//! Scenic scores: how many trees a cell sees in each of the four cardinal
//! directions, and the product of the four counts.
//!
//! The per-direction count follows the telescoping sweep rule: a strictly
//! shorter neighbour contributes its own count plus itself, any other
//! neighbour blocks the view and counts alone; an edge cell sees nothing
//! off the grid.
use vstd::prelude::*;

use crate::grid::Grid;

verus! {

/// Trees seen looking down, towards larger `y`.
pub open spec fn below_count(g: Seq<Seq<u8>>, x: int, y: int) -> int
    decreases g.len() - y,
{
    if y >= g.len() - 1 {
        0
    } else if g[x][y] > g[x][y + 1] {
        1 + below_count(g, x, y + 1)
    } else {
        1
    }
}

/// Trees seen looking up, towards smaller `y`.
pub open spec fn above_count(g: Seq<Seq<u8>>, x: int, y: int) -> int
    decreases y,
{
    if y <= 0 {
        0
    } else if g[x][y] > g[x][y - 1] {
        1 + above_count(g, x, y - 1)
    } else {
        1
    }
}

/// Trees seen looking left, towards smaller `x`.
pub open spec fn left_count(g: Seq<Seq<u8>>, x: int, y: int) -> int
    decreases x,
{
    if x <= 0 {
        0
    } else if g[x][y] > g[x - 1][y] {
        1 + left_count(g, x - 1, y)
    } else {
        1
    }
}

/// Trees seen looking right, towards larger `x`.
pub open spec fn right_count(g: Seq<Seq<u8>>, x: int, y: int) -> int
    decreases g.len() - x,
{
    if x >= g.len() - 1 {
        0
    } else if g[x][y] > g[x + 1][y] {
        1 + right_count(g, x + 1, y)
    } else {
        1
    }
}

/// The scenic score of a cell: the product of its four direction counts.
pub open spec fn scenic_spec(g: Seq<Seq<u8>>, x: int, y: int) -> int {
    above_count(g, x, y) * below_count(g, x, y) * left_count(g, x, y) * right_count(g, x, y)
}

/// Every cell's scenic score, and each intermediate product of its factors
/// as the product is formed, fits in a byte.
pub open spec fn scenic_fits(g: Seq<Seq<u8>>) -> bool {
    forall|x: int, y: int|
        0 <= x < g.len() && 0 <= y < g.len() ==> above_count(g, x, y) * below_count(g, x, y) <= 255
            && above_count(g, x, y) * below_count(g, x, y) * left_count(g, x, y) <= 255
            && #[trigger] scenic_spec(g, x, y) <= 255
}

pub proof fn lemma_below_count_bound(g: Seq<Seq<u8>>, x: int, y: int)
    requires
        0 <= y <= g.len() - 1,
    ensures
        0 <= below_count(g, x, y) <= g.len() - 1 - y,
    decreases g.len() - y,
{
    if y < g.len() - 1 {
        lemma_below_count_bound(g, x, y + 1);
    }
}

pub proof fn lemma_above_count_bound(g: Seq<Seq<u8>>, x: int, y: int)
    requires
        0 <= y,
    ensures
        0 <= above_count(g, x, y) <= y,
    decreases y,
{
    if y > 0 {
        lemma_above_count_bound(g, x, y - 1);
    }
}

pub proof fn lemma_left_count_bound(g: Seq<Seq<u8>>, x: int, y: int)
    requires
        0 <= x,
    ensures
        0 <= left_count(g, x, y) <= x,
    decreases x,
{
    if x > 0 {
        lemma_left_count_bound(g, x - 1, y);
    }
}

pub proof fn lemma_right_count_bound(g: Seq<Seq<u8>>, x: int, y: int)
    requires
        0 <= x <= g.len() - 1,
    ensures
        0 <= right_count(g, x, y) <= g.len() - 1 - x,
    decreases g.len() - x,
{
    if x < g.len() - 1 {
        lemma_right_count_bound(g, x + 1, y);
    }
}

/// Every cell on the outer ring of the grid has a zero count in the
/// direction facing its edge, so its scenic score is 0.
pub proof fn lemma_edge_scenic_zero(g: Seq<Seq<u8>>, x: int, y: int)
    requires
        0 <= x < g.len(),
        0 <= y < g.len(),
        x == 0 || x == g.len() - 1 || y == 0 || y == g.len() - 1,
    ensures
        x == 0 ==> left_count(g, x, y) == 0,
        x == g.len() - 1 ==> right_count(g, x, y) == 0,
        y == 0 ==> above_count(g, x, y) == 0,
        y == g.len() - 1 ==> below_count(g, x, y) == 0,
        scenic_spec(g, x, y) == 0,
{
    let a = above_count(g, x, y);
    let b = below_count(g, x, y);
    let l = left_count(g, x, y);
    let r = right_count(g, x, y);
    if x == 0 {
        assert(l == 0);
        assert(a * b * l * r == 0) by (nonlinear_arith)
            requires
                l == 0,
        ;
    } else if x == g.len() - 1 {
        assert(r == 0);
        assert(a * b * l * r == 0) by (nonlinear_arith)
            requires
                r == 0,
        ;
    } else if y == 0 {
        assert(a == 0);
        assert(a * b * l * r == 0) by (nonlinear_arith)
            requires
                a == 0,
        ;
    } else {
        assert(b == 0);
        assert(a * b * l * r == 0) by (nonlinear_arith)
            requires
                b == 0,
        ;
    }
}

impl Grid<u8> {
    /// How many trees can be seen from below, for each tree?
    pub fn trees_visible_below(&self) -> (tv: Grid<u8>)
        requires
            self.wf(),
            1 <= self@.len() <= 256,
        ensures
            tv.wf(),
            tv@.len() == self@.len(),
            forall|x: int, y: int|
                0 <= x < self@.len() && 0 <= y < self@.len() ==> (#[trigger] tv@[x][y])
                    == below_count(self@, x, y),
    {
        let ghost g = self@;
        let n = self.side_len();
        let mut trees_visible: Grid<u8> = Grid::<u8>::new(n);
        // All trees along the bottom row can see 0 trees below.
        for x in 0..n
            invariant
                self.wf(),
                g == self@,
                n == g.len(),
                1 <= n <= 256,
                trees_visible.wf(),
                trees_visible@.len() == n,
                forall|i: int|
                    0 <= i < x ==> (#[trigger] trees_visible@[i][n - 1]) == below_count(
                        g,
                        i,
                        n - 1,
                    ),
        {
            trees_visible.set(x, n - 1, 0);
        }
        for k in 0..n - 1
            invariant
                self.wf(),
                g == self@,
                n == g.len(),
                1 <= n <= 256,
                trees_visible.wf(),
                trees_visible@.len() == n,
                forall|i: int, j: int|
                    0 <= i < n && n - 1 - k <= j < n ==> (#[trigger] trees_visible@[i][j])
                        == below_count(g, i, j),
        {
            let y = n - 2 - k;
            for x in 0..n
                invariant
                    self.wf(),
                    g == self@,
                    n == g.len(),
                    1 <= n <= 256,
                    0 <= y < n - 1,
                    y == n - 2 - k,
                    trees_visible.wf(),
                    trees_visible@.len() == n,
                    forall|i: int, j: int|
                        0 <= i < n && y < j < n ==> (#[trigger] trees_visible@[i][j])
                            == below_count(g, i, j),
                    forall|i: int|
                        0 <= i < x ==> (#[trigger] trees_visible@[i][y as int]) == below_count(
                            g,
                            i,
                            y as int,
                        ),
            {
                let other = self.get(x, y + 1);
                // If `other` is shorter, then this tree can see as many trees
                // as `other` can, plus one more (`other` itself).
                let this = if self.get(x, y) > other {
                    proof {
                        lemma_below_count_bound(g, x as int, y + 1);
                    }
                    trees_visible.get(x, y + 1) + 1
                } else {
                    1
                };
                trees_visible.set(x, y, this);
            }
        }
        trees_visible
    }

    /// How many trees can be seen from above, for each tree?
    pub fn trees_visible_above(&self) -> (tv: Grid<u8>)
        requires
            self.wf(),
            1 <= self@.len() <= 256,
        ensures
            tv.wf(),
            tv@.len() == self@.len(),
            forall|x: int, y: int|
                0 <= x < self@.len() && 0 <= y < self@.len() ==> (#[trigger] tv@[x][y])
                    == above_count(self@, x, y),
    {
        let ghost g = self@;
        let n = self.side_len();
        let mut trees_visible: Grid<u8> = Grid::<u8>::new(n);
        // All trees along the top row can see 0 trees above.
        for x in 0..n
            invariant
                self.wf(),
                g == self@,
                n == g.len(),
                1 <= n <= 256,
                trees_visible.wf(),
                trees_visible@.len() == n,
                forall|i: int|
                    0 <= i < x ==> (#[trigger] trees_visible@[i][0]) == above_count(g, i, 0),
        {
            trees_visible.set(x, 0, 0);
        }
        for y in 1..n
            invariant
                self.wf(),
                g == self@,
                n == g.len(),
                1 <= n <= 256,
                1 <= y,
                trees_visible.wf(),
                trees_visible@.len() == n,
                forall|i: int, j: int|
                    0 <= i < n && 0 <= j < y ==> (#[trigger] trees_visible@[i][j]) == above_count(
                        g,
                        i,
                        j,
                    ),
        {
            for x in 0..n
                invariant
                    self.wf(),
                    g == self@,
                    n == g.len(),
                    1 <= n <= 256,
                    1 <= y < n,
                    trees_visible.wf(),
                    trees_visible@.len() == n,
                    forall|i: int, j: int|
                        0 <= i < n && 0 <= j < y ==> (#[trigger] trees_visible@[i][j])
                            == above_count(g, i, j),
                    forall|i: int|
                        0 <= i < x ==> (#[trigger] trees_visible@[i][y as int]) == above_count(
                            g,
                            i,
                            y as int,
                        ),
            {
                let other = self.get(x, y - 1);
                // If `other` is shorter, then this tree can see as many trees
                // as `other` can, plus one more (`other` itself).
                let this = if self.get(x, y) > other {
                    proof {
                        lemma_above_count_bound(g, x as int, y - 1);
                    }
                    trees_visible.get(x, y - 1) + 1
                } else {
                    1
                };
                trees_visible.set(x, y, this);
            }
        }
        trees_visible
    }

    /// How many trees can be seen to the left, for each tree?
    pub fn trees_visible_left(&self) -> (tv: Grid<u8>)
        requires
            self.wf(),
            1 <= self@.len() <= 256,
        ensures
            tv.wf(),
            tv@.len() == self@.len(),
            forall|x: int, y: int|
                0 <= x < self@.len() && 0 <= y < self@.len() ==> (#[trigger] tv@[x][y])
                    == left_count(self@, x, y),
    {
        let ghost g = self@;
        let n = self.side_len();
        let mut trees_visible: Grid<u8> = Grid::<u8>::new(n);
        // All trees along the left column can see 0 trees to the left.
        for y in 0..n
            invariant
                self.wf(),
                g == self@,
                n == g.len(),
                1 <= n <= 256,
                trees_visible.wf(),
                trees_visible@.len() == n,
                forall|j: int|
                    0 <= j < y ==> (#[trigger] trees_visible@[0][j]) == left_count(g, 0, j),
        {
            trees_visible.set(0, y, 0);
        }
        for x in 1..n
            invariant
                self.wf(),
                g == self@,
                n == g.len(),
                1 <= n <= 256,
                1 <= x,
                trees_visible.wf(),
                trees_visible@.len() == n,
                forall|i: int, j: int|
                    0 <= i < x && 0 <= j < n ==> (#[trigger] trees_visible@[i][j]) == left_count(
                        g,
                        i,
                        j,
                    ),
        {
            for y in 0..n
                invariant
                    self.wf(),
                    g == self@,
                    n == g.len(),
                    1 <= n <= 256,
                    1 <= x < n,
                    trees_visible.wf(),
                    trees_visible@.len() == n,
                    forall|i: int, j: int|
                        0 <= i < x && 0 <= j < n ==> (#[trigger] trees_visible@[i][j])
                            == left_count(g, i, j),
                    forall|j: int|
                        0 <= j < y ==> (#[trigger] trees_visible@[x as int][j]) == left_count(
                            g,
                            x as int,
                            j,
                        ),
            {
                let other = self.get(x - 1, y);
                // If `other` is shorter, then this tree can see as many trees
                // as `other` can, plus one more (`other` itself).
                let this = if self.get(x, y) > other {
                    proof {
                        lemma_left_count_bound(g, x - 1, y as int);
                    }
                    trees_visible.get(x - 1, y) + 1
                } else {
                    1
                };
                trees_visible.set(x, y, this);
            }
        }
        trees_visible
    }

    /// How many trees can be seen to the right, for each tree?
    pub fn trees_visible_right(&self) -> (tv: Grid<u8>)
        requires
            self.wf(),
            1 <= self@.len() <= 256,
        ensures
            tv.wf(),
            tv@.len() == self@.len(),
            forall|x: int, y: int|
                0 <= x < self@.len() && 0 <= y < self@.len() ==> (#[trigger] tv@[x][y])
                    == right_count(self@, x, y),
    {
        let ghost g = self@;
        let n = self.side_len();
        let mut trees_visible: Grid<u8> = Grid::<u8>::new(n);
        // All trees along the right column can see 0 trees to the right.
        for y in 0..n
            invariant
                self.wf(),
                g == self@,
                n == g.len(),
                1 <= n <= 256,
                trees_visible.wf(),
                trees_visible@.len() == n,
                forall|j: int|
                    0 <= j < y ==> (#[trigger] trees_visible@[n - 1][j]) == right_count(
                        g,
                        n - 1,
                        j,
                    ),
        {
            trees_visible.set(n - 1, y, 0);
        }
        for k in 0..n - 1
            invariant
                self.wf(),
                g == self@,
                n == g.len(),
                1 <= n <= 256,
                trees_visible.wf(),
                trees_visible@.len() == n,
                forall|i: int, j: int|
                    n - 1 - k <= i < n && 0 <= j < n ==> (#[trigger] trees_visible@[i][j])
                        == right_count(g, i, j),
        {
            let x = n - 2 - k;
            for y in 0..n
                invariant
                    self.wf(),
                    g == self@,
                    n == g.len(),
                    1 <= n <= 256,
                    0 <= x < n - 1,
                    x == n - 2 - k,
                    trees_visible.wf(),
                    trees_visible@.len() == n,
                    forall|i: int, j: int|
                        x < i < n && 0 <= j < n ==> (#[trigger] trees_visible@[i][j])
                            == right_count(g, i, j),
                    forall|j: int|
                        0 <= j < y ==> (#[trigger] trees_visible@[x as int][j]) == right_count(
                            g,
                            x as int,
                            j,
                        ),
            {
                let other = self.get(x + 1, y);
                // If `other` is shorter, then this tree can see as many trees
                // as `other` can, plus one more (`other` itself).
                let this = if self.get(x, y) > other {
                    proof {
                        lemma_right_count_bound(g, x + 1, y as int);
                    }
                    trees_visible.get(x + 1, y) + 1
                } else {
                    1
                };
                trees_visible.set(x, y, this);
            }
        }
        trees_visible
    }

    /// The scenic score of every cell: the product of its four direction
    /// counts. The score, like every intermediate product, must fit the
    /// byte-sized cells of the result grid.
    pub fn scenic_score(&self) -> (out: Grid<u8>)
        requires
            self.wf(),
            1 <= self@.len() <= 256,
            scenic_fits(self@),
        ensures
            out.wf(),
            out@.len() == self@.len(),
            forall|x: int, y: int|
                0 <= x < self@.len() && 0 <= y < self@.len() ==> (#[trigger] out@[x][y])
                    == scenic_spec(self@, x, y),
    {
        let ghost g = self@;
        let u = self.trees_visible_above();
        let d = self.trees_visible_below();
        let l = self.trees_visible_left();
        let r = self.trees_visible_right();
        let n = self.side_len();
        let mut out: Grid<u8> = Grid::<u8>::new(n);
        for x in 0..n
            invariant
                self.wf(),
                g == self@,
                n == g.len(),
                1 <= n <= 256,
                scenic_fits(g),
                u.wf() && u@.len() == n,
                d.wf() && d@.len() == n,
                l.wf() && l@.len() == n,
                r.wf() && r@.len() == n,
                forall|i: int, j: int|
                    0 <= i < n && 0 <= j < n ==> (#[trigger] u@[i][j]) == above_count(g, i, j),
                forall|i: int, j: int|
                    0 <= i < n && 0 <= j < n ==> (#[trigger] d@[i][j]) == below_count(g, i, j),
                forall|i: int, j: int|
                    0 <= i < n && 0 <= j < n ==> (#[trigger] l@[i][j]) == left_count(g, i, j),
                forall|i: int, j: int|
                    0 <= i < n && 0 <= j < n ==> (#[trigger] r@[i][j]) == right_count(g, i, j),
                out.wf(),
                out@.len() == n,
                forall|i: int, j: int|
                    0 <= i < x && 0 <= j < n ==> (#[trigger] out@[i][j]) == scenic_spec(g, i, j),
        {
            for y in 0..n
                invariant
                    self.wf(),
                    g == self@,
                    n == g.len(),
                    1 <= n <= 256,
                    0 <= x < n,
                    scenic_fits(g),
                    u.wf() && u@.len() == n,
                    d.wf() && d@.len() == n,
                    l.wf() && l@.len() == n,
                    r.wf() && r@.len() == n,
                    forall|i: int, j: int|
                        0 <= i < n && 0 <= j < n ==> (#[trigger] u@[i][j]) == above_count(g, i, j),
                    forall|i: int, j: int|
                        0 <= i < n && 0 <= j < n ==> (#[trigger] d@[i][j]) == below_count(g, i, j),
                    forall|i: int, j: int|
                        0 <= i < n && 0 <= j < n ==> (#[trigger] l@[i][j]) == left_count(g, i, j),
                    forall|i: int, j: int|
                        0 <= i < n && 0 <= j < n ==> (#[trigger] r@[i][j]) == right_count(g, i, j),
                    out.wf(),
                    out@.len() == n,
                    forall|i: int, j: int|
                        0 <= i < x && 0 <= j < n ==> (#[trigger] out@[i][j]) == scenic_spec(
                            g,
                            i,
                            j,
                        ),
                    forall|j: int|
                        0 <= j < y ==> (#[trigger] out@[x as int][j]) == scenic_spec(
                            g,
                            x as int,
                            j,
                        ),
            {
                proof {
                    lemma_above_count_bound(g, x as int, y as int);
                    lemma_below_count_bound(g, x as int, y as int);
                    lemma_left_count_bound(g, x as int, y as int);
                    lemma_right_count_bound(g, x as int, y as int);
                    assert(scenic_spec(g, x as int, y as int) <= 255);
                }
                let val = u.get(x, y) * d.get(x, y) * l.get(x, y) * r.get(x, y);
                out.set(x, y, val);
            }
        }
        out
    }
}

} // verus!
