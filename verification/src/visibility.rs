//! Directional visibility: a tree is visible from an edge iff every tree
//! strictly between it and that edge is shorter. Each direction is computed
//! by a single running-maximum sweep, O(side * side) in total.
use vstd::prelude::*;

use crate::grid::Grid;

verus! {

/// Visible from the left edge: everything strictly left of `(x, y)` in its
/// row is shorter.
pub open spec fn vis_left(g: Seq<Seq<u8>>, x: int, y: int) -> bool {
    forall|k: int| 0 <= k < x ==> (#[trigger] g[k][y]) < g[x][y]
}

/// Visible from the right edge.
pub open spec fn vis_right(g: Seq<Seq<u8>>, x: int, y: int) -> bool {
    forall|k: int| x < k < g.len() ==> (#[trigger] g[k][y]) < g[x][y]
}

/// Visible from the top edge.
pub open spec fn vis_top(g: Seq<Seq<u8>>, x: int, y: int) -> bool {
    forall|k: int| 0 <= k < y ==> (#[trigger] g[x][k]) < g[x][y]
}

/// Visible from the bottom edge.
pub open spec fn vis_bottom(g: Seq<Seq<u8>>, x: int, y: int) -> bool {
    forall|k: int| y < k < g.len() ==> (#[trigger] g[x][k]) < g[x][y]
}

/// Visible from at least one of the four edges.
pub open spec fn vis_any(g: Seq<Seq<u8>>, x: int, y: int) -> bool {
    vis_left(g, x, y) || vis_right(g, x, y) || vis_top(g, x, y) || vis_bottom(g, x, y)
}

/// The tallest tree in row `y` among columns `0..=x`.
pub open spec fn max_to_left(g: Seq<Seq<u8>>, x: int, y: int) -> int
    decreases x,
{
    if x <= 0 {
        g[0][y] as int
    } else if g[x][y] as int >= max_to_left(g, x - 1, y) {
        g[x][y] as int
    } else {
        max_to_left(g, x - 1, y)
    }
}

proof fn lemma_max_to_left(g: Seq<Seq<u8>>, x: int, y: int)
    requires
        0 <= x,
    ensures
        forall|k: int| 0 <= k <= x ==> (#[trigger] g[k][y]) as int <= max_to_left(g, x, y),
        exists|k: int| 0 <= k <= x && (#[trigger] g[k][y]) as int == max_to_left(g, x, y),
    decreases x,
{
    if x == 0 {
        assert(g[0][y] as int == max_to_left(g, 0, y));
    } else {
        lemma_max_to_left(g, x - 1, y);
        if g[x][y] as int >= max_to_left(g, x - 1, y) {
            assert(g[x][y] as int == max_to_left(g, x, y));
        } else {
            let k = choose|k: int| 0 <= k <= x - 1 && (#[trigger] g[k][y]) as int == max_to_left(
                g,
                x - 1,
                y,
            );
            assert(g[k][y] as int == max_to_left(g, x, y));
        }
    }
}

/// A cell is visible from the left iff it tops the running maximum to its
/// left.
proof fn lemma_vis_left_char(g: Seq<Seq<u8>>, x: int, y: int)
    requires
        0 <= x,
    ensures
        vis_left(g, x, y) <==> (x == 0 || g[x][y] as int > max_to_left(g, x - 1, y)),
{
    if x > 0 {
        lemma_max_to_left(g, x - 1, y);
    }
}

impl Grid<u8> {
    /// For every cell, whether it is visible from the left edge.
    pub fn visible_from_left(&self) -> (vis: Grid<bool>)
        requires
            self.wf(),
        ensures
            vis.wf(),
            vis@.len() == self@.len(),
            forall|x: int, y: int|
                0 <= x < self@.len() && 0 <= y < self@.len() ==> (#[trigger] vis@[x][y])
                    == vis_left(self@, x, y),
    {
        let ghost g = self@;
        let n = self.side_len();
        let mut tallest_tree: Grid<u8> = Grid::<u8>::new(n);
        for x in 0..n
            invariant
                self.wf(),
                g == self@,
                n == g.len(),
                tallest_tree.wf(),
                tallest_tree@.len() == n,
                forall|i: int, j: int|
                    0 <= i < x && 0 <= j < n ==> (#[trigger] tallest_tree@[i][j]) as int
                        == max_to_left(g, i, j),
        {
            for y in 0..n
                invariant
                    self.wf(),
                    g == self@,
                    n == g.len(),
                    0 <= x < n,
                    tallest_tree.wf(),
                    tallest_tree@.len() == n,
                    forall|i: int, j: int|
                        0 <= i < x && 0 <= j < n ==> (#[trigger] tallest_tree@[i][j]) as int
                            == max_to_left(g, i, j),
                    forall|j: int|
                        0 <= j < y ==> (#[trigger] tallest_tree@[x as int][j]) as int
                            == max_to_left(g, x as int, j),
            {
                let val = if x == 0 {
                    self.get(x, y)
                } else {
                    let a = self.get(x, y);
                    let b = tallest_tree.get(x - 1, y);
                    if a >= b {
                        a
                    } else {
                        b
                    }
                };
                tallest_tree.set(x, y, val);
            }
        }
        let mut visible: Grid<bool> = Grid::<bool>::new(n);
        for x in 0..n
            invariant
                self.wf(),
                g == self@,
                n == g.len(),
                tallest_tree.wf(),
                tallest_tree@.len() == n,
                forall|i: int, j: int|
                    0 <= i < n && 0 <= j < n ==> (#[trigger] tallest_tree@[i][j]) as int
                        == max_to_left(g, i, j),
                visible.wf(),
                visible@.len() == n,
                forall|i: int, j: int|
                    0 <= i < x && 0 <= j < n ==> (#[trigger] visible@[i][j]) == vis_left(g, i, j),
        {
            for y in 0..n
                invariant
                    self.wf(),
                    g == self@,
                    n == g.len(),
                    0 <= x < n,
                    tallest_tree.wf(),
                    tallest_tree@.len() == n,
                    forall|i: int, j: int|
                        0 <= i < n && 0 <= j < n ==> (#[trigger] tallest_tree@[i][j]) as int
                            == max_to_left(g, i, j),
                    visible.wf(),
                    visible@.len() == n,
                    forall|i: int, j: int|
                        0 <= i < x && 0 <= j < n ==> (#[trigger] visible@[i][j]) == vis_left(
                            g,
                            i,
                            j,
                        ),
                    forall|j: int|
                        0 <= j < y ==> (#[trigger] visible@[x as int][j]) == vis_left(
                            g,
                            x as int,
                            j,
                        ),
            {
                let val = (x == 0) || self.get(x, y) > tallest_tree.get(x - 1, y);
                proof {
                    lemma_vis_left_char(g, x as int, y as int);
                }
                visible.set(x, y, val);
            }
        }
        visible
    }

    /// For every cell, whether it is visible from the right edge.
    pub fn visible_from_right(&self) -> (vis: Grid<bool>)
        requires
            self.wf(),
        ensures
            vis.wf(),
            vis@.len() == self@.len(),
            forall|x: int, y: int|
                0 <= x < self@.len() && 0 <= y < self@.len() ==> (#[trigger] vis@[x][y])
                    == vis_right(self@, x, y),
    {
        let ghost g = self@;
        let n = self.side_len();
        let mut tallest_tree: Grid<u8> = Grid::<u8>::new(n);
        for k in 0..n
            invariant
                self.wf(),
                g == self@,
                n == g.len(),
                tallest_tree.wf(),
                tallest_tree@.len() == n,
                forall|i: int, j: int|
                    n - k <= i < n && 0 <= j < n ==> (#[trigger] tallest_tree@[i][j]) as int
                        == max_to_right(g, i, j),
        {
            let x = n - 1 - k;
            for y in 0..n
                invariant
                    self.wf(),
                    g == self@,
                    n == g.len(),
                    0 <= x < n,
                    x == n - 1 - k,
                    tallest_tree.wf(),
                    tallest_tree@.len() == n,
                    forall|i: int, j: int|
                        x < i < n && 0 <= j < n ==> (#[trigger] tallest_tree@[i][j]) as int
                            == max_to_right(g, i, j),
                    forall|j: int|
                        0 <= j < y ==> (#[trigger] tallest_tree@[x as int][j]) as int
                            == max_to_right(g, x as int, j),
            {
                let val = if x == n - 1 {
                    self.get(x, y)
                } else {
                    let a = self.get(x, y);
                    let b = tallest_tree.get(x + 1, y);
                    if a >= b {
                        a
                    } else {
                        b
                    }
                };
                tallest_tree.set(x, y, val);
            }
        }
        let mut visible: Grid<bool> = Grid::<bool>::new(n);
        for x in 0..n
            invariant
                self.wf(),
                g == self@,
                n == g.len(),
                tallest_tree.wf(),
                tallest_tree@.len() == n,
                forall|i: int, j: int|
                    0 <= i < n && 0 <= j < n ==> (#[trigger] tallest_tree@[i][j]) as int
                        == max_to_right(g, i, j),
                visible.wf(),
                visible@.len() == n,
                forall|i: int, j: int|
                    0 <= i < x && 0 <= j < n ==> (#[trigger] visible@[i][j]) == vis_right(g, i, j),
        {
            for y in 0..n
                invariant
                    self.wf(),
                    g == self@,
                    n == g.len(),
                    0 <= x < n,
                    tallest_tree.wf(),
                    tallest_tree@.len() == n,
                    forall|i: int, j: int|
                        0 <= i < n && 0 <= j < n ==> (#[trigger] tallest_tree@[i][j]) as int
                            == max_to_right(g, i, j),
                    visible.wf(),
                    visible@.len() == n,
                    forall|i: int, j: int|
                        0 <= i < x && 0 <= j < n ==> (#[trigger] visible@[i][j]) == vis_right(
                            g,
                            i,
                            j,
                        ),
                    forall|j: int|
                        0 <= j < y ==> (#[trigger] visible@[x as int][j]) == vis_right(
                            g,
                            x as int,
                            j,
                        ),
            {
                let val = (x == n - 1) || self.get(x, y) > tallest_tree.get(x + 1, y);
                proof {
                    lemma_vis_right_char(g, x as int, y as int);
                }
                visible.set(x, y, val);
            }
        }
        visible
    }

    /// For every cell, whether it is visible from the top edge.
    pub fn visible_from_top(&self) -> (vis: Grid<bool>)
        requires
            self.wf(),
        ensures
            vis.wf(),
            vis@.len() == self@.len(),
            forall|x: int, y: int|
                0 <= x < self@.len() && 0 <= y < self@.len() ==> (#[trigger] vis@[x][y])
                    == vis_top(self@, x, y),
    {
        let ghost g = self@;
        let n = self.side_len();
        let mut tallest_tree: Grid<u8> = Grid::<u8>::new(n);
        for y in 0..n
            invariant
                self.wf(),
                g == self@,
                n == g.len(),
                tallest_tree.wf(),
                tallest_tree@.len() == n,
                forall|i: int, j: int|
                    0 <= i < n && 0 <= j < y ==> (#[trigger] tallest_tree@[i][j]) as int
                        == max_above(g, i, j),
        {
            for x in 0..n
                invariant
                    self.wf(),
                    g == self@,
                    n == g.len(),
                    0 <= y < n,
                    tallest_tree.wf(),
                    tallest_tree@.len() == n,
                    forall|i: int, j: int|
                        0 <= i < n && 0 <= j < y ==> (#[trigger] tallest_tree@[i][j]) as int
                            == max_above(g, i, j),
                    forall|i: int|
                        0 <= i < x ==> (#[trigger] tallest_tree@[i][y as int]) as int == max_above(
                            g,
                            i,
                            y as int,
                        ),
            {
                let val = if y == 0 {
                    self.get(x, y)
                } else {
                    let a = self.get(x, y);
                    let b = tallest_tree.get(x, y - 1);
                    if a >= b {
                        a
                    } else {
                        b
                    }
                };
                tallest_tree.set(x, y, val);
            }
        }
        let mut visible: Grid<bool> = Grid::<bool>::new(n);
        for y in 0..n
            invariant
                self.wf(),
                g == self@,
                n == g.len(),
                tallest_tree.wf(),
                tallest_tree@.len() == n,
                forall|i: int, j: int|
                    0 <= i < n && 0 <= j < n ==> (#[trigger] tallest_tree@[i][j]) as int
                        == max_above(g, i, j),
                visible.wf(),
                visible@.len() == n,
                forall|i: int, j: int|
                    0 <= i < n && 0 <= j < y ==> (#[trigger] visible@[i][j]) == vis_top(g, i, j),
        {
            for x in 0..n
                invariant
                    self.wf(),
                    g == self@,
                    n == g.len(),
                    0 <= y < n,
                    tallest_tree.wf(),
                    tallest_tree@.len() == n,
                    forall|i: int, j: int|
                        0 <= i < n && 0 <= j < n ==> (#[trigger] tallest_tree@[i][j]) as int
                            == max_above(g, i, j),
                    visible.wf(),
                    visible@.len() == n,
                    forall|i: int, j: int|
                        0 <= i < n && 0 <= j < y ==> (#[trigger] visible@[i][j]) == vis_top(
                            g,
                            i,
                            j,
                        ),
                    forall|i: int|
                        0 <= i < x ==> (#[trigger] visible@[i][y as int]) == vis_top(
                            g,
                            i,
                            y as int,
                        ),
            {
                let val = (y == 0) || self.get(x, y) > tallest_tree.get(x, y - 1);
                proof {
                    lemma_vis_top_char(g, x as int, y as int);
                }
                visible.set(x, y, val);
            }
        }
        visible
    }

    /// For every cell, whether it is visible from the bottom edge.
    pub fn visible_from_bottom(&self) -> (vis: Grid<bool>)
        requires
            self.wf(),
        ensures
            vis.wf(),
            vis@.len() == self@.len(),
            forall|x: int, y: int|
                0 <= x < self@.len() && 0 <= y < self@.len() ==> (#[trigger] vis@[x][y])
                    == vis_bottom(self@, x, y),
    {
        let ghost g = self@;
        let n = self.side_len();
        let mut tallest_tree: Grid<u8> = Grid::<u8>::new(n);
        for k in 0..n
            invariant
                self.wf(),
                g == self@,
                n == g.len(),
                tallest_tree.wf(),
                tallest_tree@.len() == n,
                forall|i: int, j: int|
                    0 <= i < n && n - k <= j < n ==> (#[trigger] tallest_tree@[i][j]) as int
                        == max_below(g, i, j),
        {
            let y = n - 1 - k;
            for x in 0..n
                invariant
                    self.wf(),
                    g == self@,
                    n == g.len(),
                    0 <= y < n,
                    y == n - 1 - k,
                    tallest_tree.wf(),
                    tallest_tree@.len() == n,
                    forall|i: int, j: int|
                        0 <= i < n && y < j < n ==> (#[trigger] tallest_tree@[i][j]) as int
                            == max_below(g, i, j),
                    forall|i: int|
                        0 <= i < x ==> (#[trigger] tallest_tree@[i][y as int]) as int == max_below(
                            g,
                            i,
                            y as int,
                        ),
            {
                let val = if y == n - 1 {
                    self.get(x, y)
                } else {
                    let a = self.get(x, y);
                    let b = tallest_tree.get(x, y + 1);
                    if a >= b {
                        a
                    } else {
                        b
                    }
                };
                tallest_tree.set(x, y, val);
            }
        }
        let mut visible: Grid<bool> = Grid::<bool>::new(n);
        for y in 0..n
            invariant
                self.wf(),
                g == self@,
                n == g.len(),
                tallest_tree.wf(),
                tallest_tree@.len() == n,
                forall|i: int, j: int|
                    0 <= i < n && 0 <= j < n ==> (#[trigger] tallest_tree@[i][j]) as int
                        == max_below(g, i, j),
                visible.wf(),
                visible@.len() == n,
                forall|i: int, j: int|
                    0 <= i < n && 0 <= j < y ==> (#[trigger] visible@[i][j]) == vis_bottom(
                        g,
                        i,
                        j,
                    ),
        {
            for x in 0..n
                invariant
                    self.wf(),
                    g == self@,
                    n == g.len(),
                    0 <= y < n,
                    tallest_tree.wf(),
                    tallest_tree@.len() == n,
                    forall|i: int, j: int|
                        0 <= i < n && 0 <= j < n ==> (#[trigger] tallest_tree@[i][j]) as int
                            == max_below(g, i, j),
                    visible.wf(),
                    visible@.len() == n,
                    forall|i: int, j: int|
                        0 <= i < n && 0 <= j < y ==> (#[trigger] visible@[i][j]) == vis_bottom(
                            g,
                            i,
                            j,
                        ),
                    forall|i: int|
                        0 <= i < x ==> (#[trigger] visible@[i][y as int]) == vis_bottom(
                            g,
                            i,
                            y as int,
                        ),
            {
                let val = (y == n - 1) || self.get(x, y) > tallest_tree.get(x, y + 1);
                proof {
                    lemma_vis_bottom_char(g, x as int, y as int);
                }
                visible.set(x, y, val);
            }
        }
        visible
    }
}

/// The tallest tree in row `y` among columns `x..`.
pub open spec fn max_to_right(g: Seq<Seq<u8>>, x: int, y: int) -> int
    decreases g.len() - x,
{
    if x >= g.len() - 1 {
        g[g.len() - 1][y] as int
    } else if g[x][y] as int >= max_to_right(g, x + 1, y) {
        g[x][y] as int
    } else {
        max_to_right(g, x + 1, y)
    }
}

proof fn lemma_max_to_right(g: Seq<Seq<u8>>, x: int, y: int)
    requires
        x <= g.len() - 1,
    ensures
        forall|k: int| x <= k < g.len() ==> (#[trigger] g[k][y]) as int <= max_to_right(g, x, y),
        exists|k: int| x <= k < g.len() && (#[trigger] g[k][y]) as int == max_to_right(g, x, y),
    decreases g.len() - x,
{
    if x == g.len() - 1 {
        assert(g[g.len() - 1][y] as int == max_to_right(g, x, y));
    } else {
        lemma_max_to_right(g, x + 1, y);
        if g[x][y] as int >= max_to_right(g, x + 1, y) {
            assert(g[x][y] as int == max_to_right(g, x, y));
        } else {
            let k = choose|k: int|
                x + 1 <= k < g.len() && (#[trigger] g[k][y]) as int == max_to_right(g, x + 1, y);
            assert(g[k][y] as int == max_to_right(g, x, y));
        }
    }
}

proof fn lemma_vis_right_char(g: Seq<Seq<u8>>, x: int, y: int)
    requires
        0 <= x < g.len(),
    ensures
        vis_right(g, x, y) <==> (x == g.len() - 1 || g[x][y] as int > max_to_right(g, x + 1, y)),
{
    if x < g.len() - 1 {
        lemma_max_to_right(g, x + 1, y);
    }
}

/// The tallest tree in column `x` among rows `0..=y`.
pub open spec fn max_above(g: Seq<Seq<u8>>, x: int, y: int) -> int
    decreases y,
{
    if y <= 0 {
        g[x][0] as int
    } else if g[x][y] as int >= max_above(g, x, y - 1) {
        g[x][y] as int
    } else {
        max_above(g, x, y - 1)
    }
}

proof fn lemma_max_above(g: Seq<Seq<u8>>, x: int, y: int)
    requires
        0 <= y,
    ensures
        forall|k: int| 0 <= k <= y ==> (#[trigger] g[x][k]) as int <= max_above(g, x, y),
        exists|k: int| 0 <= k <= y && (#[trigger] g[x][k]) as int == max_above(g, x, y),
    decreases y,
{
    if y == 0 {
        assert(g[x][0] as int == max_above(g, x, 0));
    } else {
        lemma_max_above(g, x, y - 1);
        if g[x][y] as int >= max_above(g, x, y - 1) {
            assert(g[x][y] as int == max_above(g, x, y));
        } else {
            let k = choose|k: int|
                0 <= k <= y - 1 && (#[trigger] g[x][k]) as int == max_above(g, x, y - 1);
            assert(g[x][k] as int == max_above(g, x, y));
        }
    }
}

proof fn lemma_vis_top_char(g: Seq<Seq<u8>>, x: int, y: int)
    requires
        0 <= y,
    ensures
        vis_top(g, x, y) <==> (y == 0 || g[x][y] as int > max_above(g, x, y - 1)),
{
    if y > 0 {
        lemma_max_above(g, x, y - 1);
    }
}

/// The tallest tree in column `x` among rows `y..`.
pub open spec fn max_below(g: Seq<Seq<u8>>, x: int, y: int) -> int
    decreases g.len() - y,
{
    if y >= g.len() - 1 {
        g[x][g.len() - 1] as int
    } else if g[x][y] as int >= max_below(g, x, y + 1) {
        g[x][y] as int
    } else {
        max_below(g, x, y + 1)
    }
}

proof fn lemma_max_below(g: Seq<Seq<u8>>, x: int, y: int)
    requires
        y <= g.len() - 1,
    ensures
        forall|k: int| y <= k < g.len() ==> (#[trigger] g[x][k]) as int <= max_below(g, x, y),
        exists|k: int| y <= k < g.len() && (#[trigger] g[x][k]) as int == max_below(g, x, y),
    decreases g.len() - y,
{
    if y == g.len() - 1 {
        assert(g[x][g.len() - 1] as int == max_below(g, x, y));
    } else {
        lemma_max_below(g, x, y + 1);
        if g[x][y] as int >= max_below(g, x, y + 1) {
            assert(g[x][y] as int == max_below(g, x, y));
        } else {
            let k = choose|k: int|
                y + 1 <= k < g.len() && (#[trigger] g[x][k]) as int == max_below(g, x, y + 1);
            assert(g[x][k] as int == max_below(g, x, y));
        }
    }
}

proof fn lemma_vis_bottom_char(g: Seq<Seq<u8>>, x: int, y: int)
    requires
        0 <= y < g.len(),
    ensures
        vis_bottom(g, x, y) <==> (y == g.len() - 1 || g[x][y] as int > max_below(g, x, y + 1)),
{
    if y < g.len() - 1 {
        lemma_max_below(g, x, y + 1);
    }
}

/// The number of visible cells in column `x` with row at least `y`.
pub open spec fn count_vis_col(g: Seq<Seq<u8>>, x: int, y: int) -> int
    decreases g.len() - y,
{
    if y < 0 || y >= g.len() {
        0
    } else {
        (if vis_any(g, x, y) {
            1int
        } else {
            0
        }) + count_vis_col(g, x, y + 1)
    }
}

/// The number of visible cells in columns `x..`.
pub open spec fn count_vis(g: Seq<Seq<u8>>, x: int) -> int
    decreases g.len() - x,
{
    if x < 0 || x >= g.len() {
        0
    } else {
        count_vis_col(g, x, 0) + count_vis(g, x + 1)
    }
}

/// The number of cells of the grid visible from at least one edge.
pub open spec fn num_visible_spec(g: Seq<Seq<u8>>) -> int {
    count_vis(g, 0)
}

proof fn lemma_count_vis_col_bound(g: Seq<Seq<u8>>, x: int, y: int)
    requires
        0 <= y <= g.len(),
    ensures
        0 <= count_vis_col(g, x, y) <= g.len() - y,
    decreases g.len() - y,
{
    if y < g.len() {
        lemma_count_vis_col_bound(g, x, y + 1);
    }
}

proof fn lemma_count_vis_bound(g: Seq<Seq<u8>>, x: int)
    requires
        0 <= x <= g.len(),
    ensures
        0 <= count_vis(g, x) <= (g.len() - x) * g.len(),
    decreases g.len() - x,
{
    if x < g.len() {
        lemma_count_vis_col_bound(g, x, 0);
        lemma_count_vis_bound(g, x + 1);
        assert((g.len() - x) * g.len() == g.len() + (g.len() - (x + 1)) * g.len())
            by (nonlinear_arith);
    }
}

impl Grid<u8> {
    /// For every cell, whether it is visible from at least one of the four
    /// edges: the elementwise OR of the four directional sweeps.
    pub fn visible_from_some_direction(&self) -> (vis: Grid<bool>)
        requires
            self.wf(),
        ensures
            vis.wf(),
            vis@.len() == self@.len(),
            forall|x: int, y: int|
                0 <= x < self@.len() && 0 <= y < self@.len() ==> (#[trigger] vis@[x][y])
                    == vis_any(self@, x, y),
    {
        let ghost g = self@;
        let l = self.visible_from_left();
        let r = self.visible_from_right();
        let b = self.visible_from_bottom();
        let t = self.visible_from_top();
        let n = self.side_len();
        let mut vis: Grid<bool> = Grid::<bool>::new(n);
        for x in 0..n
            invariant
                self.wf(),
                g == self@,
                n == g.len(),
                l.wf() && l@.len() == n,
                r.wf() && r@.len() == n,
                t.wf() && t@.len() == n,
                b.wf() && b@.len() == n,
                forall|i: int, j: int|
                    0 <= i < n && 0 <= j < n ==> (#[trigger] l@[i][j]) == vis_left(g, i, j),
                forall|i: int, j: int|
                    0 <= i < n && 0 <= j < n ==> (#[trigger] r@[i][j]) == vis_right(g, i, j),
                forall|i: int, j: int|
                    0 <= i < n && 0 <= j < n ==> (#[trigger] t@[i][j]) == vis_top(g, i, j),
                forall|i: int, j: int|
                    0 <= i < n && 0 <= j < n ==> (#[trigger] b@[i][j]) == vis_bottom(g, i, j),
                vis.wf(),
                vis@.len() == n,
                forall|i: int, j: int|
                    0 <= i < x && 0 <= j < n ==> (#[trigger] vis@[i][j]) == vis_any(g, i, j),
        {
            for y in 0..n
                invariant
                    self.wf(),
                    g == self@,
                    n == g.len(),
                    0 <= x < n,
                    l.wf() && l@.len() == n,
                    r.wf() && r@.len() == n,
                    t.wf() && t@.len() == n,
                    b.wf() && b@.len() == n,
                    forall|i: int, j: int|
                        0 <= i < n && 0 <= j < n ==> (#[trigger] l@[i][j]) == vis_left(g, i, j),
                    forall|i: int, j: int|
                        0 <= i < n && 0 <= j < n ==> (#[trigger] r@[i][j]) == vis_right(g, i, j),
                    forall|i: int, j: int|
                        0 <= i < n && 0 <= j < n ==> (#[trigger] t@[i][j]) == vis_top(g, i, j),
                    forall|i: int, j: int|
                        0 <= i < n && 0 <= j < n ==> (#[trigger] b@[i][j]) == vis_bottom(g, i, j),
                    vis.wf(),
                    vis@.len() == n,
                    forall|i: int, j: int|
                        0 <= i < x && 0 <= j < n ==> (#[trigger] vis@[i][j]) == vis_any(g, i, j),
                    forall|j: int|
                        0 <= j < y ==> (#[trigger] vis@[x as int][j]) == vis_any(g, x as int, j),
            {
                let val = l.get(x, y) || r.get(x, y) || t.get(x, y) || b.get(x, y);
                vis.set(x, y, val);
            }
        }
        vis
    }

    /// How many cells of the grid are visible from at least one edge.
    pub fn num_visible(&self) -> (answer: usize)
        requires
            self.wf(),
            self@.len() * self@.len() <= usize::MAX,
        ensures
            answer == num_visible_spec(self@),
    {
        let ghost g = self@;
        let vis = self.visible_from_some_direction();
        let n = self.side_len();
        let mut answer: usize = 0;
        for x in 0..n
            invariant
                self.wf(),
                g == self@,
                n == g.len(),
                n * n <= usize::MAX,
                vis.wf(),
                vis@.len() == n,
                forall|i: int, j: int|
                    0 <= i < n && 0 <= j < n ==> (#[trigger] vis@[i][j]) == vis_any(g, i, j),
                answer + count_vis(g, x as int) == num_visible_spec(g),
        {
            proof {
                lemma_count_vis_col_bound(g, x as int, 0);
            }
            for y in 0..n
                invariant
                    self.wf(),
                    g == self@,
                    n == g.len(),
                    0 <= x < n,
                    n * n <= usize::MAX,
                    vis.wf(),
                    vis@.len() == n,
                    forall|i: int, j: int|
                        0 <= i < n && 0 <= j < n ==> (#[trigger] vis@[i][j]) == vis_any(g, i, j),
                    answer + count_vis_col(g, x as int, y as int) + count_vis(g, x + 1)
                        == num_visible_spec(g),
            {
                if vis.get(x, y) {
                    proof {
                        lemma_count_vis_col_bound(g, x as int, y + 1);
                        lemma_count_vis_bound(g, x + 1);
                        lemma_count_vis_bound(g, 0);
                        assert((g.len() - 0) * g.len() == g.len() * g.len()) by (nonlinear_arith);
                    }
                    answer = answer + 1;
                }
            }
        }
        answer
    }
}

/// The grid flipped left-to-right: column `x` becomes column `n - 1 - x`.
pub open spec fn mirror_h(g: Seq<Seq<u8>>) -> Seq<Seq<u8>> {
    Seq::new(g.len(), |x: int| g[g.len() - 1 - x])
}

/// The grid flipped top-to-bottom: row `y` becomes row `n - 1 - y`.
pub open spec fn mirror_v(g: Seq<Seq<u8>>) -> Seq<Seq<u8>> {
    Seq::new(g.len(), |x: int| Seq::new(g.len(), |y: int| g[x][g.len() - 1 - y]))
}

/// Visibility from the left agrees with visibility from the right on the
/// horizontally mirrored grid, cell for cell.
pub proof fn lemma_mirror_left_right(g: Seq<Seq<u8>>, x: int, y: int)
    requires
        0 <= x < g.len(),
    ensures
        vis_left(g, x, y) == vis_right(mirror_h(g), g.len() - 1 - x, y),
{
    let m = mirror_h(g);
    let n = g.len();
    if vis_left(g, x, y) {
        assert forall|k: int| n - 1 - x < k < n implies (#[trigger] m[k][y]) < m[n - 1 - x][y] by {
            assert(m[k] == g[n - 1 - k]);
            assert(m[n - 1 - x] == g[x]);
            assert(g[n - 1 - k][y] < g[x][y]);
        }
    }
    if vis_right(m, n - 1 - x, y) {
        assert forall|k: int| 0 <= k < x implies (#[trigger] g[k][y]) < g[x][y] by {
            assert(m[n - 1 - k] == g[k]);
            assert(m[n - 1 - x] == g[x]);
            assert(m[n - 1 - k][y] < m[n - 1 - x][y]);
        }
    }
}

/// Visibility from the top agrees with visibility from the bottom on the
/// vertically mirrored grid, cell for cell.
pub proof fn lemma_mirror_top_bottom(g: Seq<Seq<u8>>, x: int, y: int)
    requires
        0 <= x < g.len(),
        0 <= y < g.len(),
    ensures
        vis_top(g, x, y) == vis_bottom(mirror_v(g), x, g.len() - 1 - y),
{
    let m = mirror_v(g);
    let n = g.len();
    assert(forall|j: int| 0 <= j < n ==> (#[trigger] m[x][j]) == g[x][n - 1 - j]);
    if vis_top(g, x, y) {
        assert forall|k: int| n - 1 - y < k < n implies (#[trigger] m[x][k]) < m[x][n - 1 - y] by {
            assert(m[x][k] == g[x][n - 1 - k]);
            assert(m[x][n - 1 - y] == g[x][y]);
            assert(g[x][n - 1 - k] < g[x][y]);
        }
    }
    if vis_bottom(m, x, n - 1 - y) {
        assert forall|k: int| 0 <= k < y implies (#[trigger] g[x][k]) < g[x][y] by {
            assert(m[x][n - 1 - k] == g[x][k]);
            assert(m[x][n - 1 - y] == g[x][y]);
            assert(m[x][n - 1 - k] < m[x][n - 1 - y]);
        }
    }
}

} // verus!
