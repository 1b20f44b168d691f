use advent::rope::{parse, simulate, Dir, Move, Point};

const EXAMPLE: &str = "R 4\nU 4\nL 3\nD 1\nR 4\nD 1\nL 5\nR 2";
const LARGER_EXAMPLE: &str = "R 5\nU 8\nL 8\nD 3\nR 17\nD 10\nL 25\nU 20";

#[test]
fn test_example_q1() {
    let moves = parse(EXAMPLE);
    let q1 = simulate(&moves, true, 2);
    assert_eq!(q1, 13);
}

#[test]
fn example_parses_to_eight_moves() {
    let moves = parse(EXAMPLE);
    assert_eq!(moves.len(), 8);
    assert!(matches!(moves[0], Move { dir: Dir::R, steps: 4 }));
    assert!(matches!(moves[1], Move { dir: Dir::U, steps: 4 }));
    assert!(matches!(moves[7], Move { dir: Dir::R, steps: 2 }));
}

#[test]
fn example_q2_short_chain_stays_home() {
    // With ten knots the first example barely drags the tail at all.
    let moves = parse(EXAMPLE);
    assert_eq!(simulate(&moves, false, 10), 1);
}

#[test]
fn larger_example_q2() {
    let moves = parse(LARGER_EXAMPLE);
    assert_eq!(simulate(&moves, false, 10), 36);
}

#[test]
fn move_towards_matches_the_chase_rule() {
    // Touching followers stay put, even diagonally or overlapping.
    let tail = Point { x: 0, y: 0 };
    assert_eq!(tail.move_towards(&Point { x: 1, y: 1 }), tail);
    assert_eq!(tail.move_towards(&Point { x: 0, y: 0 }), tail);
    // Two steps straight: one step straight towards the head.
    assert_eq!(
        tail.move_towards(&Point { x: 2, y: 0 }),
        Point { x: 1, y: 0 }
    );
    assert_eq!(
        tail.move_towards(&Point { x: 0, y: -2 }),
        Point { x: 0, y: -1 }
    );
    // A knight's-move or diagonal gap closes diagonally.
    assert_eq!(
        tail.move_towards(&Point { x: 2, y: 1 }),
        Point { x: 1, y: 1 }
    );
    assert_eq!(
        tail.move_towards(&Point { x: -2, y: -2 }),
        Point { x: -1, y: -1 }
    );
}

#[test]
fn chain_stays_linked_after_every_unit_step() {
    // Replay the example one unit step at a time and check that adjacent
    // knots keep within one step of each other on both axes.
    let moves = parse(EXAMPLE);
    let mut knots = vec![Point::default(); 10];
    for mv in &moves {
        for _ in 0..mv.steps {
            knots[0] = knots[0].move_dir(mv.dir);
            for i in 1..knots.len() {
                let head = knots[i - 1];
                let pre = knots[i];
                assert!((head.x - pre.x).abs() <= 2 && (head.y - pre.y).abs() <= 2);
                knots[i] = pre.move_towards(&head);
                let post = knots[i];
                assert!((head.x - post.x).abs() <= 1 && (head.y - post.y).abs() <= 1);
            }
        }
    }
}
