use advent::rps::Moves;

const EXAMPLE: &str = "A Y\nB X\nC Z";

#[test]
fn test_q2() {
    let rounds = EXAMPLE.lines().map(Moves::parse_q2);
    let total_score: u64 = rounds.map(|moves| moves.my_score()).sum();
    assert_eq!(total_score, 12);
}

#[test]
fn test_q1() {
    let rounds = EXAMPLE.lines().map(Moves::parse_q1);
    let total_score: u64 = rounds.map(|moves| moves.my_score()).sum();
    assert_eq!(total_score, 15);
}

#[test]
fn every_demanded_outcome_is_achieved() {
    for them in ["A", "B", "C"] {
        // X demands a loss, Y a draw, Z a win: scores 0, 3 and 6 on top of
        // the chosen shape's own score.
        for (demand, outcome_score) in [("X", 0), ("Y", 3), ("Z", 6)] {
            let line = format!("{} {}", them, demand);
            let round = Moves::parse_q2(&line);
            let score = round.my_score();
            let shape_score = round.me.score();
            assert_eq!(score, shape_score + outcome_score);
        }
    }
}
