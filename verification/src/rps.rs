//! Rock-paper-scissors round scoring.
//!
//! A round is scored as the shape played (1 for Rock, 2 for Paper, 3 for
//! Scissors) plus the outcome (6 for a win, 3 for a draw, 0 for a loss).
use vstd::prelude::*;

verus! {

/// One shape of the game.
#[derive(Clone, Copy, PartialEq, Eq, Structural, Debug)]
pub enum Move {
    Rock,
    Paper,
    Scissors,
}

/// Who won a round.
#[derive(Clone, Copy, PartialEq, Eq, Structural, Debug)]
pub enum Winner {
    Me,
    Them,
    Draw,
}

/// Whether shape `a` beats shape `b`.
pub open spec fn beats(a: Move, b: Move) -> bool {
    ||| (a is Rock && b is Scissors)
    ||| (a is Paper && b is Rock)
    ||| (a is Scissors && b is Paper)
}

impl Move {
    /// The score of the shape itself.
    pub open spec fn score_spec(&self) -> int {
        match self {
            Move::Rock => 1,
            Move::Paper => 2,
            Move::Scissors => 3,
        }
    }

    /// The score of the shape itself.
    pub fn score(&self) -> (s: u64)
        ensures
            s == self.score_spec(),
    {
        match self {
            Move::Rock => 1,
            Move::Paper => 2,
            Move::Scissors => 3,
        }
    }
}

/// Both shapes of one round.
#[derive(Clone, Copy, Debug)]
pub struct Moves {
    pub me: Move,
    pub them: Move,
}

/// The outcome of a round.
pub open spec fn winner_spec(m: Moves) -> Winner {
    if beats(m.me, m.them) {
        Winner::Me
    } else if beats(m.them, m.me) {
        Winner::Them
    } else {
        Winner::Draw
    }
}

/// The score an outcome contributes.
pub open spec fn outcome_score(w: Winner) -> int {
    match w {
        Winner::Me => 6,
        Winner::Them => 0,
        Winner::Draw => 3,
    }
}

/// The full score of a round.
pub open spec fn my_score_spec(m: Moves) -> int {
    m.me.score_spec() + outcome_score(winner_spec(m))
}

/// The opponent's shape encoded by the first column: A, B or C.
pub open spec fn them_of(c: char) -> Move {
    if c == 'A' {
        Move::Rock
    } else if c == 'B' {
        Move::Paper
    } else {
        Move::Scissors
    }
}

/// The shape the second column names directly: X, Y or Z.
pub open spec fn response_of(c: char) -> Move {
    if c == 'X' {
        Move::Rock
    } else if c == 'Y' {
        Move::Paper
    } else {
        Move::Scissors
    }
}

/// The outcome the second column demands: X a loss, Y a draw, Z a win.
pub open spec fn outcome_of(c: char) -> Winner {
    if c == 'X' {
        Winner::Them
    } else if c == 'Y' {
        Winner::Draw
    } else {
        Winner::Me
    }
}

/// The shape to play against `them` so that the round ends as `outcome`.
pub open spec fn chosen_move(them: Move, outcome: Winner) -> Move {
    match (them, outcome) {
        (Move::Rock, Winner::Me) => Move::Paper,
        (Move::Rock, Winner::Them) => Move::Scissors,
        (Move::Rock, Winner::Draw) => Move::Rock,
        (Move::Paper, Winner::Me) => Move::Scissors,
        (Move::Paper, Winner::Them) => Move::Rock,
        (Move::Paper, Winner::Draw) => Move::Paper,
        (Move::Scissors, Winner::Me) => Move::Rock,
        (Move::Scissors, Winner::Them) => Move::Paper,
        (Move::Scissors, Winner::Draw) => Move::Scissors,
    }
}

/// Read the opponent's shape from the first column of a round's line.
pub fn parse_them(line: &str) -> (m: Move)
    requires
        line@.len() >= 1,
        line@[0] == 'A' || line@[0] == 'B' || line@[0] == 'C',
    ensures
        m == them_of(line@[0]),
{
    let c = line.get_char(0);
    if c == 'A' {
        Move::Rock
    } else if c == 'B' {
        Move::Paper
    } else {
        Move::Scissors
    }
}

impl Moves {
    /// Read one round with the second column as the shape to play in
    /// response: X for Rock, Y for Paper, and Z for Scissors.
    pub fn parse_q1(line: &str) -> (r: Self)
        requires
            line@.len() >= 3,
            line@[0] == 'A' || line@[0] == 'B' || line@[0] == 'C',
            line@[2] == 'X' || line@[2] == 'Y' || line@[2] == 'Z',
        ensures
            r.them == them_of(line@[0]),
            r.me == response_of(line@[2]),
    {
        let them = parse_them(line);
        let c = line.get_char(2);
        let me = if c == 'X' {
            Move::Rock
        } else if c == 'Y' {
            Move::Paper
        } else {
            Move::Scissors
        };
        Moves { me, them }
    }

    /// Read one round with the second column as how the round needs to end:
    /// X means a loss, Y a draw, and Z a win. The chosen shape provably
    /// produces that outcome.
    pub fn parse_q2(line: &str) -> (r: Self)
        requires
            line@.len() >= 3,
            line@[0] == 'A' || line@[0] == 'B' || line@[0] == 'C',
            line@[2] == 'X' || line@[2] == 'Y' || line@[2] == 'Z',
        ensures
            r.them == them_of(line@[0]),
            r.me == chosen_move(them_of(line@[0]), outcome_of(line@[2])),
            winner_spec(r) == outcome_of(line@[2]),
    {
        let them = parse_them(line);
        let c = line.get_char(2);
        let outcome = if c == 'X' {
            Winner::Them
        } else if c == 'Y' {
            Winner::Draw
        } else {
            Winner::Me
        };
        let me = match (&them, outcome) {
            (Move::Rock, Winner::Me) => Move::Paper,
            (Move::Rock, Winner::Them) => Move::Scissors,
            (Move::Rock, Winner::Draw) => Move::Rock,
            (Move::Paper, Winner::Me) => Move::Scissors,
            (Move::Paper, Winner::Them) => Move::Rock,
            (Move::Paper, Winner::Draw) => Move::Paper,
            (Move::Scissors, Winner::Me) => Move::Rock,
            (Move::Scissors, Winner::Them) => Move::Paper,
            (Move::Scissors, Winner::Draw) => Move::Scissors,
        };
        Moves { me, them }
    }

    /// Who wins the round.
    pub fn winner(&self) -> (w: Winner)
        ensures
            w == winner_spec(*self),
    {
        match (&self.me, &self.them) {
            (Move::Rock, Move::Rock) => Winner::Draw,
            (Move::Rock, Move::Paper) => Winner::Them,
            (Move::Rock, Move::Scissors) => Winner::Me,
            (Move::Paper, Move::Rock) => Winner::Me,
            (Move::Paper, Move::Paper) => Winner::Draw,
            (Move::Paper, Move::Scissors) => Winner::Them,
            (Move::Scissors, Move::Rock) => Winner::Them,
            (Move::Scissors, Move::Paper) => Winner::Me,
            (Move::Scissors, Move::Scissors) => Winner::Draw,
        }
    }

    /// The round's total score: the shape's score plus the outcome's score.
    pub fn my_score(&self) -> (s: u64)
        ensures
            s == my_score_spec(*self),
    {
        self.me.score() + match self.winner() {
            Winner::Me => 6,
            Winner::Them => 0,
            Winner::Draw => 3,
        }
    }
}

} // verus!
