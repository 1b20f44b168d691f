use advent::cpu::{q1, q1_simulation, Instruction};

fn collect_values(instructions: Vec<Instruction>) -> Vec<i64> {
    let mut execution = q1_simulation(instructions);
    let mut values = Vec::new();
    while let Some(x) = execution.next() {
        values.push(x);
    }
    values
}

const LARGER_EXAMPLE: &str = "addx 15\naddx -11\naddx 6\naddx -3\naddx 5\naddx -1\naddx -8\naddx 13\naddx 4\nnoop\naddx -1\naddx 5\naddx -1\naddx 5\naddx -1\naddx 5\naddx -1\naddx 5\naddx -1\naddx -35\naddx 1\naddx 24\naddx -19\naddx 1\naddx 16\naddx -11\nnoop\nnoop\naddx 21\naddx -15\nnoop\nnoop\naddx -3\naddx 9\naddx 1\naddx -3\naddx 8\naddx 1\naddx 5\nnoop\nnoop\nnoop\nnoop\nnoop\naddx -36\nnoop\naddx 1\naddx 7\nnoop\nnoop\nnoop\naddx 2\naddx 6\nnoop\nnoop\nnoop\nnoop\nnoop\naddx 1\nnoop\nnoop\naddx 7\naddx 1\nnoop\naddx -13\naddx 13\naddx 7\nnoop\naddx 1\naddx -33\nnoop\nnoop\nnoop\naddx 2\nnoop\nnoop\nnoop\naddx 8\nnoop\naddx -1\naddx 2\naddx 1\nnoop\naddx 17\naddx -9\naddx 1\naddx 1\naddx -3\naddx 11\nnoop\nnoop\naddx 1\nnoop\naddx 1\nnoop\nnoop\naddx -13\naddx -19\naddx 1\naddx 3\naddx 26\naddx -30\naddx 12\naddx -1\naddx 3\naddx 1\nnoop\nnoop\nnoop\naddx -9\naddx 18\naddx 1\naddx 2\nnoop\nnoop\naddx 9\nnoop\nnoop\nnoop\naddx -1\naddx 2\naddx -37\naddx 1\naddx 3\nnoop\naddx 15\naddx -21\naddx 22\naddx -6\naddx 1\nnoop\naddx 2\naddx 1\nnoop\naddx -10\nnoop\nnoop\naddx 20\naddx 1\naddx 2\naddx 2\naddx -6\naddx -11\nnoop\nnoop\nnoop";

#[test]
fn test_q1_normal() {
    let instructions = Instruction::parse_input(LARGER_EXAMPLE.as_bytes());
    assert_eq!(146, instructions.len());
    assert_eq!(13140, q1(instructions));
}

#[test]
fn test_q1_tiny() {
    let instructions = Instruction::parse_input(b"noop\naddx 3\naddx -5");

    // During the first cycle, X is 1; the noop finishes doing nothing.
    // During the second and third cycles, X is still 1; after the third,
    // addx 3 finishes, setting X to 4.
    // During the fourth and fifth cycles, X is still 4; after the fifth,
    // addx -5 finishes, setting X to -1.
    assert_eq!(vec![1, 1, 1, 4, 4, -1], collect_values(instructions));
}

#[test]
fn empty_program_yields_only_the_initial_register() {
    assert_eq!(vec![1], collect_values(Vec::new()));
    assert_eq!(0, q1(Vec::new()));
}

#[test]
fn observed_length_is_total_cycle_cost_plus_final_observation() {
    // One cycle for the noop, two for each addx, one settled observation.
    let instructions = Instruction::parse_input(b"noop\naddx 3\naddx -5");
    assert_eq!(1 + 2 + 2 + 1, collect_values(instructions).len());
}
