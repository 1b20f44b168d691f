use advent::stacks::{Rearrangement, Row};

const EXAMPLE: &[u8] = b"    [D]    \n[N] [C]    \n[Z] [M] [P]\n 1   2   3 \n\nmove 1 from 2 to 1\nmove 3 from 1 to 3\nmove 2 from 2 to 1\nmove 1 from 1 to 2";

#[test]
fn main_test() {
    let (a1, a2) = advent::stacks::solve(EXAMPLE);
    assert_eq!(a1, "CMZ");
    assert_eq!(a2, "MCD");
}

#[test]
fn crates_move_one_at_a_time_or_in_batches() {
    let mut row = Row(vec![vec!['Z', 'N'], vec!['M', 'C', 'D'], vec!['P']]);
    // Lifting one at a time reverses the moved crates.
    row.move_crates(&Rearrangement { qty: 2, src: 1, dst: 2 }, false);
    assert_eq!(row.0, vec![vec!['Z', 'N'], vec!['M'], vec!['P', 'D', 'C']]);
    // Moving the batch in one go preserves their order.
    let mut row = Row(vec![vec!['Z', 'N'], vec!['M', 'C', 'D'], vec!['P']]);
    row.move_crates(&Rearrangement { qty: 2, src: 1, dst: 2 }, true);
    assert_eq!(row.0, vec![vec!['Z', 'N'], vec!['M'], vec!['P', 'C', 'D']]);
}

#[test]
fn tops_skip_empty_columns() {
    let row = Row(vec![vec!['A'], vec![], vec!['B', 'C']]);
    assert_eq!(row.top_of_each_column(), "AC");
}

#[test]
fn stacking_lands_on_matching_columns() {
    let base = Row(vec![vec!['A'], vec!['B'], vec!['C']]);
    let top = Row(vec![vec![], vec!['D']]);
    let stacked = base.stack(top);
    assert_eq!(stacked.0, vec![vec!['A'], vec!['B', 'D'], vec!['C']]);
}
