use advent::marker::solve;

fn chars(s: &str) -> Vec<char> {
    s.chars().collect()
}

#[test]
fn marker_statement_examples_q1() {
    assert_eq!(solve(&chars("mjqjpqmgbljsphdztnvjfqwrcgsmlb"), 4), 7);
    assert_eq!(solve(&chars("bvwbjplbgvbhsrlpgdmjqwftvncz"), 4), 5);
    assert_eq!(solve(&chars("nppdvjthqldpwncqszvftbrmjlhg"), 4), 6);
    assert_eq!(solve(&chars("nznrnfrfntjfmvfwmzdfjlvtqnbhcprsg"), 4), 10);
    assert_eq!(solve(&chars("zcfzfwzzqfrljwzlrfnpqdbhtmscgvjw"), 4), 11);
}

#[test]
fn marker_statement_examples_q2() {
    assert_eq!(solve(&chars("mjqjpqmgbljsphdztnvjfqwrcgsmlb"), 14), 19);
    assert_eq!(solve(&chars("bvwbjplbgvbhsrlpgdmjqwftvncz"), 14), 23);
    assert_eq!(solve(&chars("nppdvjthqldpwncqszvftbrmjlhg"), 14), 23);
    assert_eq!(solve(&chars("nznrnfrfntjfmvfwmzdfjlvtqnbhcprsg"), 14), 29);
    assert_eq!(solve(&chars("zcfzfwzzqfrljwzlrfnpqdbhtmscgvjw"), 14), 26);
}

#[test]
fn marker_at_the_very_start() {
    assert_eq!(solve(&chars("abcd"), 4), 4);
}
