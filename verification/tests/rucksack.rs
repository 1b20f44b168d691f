use advent::rucksack::{priority, q1, q2};

const EXAMPLE: &str = "vJrwpWtwJgWrhcsFMMfFFhFp\njqHRNqRjqzjGDLGLrsFMfFZSrLrFZsSL\nPmmdzqPrVvPwwTWBwg\nwMqvLMZHhHMvwLHjbvcjnnSBnvTQFn\nttgJtRGJQctTZtZT\nCrZsJsPPZsGzwwsLwLmpwMDw";

#[test]
fn test_priority() {
    assert_eq!(priority('a'), 1);
    assert_eq!(priority('z'), 26);
    assert_eq!(priority('A'), 27);
}

#[test]
fn main_test_q1() {
    assert_eq!(q1(EXAMPLE), 157)
}

#[test]
fn main_test_q2() {
    assert_eq!(q2(EXAMPLE), 70)
}

#[test]
fn set_deduplicates_in_order() {
    let s = advent::rucksack::set("abcabz");
    assert_eq!(s, vec!['a', 'b', 'c', 'z']);
}
