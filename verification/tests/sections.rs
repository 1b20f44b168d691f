use advent::sections::solve;

#[test]
fn test() {
    let input: &[u8] = b"2-4,6-8\n2-3,4-5\n5-7,7-9\n2-8,3-7\n6-6,4-6\n2-6,4-8";
    let (q1, q2) = solve(input);
    assert_eq!(q1, 2);
    assert_eq!(q2, 4);
}

#[test]
fn single_section_ranges() {
    // 7-7 sits inside 5-9, and the pair counts for both questions.
    let input: &[u8] = b"7-7,5-9";
    assert_eq!(solve(input), (1, 1));
    // Touching only at the boundary is a partial overlap.
    let input: &[u8] = b"2-4,4-6";
    assert_eq!(solve(input), (0, 1));
    // Fully apart.
    let input: &[u8] = b"1-2,4-6";
    assert_eq!(solve(input), (0, 0));
}
