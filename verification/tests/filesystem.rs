use advent::filesystem::{parse_lines, q1, q2, size_of_dirs, Line};

const EXAMPLE: &[u8] = b"$ cd /\n$ ls\ndir a\n14848514 b.txt\n8504156 c.dat\ndir d\n$ cd a\n$ ls\ndir e\n29116 f\n2557 g\n62596 h.lst\n$ cd e\n$ ls\n584 i\n$ cd ..\n$ cd ..\n$ cd d\n$ ls\n4060174 j\n8033020 d.log\n5626152 d.ext\n7214296 k";

#[test]
fn test_parse_example() {
    let lines = parse_lines(EXAMPLE);
    assert_eq!(lines.len(), 23);
    assert!(matches!(&lines[0], Line::Cd(d) if d == "/"));
    assert!(matches!(lines[1], Line::Ls));
    assert!(matches!(&lines[2], Line::LsDir(d) if d == "a"));
    assert!(matches!(&lines[3], Line::LsFile(14848514, n) if n == "b.txt"));
}

#[test]
fn example_directory_sizes() {
    let lines = parse_lines(EXAMPLE);
    let dir_sizes = size_of_dirs(lines);
    // Root, /a, /a/e and /d, in order of first appearance.
    assert_eq!(dir_sizes, vec![48381165, 94853, 584, 24933642]);
    assert_eq!(q1(&dir_sizes), 95437);
    assert_eq!(q2(&dir_sizes), 24933642);
}

#[test]
fn listing_a_file_twice_keeps_the_later_size() {
    let lines = vec![
        Line::Cd(String::from("/")),
        Line::Ls,
        Line::LsFile(5, String::from("x")),
        Line::LsFile(7, String::from("x")),
    ];
    assert_eq!(size_of_dirs(lines), vec![7]);
}

#[test]
fn climbing_above_the_root_stays_at_the_root() {
    let lines = vec![
        Line::Cd(String::from("..")),
        Line::Cd(String::from("..")),
        Line::LsFile(3, String::from("x")),
    ];
    assert_eq!(size_of_dirs(lines), vec![3]);
}
