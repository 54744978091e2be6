use filesplit::naming::part_name;

#[test]
fn part_name_is_base_dot_index() {
    assert_eq!(part_name("archive.tar", 1), "archive.tar.1");
    assert_eq!(part_name("a", 10), "a.10");
    assert_eq!(part_name("dir/file", 203), "dir/file.203");
}

#[test]
fn part_name_uses_unpadded_decimal() {
    assert_eq!(part_name("x", 0), "x.0");
    assert_eq!(part_name("x", 7), "x.7");
    assert_eq!(part_name("x", 100), "x.100");
    assert_eq!(part_name("x", 1234567890), "x.1234567890");
    assert_eq!(part_name("x", u32::MAX), "x.4294967295");
}

#[test]
fn part_name_with_empty_base() {
    assert_eq!(part_name("", 5), ".5");
}
