use mem_stream::names::{join_names, lines, listed_names, with_name, without_name};

#[test]
fn lines_are_those_of_std() {
    for s in ["", "a", "a\n", "a\nb", "\n", "\n\na\r\nb\r", "a\r\n\r\nb\n\n"] {
        let want: Vec<String> = s.lines().map(|l| l.to_string()).collect();
        assert_eq!(lines(s), want);
    }
}

#[test]
fn names_are_added_once_and_dropped() {
    let one = with_name("", "g1").unwrap();
    assert_eq!(one, "g1");
    let two = with_name(&one, "g2").unwrap();
    assert_eq!(two, "g1\ng2");
    assert_eq!(with_name(&two, "g1"), None);
    assert_eq!(without_name(&two, "g1"), "g2");
    assert_eq!(without_name(&two, "g3"), "g1\ng2");
    assert_eq!(without_name("g2", "g2"), "");
}

#[test]
fn names_round_trip() {
    let names: Vec<String> = ["a", "b c", "\u{6af}"].iter().map(|s| s.to_string()).collect();
    assert_eq!(listed_names(&join_names(&names)), names);
    assert_eq!(listed_names("\n\na\n\nb\r\n"), vec!["a", "b"]);
}
