use confee::text::{chars_of, find_char, parse_line, read_lines, text_of, trim_range};

fn split(line: &str, delim: char) -> Option<(String, String)> {
    parse_line(line, delim)
}

fn owned(key: &str, value: &str) -> Option<(String, String)> {
    Some((key.to_string(), value.to_string()))
}

#[test]
fn first_delimiter_wins() {
    assert_eq!(split("host:127.0.0.1:8080", ':'), owned("host", "127.0.0.1:8080"));
}

#[test]
fn key_and_value_are_trimmed() {
    assert_eq!(split("  a  :  9  ", ':'), owned("a", "9"));
    assert_eq!(split("\ta b\t=\u{a0}c  d\r", '='), owned("a b", "c  d"));
    assert_eq!(split(" : ", ':'), owned("", ""));
    assert_eq!(split(":", ':'), owned("", ""));
    assert_eq!(split("k:", ':'), owned("k", ""));
    assert_eq!(split(":v", ':'), owned("", "v"));
}

#[test]
fn a_line_without_the_delimiter_has_no_parts() {
    assert_eq!(split("badline", ':'), None);
    assert_eq!(split("", ':'), None);
    assert_eq!(split("a:b", '='), None);
}

#[test]
fn a_whitespace_delimiter_still_splits() {
    assert_eq!(split("a b c", ' '), owned("a", "b c"));
}

#[test]
fn parts_agree_with_std_trim() {
    let rows = [
        "  a  :  9  ",
        "\u{2003}wide\u{2003}:\u{3000}space\u{3000}",
        "x\u{200b}:\u{200b}y",
        "é : ü ",
        "\n:\r",
        "no trim:needed",
    ];
    for row in rows {
        let at = row.find(':').unwrap();
        let expected = owned(row[..at].trim(), row[at + 1..].trim());
        assert_eq!(split(row, ':'), expected);
    }
}

#[test]
fn lines_of_a_text() {
    let none: Vec<String> = Vec::new();
    assert_eq!(read_lines(""), none);
    assert_eq!(read_lines("a"), vec!["a"]);
    assert_eq!(read_lines("a\n"), vec!["a"]);
    assert_eq!(read_lines("a\nb"), vec!["a", "b"]);
    assert_eq!(read_lines("a\n\nb\n"), vec!["a", "", "b"]);
    assert_eq!(read_lines("\n"), vec![""]);
    assert_eq!(read_lines("a\r\nb\r\n"), vec!["a", "b"]);
    assert_eq!(read_lines("a\rb\n"), vec!["a\rb"]);
    assert_eq!(read_lines("a\r"), vec!["a\r"]);
    assert_eq!(read_lines("a\r\r\n"), vec!["a\r"]);
    assert_eq!(read_lines("\r\n"), vec![""]);
}

#[test]
fn lines_agree_with_std_lines() {
    let samples = [
        "",
        "\n\n",
        "one\ntwo\r\nthree\r",
        "\r\n\r\n\r",
        "port: 8080\nhost: ::1\n",
        "ünï\ncødé\r\n",
        "\r",
        "x\n\r",
    ];
    for text in samples {
        let expected: Vec<String> = text.lines().map(String::from).collect();
        assert_eq!(read_lines(text), expected);
    }
}

#[test]
fn chars_and_text_round_trip() {
    let v = chars_of("héllo");
    assert_eq!(v, vec!['h', 'é', 'l', 'l', 'o']);
    assert_eq!(text_of(&v, 0, 5), "héllo");
    assert_eq!(text_of(&v, 1, 3), "él");
    assert_eq!(text_of(&v, 2, 2), "");
    assert_eq!(chars_of(""), Vec::<char>::new());
}

#[test]
fn find_char_gives_the_first_position_in_the_range() {
    let v = chars_of("a:b:c");
    assert_eq!(find_char(&v, 0, 5, ':'), Some(1));
    assert_eq!(find_char(&v, 2, 5, ':'), Some(3));
    assert_eq!(find_char(&v, 4, 5, ':'), None);
    assert_eq!(find_char(&v, 0, 1, ':'), None);
    assert_eq!(find_char(&v, 0, 0, 'a'), None);
}

#[test]
fn trim_range_narrows_to_the_trimmed_part() {
    let v = chars_of("  a b \t");
    assert_eq!(trim_range(&v, 0, 7), (2, 5));
    assert_eq!(trim_range(&v, 3, 4), (4, 4));
    assert_eq!(trim_range(&v, 2, 5), (2, 5));
    let blank = chars_of(" \t ");
    assert_eq!(trim_range(&blank, 0, 3), (3, 3));
}
