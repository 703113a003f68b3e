use confee::conf::Conf;

fn pair(key: &str, value: &str) -> (String, String) {
    (key.to_string(), value.to_string())
}

fn ab() -> Conf {
    Conf::from([pair("a", "1"), pair("b", "2")])
}

#[test]
fn defaults_are_kept_after_construction() {
    let conf = Conf::from([
        pair("log", "stdout"),
        pair("dir", "/var/www/html/"),
        pair("addr", "127.0.0.1"),
        pair("port", "8080"),
        pair("is_valid", "true"),
    ]);
    assert_eq!(conf.index("log"), "stdout");
    assert_eq!(conf.index("dir"), "/var/www/html/");
    assert_eq!(conf.index("addr"), "127.0.0.1");
    assert_eq!(conf.index("port"), "8080");
    assert_eq!(conf.get::<u16>("port"), Some(8080));
    assert_eq!(conf.get::<bool>("is_valid"), Some(true));
    assert_eq!(conf.lookup("log").map(|s| s.as_str()), Some("stdout"));
    assert!(!conf.is_updated());
}

#[test]
fn a_new_store_has_the_default_delimiter_and_no_file() {
    let conf = ab();
    assert_eq!(conf.delim(), ':');
    assert_eq!(conf.file(), "");
    assert!(!conf.is_updated());
}

#[test]
fn empty_defaults_make_an_empty_store() {
    let mut conf = Conf::from([]);
    assert_eq!(conf.index("a"), "");
    assert_eq!(conf.display(), "");
    assert_eq!(conf.update("a:1\n"), Ok(()));
    assert_eq!(conf.lookup("a"), None);
    assert!(conf.is_updated());
}

#[test]
fn a_repeated_default_key_keeps_its_last_value() {
    let conf = Conf::from([pair("a", "1"), pair("b", "2"), pair("a", "3")]);
    assert_eq!(conf.index("a"), "3");
    assert_eq!(conf.index("b"), "2");
    assert_eq!(conf.display(), "a: 3\nb: 2\n");
}

#[test]
fn setters_chain_and_change_only_their_field() {
    let mut conf = ab();
    conf.with_delim('=').and_file("app.conf");
    assert_eq!(conf.delim(), '=');
    assert_eq!(conf.file(), "app.conf");
    conf.with_file("other.conf").and_delim(';');
    assert_eq!(conf.delim(), ';');
    assert_eq!(conf.file(), "other.conf");
    assert_eq!(conf.index("a"), "1");
    assert_eq!(conf.index("b"), "2");
    assert!(!conf.is_updated());
}

#[test]
fn update_overrides_only_existing_keys() {
    let mut conf = ab();
    assert_eq!(conf.update("a:9\nc:5"), Ok(()));
    assert_eq!(conf.index("a"), "9");
    assert_eq!(conf.index("b"), "2");
    assert_eq!(conf.lookup("c"), None);
    assert_eq!(conf.get::<u8>("c"), None);
    assert_eq!(conf.index("c"), "");
    assert!(conf.is_updated());
}

#[test]
fn update_stops_at_the_first_malformed_line() {
    let mut conf = ab();
    let done = conf.update("a:9\nbadline\nb:3");
    assert_eq!(done, Err("No delimiter found in line: badline".to_string()));
    assert_eq!(conf.index("a"), "9");
    assert_eq!(conf.index("b"), "2");
    assert!(!conf.is_updated());
}

#[test]
fn a_failed_update_does_not_reset_the_flag() {
    let mut conf = ab();
    assert_eq!(conf.update("a:9"), Ok(()));
    assert!(conf.is_updated());
    assert!(conf.update("nothing here").is_err());
    assert!(conf.is_updated());
    assert_eq!(conf.index("a"), "9");
}

#[test]
fn an_empty_line_is_malformed() {
    let mut conf = ab();
    let done = conf.update("a:9\n\nb:3\n");
    assert_eq!(done, Err("No delimiter found in line: ".to_string()));
    assert_eq!(conf.index("a"), "9");
    assert_eq!(conf.index("b"), "2");
}

#[test]
fn update_with_an_empty_text_succeeds_and_changes_no_value() {
    let mut conf = ab();
    assert_eq!(conf.update(""), Ok(()));
    assert!(conf.is_updated());
    assert_eq!(conf.index("a"), "1");
    assert_eq!(conf.index("b"), "2");
}

#[test]
fn update_splits_at_the_first_delimiter_and_trims() {
    let mut conf = Conf::from([pair("host", "localhost"), pair("a", "1")]);
    assert_eq!(conf.update("host:127.0.0.1:8080\n  a  :  9  \n"), Ok(()));
    assert_eq!(conf.index("host"), "127.0.0.1:8080");
    assert_eq!(conf.index("a"), "9");
}

#[test]
fn update_uses_the_delimiter_that_was_set() {
    let mut conf = ab();
    assert_eq!(conf.with_delim('=').update("a = x:y\r\nb=\r\n"), Ok(()));
    assert_eq!(conf.index("a"), "x:y");
    assert_eq!(conf.index("b"), "");
    assert_eq!(conf.lookup("b").map(|s| s.as_str()), Some(""));
    let done = conf.update("a:1");
    assert_eq!(done, Err("No delimiter found in line: a:1".to_string()));
}

#[test]
fn the_last_line_for_a_key_wins() {
    let mut conf = ab();
    assert_eq!(conf.update("a:5\nb:6\na:7"), Ok(()));
    assert_eq!(conf.index("a"), "7");
    assert_eq!(conf.index("b"), "6");
}

#[test]
fn loading_the_same_text_twice_changes_nothing_more() {
    let text = "a:5\nb:6\na:7\nzzz:1";
    let mut once = ab();
    assert_eq!(once.update(text), Ok(()));
    let mut twice = ab();
    assert_eq!(twice.update(text), Ok(()));
    assert_eq!(twice.update(text), Ok(()));
    assert_eq!(once.index("a"), twice.index("a"));
    assert_eq!(once.index("b"), twice.index("b"));
    assert_eq!(once.display(), twice.display());
    assert_eq!(twice.display(), "a: 7\nb: 6\n");
}

#[test]
fn loading_a_failing_text_twice_changes_nothing_more() {
    let text = "a:5\noops\nb:6";
    let mut once = ab();
    assert!(once.update(text).is_err());
    let mut twice = ab();
    assert!(twice.update(text).is_err());
    assert!(twice.update(text).is_err());
    assert_eq!(once.display(), twice.display());
    assert_eq!(twice.display(), "a: 5\nb: 2\n");
}

#[test]
fn typed_get_parses_the_stored_text() {
    let mut conf = Conf::from([pair("port", "8080")]);
    assert_eq!(conf.get::<u16>("port"), Some(8080));
    assert_eq!(conf.get::<u8>("port"), None);
    assert_eq!(conf.get::<u64>("port"), Some(8080));
    assert_eq!(conf.update("port: not-a-number"), Ok(()));
    assert_eq!(conf.index("port"), "not-a-number");
    assert_eq!(conf.get::<u16>("port"), None);
    assert_eq!(conf.get::<u16>("missing"), None);
}

#[test]
fn index_of_a_missing_key_is_empty() {
    assert_eq!(ab().index("missing"), "");
    assert_eq!(Conf::from([]).index("missing"), "");
    assert_eq!(ab().index(""), "");
    let mut conf = ab();
    assert_eq!(conf.update("missing:1"), Ok(()));
    assert_eq!(conf.index("missing"), "");
}

#[test]
fn display_renders_one_line_per_entry() {
    let mut conf = Conf::from([pair("foo", "bar"), pair("yee", ""), pair("", "x")]);
    assert_eq!(conf.display(), "foo: bar\nyee: \n: x\n");
    conf.with_delim('=');
    assert_eq!(conf.display(), "foo= bar\nyee= \n= x\n");
}

#[test]
fn display_holds_every_entry_once() {
    let conf = Conf::from([pair("log", "stdout"), pair("port", "8080"), pair("dir", "/srv")]);
    let shown = conf.display();
    let mut rows: Vec<&str> = shown.lines().collect();
    rows.sort();
    assert_eq!(rows, vec!["dir: /srv", "log: stdout", "port: 8080"]);
}
