use hanzi_components::{parse_ids_line, IdsMap};

#[test]
fn record_line_is_read() {
    assert_eq!(
        parse_ids_line("U+660E\t明\t⿰日月"),
        Some(("明".to_string(), "⿰日月".to_string()))
    );
    assert_eq!(
        parse_ids_line("CDP-855B\t&CDP-855B;\t⿱口口\textra"),
        Some(("&CDP-855B;".to_string(), "⿱口口".to_string()))
    );
}

#[test]
fn skipped_lines() {
    assert_eq!(parse_ids_line("# comment\ta\tb"), None);
    assert_eq!(parse_ids_line(";; meta\ta\tb"), None);
    assert_eq!(parse_ids_line(""), None);
    assert_eq!(parse_ids_line(" \t\u{3000}\t "), None);
    assert_eq!(parse_ids_line("U+6728\t木"), None);
    assert_eq!(parse_ids_line("U+6728\t木\t木"), None);
}

#[test]
fn single_semicolon_is_not_metadata() {
    assert_eq!(parse_ids_line(";x\ta\tb"), Some(("a".to_string(), "b".to_string())));
}

#[test]
fn later_lines_win() {
    let mut m = IdsMap::new();
    let lines = vec![
        "U+660E\t明\t⿰日月".to_string(),
        "# note".to_string(),
        "U+6728\t木\t木".to_string(),
        "U+660E\t明\t⿰目月".to_string(),
    ];
    m.add_lines(&lines);
    assert_eq!(m.len(), 1);
    assert_eq!(m.get(&"明".to_string()), Some(&"⿰目月".to_string()));
    assert_eq!(m.get(&"木".to_string()), None);
}

#[test]
fn extend_overwrites_in_place() {
    let mut a = IdsMap::new();
    a.insert("明".to_string(), "⿰日月".to_string());
    a.insert("好".to_string(), "⿰女子".to_string());
    let mut b = IdsMap::new();
    b.insert("明".to_string(), "⿰目月".to_string());
    b.insert("林".to_string(), "⿰木木".to_string());
    a.extend(&b);
    assert_eq!(a.len(), 3);
    assert_eq!(a.entry(0), (&"明".to_string(), &"⿰目月".to_string()));
    assert_eq!(a.entry(1), (&"好".to_string(), &"⿰女子".to_string()));
    assert_eq!(a.entry(2), (&"林".to_string(), &"⿰木木".to_string()));
}
