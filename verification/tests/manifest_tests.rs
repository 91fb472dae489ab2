use icon_themes::manifest::parse_manifest;
use icon_themes::text::{split_string, str_trim};

fn lines(v: &[&str]) -> Vec<String> {
    v.iter().map(|s| s.to_string()).collect()
}

#[test]
fn hidden_true_line_excludes_theme() {
    let m = parse_manifest(&lines(&["Name=Foo", "Hidden=true"]));
    assert!(m.hidden);
}

#[test]
fn hidden_anywhere_counts() {
    let m = parse_manifest(&lines(&["Comment=x", "Name=Foo", "Inherits=A", "Hidden=true"]));
    assert!(m.hidden);
}

#[test]
fn hidden_value_is_trimmed() {
    let m = parse_manifest(&lines(&["Hidden=  true  "]));
    assert!(m.hidden);
}

#[test]
fn hidden_false_keeps_theme() {
    let m = parse_manifest(&lines(&["Hidden=false", "Name=Foo"]));
    assert!(!m.hidden);
    assert_eq!(m.name.as_deref(), Some("Foo"));
}

#[test]
fn hidden_other_value_keeps_theme() {
    let m = parse_manifest(&lines(&["Hidden=True", "Name=Foo"]));
    assert!(!m.hidden);
}

#[test]
fn first_name_wins() {
    let m = parse_manifest(&lines(&["Name=First", "Name=Second"]));
    assert_eq!(m.name.as_deref(), Some("First"));
}

#[test]
fn name_value_is_trimmed() {
    let m = parse_manifest(&lines(&["Name=  Spaced Name \n"]));
    assert_eq!(m.name.as_deref(), Some("Spaced Name"));
}

#[test]
fn missing_name_is_none() {
    let m = parse_manifest(&lines(&["Comment=x", "Inherits=A"]));
    assert!(m.name.is_none());
}

#[test]
fn inherits_splits_on_commas() {
    let m = parse_manifest(&lines(&["Name=Foo", "Inherits=Adwaita,hicolor"]));
    assert_eq!(m.inherits, vec!["Adwaita".to_string(), "hicolor".to_string()]);
}

#[test]
fn inherits_items_keep_inner_spaces() {
    let m = parse_manifest(&lines(&["Name=Foo", "Inherits=A, B"]));
    assert_eq!(m.inherits, vec!["A".to_string(), " B".to_string()]);
}

#[test]
fn first_inherits_wins() {
    let m = parse_manifest(&lines(&["Inherits=A", "Inherits=B", "Name=Foo"]));
    assert_eq!(m.inherits, vec!["A".to_string()]);
}

#[test]
fn no_inherits_is_empty() {
    let m = parse_manifest(&lines(&["Name=Foo"]));
    assert!(m.inherits.is_empty());
}

#[test]
fn empty_inherits_value_is_one_empty_item() {
    let m = parse_manifest(&lines(&["Name=Foo", "Inherits="]));
    assert_eq!(m.inherits, vec![String::new()]);
}

#[test]
fn key_must_touch_equals_sign() {
    let m = parse_manifest(&lines(&["Name = Foo"]));
    assert!(m.name.is_none());
}

#[test]
fn trim_removes_surrounding_whitespace() {
    assert_eq!(str_trim("  a b \t\n"), "a b");
    assert_eq!(str_trim(""), "");
    assert_eq!(str_trim(" \t "), "");
    assert_eq!(str_trim("x"), "x");
}

#[test]
fn split_keeps_empty_parts() {
    assert_eq!(
        split_string("a,,b", ','),
        vec!["a".to_string(), String::new(), "b".to_string()]
    );
    assert_eq!(split_string("", ','), vec![String::new()]);
    assert_eq!(split_string("abc", ','), vec!["abc".to_string()]);
    assert_eq!(
        split_string(",x,", ','),
        vec![String::new(), "x".to_string(), String::new()]
    );
}
