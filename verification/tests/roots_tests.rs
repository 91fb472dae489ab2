use icon_themes::roots::search_roots;

fn s(v: &str) -> Option<String> {
    Some(v.to_string())
}

#[test]
fn default_data_dirs_when_unset() {
    let roots = search_roots(&None, &None, &s("/home/u"));
    assert_eq!(
        roots,
        vec![
            "/usr/local/share/icons".to_string(),
            "/usr/share/icons".to_string(),
            "/home/u/.local/share/icons".to_string(),
        ]
    );
}

#[test]
fn declared_data_dirs_keep_their_order() {
    let roots = search_roots(&s("/opt/data:/srv/share/"), &None, &None);
    assert_eq!(
        roots,
        vec!["/opt/data/icons".to_string(), "/srv/share/icons".to_string()]
    );
}

#[test]
fn empty_path_segment_yields_bare_icons() {
    let roots = search_roots(&s("/a::/b"), &None, &None);
    assert_eq!(
        roots,
        vec!["/a/icons".to_string(), "icons".to_string(), "/b/icons".to_string()]
    );
}

#[test]
fn personal_entry_comes_last() {
    let roots = search_roots(&s("/a"), &s("/custom"), &s("/home/u"));
    assert_eq!(
        roots,
        vec!["/a/icons".to_string(), "/custom/.local/share/icons".to_string()]
    );
}

#[test]
fn empty_data_home_falls_back_to_home_directory() {
    let roots = search_roots(&s("/a"), &s(""), &s("/home/u"));
    assert_eq!(
        roots,
        vec!["/a/icons".to_string(), "/home/u/.local/share/icons".to_string()]
    );
}

#[test]
fn no_personal_entry_without_any_home() {
    let roots = search_roots(&s("/a"), &None, &None);
    assert_eq!(roots, vec!["/a/icons".to_string()]);
    let roots = search_roots(&s("/a"), &s(""), &None);
    assert_eq!(roots, vec!["/a/icons".to_string()]);
}

#[test]
fn trailing_slash_is_not_doubled() {
    let roots = search_roots(&s("/a/"), &None, &s("/home/u/"));
    assert_eq!(
        roots,
        vec!["/a/icons".to_string(), "/home/u/.local/share/icons".to_string()]
    );
}
