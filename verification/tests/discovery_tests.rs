use icon_themes::discovery::Discovery;

fn lines(v: &[&str]) -> Vec<String> {
    v.iter().map(|s| s.to_string()).collect()
}

#[test]
fn hidden_theme_excluded_from_discovery() {
    let mut d = Discovery::new();
    let accepted = d.process_entry(
        "Ghost",
        "/usr/share/icons/Ghost",
        &lines(&["Name=Ghost", "Hidden=true"]),
    );
    assert!(!accepted);
    assert_eq!(d.len(), 0);
}

#[test]
fn unnamed_theme_excluded_from_discovery() {
    let mut d = Discovery::new();
    let accepted = d.process_entry(
        "anon",
        "/usr/share/icons/anon",
        &lines(&["Comment=no name here"]),
    );
    assert!(!accepted);
    assert_eq!(d.len(), 0);
}

#[test]
fn duplicate_name_earlier_root_wins() {
    let mut d = Discovery::new();
    assert!(d.process_entry("Pop", "/usr/share/icons/Pop", &lines(&["Name=Pop"])));
    let again = d.process_entry(
        "pop-user",
        "/home/u/.local/share/icons/pop-user",
        &lines(&["Name=Pop"]),
    );
    assert!(!again);
    assert_eq!(d.len(), 1);
    assert_eq!(d.theme_at(0).id, "Pop");
    assert_eq!(d.theme_at(0).name, "Pop");
}

#[test]
fn inherited_name_stays_literal_when_unseen() {
    let mut d = Discovery::new();
    assert!(d.process_entry(
        "foo-dir",
        "/usr/share/icons/foo-dir",
        &lines(&["Name=Foo", "Inherits=Adwaita"]),
    ));
    let chain = d.chain_at(0);
    assert_eq!(chain, &vec!["Adwaita".to_string(), "foo-dir".to_string()]);
}

#[test]
fn inherited_name_resolves_to_seen_directory() {
    let mut d = Discovery::new();
    assert!(d.process_entry(
        "adwaita-dir",
        "/usr/share/icons/adwaita-dir",
        &lines(&["Name=Adwaita"]),
    ));
    assert!(d.process_entry(
        "foo-dir",
        "/usr/share/icons/foo-dir",
        &lines(&["Name=Foo", "Inherits=Adwaita"]),
    ));
    // themes are ordered by (id, name): adwaita-dir before foo-dir
    assert_eq!(d.theme_at(1).name, "Foo");
    let chain = d.chain_at(1);
    assert_eq!(chain, &vec!["adwaita-dir".to_string(), "foo-dir".to_string()]);
}

#[test]
fn empty_scan_yields_empty_result() {
    let d = Discovery::new();
    assert_eq!(d.len(), 0);
}

#[test]
fn discovery_is_deterministic_across_passes() {
    let entries: Vec<(&str, &str, Vec<String>)> = vec![
        ("zeta", "/usr/share/icons/zeta", lines(&["Name=Zeta", "Inherits=Alpha"])),
        ("alpha", "/usr/share/icons/alpha", lines(&["Name=Alpha"])),
        ("hidden", "/usr/share/icons/hidden", lines(&["Name=H", "Hidden=true"])),
        ("alpha2", "/usr/share/icons/alpha2", lines(&["Name=Alpha"])),
    ];
    let mut d1 = Discovery::new();
    let mut d2 = Discovery::new();
    for (id, canon, ls) in &entries {
        d1.process_entry(id, canon, ls);
    }
    for (id, canon, ls) in &entries {
        d2.process_entry(id, canon, ls);
    }
    assert_eq!(d1.len(), d2.len());
    for i in 0..d1.len() {
        assert_eq!(d1.theme_at(i).id, d2.theme_at(i).id);
        assert_eq!(d1.theme_at(i).name, d2.theme_at(i).name);
        assert_eq!(d1.chain_at(i), d2.chain_at(i));
    }
}

#[test]
fn themes_are_ordered_by_id_then_name() {
    let mut d = Discovery::new();
    assert!(d.process_entry("zeta", "/i/icons/zeta", &lines(&["Name=Z"])));
    assert!(d.process_entry("alpha", "/i/icons/alpha", &lines(&["Name=A"])));
    assert!(d.process_entry("mid", "/i/icons/mid", &lines(&["Name=M"])));
    assert_eq!(d.len(), 3);
    assert_eq!(d.theme_at(0).id, "alpha");
    assert_eq!(d.theme_at(1).id, "mid");
    assert_eq!(d.theme_at(2).id, "zeta");
}

#[test]
fn id_comes_from_entry_and_chain_from_canonical_path() {
    let mut d = Discovery::new();
    assert!(d.process_entry(
        "Pop",
        "/usr/share/icons/pop-canonical",
        &lines(&["Name=Pop"]),
    ));
    assert_eq!(d.theme_at(0).id, "Pop");
    assert_eq!(d.chain_at(0), &vec!["pop-canonical".to_string()]);
}

#[test]
fn own_directory_falls_back_to_name_without_components() {
    let mut d = Discovery::new();
    assert!(d.process_entry("x", "", &lines(&["Name=Bare"])));
    assert_eq!(d.chain_at(0), &vec!["Bare".to_string()]);
}

#[test]
fn earlier_pass_state_decides_inheritance() {
    // Alpha is only seen after Zeta's manifest is processed, so Zeta keeps
    // the literal name while a later theme resolves it.
    let mut d = Discovery::new();
    assert!(d.process_entry(
        "zeta",
        "/i/icons/zeta",
        &lines(&["Name=Zeta", "Inherits=Alpha"]),
    ));
    assert!(d.process_entry("alpha-dir", "/i/icons/alpha-dir", &lines(&["Name=Alpha"])));
    assert!(d.process_entry(
        "omega",
        "/i/icons/omega",
        &lines(&["Name=Omega", "Inherits=Alpha"]),
    ));
    // order by id: alpha-dir, omega, zeta
    assert_eq!(d.chain_at(1), &vec!["alpha-dir".to_string(), "omega".to_string()]);
    assert_eq!(d.chain_at(2), &vec!["Alpha".to_string(), "zeta".to_string()]);
}
