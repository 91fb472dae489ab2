use icon_themes::preview::{
    alternate_name, attempt_name, attempt_size, path_is_accepted, primary_name, resolve_previews,
    resolving_dir_of, ActiveIconTheme, IconHandle, ATTEMPTS_PER_CATEGORY, CATEGORY_COUNT,
    THUMBNAIL_SIZE,
};

fn strings(v: &[&str]) -> Vec<String> {
    v.iter().map(|s| s.to_string()).collect()
}

fn no_answers() -> Vec<Vec<Option<String>>> {
    Vec::new()
}

#[test]
fn resolve_previews_always_returns_six_handles() {
    let mut active = ActiveIconTheme { name: "Current".to_string() };
    let out = resolve_previews(&mut active, "Pop", &Vec::new(), &no_answers());
    assert_eq!(out.len(), 6);
    for h in &out {
        assert!(matches!(h, IconHandle::Named(_, _)));
    }
}

#[test]
fn fallback_uses_primary_name_at_thumbnail_size() {
    let mut active = ActiveIconTheme { name: "Current".to_string() };
    let out = resolve_previews(&mut active, "Pop", &Vec::new(), &no_answers());
    let expected = [
        "folder",
        "user-home",
        "text-x-generic",
        "image-x-generic",
        "audio-x-generic",
        "video-x-generic",
    ];
    for (h, want) in out.iter().zip(expected.iter()) {
        match h {
            IconHandle::Named(name, size) => {
                assert_eq!(name, want);
                assert_eq!(*size, THUMBNAIL_SIZE);
            }
            IconHandle::Path(_) => panic!("expected fallback handle"),
        }
    }
}

#[test]
fn active_theme_restored_after_resolution() {
    let mut active = ActiveIconTheme { name: "PreviousTheme".to_string() };
    let _ = resolve_previews(&mut active, "SomeOther", &Vec::new(), &no_answers());
    assert_eq!(active.name, "PreviousTheme");
}

#[test]
fn active_theme_restored_with_accepted_answers_too() {
    let mut active = ActiveIconTheme { name: "Before".to_string() };
    let valid = strings(&["Pop"]);
    let answers = vec![vec![Some("/usr/share/icons/Pop/places/folder.svg".to_string())]];
    let _ = resolve_previews(&mut active, "Pop", &valid, &answers);
    assert_eq!(active.name, "Before");
}

#[test]
fn foreign_theme_paths_all_fall_back() {
    // Only paths under Breeze resolve, but Breeze is not a valid directory.
    let mut active = ActiveIconTheme { name: "x".to_string() };
    let valid = strings(&["Pop", "Adwaita"]);
    let breeze = "/usr/share/icons/Breeze/places/folder.svg".to_string();
    let answers: Vec<Vec<Option<String>>> =
        (0..6).map(|_| (0..6).map(|_| Some(breeze.clone())).collect()).collect();
    let out = resolve_previews(&mut active, "Pop", &valid, &answers);
    assert_eq!(out.len(), 6);
    for h in &out {
        assert!(matches!(h, IconHandle::Named(_, _)));
    }
}

#[test]
fn accepted_path_becomes_preview_handle() {
    let mut active = ActiveIconTheme { name: "x".to_string() };
    let valid = strings(&["Pop"]);
    let good = "/usr/share/icons/Pop/32x32/places/folder.png".to_string();
    let answers = vec![vec![Some(good.clone())]];
    let out = resolve_previews(&mut active, "Pop", &valid, &answers);
    match &out[0] {
        IconHandle::Path(p) => assert_eq!(p, &good),
        IconHandle::Named(_, _) => panic!("expected accepted path"),
    }
    // the other categories had no answers and fall back
    for h in &out[1..] {
        assert!(matches!(h, IconHandle::Named(_, _)));
    }
}

#[test]
fn first_accepted_attempt_wins() {
    let mut active = ActiveIconTheme { name: "x".to_string() };
    let valid = strings(&["Pop"]);
    let bad = "/usr/share/icons/Breeze/places/folder.svg".to_string();
    let first_good = "/usr/share/icons/Pop/32/folder.png".to_string();
    let later_good = "/usr/share/icons/Pop/48/folder.png".to_string();
    let answers = vec![vec![
        Some(bad),
        None,
        Some(first_good.clone()),
        Some(later_good),
    ]];
    let out = resolve_previews(&mut active, "Pop", &valid, &answers);
    match &out[0] {
        IconHandle::Path(p) => assert_eq!(p, &first_good),
        IconHandle::Named(_, _) => panic!("expected accepted path"),
    }
}

#[test]
fn resolving_dir_takes_component_inside_deepest_icons() {
    assert_eq!(
        resolving_dir_of("/usr/share/icons/Pop/places/folder.svg").as_deref(),
        Some("Pop")
    );
    assert_eq!(
        resolving_dir_of("/a/icons/b/icons/Deep/file.png").as_deref(),
        Some("Deep")
    );
    assert_eq!(resolving_dir_of("icons/Pop/x").as_deref(), Some("Pop"));
}

#[test]
fn resolving_dir_without_boundary_is_topmost_component() {
    assert_eq!(resolving_dir_of("/usr/share/pop/file").as_deref(), Some("usr"));
    assert_eq!(resolving_dir_of("relative/file").as_deref(), Some("relative"));
    // a terminal `icons` component is no boundary
    assert_eq!(resolving_dir_of("/usr/share/icons").as_deref(), Some("usr"));
}

#[test]
fn resolving_dir_of_empty_path_is_none() {
    assert_eq!(resolving_dir_of(""), None);
    assert_eq!(resolving_dir_of("///"), None);
}

#[test]
fn path_acceptance_checks_membership() {
    let valid = strings(&["Pop", "Adwaita"]);
    assert!(path_is_accepted("/usr/share/icons/Pop/places/folder.svg", &valid));
    assert!(path_is_accepted("/home/u/.local/share/icons/Adwaita/x.png", &valid));
    assert!(!path_is_accepted("/usr/share/icons/Breeze/places/folder.svg", &valid));
    assert!(!path_is_accepted("/usr/share/icons/Pop/x.png", &Vec::new()));
    assert!(!path_is_accepted("", &valid));
}

#[test]
fn probe_plan_is_fixed_and_ordered() {
    assert_eq!(CATEGORY_COUNT, 6);
    assert_eq!(ATTEMPTS_PER_CATEGORY, 6);
    assert_eq!(primary_name(0), "folder");
    assert_eq!(alternate_name(0), "folder-symbolic");
    assert_eq!(primary_name(3), "image-x-generic");
    assert_eq!(alternate_name(3), "images-x-generic-symbolic");
    assert_eq!(primary_name(5), "video-x-generic");
    for c in 0..6 {
        for a in 0..3 {
            assert_eq!(attempt_name(c, a), primary_name(c));
            assert_eq!(attempt_name(c, a + 3), alternate_name(c));
        }
    }
    let sizes: Vec<u16> = (0..6).map(attempt_size).collect();
    assert_eq!(sizes, vec![32, 48, 64, 32, 48, 64]);
}
