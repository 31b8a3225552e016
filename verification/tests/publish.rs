use chartographer::publish::{accepts_extension, resolve_game_versions, sane_release_type, GameVersion};

#[test]
fn only_archive_formats_are_accepted() {
    assert!(accepts_extension("mod-1.2.0.jar"));
    assert!(accepts_extension("PACK.MRPACK"));
    assert!(!accepts_extension("notes.txt"));
    assert!(!accepts_extension("sans-extension"));
}

fn catalogue() -> Vec<GameVersion> {
    vec![
        GameVersion {
            id: 9990,
            name: "1.21.1".into(),
            slug: "1-21-1".into(),
            type_id: 75125,
        },
        GameVersion {
            id: 7499,
            name: "Fabric".into(),
            slug: "fabric".into(),
            type_id: 68441,
        },
    ]
}

#[test]
fn game_versions_and_loaders_share_one_catalogue() {
    let wanted = vec!["1.21.1".to_string(), "fabric".to_string()];
    let (ids, missing) = resolve_game_versions(&wanted, &catalogue());
    assert_eq!(ids, vec![9990, 7499]);
    assert!(missing.is_empty());
}

#[test]
fn an_unknown_version_is_reported_rather_than_dropped_silently() {
    let wanted = vec!["1.21.1".to_string(), "1.99".to_string()];
    let (ids, missing) = resolve_game_versions(&wanted, &catalogue());
    assert_eq!(ids, vec![9990]);
    assert_eq!(missing, vec!["1.99"]);
}

#[test]
fn the_same_version_named_twice_counts_once() {
    let wanted = vec!["1.21.1".to_string(), "1-21-1".to_string()];
    let (ids, _) = resolve_game_versions(&wanted, &catalogue());
    assert_eq!(ids, vec![9990]);
}

#[test]
fn release_types_are_read_without_case() {
    assert_eq!(sane_release_type("BETA"), "beta");
    assert_eq!(sane_release_type("alpha"), "alpha");
    assert_eq!(sane_release_type("n'importe quoi"), "release");
}

#[test]
fn names_are_trimmed_before_lookup_and_the_last_dot_decides() {
    let (ids, missing) = resolve_game_versions(&["  FABRIC ".to_string()], &catalogue());
    assert_eq!(ids, vec![7499]);
    assert!(missing.is_empty());
    assert!(!accepts_extension("archive.jar.txt"));
    assert!(accepts_extension("archive.txt.Zip"));
    assert!(!accepts_extension("jar"));
}
