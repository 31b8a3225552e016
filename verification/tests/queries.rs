use chartographer::models::Platform;
use chartographer::queries::{day_axis, resolve_range, shift_day, PlatformFilter};

#[test]
fn platform_filter_reads_the_names_sent_by_the_interface() {
    let both =
        PlatformFilter::from_names(Some(&["modrinth".to_string(), "curseforge".to_string()]));
    assert!(both.modrinth && both.curseforge);

    let only_cf = PlatformFilter::from_names(Some(&["curseforge".to_string()]));
    assert!(!only_cf.modrinth && only_cf.curseforge);

    assert!(PlatformFilter::from_names(None).modrinth);
    assert!(PlatformFilter::from_names(Some(&[])).curseforge);
}

#[test]
fn resolve_range_falls_back_on_the_sliding_window() {
    let (from, to) = resolve_range("2026-08-11", 30, None, None);
    assert_eq!(from, "2026-07-12");
    assert_eq!(to, "2026-08-12");
}

#[test]
fn resolve_range_includes_the_chosen_last_day() {
    let (from, to) = resolve_range("2026-08-11", 30, Some("2026-08-01"), Some("2026-08-31"));
    assert_eq!(from, "2026-08-01");
    assert_eq!(to, "2026-09-01");
}

#[test]
fn resolve_range_ignores_malformed_bounds() {
    let (from, to) = resolve_range("2026-08-11", 7, Some("hier"), Some(""));
    assert_eq!(from, "2026-08-04");
    assert_eq!(to, "2026-08-12");
}

#[test]
fn resolve_range_repairs_an_inverted_window() {
    let (from, to) = resolve_range("2026-08-11", 30, Some("2026-08-20"), Some("2026-08-01"));
    assert_eq!(from, "2026-08-20");
    assert_eq!(to, "2026-08-21");
}

#[test]
fn day_axis_is_dense_and_excludes_the_upper_bound() {
    let axis = day_axis("2026-08-08", "2026-08-11");
    assert_eq!(axis, vec!["2026-08-08", "2026-08-09", "2026-08-10"]);
}

#[test]
fn an_invalid_day_is_not_moved_and_gives_no_axis() {
    assert_eq!(shift_day("demain", 3), "demain");
    assert_eq!(shift_day("2026-02-28", 1), "2026-03-01");
    assert!(day_axis("2026-08-08", "x").is_empty());
    assert!(day_axis("2026-08-11", "2026-08-08").is_empty());
}

#[test]
fn a_filter_shows_what_it_keeps() {
    let only_m = PlatformFilter { modrinth: true, curseforge: false };
    assert!(only_m.shows(Platform::Modrinth));
    assert!(!only_m.shows(Platform::CurseForge));
    let neither = PlatformFilter::from_names(Some(&["steam".to_string()]));
    assert!(!neither.modrinth && !neither.curseforge);
}
