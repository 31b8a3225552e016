use chartographer::commands::pairing_entries;
use chartographer::models::Platform;
use chartographer::store::{clamp_count, snapshot_deltas, survey_outcome, Link, ProjectRow, Seen, Snapshot};

fn seen(names: &[&str]) -> Vec<Seen> {
    names
        .iter()
        .map(|name| Seen { name: (*name).to_string(), avatar_url: None, seniority: None })
        .collect()
}

fn known(names: &[&str]) -> Vec<String> {
    names.iter().map(|n| n.to_string()).collect()
}

#[test]
fn the_first_survey_counts_nobody_as_new() {
    let out = survey_outcome("moi", &seen(&["ana", "bob"]), &Vec::new(), false);
    assert_eq!(out.arrived, 0);
    assert_eq!(out.rows.len(), 2);
    assert!(out.mark_lost);
}

#[test]
fn a_name_that_appears_later_is_a_new_follower() {
    let out = survey_outcome("moi", &seen(&["cyd", "ana"]), &known(&["ana"]), true);
    assert_eq!(out.arrived, 1);
    assert_eq!(out.rows[0].seen.name, "cyd");
    assert_eq!(out.rows[0].rank, 0);
}

#[test]
fn an_empty_survey_never_declares_a_departure() {
    let out = survey_outcome("moi", &Vec::new(), &known(&["ana", "bob"]), true);
    assert_eq!(out.arrived, 0);
    assert!(!out.mark_lost);
}

#[test]
fn the_account_is_never_its_own_follower() {
    let out = survey_outcome("moi", &seen(&["ana", "MOI"]), &Vec::new(), true);
    assert_eq!(out.rows.len(), 1);
    assert_eq!(out.rows[0].seen.name, "ana");
    assert_eq!(out.arrived, 1);
    // The rank is the place on the page, the account's line included.
    let ranked = survey_outcome("moi", &seen(&["Moi", "ana"]), &Vec::new(), true);
    assert_eq!(ranked.rows[0].rank, 1);
}

#[test]
fn a_name_twice_in_a_survey_arrives_once() {
    let out = survey_outcome("moi", &seen(&["ana", "ana"]), &Vec::new(), true);
    assert_eq!(out.arrived, 1);
    assert_eq!(out.rows.len(), 2);
}

fn snap(project_id: i64, day: &str, total: i64) -> Snapshot {
    Snapshot { project_id, day: day.to_string(), total }
}

#[test]
fn snapshot_deltas_never_go_negative() {
    let rows = vec![
        snap(1, "2026-08-01", 100),
        snap(1, "2026-08-02", 130),
        snap(1, "2026-08-03", 120),
        snap(2, "2026-08-02", 5),
        snap(2, "2026-08-03", 9),
    ];
    let out = snapshot_deltas(&rows);
    assert_eq!(out.len(), 3);
    assert_eq!((out[0].project_id, out[0].day.as_str(), out[0].delta), (1, "2026-08-02", 30));
    assert_eq!(out[1].delta, 0);
    assert_eq!((out[2].project_id, out[2].delta), (2, 4));
    assert!(snapshot_deltas(&Vec::new()).is_empty());
}

#[test]
fn a_negative_reading_is_clamped_rather_than_stored() {
    assert_eq!(clamp_count(-4), 0);
    assert_eq!(clamp_count(12), 12);
}

fn row(id: i64, platform: Platform, title: &str) -> ProjectRow {
    ProjectRow {
        id,
        platform,
        ext_id: id.to_string(),
        slug: None,
        title: title.to_string(),
        project_type: None,
        url: None,
        icon_url: None,
        created_at: None,
        total_downloads: 0,
        followers: 0,
        archived_at: None,
    }
}

#[test]
fn the_pairing_screen_lists_every_project() {
    let projects = vec![
        row(1, Platform::Modrinth, "Mobs Blocker"),
        row(2, Platform::CurseForge, "Mobs Blocker CF"),
        row(3, Platform::Modrinth, "Seul"),
    ];
    let links = vec![Link { modrinth_project_id: 1, cf_project_id: 2, manual: true }];
    let out = pairing_entries(&projects, &links, &vec![3]);
    assert_eq!(out.len(), 3);
    assert_eq!(out[0].linked_id, Some(2));
    assert_eq!(out[0].linked_to.as_deref(), Some("Mobs Blocker CF"));
    assert!(out[0].manual);
    assert_eq!(out[1].platform, "curseforge");
    assert_eq!(out[1].linked_id, Some(1));
    assert_eq!(out[1].linked_to.as_deref(), Some("Mobs Blocker"));
    assert!(out[2].linked_id.is_none() && out[2].solo && !out[2].manual);
}

#[test]
fn only_names_seen_after_the_first_survey_have_a_known_arrival() {
    let first = Some("2026-08-01".to_string());
    assert!(!chartographer::store::arrival_known(&first, "2026-08-01"));
    assert!(chartographer::store::arrival_known(&first, "2026-08-05"));
    assert!(chartographer::store::arrival_known(&None, "2026-08-01"));
}
