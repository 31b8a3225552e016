use chartographer::gestures::{learn, Observed};
use chartographer::loaders::{checked_loaders, VersionLoaders};
use chartographer::models::Platform;
use chartographer::publish::{resolve_game_versions, GameVersion};
use chartographer::queries::{checked_per_project, checked_timeline, timeline, PlatformDay, PlatformFilter, ProjectDay};
use chartographer::store::{departures, ProjectRow, Seen};

fn observed(method: &str, url: &str, status: i64, sent: &str) -> Observed {
    Observed { method: method.into(), url: url.into(), status, sent: sent.into() }
}

#[test]
fn learning_keeps_the_latest_form_in_the_order_first_seen() {
    let gestures = learn(&[
        observed("post", "/_api/projects/11/files", 200, "first"),
        observed("DELETE", "/_api/project-files/5", 204, "gone"),
        observed("GET", "/_api/projects", 200, "read"),
        observed("POST", "/_api/projects/12/files", 201, "latest"),
        observed("POST", "/_api/projects", 500, "refused"),
    ]);
    assert_eq!(gestures.len(), 2);
    assert_eq!(gestures[0].method, "POST");
    assert_eq!(gestures[0].pattern, "/_api/projects/{1}/files");
    assert_eq!(gestures[0].body, "latest");
    assert_eq!(gestures[0].status, 201);
    assert_eq!(gestures[1].method, "DELETE");
}

fn entry(id: i64, name: &str, slug: &str) -> GameVersion {
    GameVersion { id, name: name.into(), slug: slug.into(), type_id: 1 }
}

#[test]
fn resolving_keeps_the_order_the_names_were_asked_in() {
    let catalogue = vec![entry(1, "Fabric", "fabric"), entry(2, "1.21", "1-21"), entry(3, "Forge", "forge")];
    let wanted: Vec<String> = ["forge", "nope", " 1.21 ", "FABRIC", "Forge", "later"].iter().map(|s| s.to_string()).collect();
    let (ids, missing) = resolve_game_versions(&wanted, &catalogue);
    assert_eq!(ids, vec![3, 2, 1]);
    assert_eq!(missing, vec!["nope".to_string(), "later".to_string()]);
}

fn row(platform: &str, day: &str, downloads: i64) -> PlatformDay {
    PlatformDay { platform: platform.into(), day: day.into(), downloads }
}

#[test]
fn hiding_curseforge_empties_its_series() {
    let rows = vec![row("modrinth", "2026-08-10", 4), row("curseforge", "2026-08-10", 9), row("curseforge", "2026-08-11", 3)];
    let hidden = PlatformFilter { modrinth: true, curseforge: false };
    let points = timeline(&rows, &vec![], "2026-08-01", "2026-08-20", hidden);
    assert_eq!(points.len(), 1);
    assert!(points.iter().all(|p| p.curseforge == 0));
    assert_eq!(points[0].modrinth, 4);
}

#[test]
fn only_a_day_whose_own_sum_overflows_is_refused() {
    let apart = vec![row("modrinth", "2026-08-10", i64::MAX), row("modrinth", "2026-08-11", i64::MAX)];
    let points = checked_timeline(&apart, &vec![], "2026-08-01", "2026-08-20", PlatformFilter::default()).unwrap();
    assert_eq!(points.len(), 2);
    let same_day = vec![row("modrinth", "2026-08-10", i64::MAX), row("modrinth", "2026-08-10", 1)];
    assert!(checked_timeline(&same_day, &vec![], "2026-08-01", "2026-08-20", PlatformFilter::default()).is_none());
}

fn project(id: i64, platform: Platform) -> ProjectRow {
    ProjectRow {
        id,
        platform,
        ext_id: id.to_string(),
        slug: None,
        title: format!("mod {id}"),
        project_type: Some("mod".into()),
        url: None,
        icon_url: None,
        created_at: None,
        total_downloads: 10,
        followers: 0,
        archived_at: None,
    }
}

fn day(project_id: i64, day: &str, downloads: i64) -> ProjectDay {
    ProjectDay { project_id, day: day.into(), downloads }
}

#[test]
fn only_a_spark_that_overflows_refuses_the_table() {
    let projects = vec![project(1, Platform::Modrinth), project(2, Platform::Modrinth)];
    let apart = vec![day(1, "2026-08-10", i64::MAX), day(2, "2026-08-10", i64::MAX)];
    let rows = checked_per_project(&projects, &vec![], &apart, &vec![], "2026-08-10", "2026-08-11", PlatformFilter::default()).unwrap();
    assert_eq!(rows.len(), 2);
    assert!(rows.iter().all(|r| r.spark == vec![i64::MAX]));
    let same = vec![day(1, "2026-08-10", i64::MAX), day(1, "2026-08-10", 1)];
    assert!(checked_per_project(&projects, &vec![], &same, &vec![], "2026-08-10", "2026-08-11", PlatformFilter::default()).is_none());
}

fn version(games: &[&str], loaders: &[&str], downloads: i64) -> VersionLoaders {
    VersionLoaders {
        platform: Platform::Modrinth,
        game_versions: games.iter().map(|s| s.to_string()).collect(),
        loaders: loaders.iter().map(|s| s.to_string()).collect(),
        downloads,
    }
}

#[test]
fn only_a_pair_whose_total_overflows_is_refused() {
    let apart = vec![version(&["1.20"], &["fabric"], i64::MAX), version(&["1.21"], &["fabric"], i64::MAX)];
    let cells = checked_loaders(&apart, PlatformFilter::default()).unwrap();
    assert_eq!(cells.len(), 2);
    let same = vec![version(&["1.20"], &["fabric"], i64::MAX), version(&["1.20"], &["fabric"], 1)];
    assert!(checked_loaders(&same, PlatformFilter::default()).is_none());
}

fn seen(name: &str) -> Seen {
    Seen { name: name.into(), avatar_url: None, seniority: None }
}

fn standing(name: &str, last_seen: &str) -> (String, String) {
    (name.to_string(), last_seen.to_string())
}

#[test]
fn followers_missing_from_a_survey_are_gone_and_an_empty_survey_proves_nothing() {
    let base = vec![standing("alice", "2026-08-09"), standing("bob", "2026-08-09"), standing("carol", "2026-08-10")];
    let gone = departures(&base, &vec![seen("alice"), seen("dave"), seen("Owner")], "owner", "2026-08-10");
    assert_eq!(gone, vec!["bob".to_string()]);
    assert!(departures(&base, &vec![], "owner", "2026-08-10").is_empty());
}
