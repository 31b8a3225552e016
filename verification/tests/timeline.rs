use chartographer::dates::day_start;
use chartographer::providers::modrinth::PayoutBalance;
use chartographer::queries::payout_of;
use chartographer::models::Platform;
use chartographer::queries::{group_by_day, per_project, timeline, PlatformDay, PlatformFilter, ProjectDay};
use chartographer::models::TimelinePoint;
use chartographer::scrape::parse_integer;
use chartographer::store::{snapshot_deltas, Link, ProjectRow, Snapshot};

fn deltas_of(c: i64) -> Vec<chartographer::store::SnapshotDelta> {
    // Two snapshots give a gap of 75 on the 10th.
    snapshot_deltas(&vec![
        Snapshot { project_id: c, day: "2026-08-09".into(), total: 100 },
        Snapshot { project_id: c, day: "2026-08-10".into(), total: 175 },
    ])
}

fn row(platform: &str, day: &str, downloads: i64) -> PlatformDay {
    PlatformDay { platform: platform.into(), day: day.into(), downloads }
}

#[test]
fn timeline_merges_modrinth_series_and_curseforge_deltas() {
    let rows = vec![row("modrinth", "2026-08-10", 40)];
    let points = timeline(&rows, &deltas_of(2), "2026-08-01", "2026-08-11", PlatformFilter::default());
    let day = points.iter().find(|p| p.day == "2026-08-10").unwrap();
    assert_eq!(day.modrinth, 40);
    assert_eq!(day.curseforge, 75);
}

#[test]
fn an_imported_curseforge_day_beats_the_snapshot_gap() {
    // The author dashboard gives the exact figure.
    let rows = vec![row("curseforge", "2026-08-10", 64)];
    let points = timeline(&rows, &deltas_of(2), "2026-08-01", "2026-08-11", PlatformFilter::default());
    let tenth = points.iter().find(|p| p.day == "2026-08-10").unwrap();
    assert_eq!(tenth.curseforge, 64, "la mesure prime sur l'écart estimé");
}

#[test]
fn hiding_a_platform_empties_its_series() {
    let rows = vec![row("modrinth", "2026-08-10", 40)];
    let hidden = PlatformFilter { modrinth: false, curseforge: true };
    let points = timeline(&rows, &deltas_of(2), "2026-08-01", "2026-08-11", hidden);
    assert!(points.iter().all(|p| p.modrinth == 0));
    assert_eq!(points.iter().map(|p| p.curseforge).sum::<i64>(), 75);
}

#[test]
fn gaps_outside_the_window_are_left_out() {
    let points = timeline(&Vec::new(), &deltas_of(2), "2026-08-01", "2026-08-10", PlatformFilter::default());
    assert!(points.is_empty());
}

#[test]
fn days_come_in_order_once_each() {
    let points = group_by_day(&vec![
        TimelinePoint { day: "2026-08-03".into(), modrinth: 1, curseforge: 0 },
        TimelinePoint { day: "2026-08-01".into(), modrinth: 2, curseforge: 0 },
        TimelinePoint { day: "2026-08-03".into(), modrinth: 0, curseforge: 5 },
        TimelinePoint { day: "2026-08-02".into(), modrinth: 4, curseforge: 1 },
    ]);
    let days: Vec<&str> = points.iter().map(|p| p.day.as_str()).collect();
    assert_eq!(days, vec!["2026-08-01", "2026-08-02", "2026-08-03"]);
    assert_eq!((points[2].modrinth, points[2].curseforge), (1, 5));
}

fn project(id: i64, platform: Platform, ext: &str, title: &str, total: i64) -> ProjectRow {
    ProjectRow {
        id,
        platform,
        ext_id: ext.into(),
        slug: None,
        title: title.into(),
        project_type: Some("mod".into()),
        url: None,
        icon_url: None,
        created_at: None,
        total_downloads: total,
        followers: 5,
        archived_at: None,
    }
}

fn seed() -> (Vec<ProjectRow>, Vec<Link>) {
    (
        vec![
            project(1, Platform::Modrinth, "m1", "Mobs Blocker", 23_225),
            project(2, Platform::CurseForge, "1002185", "Mobs Blocker", 86_753),
        ],
        vec![Link { modrinth_project_id: 1, cf_project_id: 2, manual: false }],
    )
}

#[test]
fn per_project_groups_linked_projects_under_one_row() {
    let (projects, links) = seed();
    let rows = per_project(&projects, &links, &Vec::new(), &Vec::new(), "2026-08-01", "2026-08-11", PlatformFilter::default());
    assert_eq!(rows.len(), 1);
    assert_eq!(rows[0].modrinth_downloads, 23_225);
    assert_eq!(rows[0].curseforge_downloads, 86_753);
    assert_eq!(rows[0].title, "Mobs Blocker");
    assert_eq!(rows[0].key, "m1");
    assert_eq!(rows[0].curseforge_ext_id, Some(1002185));
}

#[test]
fn unlinked_projects_appear_alone() {
    let (mut projects, links) = seed();
    projects.push(project(3, Platform::Modrinth, "solo", "Solo", 7));
    let rows = per_project(&projects, &links, &Vec::new(), &Vec::new(), "2026-08-01", "2026-08-11", PlatformFilter::default());
    assert_eq!(rows.len(), 2);
    let solo = rows.iter().find(|r| r.title == "Solo").unwrap();
    assert_eq!(solo.curseforge_downloads, 0);
    assert!(solo.curseforge_id.is_none());
    // The most downloaded first.
    assert_eq!(rows[0].title, "Mobs Blocker");
}

#[test]
fn hiding_modrinth_drops_projects_that_only_live_there() {
    let (mut projects, links) = seed();
    projects.push(project(3, Platform::Modrinth, "solo", "No Night Skip", 1_800));
    let hidden = PlatformFilter { modrinth: false, curseforge: true };
    let rows = per_project(&projects, &links, &Vec::new(), &deltas_of(2), "2026-08-01", "2026-08-11", hidden);
    assert!(!rows.iter().any(|r| r.title == "No Night Skip"));
    assert!(rows.iter().all(|r| r.modrinth_downloads == 0));
    assert!(rows.iter().any(|r| r.curseforge_downloads > 0));
}

#[test]
fn spark_is_aligned_on_the_dense_axis() {
    let (projects, links) = seed();
    let daily = vec![ProjectDay { project_id: 1, day: "2026-08-09".into(), downloads: 7 }];
    let rows = per_project(&projects, &links, &daily, &Vec::new(), "2026-08-08", "2026-08-11", PlatformFilter::default());
    assert_eq!(rows[0].spark, vec![0, 7, 0]);
    let with_gap = per_project(&projects, &links, &daily, &deltas_of(2), "2026-08-08", "2026-08-11", PlatformFilter::default());
    assert_eq!(with_gap[0].spark, vec![0, 7, 75]);
}

#[test]
fn a_curseforge_project_alone_keeps_its_gaps() {
    let projects = vec![project(2, Platform::CurseForge, "x12", "Seul CF", 10)];
    let rows = per_project(&projects, &Vec::new(), &Vec::new(), &deltas_of(2), "2026-08-09", "2026-08-11", PlatformFilter::default());
    assert_eq!(rows.len(), 1);
    assert_eq!(rows[0].key, "c2");
    assert_eq!(rows[0].spark, vec![0, 75]);
    assert_eq!(rows[0].curseforge_ext_id, None);
}

#[test]
fn integers_are_read_as_rust_reads_them() {
    assert_eq!(parse_integer("1002185"), Some(1002185));
    assert_eq!(parse_integer("-42"), Some(-42));
    assert_eq!(parse_integer("+7"), Some(7));
    assert_eq!(parse_integer("9223372036854775807"), Some(i64::MAX));
    assert_eq!(parse_integer("-9223372036854775808"), Some(i64::MIN));
    assert_eq!(parse_integer("9223372036854775808"), None);
    assert_eq!(parse_integer(""), None);
    assert_eq!(parse_integer("-"), None);
    assert_eq!(parse_integer("12a"), None);
}

#[test]
fn payout_marks_instalments_after_today_as_future() {
    let balance = PayoutBalance {
        available: "12.50".into(),
        pending: "3.20".into(),
        withdrawn_lifetime: "100.00".into(),
        withdrawn_ytd: "40.00".into(),
        dates: vec![
            ("2026-09-01T00:00:00Z".into(), "1.10".into()),
            ("2026-08-11T00:00:00Z".into(), "2.20".into()),
            ("2026-07-01T00:00:00Z".into(), "0.40".into()),
            ("2026-9".into(), "0.10".into()),
        ],
    };
    let p = payout_of(balance, "2026-08-11");
    assert_eq!(p.available, "12.50");
    assert_eq!(p.pending, "3.20");
    assert_eq!(p.withdrawn_lifetime, "100.00");
    assert_eq!(p.withdrawn_ytd, "40.00");
    assert_eq!(p.schedule.len(), 4);
    assert_eq!(p.schedule[0].date, "2026-09-01T00:00:00Z");
    assert_eq!(p.schedule[0].amount, "1.10");
    assert!(p.schedule[0].future);
    assert!(!p.schedule[1].future);
    assert!(!p.schedule[2].future);
    assert!(!p.schedule[3].future);
}

#[test]
fn a_window_starts_at_midnight_utc_or_now() {
    assert_eq!(day_start("2026-08-10", "now"), "2026-08-10T00:00:00+00:00");
    assert_eq!(day_start("2026-02-30", "2026-08-10T12:00:00+00:00"), "2026-08-10T12:00:00+00:00");
    assert_eq!(day_start("yesterday", "then"), "then");
}
