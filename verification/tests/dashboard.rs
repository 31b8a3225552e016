use chartographer::detail::{newest_versions_first, project_detail, DetailDay};
use chartographer::figures::{checked_kpis, kpi_windows, kpis, KpiReadings, PerPlatform};
use chartographer::loaders::{loaders, VersionLoaders};
use chartographer::models::{CountryTotal, Payout, Platform, VersionRow};
use chartographer::money::{point_value, total_amount};
use chartographer::providers::modrinth::timestamp_to_day;
use chartographer::queries::{PlatformFilter, ProjectSummary};
use chartographer::revenue::{
    checked_revenue, checked_revenue_by_project, revenue, revenue_by_project, ProjectRevenueEntry,
    RevenueEntry,
};
use chartographer::store::{snapshot_deltas, ProjectRow, Snapshot};
use chartographer::sync::{
    analytics_rows, country_rows, event_subject, project_id_of, CountSeries, CountrySeries,
    RevenueSeries,
};
use rust_decimal::Decimal;
use std::str::FromStr;

fn pair(modrinth: i64, curseforge: i64) -> PerPlatform {
    PerPlatform { modrinth, curseforge }
}

fn texts(values: &[&str]) -> Vec<String> {
    values.iter().map(|v| v.to_string()).collect()
}

/// The base seeded with one Modrinth project of 23 225 downloads paired with
/// a CurseForge project of 86 753, five followers each; nothing measured yet.
fn seeded() -> KpiReadings {
    KpiReadings {
        last_30d: pair(0, 0),
        previous_30d: pair(0, 0),
        range: pair(0, 0),
        range_previous: pair(0, 0),
        totals: pair(23_225, 86_753),
        projects: pair(1, 1),
        followers_modrinth: 5,
        followers_curseforge: None,
        revenues: Vec::new(),
        range_revenues: Vec::new(),
        points_gained: 0,
        points_balance: None,
        payout: Payout::default(),
    }
}

fn balance(available: &str, pending: &str, withdrawn: &str, ytd: &str) -> Payout {
    Payout {
        available: available.into(),
        pending: pending.into(),
        withdrawn_lifetime: withdrawn.into(),
        withdrawn_ytd: ytd.into(),
        schedule: Vec::new(),
    }
}

#[test]
fn kpis_compare_the_two_last_thirty_day_windows() {
    // 100 downloads on 2026-08-10 (1.5 earned), 40 on 2026-06-20 (0.5 earned).
    let mut r = seeded();
    r.last_30d = pair(100, 0);
    r.previous_30d = pair(40, 0);
    r.range = pair(100, 0);
    r.range_previous = pair(40, 0);
    r.revenues = texts(&["1.5", "0.5"]);
    r.range_revenues = texts(&["1.5"]);
    let k = kpis(&r, PlatformFilter::default());
    assert_eq!(k.downloads_30d, 100);
    assert_eq!(k.downloads_prev_30d, 40);
    assert_eq!(k.revenue_total, "2");
    assert_eq!(k.downloads_modrinth, 23_225);
    assert_eq!(k.downloads_curseforge, 86_753);
}

#[test]
fn revenue_total_follows_the_payout_balance_not_the_analytics() {
    let mut r = seeded();
    r.last_30d = pair(10, 0);
    r.range = pair(10, 0);
    r.revenues = texts(&["38.18"]);
    r.range_revenues = texts(&["38.18"]);
    r.payout = balance("12.63", "4.84", "70.42", "15.36");
    let k = kpis(&r, PlatformFilter::default());
    // 70.42 withdrawn + 12.63 available + 4.84 pending.
    assert_eq!(k.revenue_total, "87.89");
    assert_eq!(k.revenue_available, "12.63");
    assert_eq!(k.revenue_pending, "4.84");
    assert_eq!(k.revenue_window, "38.18");
}

#[test]
fn revenue_total_falls_back_on_the_window_without_a_balance() {
    let mut r = seeded();
    r.last_30d = pair(10, 0);
    r.range = pair(10, 0);
    r.revenues = texts(&["2.5"]);
    r.range_revenues = texts(&["2.5"]);
    let k = kpis(&r, PlatformFilter::default());
    assert_eq!(k.revenue_total, "2.5");
}

#[test]
fn the_curseforge_balance_adds_up_with_the_modrinth_payout() {
    let mut r = seeded();
    r.last_30d = pair(10, 0);
    r.range = pair(10, 0);
    r.revenues = texts(&["1.00"]);
    r.range_revenues = texts(&["1.00"]);
    r.payout = balance("12.63", "4.84", "70.42", "15.36");
    // 423 points × 0.05 $ = 21.15 $
    r.points_balance = Some(423);
    let k = kpis(&r, PlatformFilter::default());
    assert_eq!(k.revenue_modrinth, "87.89");
    assert_eq!(k.revenue_curseforge, "21.15");
    assert_eq!(k.revenue_total, "109.04");
    // CurseForge points are withdrawn without maturing: 12.63 + 21.15.
    assert_eq!(k.revenue_available, "33.78");
}

#[test]
fn hiding_curseforge_removes_its_balance_from_the_total() {
    let mut r = seeded();
    r.points_balance = Some(423);
    let only_modrinth = PlatformFilter { modrinth: true, curseforge: false };
    let k = kpis(&r, only_modrinth);
    assert_eq!(k.revenue_curseforge, "0");
    assert_eq!(k.revenue_total, "0");
}

#[test]
fn thirty_day_downloads_follow_the_platform_filter() {
    let mut r = seeded();
    r.last_30d = pair(100, 30);
    r.range = pair(100, 30);
    let both = kpis(&r, PlatformFilter::default());
    assert_eq!(both.downloads_30d, 130);
    let only_modrinth = PlatformFilter { modrinth: true, curseforge: false };
    assert_eq!(kpis(&r, only_modrinth).downloads_30d, 100);
}

#[test]
fn every_headline_figure_is_split_between_the_two_platforms() {
    let mut r = seeded();
    r.last_30d = pair(100, 30);
    r.range = pair(100, 30);
    r.points_balance = Some(400);
    let k = kpis(&r, PlatformFilter::default());
    assert_eq!(k.downloads_30d_modrinth, 100);
    assert_eq!(k.downloads_30d_curseforge, 30);
    assert_eq!(k.downloads_30d_modrinth + k.downloads_30d_curseforge, k.downloads_30d);
    assert_eq!(k.projects_modrinth, 1);
    assert_eq!(k.projects_curseforge, 1);
    assert_eq!(k.projects_modrinth + k.projects_curseforge, k.projects_active);
    // 400 points at 0.05 $: CurseForge's share of what can be withdrawn.
    assert_eq!(k.revenue_available_curseforge, "20");
    let parts = Decimal::from_str(&k.revenue_available_modrinth).unwrap()
        + Decimal::from_str(&k.revenue_available_curseforge).unwrap();
    assert_eq!(parts.normalize().to_string(), k.revenue_available);
}

#[test]
fn range_figures_follow_the_chosen_bounds() {
    // From 2026-08-04 to 2026-08-06 included: Modrinth 50 (2.00 earned) and
    // CurseForge 20 on the 5th; Modrinth 9 (9.00 earned) on the 1st, in the
    // three days before.
    let mut r = seeded();
    r.last_30d = pair(59, 20);
    r.range = pair(50, 20);
    r.range_previous = pair(9, 0);
    r.revenues = texts(&["2.00", "9.00"]);
    r.range_revenues = texts(&["2.00"]);
    let k = kpis(&r, PlatformFilter::default());
    assert_eq!(k.range_downloads, 70);
    assert_eq!(k.range_downloads_modrinth, 50);
    assert_eq!(k.range_downloads_curseforge, 20);
    assert_eq!(k.range_downloads_prev, 9);
    assert_eq!(k.range_revenue, "2");
    assert_eq!(k.downloads_30d, 79);
}

#[test]
fn curseforge_range_revenue_comes_from_the_points_gap() {
    // Balances of 100, 160 and 200 points on the 4th, 5th and 6th: over the
    // 5th and 6th, 100 points were gained.
    let mut r = seeded();
    r.points_gained = 100;
    r.points_balance = Some(200);
    let k = kpis(&r, PlatformFilter::default());
    assert_eq!(k.range_revenue_curseforge, "5");
    assert_eq!(k.range_revenue, "5");
}

#[test]
fn followers_of_curseforge_come_from_the_stored_count() {
    let mut r = seeded();
    r.followers_curseforge = Some("12".into());
    let k = kpis(&r, PlatformFilter::default());
    assert_eq!(k.followers, 17);
    r.followers_curseforge = Some("douze".into());
    assert_eq!(kpis(&r, PlatformFilter::default()).followers_curseforge, 0);
}

#[test]
fn hiding_modrinth_empties_its_revenue_and_counts() {
    let mut r = seeded();
    r.revenues = texts(&["3.5"]);
    r.payout = balance("1", "2", "3", "4");
    let only_curseforge = PlatformFilter { modrinth: false, curseforge: true };
    let k = kpis(&r, only_curseforge);
    assert_eq!(k.revenue_modrinth, "0");
    assert_eq!(k.revenue_window, "0");
    assert_eq!(k.revenue_pending, "");
    assert_eq!(k.downloads_modrinth, 0);
    assert_eq!(k.downloads_total, 86_753);
}

#[test]
fn counts_beyond_an_i64_give_no_figures() {
    let mut r = seeded();
    r.totals = pair(i64::MAX, 1);
    assert!(checked_kpis(&r, PlatformFilter::default()).is_none());
    let only_modrinth = PlatformFilter { modrinth: true, curseforge: false };
    assert!(checked_kpis(&r, only_modrinth).is_some());
}

#[test]
fn the_windows_go_back_thirty_and_sixty_days_and_one_period() {
    let w = kpi_windows("2026-08-11", "2026-08-04", "2026-08-07");
    assert_eq!(w.last_30d_from, "2026-07-12");
    assert_eq!(w.previous_30d_from, "2026-06-12");
    assert_eq!(w.previous_range_from, "2026-08-01");
}

#[test]
fn amounts_add_up_in_order_and_unreadable_ones_count_as_zero() {
    assert_eq!(total_amount(&texts(&["1.10", "2.205"])).unwrap(), "3.305");
    assert_eq!(total_amount(&texts(&["abc", "4"])).unwrap(), "4");
    assert_eq!(total_amount(&Vec::new()).unwrap(), "0");
    assert_eq!(point_value(), "0.05");
}

// Revenue day by day and project by project.

fn on(day: &str, amount: &str) -> RevenueEntry {
    RevenueEntry { day: day.into(), amount: amount.into() }
}

#[test]
fn revenue_is_summed_day_by_day_in_order_of_days() {
    let rows = vec![on("2026-08-11", "1.25"), on("2026-08-10", "0.5"), on("2026-08-11", "2.25")];
    let points = revenue(&rows);
    assert_eq!(points.len(), 2);
    assert_eq!(points[0].day, "2026-08-10");
    assert_eq!(points[0].amount, "0.5");
    assert_eq!(points[1].day, "2026-08-11");
    assert_eq!(points[1].amount, "3.50");
    assert_eq!(checked_revenue(&rows).unwrap().len(), 2);
}

#[test]
fn revenue_beyond_a_decimal_is_refused() {
    let huge = "79228162514264337593543950335";
    let rows = vec![on("2026-08-11", huge), on("2026-08-11", huge)];
    assert!(checked_revenue(&rows).is_none());
}

fn earned(project_id: i64, title: &str, amount: &str) -> ProjectRevenueEntry {
    ProjectRevenueEntry { project_id, title: title.into(), amount: amount.into() }
}

#[test]
fn the_best_earning_projects_come_first() {
    let rows = vec![
        earned(7, "Vein", "1.50"),
        earned(3, "Mobs", "0.5"),
        earned(7, "Vein", "0.50"),
        earned(4, "Crops", "2"),
        earned(3, "Mobs", "1.5"),
    ];
    let lines = revenue_by_project(&rows);
    assert_eq!(lines.len(), 3);
    // Mobs (3) and Crops (4) earned 2, as much as Vein (7): the key decides.
    assert_eq!(lines[0].key, "m3");
    assert_eq!(lines[0].amount, "2");
    assert_eq!(lines[1].key, "m4");
    assert_eq!(lines[2].key, "m7");
    assert_eq!(lines[2].title, "Vein");
    assert_eq!(lines[2].amount, "2");
    let more = vec![earned(1, "Petit", "0.1"), earned(2, "Grand", "10")];
    let ranked = checked_revenue_by_project(&more).unwrap();
    assert_eq!(ranked[0].key, "m2");
    assert_eq!(ranked[1].key, "m1");
    assert_eq!(ranked[1].amount, "0.1");
}

// The detail of a project.

fn version(number: &str, loaders: &[&str], downloads: i64, date: Option<&str>) -> VersionRow {
    VersionRow {
        version_number: Some(number.into()),
        game_versions: texts(&["1.21"]),
        loaders: texts(loaders),
        downloads,
        date_published: date.map(|d| d.to_string()),
    }
}

fn linked_line(m: i64, c: i64) -> ProjectSummary {
    ProjectSummary {
        key: format!("m{m}"),
        title: "Mobs Blocker".into(),
        icon_url: None,
        modrinth_id: Some(m),
        curseforge_id: Some(c),
        modrinth_ext_id: Some("m1".into()),
        curseforge_ext_id: Some(1_002_185),
        modrinth_downloads: 23_225,
        curseforge_downloads: 86_753,
        followers: 10,
        spark: vec![0, 7, 0],
    }
}

#[test]
fn project_detail_gathers_versions_and_countries() {
    let (m, c) = (1, 2);
    let days = vec![DetailDay { day: "2026-08-09".into(), downloads: 7, views: 3, revenue: Some("0.25".into()) }];
    let deltas = snapshot_deltas(&vec![
        Snapshot { project_id: c, day: "2026-08-08".into(), total: 100 },
        Snapshot { project_id: c, day: "2026-08-09".into(), total: 130 },
    ]);
    let countries = vec![CountryTotal { country: "??".into(), downloads: 4 }];
    let versions = vec![version("1.0", &["fabric"], 30, Some("2026-08-01T00:00:00Z"))];
    let detail = project_detail(
        vec![linked_line(m, c)],
        "2026-08-08",
        "2026-08-11",
        Some(m),
        Some(c),
        &days,
        &deltas,
        countries,
        versions,
    )
    .unwrap();
    assert_eq!(detail.days.len(), 3);
    assert_eq!(detail.downloads, vec![0, 7, 0]);
    assert_eq!(detail.views, vec![0, 3, 0]);
    assert_eq!(detail.curseforge, vec![0, 30, 0]);
    assert_eq!(detail.revenue[1], "0.25");
    assert_eq!(detail.versions.len(), 1);
    assert_eq!(detail.versions[0].loaders, vec!["fabric".to_string()]);
    assert_eq!(detail.countries[0].country, "??");
}

#[test]
fn a_project_that_is_not_listed_has_no_detail() {
    let err = project_detail(
        vec![linked_line(1, 2)],
        "2026-08-08",
        "2026-08-11",
        Some(9),
        None,
        &Vec::new(),
        &Vec::new(),
        Vec::new(),
        Vec::new(),
    )
    .unwrap_err();
    assert_eq!(err.message(), "données incohérentes : projet introuvable");
}

#[test]
fn days_without_revenue_read_zero_and_countries_need_modrinth() {
    let detail = project_detail(
        vec![linked_line(1, 2)],
        "2026-08-08",
        "2026-08-10",
        None,
        Some(2),
        &vec![DetailDay { day: "2026-08-08".into(), downloads: 5, views: 1, revenue: None }],
        &Vec::new(),
        vec![CountryTotal { country: "DE".into(), downloads: 3 }],
        Vec::new(),
    )
    .unwrap();
    // Without a Modrinth project, its rows and countries do not count.
    assert_eq!(detail.downloads, vec![0, 0]);
    assert_eq!(detail.revenue, vec!["0".to_string(), "0".to_string()]);
    assert!(detail.countries.is_empty());
}

#[test]
fn versions_come_most_recent_first_across_platforms() {
    let sorted = newest_versions_first(vec![
        version("a", &["fabric"], 1, Some("2026-08-01T00:00:00Z")),
        version("b", &["forge"], 2, None),
        version("c", &["fabric"], 3, Some("2026-08-09T00:00:00Z")),
        version("d", &["neoforge"], 4, Some("2026-08-01T00:00:00Z")),
    ]);
    let order: Vec<String> = sorted.iter().map(|v| v.version_number.clone().unwrap()).collect();
    assert_eq!(order, vec!["c", "a", "d", "b"]);
}

// Loaders.

#[test]
fn loaders_expand_game_version_and_loader_pairs() {
    let rows = vec![
        VersionLoaders {
            platform: Platform::Modrinth,
            game_versions: texts(&["1.20.1", "1.21"]),
            loaders: texts(&["fabric"]),
            downloads: 30,
        },
        VersionLoaders {
            platform: Platform::Modrinth,
            game_versions: texts(&["1.21"]),
            loaders: texts(&["fabric", "neoforge"]),
            downloads: 10,
        },
    ];
    let cells = loaders(&rows, PlatformFilter::default());
    let fabric_121 = cells.iter().find(|c| c.game_version == "1.21" && c.loader == "fabric").unwrap();
    assert_eq!(fabric_121.downloads, 40);
    assert!(cells.iter().any(|c| c.loader == "neoforge" && c.downloads == 10));
}

#[test]
fn loaders_put_the_largest_first_and_follow_the_filter() {
    let rows = vec![
        VersionLoaders {
            platform: Platform::CurseForge,
            game_versions: texts(&["1.21"]),
            loaders: texts(&["forge"]),
            downloads: 500,
        },
        VersionLoaders {
            platform: Platform::Modrinth,
            game_versions: texts(&["1.20.1", "1.21"]),
            loaders: texts(&["fabric"]),
            downloads: 30,
        },
    ];
    let cells = loaders(&rows, PlatformFilter::default());
    assert_eq!(cells.len(), 3);
    assert_eq!(cells[0].loader, "forge");
    assert_eq!(cells[0].downloads, 500);
    let only_modrinth = PlatformFilter { modrinth: true, curseforge: false };
    let cells = loaders(&rows, only_modrinth);
    assert_eq!(cells.len(), 2);
    assert!(cells.iter().all(|c| c.loader == "fabric" && c.downloads == 30));
}

// What a refresh of the analytics writes.

#[test]
fn timestamp_to_day_is_utc() {
    assert_eq!(timestamp_to_day(1_784_073_600), "2026-07-15");
}

fn project(id: i64, ext_id: &str, title: &str) -> ProjectRow {
    ProjectRow {
        id,
        platform: Platform::Modrinth,
        ext_id: ext_id.into(),
        slug: None,
        title: title.into(),
        project_type: None,
        url: None,
        icon_url: None,
        created_at: None,
        total_downloads: 0,
        followers: 0,
        archived_at: None,
    }
}

#[test]
fn analytics_rows_skip_unknown_projects_and_date_points_in_utc() {
    let projects = vec![project(1, "AAA", "Vein"), project(2, "BBB", "Mobs")];
    let downloads = vec![
        CountSeries { ext_id: "AAA".into(), points: vec![(1_784_073_600, 12)] },
        CountSeries { ext_id: "ZZZ".into(), points: vec![(1_784_073_600, 99)] },
    ];
    let views = vec![CountSeries { ext_id: "BBB".into(), points: vec![(1_784_160_000, 3)] }];
    let revenue = vec![RevenueSeries { ext_id: "AAA".into(), points: vec![(1_784_073_600, "0.25".into())] }];
    let rows = analytics_rows(&projects, &downloads, &views, &revenue);
    assert_eq!(rows.len(), 3);
    assert_eq!((rows[0].project_id, rows[0].day.as_str(), rows[0].downloads), (1, "2026-07-15", Some(12)));
    assert_eq!((rows[1].project_id, rows[1].day.as_str(), rows[1].views), (2, "2026-07-16", Some(3)));
    assert_eq!(rows[1].downloads, None);
    assert_eq!(rows[2].revenue.as_deref(), Some("0.25"));
    let countries = vec![CountrySeries { ext_id: "BBB".into(), countries: vec![("DE".into(), 8)] }];
    let by_country = country_rows(&projects, &countries, "2026-08-11");
    assert_eq!(by_country.len(), 1);
    assert_eq!((by_country[0].project_id, by_country[0].country.as_str(), by_country[0].day.as_str()), (2, "DE", "2026-08-11"));
    assert_eq!(project_id_of(&projects, "BBB"), Some(2));
    assert_eq!(project_id_of(&projects, "CCC"), None);
}

#[test]
fn a_notification_is_filed_under_its_project_or_modrinth() {
    let projects = vec![project(1, "AAA", "Vein")];
    assert_eq!(event_subject(&projects, &Some("AAA".into())), (Some(1), "Vein".to_string()));
    assert_eq!(event_subject(&projects, &Some("ZZZ".into())), (None, "Modrinth".to_string()));
    assert_eq!(event_subject(&projects, &None), (None, "Modrinth".to_string()));
}

#[test]
fn a_day_revenue_is_written_back_as_a_decimal() {
    let detail = project_detail(
        vec![linked_line(1, 2)],
        "2026-08-08",
        "2026-08-10",
        Some(1),
        Some(2),
        &vec![
            DetailDay { day: "2026-08-08".into(), downloads: 1, views: 0, revenue: Some("pas un montant".into()) },
            DetailDay { day: "2026-08-09".into(), downloads: 2, views: 0, revenue: Some("1.50".into()) },
        ],
        &Vec::new(),
        Vec::new(),
        Vec::new(),
    )
    .unwrap();
    assert_eq!(detail.revenue, vec!["0".to_string(), "1.50".to_string()]);
}
