use chartographer::commands::{longest_imports_first, scrape_page, CfCapture, CfImported};
use chartographer::models::Platform;
use chartographer::providers::curseforge::CfProject;
use chartographer::providers::modrinth::ModrinthProject;
use chartographer::store::ProjectRow;
use chartographer::sync::{candidates_of, curseforge_upsert, modrinth_upsert};

#[test]
fn a_modrinth_project_is_kept_with_its_page_and_followers() {
    let project = ModrinthProject {
        id: "6P28kqbu".into(),
        slug: "vein-vantage".into(),
        title: "Vein Vantage".into(),
        project_type: Some("mod".into()),
        downloads: 1_234,
        followers: 56,
        icon_url: Some("https://cdn/icon.png".into()),
        published: Some("2025-01-02T03:04:05Z".into()),
    };
    let up = modrinth_upsert(&project);
    assert_eq!(up.platform, Platform::Modrinth);
    assert_eq!(up.ext_id, "6P28kqbu");
    assert_eq!(up.slug.as_deref(), Some("vein-vantage"));
    assert_eq!(up.url.as_deref(), Some("https://modrinth.com/mod/vein-vantage"));
    assert_eq!(up.total_downloads, 1_234);
    assert_eq!(up.followers, Some(56));
}

#[test]
fn a_curseforge_project_keeps_the_followers_already_known() {
    let project = CfProject {
        id: 1_002_185,
        title: "Mobs Blocker".into(),
        slug: Some("mobs-blocker".into()),
        project_type: Some("mc-mods".into()),
        url: Some("https://www.curseforge.com/minecraft/mc-mods/mobs-blocker".into()),
        thumbnail: None,
        created_at: None,
        downloads_total: 86_753,
        downloads_monthly: 1_200,
    };
    let up = curseforge_upsert("1002185", &project);
    assert_eq!(up.platform, Platform::CurseForge);
    assert_eq!(up.ext_id, "1002185");
    assert_eq!(up.total_downloads, 86_753);
    assert_eq!(up.followers, None);
}

fn row(id: i64, platform: Platform, title: &str, archived: bool) -> ProjectRow {
    ProjectRow {
        id,
        platform,
        ext_id: format!("x{id}"),
        slug: Some(title.to_lowercase()),
        title: title.into(),
        project_type: None,
        url: None,
        icon_url: None,
        created_at: None,
        total_downloads: 0,
        followers: 0,
        archived_at: if archived { Some("2026-08-01".into()) } else { None },
    }
}

#[test]
fn only_live_projects_of_the_platform_are_candidates() {
    let rows = vec![
        row(1, Platform::Modrinth, "Vein", false),
        row(2, Platform::CurseForge, "Mobs", false),
        row(3, Platform::Modrinth, "Old", true),
        row(4, Platform::Modrinth, "Crops", false),
    ];
    let ids: Vec<i64> = candidates_of(&rows, Platform::Modrinth).iter().map(|c| c.id).collect();
    assert_eq!(ids, vec![1, 4]);
    let ids: Vec<i64> = candidates_of(&rows, Platform::CurseForge).iter().map(|c| c.id).collect();
    assert_eq!(ids, vec![2]);
}

fn imported(title: &str, days: usize) -> CfImported {
    CfImported { title: title.into(), days, from: String::new(), to: String::new() }
}

#[test]
fn the_longest_imports_come_first_and_ties_keep_their_order() {
    let sorted = longest_imports_first(vec![imported("a", 3), imported("b", 9), imported("c", 3)]);
    let titles: Vec<&str> = sorted.iter().map(|i| i.title.as_str()).collect();
    assert_eq!(titles, vec!["b", "a", "c"]);
}

#[test]
fn a_scraped_page_reads_its_balance_and_sorts_its_captures() {
    let captures = vec![
        CfCapture { url: "/short".into(), days: 2, from: None, to: None, total: 5 },
        CfCapture { url: "/long".into(), days: 30, from: None, to: None, total: 90 },
    ];
    let page = scrape_page("https://authors.curseforge.com".into(), "Dashboard".into(), "My points: 1 240", captures);
    assert_eq!(page.points, Some(1240));
    assert_eq!(page.captures[0].url, "/long");
    assert!(page.excerpt.contains("1 240"));
}
