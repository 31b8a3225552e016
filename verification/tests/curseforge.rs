use chartographer::error::AppError;
use chartographer::providers::curseforge::{
    author_outcome, fetch_outcome, parse_owner, parse_project, slug_from_url, CfDownloads,
    CfFetch, CfMember, CfRawProject, CfUrls,
};

#[test]
fn slug_from_url_handles_missing_and_trailing_slash() {
    assert_eq!(
        slug_from_url("https://www.curseforge.com/minecraft/mc-mods/zone-cleaner"),
        Some("zone-cleaner".into())
    );
    assert_eq!(
        slug_from_url("https://www.curseforge.com/minecraft/mc-mods/zone-cleaner/"),
        Some("zone-cleaner".into())
    );
    assert_eq!(slug_from_url(""), None);
}

#[test]
fn a_bare_address_has_no_slug() {
    assert_eq!(slug_from_url("https://"), None);
    assert_eq!(slug_from_url("https:///"), None);
    assert_eq!(slug_from_url("mobblocker"), Some("mobblocker".into()));
    assert_eq!(slug_from_url("a//b///"), Some("b".into()));
}

fn member(title: &str, username: &str) -> CfMember {
    CfMember { title: title.into(), username: username.into() }
}

#[test]
fn parse_owner_prefers_the_owner_title() {
    let members = vec![member("Contributor", "Someone"), member("Owner", "DreykaOas_official")];
    assert_eq!(parse_owner(&members).as_deref(), Some("DreykaOas_official"));
    let shouting = vec![member("Author", "a"), member("OWNER", "b")];
    assert_eq!(parse_owner(&shouting).as_deref(), Some("b"));
}

#[test]
fn parse_owner_falls_back_to_the_first_member() {
    let members = vec![member("Maintainer", "Someone")];
    assert_eq!(parse_owner(&members).as_deref(), Some("Someone"));
}

#[test]
fn parse_owner_returns_none_without_members() {
    assert_eq!(parse_owner(&Vec::new()), None);
}

fn raw() -> CfRawProject {
    CfRawProject {
        id: 1002185,
        title: "Mobs Blocker".into(),
        project_type: Some("Mods".into()),
        urls: Some(CfUrls {
            curseforge: "https://www.curseforge.com/minecraft/mc-mods/mobblocker".into(),
            project: "https://www.curseforge.com/minecraft/mc-mods/mobblocker".into(),
        }),
        downloads: Some(CfDownloads { total: 86753, monthly: 0 }),
        thumbnail: Some("https://media.forgecdn.net/x.png".into()),
        created_at: Some("2024-04-13T11:39:21.023Z".into()),
    }
}

#[test]
fn parse_project_reads_downloads_and_url() {
    let out = parse_project(raw());
    assert_eq!(out.downloads_total, 86_753);
    assert_eq!(out.downloads_monthly, 0);
    assert_eq!(out.slug.as_deref(), Some("mobblocker"));
    assert_eq!(out.title, "Mobs Blocker");
}

#[test]
fn a_project_without_addresses_or_counts() {
    let out = parse_project(CfRawProject { urls: None, downloads: None, ..raw() });
    assert!(out.url.is_none() && out.slug.is_none());
    assert_eq!((out.downloads_total, out.downloads_monthly), (0, 0));
    let fallback = parse_project(CfRawProject {
        urls: Some(CfUrls { curseforge: String::new(), project: "https://x/p/other".into() }),
        ..raw()
    });
    assert_eq!(fallback.url.as_deref(), Some("https://x/p/other"));
    assert_eq!(fallback.slug.as_deref(), Some("other"));
    let empty = parse_project(CfRawProject {
        urls: Some(CfUrls { curseforge: String::new(), project: String::new() }),
        ..raw()
    });
    assert!(empty.url.is_none());
}

#[test]
fn a_queued_refresh_is_not_a_project() {
    assert!(matches!(fetch_outcome(202, Some(raw())), Some(CfFetch::Queued)));
    match fetch_outcome(200, Some(raw())) {
        Some(CfFetch::Ready(p)) => assert_eq!(p.id, 1002185),
        other => panic!("{other:?}"),
    }
    assert!(fetch_outcome(200, None).is_none());
}

#[test]
fn an_unknown_author_is_named_in_the_error() {
    match author_outcome(404, "Inconnu") {
        Some(AppError::Config(m)) => assert_eq!(m, "pseudo CurseForge introuvable : Inconnu"),
        other => panic!("{other:?}"),
    }
    assert!(author_outcome(200, "x").is_none());
}
