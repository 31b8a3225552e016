use chartographer::sync::{author_plan, AuthorAttempt};
use chartographer::error::AppError;
use chartographer::sync::{
    author_not_found, matching_report, modrinth_discovery_detail, queued_detail, refresh_detail,
    run_report, username_candidates, window_start, SyncReport, SyncStep,
};

#[test]
fn analytics_window_starts_after_the_last_known_day() {
    assert_eq!(
        window_start(Some("2026-08-05"), "2026-08-11", 365),
        "2026-08-05"
    );
    assert_eq!(window_start(None, "2026-08-11", 30), "2026-07-12");
}

#[test]
fn candidate_username_variants_are_ordered() {
    assert_eq!(
        username_candidates("DreykaOas"),
        vec!["DreykaOas".to_string(), "DreykaOas_official".to_string()]
    );
}

#[test]
fn a_step_opens_without_report_and_closes_with_it() {
    let open = SyncStep::opening("modrinth");
    assert_eq!(open.provider, "modrinth");
    assert!(open.report.is_none());
    let report = SyncReport {
        provider: "curseforge".into(),
        status: "ok".into(),
        detail: "3 snapshots".into(),
    };
    let closed = SyncStep::closing(&report);
    assert_eq!(closed.provider, "curseforge");
    assert_eq!(closed.report.unwrap().detail, "3 snapshots");
}

#[test]
fn a_cycle_reports_each_step() {
    let ok = run_report("modrinth", Ok("3 projets".into()));
    assert_eq!((ok.status.as_str(), ok.detail.as_str()), ("ok", "3 projets"));
    let failed = run_report("curseforge", Err(AppError::remote("curseforge", "HTTP 500")));
    assert_eq!(failed.status, "failed");
    assert_eq!(failed.detail, "curseforge indisponible : HTTP 500");
    let (report, shown) = matching_report(Ok(4));
    assert_eq!(report.detail, "4 liens automatiques");
    assert!(!shown);
    let (_, shown) = matching_report(Err(AppError::Data("x".into())));
    assert!(shown);
    assert_eq!(queued_detail(3, "snapshots", 1), "3 snapshots, 1 en file d'attente");
    assert_eq!(refresh_detail(2, 5), "2 projets, 5 notifications");
    assert_eq!(modrinth_discovery_detail(4, Some("12.50")), "4 projets, 12.50 $ retirables");
    assert_eq!(modrinth_discovery_detail(4, None), "4 projets");
    match author_not_found(2, &vec!["a".into(), "a_official".into()]) {
        AppError::Config(m) => assert_eq!(m, "auteur CurseForge introuvable : ni via les 2 slugs Modrinth, ni parmi a, a_official"),
        other => panic!("{other:?}"),
    }
}

#[test]
fn the_author_is_looked_for_by_hand_then_by_owner_then_by_guess() {
    let by_hand = author_plan(Some("Moi"), &vec!["vein".to_string()], "dreyka");
    assert_eq!(by_hand.len(), 1);
    assert!(matches!(&by_hand[0], AuthorAttempt::Named(n) if n == "Moi"));
    let plan = author_plan(None, &vec!["vein".to_string(), "mobs".to_string()], "dreyka");
    assert_eq!(plan.len(), 4);
    assert!(matches!(&plan[0], AuthorAttempt::OwnerOf(s) if s == "vein"));
    assert!(matches!(&plan[1], AuthorAttempt::OwnerOf(s) if s == "mobs"));
    assert!(matches!(&plan[2], AuthorAttempt::Guess(n) if n == "dreyka"));
    assert!(matches!(&plan[3], AuthorAttempt::Guess(n) if n == "dreyka_official"));
    let nameless = author_plan(None, &Vec::new(), "");
    assert_eq!(nameless.len(), 1);
    assert!(matches!(&nameless[0], AuthorAttempt::Guess(n) if n == "_official"));
}
