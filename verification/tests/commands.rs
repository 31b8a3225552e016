use chartographer::commands::{
    account_page, balance_from_text, came_back_empty, get_settings, login_needed,
    pasted_token, settings_from_form, status_of, CfCollect,
};
use chartographer::error::AppError;
use chartographer::config::{Session, Settings};

#[test]
fn builds_the_public_page_of_each_platform() {
    assert_eq!(
        account_page("modrinth", "DreykaOas").as_deref(),
        Some("https://modrinth.com/user/DreykaOas")
    );
    assert_eq!(
        account_page("curseforge", "DreykaOas_official").as_deref(),
        Some("https://www.curseforge.com/members/DreykaOas_official/projects")
    );
}

#[test]
fn refuses_what_is_not_a_pseudonym() {
    assert_eq!(account_page("modrinth", "  "), None);
    assert_eq!(account_page("steam", "DreykaOas"), None);
    // Un nom porteur de séparateurs ne peut pas détourner l'adresse.
    assert_eq!(
        account_page("modrinth", "a/../../settings?x=1").as_deref(),
        Some("https://modrinth.com/user/a....settingsx1")
    );
}

#[test]
fn a_name_made_only_of_separators_has_no_page() {
    assert_eq!(account_page("modrinth", " /?& "), None);
    assert_eq!(
        account_page("curseforge", "  ana-b.c  ").as_deref(),
        Some("https://www.curseforge.com/members/ana-b.c/projects")
    );
}

#[test]
fn the_banner_balance_is_the_number_after_my_balance() {
    assert_eq!(balance_from_text("Dashboard\nMy Balance\n1240\n$62.00"), Some(1240));
    assert_eq!(balance_from_text("MY BALANCE: 75 points"), Some(75));
    assert_eq!(balance_from_text("no balance here 12"), None);
    assert_eq!(balance_from_text("my balance, nothing after"), None);
    // Beyond what an i64 holds, nothing is read.
    assert_eq!(balance_from_text("My Balance 99999999999999999999"), None);
    assert_eq!(
        balance_from_text("My Balance 9223372036854775807"),
        Some(i64::MAX)
    );
}

fn settings() -> Settings {
    Settings {
        curseforge_username: None,
        range_days: 30,
        currency: "USD".into(),
        auto_sync_minutes: 45,
        curseforge_upload_token: Some("jeton".into()),
        auto_update: false,
    }
}

#[test]
fn the_form_trims_clamps_and_keeps_the_token() {
    let saved = settings_from_form(
        settings(),
        Some("  DreykaOas_official ".into()),
        3,
        Some(" eur ".into()),
    );
    assert_eq!(saved.curseforge_username.as_deref(), Some("DreykaOas_official"));
    assert_eq!(saved.range_days, 7);
    assert_eq!(saved.currency, "EUR");
    assert_eq!(saved.curseforge_upload_token.as_deref(), Some("jeton"));
    assert_eq!(saved.auto_sync_minutes, 45);
    assert!(!saved.auto_update);

    let odd = settings_from_form(settings(), Some("   ".into()), 5000, Some("euro".into()));
    assert!(odd.curseforge_username.is_none());
    assert_eq!(odd.range_days, 730);
    assert_eq!(odd.currency, "USD");
    // Three characters, but not three bytes.
    let wide = settings_from_form(settings(), None, 90, Some("€€€".into()));
    assert_eq!(wide.currency, "USD");
    assert_eq!(wide.range_days, 90);
}

#[test]
fn the_view_tells_the_token_without_giving_it() {
    let view = get_settings(settings());
    assert!(view.curseforge_token_ready);
    assert_eq!(view.currency, "USD");
    let bare = get_settings(Settings { curseforge_upload_token: None, ..settings() });
    assert!(!bare.curseforge_token_ready);
}

#[test]
fn the_status_names_the_account_read_on_the_dashboard_first() {
    let session = Session {
        token: "mrp".into(),
        user_id: "u".into(),
        username: "DreykaOas".into(),
        obtained_at: "2026-08-11T10:00:00Z".into(),
    };
    let status = status_of(
        Some(session),
        settings(),
        Some("compte".into()),
        Some("auteur".into()),
        4,
        3,
    );
    assert!(status.connected);
    assert_eq!(status.username.as_deref(), Some("DreykaOas"));
    assert_eq!(status.connected_since.as_deref(), Some("2026-08-11T10:00:00Z"));
    assert_eq!(status.curseforge_username.as_deref(), Some("compte"));
    assert_eq!((status.modrinth_projects, status.curseforge_projects), (4, 3));

    let by_hand = Settings { curseforge_username: Some("main".into()), ..settings() };
    let out = status_of(None, by_hand, Some("compte".into()), None, 0, 0);
    assert!(!out.connected);
    assert_eq!(out.curseforge_username.as_deref(), Some("main"));
    let guessed = status_of(None, settings(), None, Some("auteur".into()), 0, 0);
    assert_eq!(guessed.curseforge_username.as_deref(), Some("auteur"));
}

#[test]
fn an_empty_reading_is_tried_again() {
    assert!(came_back_empty("  ", ""));
    assert!(!came_back_empty("[]", ""));
    assert!(!came_back_empty("", "{}"));
    let login = login_needed("session CurseForge expirée");
    assert!(login.needs_login);
    assert!(login.imported.is_empty());
    let blank = CfCollect::default();
    assert!(!blank.needs_login && blank.detail.is_empty());
}

#[test]
fn a_pasted_token_is_trimmed_and_an_empty_one_refused() {
    assert_eq!(pasted_token("  mrp_abc123 \n").ok().as_deref(), Some("mrp_abc123"));
    match pasted_token(" \t ") {
        Err(AppError::Config(detail)) => assert_eq!(detail, "colle ton token Modrinth"),
        _ => panic!("an empty token must be refused"),
    }
}
