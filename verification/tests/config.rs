use chartographer::config::{
    clamp_auto_sync, load_session, load_settings, needs_migration, require_token,
    settings_file, settings_need_migration, upload_token_to_store, Session, Settings,
};
use chartographer::error::AppError;

fn session(token: &str) -> Session {
    Session {
        token: token.to_string(),
        user_id: "VgD9obZq".to_string(),
        username: "DreykaOas".to_string(),
        obtained_at: "2026-08-11T10:00:00Z".to_string(),
    }
}

#[test]
fn auto_sync_never_goes_below_ten_minutes() {
    assert_eq!(clamp_auto_sync(1), 10);
    assert_eq!(clamp_auto_sync(0), 10);
    assert_eq!(clamp_auto_sync(-5), 10);
    assert_eq!(clamp_auto_sync(45), 45);
    assert_eq!(clamp_auto_sync(99_999), 1440);
}

#[test]
fn require_token_explains_what_is_missing() {
    let message = require_token(None).unwrap_err().message();
    assert!(message.contains("connecte-toi"));
    let s = session("mrp_abc");
    assert_eq!(require_token(Some(s.clone())).unwrap(), s);
}

#[test]
fn defaults_of_a_fresh_install() {
    let defaults = Settings::default();
    assert_eq!(defaults.range_days, 30);
    assert!(defaults.curseforge_username.is_none());
    assert_eq!(defaults.currency, "USD");
    assert_eq!(defaults.auto_sync_minutes, 10);
    assert!(defaults.auto_update);
    assert!(defaults.curseforge_upload_token.is_none());
}

#[test]
fn a_session_file_with_its_token_is_migrated_and_kept() {
    let old = session("mrp_ancien");
    assert!(needs_migration(&old));
    let loaded = load_session(Some(old.clone()), Ok(None)).unwrap();
    assert_eq!(loaded.token, "mrp_ancien");
}

#[test]
fn a_session_takes_its_token_from_the_keyring() {
    let file = session("");
    assert!(!needs_migration(&file));
    let loaded = load_session(Some(file.clone()), Ok(Some("mrp_abc".to_string()))).unwrap();
    assert_eq!(loaded, session("mrp_abc"));
    assert!(load_session(Some(file.clone()), Ok(None)).is_none());
    assert!(load_session(Some(file), Err(AppError::Config("muet".to_string()))).is_none());
    assert!(load_session(None, Ok(Some("mrp_abc".to_string()))).is_none());
}

#[test]
fn settings_without_a_file_are_the_defaults_with_the_keyring_token() {
    let loaded = load_settings(None, Ok(Some("jeton".to_string())));
    assert_eq!(loaded.range_days, 30);
    assert_eq!(loaded.currency, "USD");
    assert_eq!(loaded.curseforge_upload_token.as_deref(), Some("jeton"));
    let bare = load_settings(None, Ok(None));
    assert!(bare.curseforge_upload_token.is_none());
    assert!(bare.auto_update);
}

#[test]
fn an_old_settings_file_keeps_its_token_once() {
    let file = Settings {
        curseforge_username: Some("DreykaOas_official".into()),
        range_days: 180,
        currency: "EUR".into(),
        auto_sync_minutes: 30,
        curseforge_upload_token: Some("jeton".into()),
        auto_update: false,
    };
    assert!(settings_need_migration(&file));
    let loaded = load_settings(Some(file.clone()), Ok(Some("autre".to_string())));
    assert_eq!(loaded, file);
    assert_eq!(upload_token_to_store(&file).as_deref(), Some("jeton"));

    let empty = Settings { curseforge_upload_token: Some(String::new()), ..file };
    assert!(!settings_need_migration(&empty));
    assert_eq!(upload_token_to_store(&empty), None);
    let reloaded = load_settings(Some(empty), Ok(Some("autre".to_string())));
    assert_eq!(reloaded.curseforge_upload_token.as_deref(), Some("autre"));
}

#[test]
fn saved_settings_read_back_with_the_keyring_token() {
    let updated = Settings {
        curseforge_username: Some("DreykaOas_official".into()),
        range_days: 180,
        currency: "EUR".into(),
        auto_sync_minutes: 30,
        curseforge_upload_token: Some("jeton".into()),
        auto_update: false,
    };
    let stored = upload_token_to_store(&updated);
    let on_disk = settings_file(updated.clone());
    assert!(on_disk.curseforge_upload_token.is_none());
    assert_eq!(on_disk.currency, "EUR");
    assert_eq!(on_disk.range_days, 180);
    assert_eq!(load_settings(Some(on_disk), Ok(stored)), updated);

    let without = Settings { curseforge_upload_token: None, ..updated };
    assert_eq!(upload_token_to_store(&without), None);
    let reread = load_settings(Some(settings_file(without.clone())), Ok(Some("ancien".to_string())));
    assert_eq!(reread.curseforge_upload_token.as_deref(), Some("ancien"));
    assert_eq!(reread.range_days, 180);
}
