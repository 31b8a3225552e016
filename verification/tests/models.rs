use chartographer::error::AppError;
use chartographer::models::Platform;

#[test]
fn platform_roundtrips_through_str() {
    assert_eq!(Platform::from_str_lossy("modrinth"), Platform::Modrinth);
    assert_eq!(Platform::from_str_lossy("curseforge"), Platform::CurseForge);
    assert_eq!(Platform::Modrinth.as_str(), "modrinth");
    assert_eq!(Platform::CurseForge.as_str(), "curseforge");
}

#[test]
fn an_unknown_name_falls_back_on_modrinth() {
    assert_eq!(Platform::from_str_lossy("CurseForge"), Platform::Modrinth);
    assert_eq!(Platform::from_str_lossy(""), Platform::Modrinth);
}

#[test]
fn each_error_has_its_kind_and_sentence() {
    assert_eq!(AppError::Config("x".into()).kind(), "config");
    assert_eq!(AppError::Data("x".into()).kind(), "data");
    let remote = AppError::remote("modrinth", "HTTP 500");
    assert_eq!(remote.kind(), "remote");
    assert_eq!(remote.message(), "modrinth indisponible : HTTP 500");
    let auth = AppError::auth("modrinth", "HTTP 401");
    assert_eq!(auth.kind(), "auth");
    assert_eq!(auth.message(), "modrinth a refusé l'authentification : HTTP 401");
    assert_eq!(
        AppError::Config("x".into()).message(),
        "configuration manquante ou invalide : x"
    );
    assert_eq!(AppError::Data("y".into()).message(), "données incohérentes : y");
}

#[test]
fn an_empty_estimate_is_absent_and_no_balance_counts_as_no_point() {
    let r = chartographer::models::cf_revenue(
        None,
        "0.00".to_string(),
        Some(String::new()),
        Some("12.50".to_string()),
        vec![("2026-07".to_string(), "3.10".to_string())],
    );
    assert_eq!(r.points, 0);
    assert_eq!(r.last_month, None);
    assert_eq!(r.year_to_date.as_deref(), Some("12.50"));
    assert_eq!(r.monthly.len(), 1);
    let shown = chartographer::models::cf_revenue(Some(320), "16.00".to_string(), None, None, vec![]);
    assert_eq!(shown.points, 320);
    assert_eq!(shown.points_usd, "16.00");
}
