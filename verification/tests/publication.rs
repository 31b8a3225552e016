use chartographer::error::AppError;
use chartographer::json::Json;
use chartographer::publish_api::{
    curseforge_outcome, deletion_outcome, failed_outcome, modrinth_outcome, no_upload_token,
    no_version_recognised, unpublishable, Outcome,
};

fn reason(text: &str) -> Option<Json> {
    Some(Json::Object(vec![("description".to_string(), Json::Text(text.to_string()))]))
}

#[test]
fn a_refusal_gives_the_platform_reason() {
    let out = Outcome::refused("curseforge", 400, "{}", &reason("Le fichier existe déjà"));
    assert!(!out.ok);
    assert_eq!(out.detail, "refusé (400) : Le fichier existe déjà");
    let bare = Outcome::refused("curseforge", 500, "   ", &None);
    assert_eq!(bare.detail, "refusé (500) : HTTP 500");
    let html = Outcome::refused("curseforge", 403, "<html>403</html>", &None);
    assert_eq!(html.detail, "refusé (403) : <html>403</html>");
}

#[test]
fn a_modrinth_401_explains_the_missing_scopes() {
    let out = Outcome::refused("modrinth", 401, "", &None);
    assert!(out.detail.starts_with("refusé (401) : HTTP 401 · un jeton qui lit ne suffit pas"));
    assert!(out.detail.ends_with("VERSION_DELETE"));
    let cf = Outcome::refused("curseforge", 401, "", &None);
    assert_eq!(cf.detail, "refusé (401) : HTTP 401");
}

#[test]
fn a_long_body_is_cut() {
    let body = "x".repeat(400);
    let out = Outcome::refused("curseforge", 400, &body, &None);
    assert_eq!(out.detail.chars().count(), "refusé (400) : ".chars().count() + 180);
}

#[test]
fn deletions_and_uploads_say_what_happened() {
    let gone = deletion_outcome(204, "", &None, "version abc");
    assert!(gone.ok);
    assert_eq!(gone.detail, "version abc supprimé");
    let kept = deletion_outcome(404, "", &None, "version abc");
    assert!(!kept.ok);
    let up = curseforge_outcome(1002185, 200, "", &None, Some(6123456), &vec!["1.21.9".into(), "Quilt".into()]);
    assert!(up.ok);
    assert_eq!(up.id.as_deref(), Some("6123456"));
    assert_eq!(up.detail, "fichier déposé sur le projet 1002185 · non reconnues : 1.21.9, Quilt");
    let clean = curseforge_outcome(7, 201, "", &None, None, &Vec::new());
    assert_eq!(clean.detail, "fichier déposé sur le projet 7");
    let mr = modrinth_outcome("AABBCCDD", 200, "", &None, Some("xR4".into()));
    assert_eq!(mr.detail, "version déposée sur AABBCCDD");
    assert_eq!(mr.id.as_deref(), Some("xR4"));
    let failed = failed_outcome("modrinth", &AppError::Data("x".into()));
    assert_eq!(failed.detail, "données incohérentes : x");
}

#[test]
fn the_errors_of_publication_name_their_cause() {
    match no_version_recognised(&vec!["1.21".into(), "fabric".into()]) {
        AppError::Config(m) => assert_eq!(m, "aucune version reconnue par CurseForge parmi : 1.21, fabric"),
        other => panic!("{other:?}"),
    }
    assert!(matches!(no_upload_token(), AppError::Config(_)));
    match unpublishable("notes.txt") {
        AppError::Config(m) => assert!(m.starts_with("notes.txt n'est pas une archive publiable")),
        other => panic!("{other:?}"),
    }
}
