use chartographer::commands::{analyze_curseforge_text, capture_summary};
use chartographer::error::AppError;
use chartographer::json::Json;
use chartographer::oauth::{callback_outcome, parse_callback, parse_token_response};
use chartographer::providers::modrinth::notification_from;
use chartographer::publish::{curseforge_file_id, modrinth_version_id, refusal_reason};
use chartographer::scrape::{find_daily_series, DailyPoint};

fn from_value(v: &serde_json::Value) -> Json {
    match v {
        serde_json::Value::Null => Json::Null,
        serde_json::Value::Bool(b) => Json::Bool(*b),
        serde_json::Value::Number(n) => Json::Number(n.as_i64(), n.to_string()),
        serde_json::Value::String(s) => Json::Text(s.clone()),
        serde_json::Value::Array(items) => Json::Array(items.iter().map(from_value).collect()),
        serde_json::Value::Object(fields) => Json::Object(
            fields.iter().map(|(k, v)| (k.clone(), from_value(v))).collect(),
        ),
    }
}

fn json(raw: &str) -> Json {
    from_value(&serde_json::from_str::<serde_json::Value>(raw).unwrap())
}

fn decoded(raw: &str) -> Option<Json> {
    serde_json::from_str::<serde_json::Value>(raw).ok().map(|v| from_value(&v))
}

#[test]
fn finds_a_series_whatever_the_field_names() {
    let series = find_daily_series(&json(
        r#"[{"date":"2026-08-01","downloads":42},{"date":"2026-08-02","downloads":51}]"#,
    ));
    assert_eq!(series.len(), 2);
    assert_eq!(
        series[0],
        DailyPoint {
            day: "2026-08-01".into(),
            value: 42
        }
    );
    assert_eq!(series[1].value, 51);
}

#[test]
fn digs_through_the_envelope() {
    let series = find_daily_series(&json(
        r#"{"data":{"stats":{"points":[
            {"day":"2026-07-30","count":7},
            {"day":"2026-07-31","count":9},
            {"day":"2026-08-01","count":11}]}}}"#,
    ));
    assert_eq!(series.len(), 3);
    assert_eq!(series[2].value, 11);
}

#[test]
fn reads_unix_timestamps_in_seconds_and_milliseconds() {
    let series = find_daily_series(&json(
        r#"[{"t":1785888000,"v":3},{"t":1785974400000,"v":5}]"#,
    ));
    assert_eq!(series.len(), 2);
    assert_eq!(series[0].day, "2026-08-05");
    assert_eq!(series[1].day, "2026-08-06");
}

#[test]
fn keeps_the_longest_series_of_the_response() {
    let series = find_daily_series(&json(
        r#"{"short":[{"date":"2026-08-01","n":1}],
            "long":[{"date":"2026-08-01","n":1},{"date":"2026-08-02","n":2},
                    {"date":"2026-08-03","n":3}]}"#,
    ));
    assert_eq!(series.len(), 3);
}

#[test]
fn ignores_a_response_without_any_dated_series() {
    assert!(find_daily_series(&json(r#"{"user":"DreykaOas","points":132}"#)).is_empty());
    assert!(find_daily_series(&json("[1, 2, 3]")).is_empty());
}

#[test]
fn the_first_of_two_equal_series_wins() {
    let series = find_daily_series(&json(
        r#"[[{"d":"2026-01-01","n":1}],[{"d":"2026-02-01","n":2}]]"#,
    ));
    assert_eq!(series.len(), 1);
    assert_eq!(series[0].day, "2026-01-01");
    // The number is the first integer that is not the date.
    let skip = find_daily_series(&json(r#"[{"a":1785888000,"b":"x","c":4}]"#));
    assert_eq!(skip[0].value, 4);
    assert_eq!(skip[0].day, "2026-08-05");
}

#[test]
fn reads_the_identifier_each_platform_returns() {
    assert_eq!(
        modrinth_version_id(&decoded(r#"{"id":"xR4psbM0","project_id":"AABBCCDD"}"#)),
        Some("xR4psbM0".into())
    );
    assert_eq!(curseforge_file_id(&decoded(r#"{"id":6123456}"#)), Some(6123456));
    assert_eq!(modrinth_version_id(&decoded("pas du json")), None);
}

#[test]
fn reads_the_reason_of_a_refusal() {
    assert_eq!(
        refusal_reason(&decoded(
            r#"{"error":"invalid_input","description":"version_number déjà pris"}"#
        )),
        Some("version_number déjà pris".into())
    );
    assert_eq!(
        refusal_reason(&decoded(
            r#"{"errorCode":1018,"errorMessage":"Le fichier existe déjà"}"#
        )),
        Some("Le fichier existe déjà".into())
    );
    assert_eq!(refusal_reason(&decoded("<html>403</html>")), None);
}

fn token_answer(raw: &str) -> Result<String, AppError> {
    let parsed = serde_json::from_str::<serde_json::Value>(raw)
        .map(|v| from_value(&v))
        .map_err(|e| e.to_string());
    parse_token_response(parsed)
}

#[test]
fn parse_token_response_reads_access_token() {
    let raw = r#"{"access_token":"mrp_xyz","token_type":"Bearer","expires_in":1209600}"#;
    assert_eq!(token_answer(raw).unwrap(), "mrp_xyz");
}

#[test]
fn parse_token_response_surfaces_the_api_error() {
    let raw = r#"{"error":"invalid_client","description":"The provided client id was invalid"}"#;
    let message = token_answer(raw).unwrap_err().message();
    assert!(message.contains("invalid_client"));
    assert!(message.contains("client id was invalid"));
}

#[test]
fn an_unreadable_token_answer_is_a_data_error() {
    assert!(matches!(token_answer("{"), Err(AppError::Data(_))));
    let odd = token_answer("{}").unwrap_err().message();
    assert_eq!(odd, "modrinth a refusé l'authentification : réponse inattendue : ");
}

#[test]
fn the_callback_answers_the_code_or_why_not() {
    let ok = parse_callback("GET /callback?code=abc&state=s1 HTTP/1.1");
    assert_eq!(callback_outcome(&ok, "s1").unwrap().unwrap(), "abc");
    let other = callback_outcome(&ok, "s2").unwrap().unwrap_err().message();
    assert!(other.contains("paramètre state invalide"));
    let refused = parse_callback("GET /callback?error=access_denied HTTP/1.1");
    let why = callback_outcome(&refused, "s1").unwrap().unwrap_err().message();
    assert!(why.contains("access_denied"));
    let partial = parse_callback("GET /callback?code=abc HTTP/1.1");
    let incomplete = callback_outcome(&partial, "s1").unwrap().unwrap_err().message();
    assert!(incomplete.contains("incomplète"));
    assert!(callback_outcome(&parse_callback("GET /favicon.ico HTTP/1.1"), "s1").is_none());
}

#[test]
fn parse_notifications_renders_status_change() {
    let body = json(
        r#"{"type":"status_change","project_id":"YCu7AAOD",
            "old_status":"processing","new_status":"approved"}"#,
    );
    let out = notification_from("2026-03-15T21:51:39.314925Z".into(), &body, "{}".into());
    assert_eq!(out.kind, "status_change");
    assert_eq!(out.project_ext_id.as_deref(), Some("YCu7AAOD"));
    assert!(out.detail.contains("processing"));
    assert!(out.detail.contains("approved"));
    assert_eq!(out.detail, "processing vers approved");
    let bare = notification_from("t".into(), &json(r#"{"x":1}"#), r#"{"x":1}"#.into());
    assert_eq!(bare.kind, "unknown");
    assert_eq!(bare.detail, r#"{"x":1}"#);
    assert!(bare.project_ext_id.is_none());
}

#[test]
fn a_pasted_page_and_a_pasted_response_are_both_read() {
    let text = r#"[{"date":"2026-08-01","downloads":42},{"date":"2026-08-02","downloads":51}]"#;
    let analysis = analyze_curseforge_text(text, decoded(text.trim()));
    assert_eq!(analysis.days, 2);
    assert_eq!(analysis.from.as_deref(), Some("2026-08-01"));
    assert_eq!(analysis.to.as_deref(), Some("2026-08-02"));
    assert_eq!(analysis.total, 93);
    assert_eq!(analysis.points, None);

    let page = "Solde : 320 points";
    let read = analyze_curseforge_text(page, decoded(page));
    assert_eq!(read.points, Some(320));
    assert_eq!(read.days, 0);
    assert!(read.from.is_none());
    assert_eq!(read.total, 0);
    assert!(read.excerpt.contains("320 points"));
}

#[test]
fn a_capture_is_summed_up_by_its_days() {
    let series = find_daily_series(&json(
        r#"[{"date":"2026-08-01","n":4},{"date":"2026-08-03","n":6}]"#,
    ));
    let capture = capture_summary("https://x/_api/q", &series).unwrap();
    assert_eq!(capture.days, 2);
    assert_eq!(capture.total, 10);
    assert_eq!(capture.from.as_deref(), Some("2026-08-01"));
    assert_eq!(capture.to.as_deref(), Some("2026-08-03"));
    assert!(capture_summary("u", &Vec::new()).is_none());
}
