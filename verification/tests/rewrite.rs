use chartographer::gestures::{adapt_body, settles_within};
use chartographer::json::Json;

fn from_value(v: &serde_json::Value) -> Json {
    match v {
        serde_json::Value::Null => Json::Null,
        serde_json::Value::Bool(b) => Json::Bool(*b),
        serde_json::Value::Number(n) => Json::Number(n.as_i64(), n.to_string()),
        serde_json::Value::String(s) => Json::Text(s.clone()),
        serde_json::Value::Array(items) => Json::Array(items.iter().map(from_value).collect()),
        serde_json::Value::Object(fields) => Json::Object(
            fields.iter().map(|(k, v)| (k.clone(), from_value(v))).collect(),
        ),
    }
}

fn to_value(v: &Json) -> serde_json::Value {
    match v {
        Json::Null => serde_json::Value::Null,
        Json::Bool(b) => serde_json::Value::Bool(*b),
        Json::Number(_, text) => serde_json::from_str(text).unwrap(),
        Json::Text(s) => serde_json::Value::String(s.clone()),
        Json::Array(items) => serde_json::Value::Array(items.iter().map(to_value).collect()),
        Json::Object(fields) => serde_json::Value::Object(
            fields.iter().map(|(k, v)| (k.clone(), to_value(v))).collect(),
        ),
    }
}

fn decoded(raw: &str) -> Option<Json> {
    serde_json::from_str::<serde_json::Value>(raw).ok().map(|v| from_value(&v))
}

fn text(s: &str) -> Json {
    Json::Text(s.into())
}

#[test]
fn a_learned_body_is_rewritten_field_by_field() {
    let learned = r#"{"name":"Ancien","gameId":432,"summary":"vieux",
      "nested":{"name":"Ancien"},"licenseTypeId":7}"#;
    let changes = vec![("name".to_string(), text("Nouveau")), ("summary".to_string(), text("neuf"))];
    let adapted = adapt_body(learned, decoded(learned), &changes).unwrap();
    let value = to_value(&adapted);
    assert_eq!(value["name"], "Nouveau");
    assert_eq!(value["summary"], "neuf");
    assert_eq!(value["nested"]["name"], "Nouveau");
    // What is not understood is carried over: that is the whole point.
    assert_eq!(value["gameId"], 432);
    assert_eq!(value["licenseTypeId"], 7);
}

#[test]
fn a_body_that_is_not_json_survives_untouched() {
    let body = "pas du json";
    assert_eq!(adapt_body(body, decoded(body), &Vec::new()).unwrap_err(), "pas du json");
}

#[test]
fn numbers_that_are_not_integers_are_carried_over_as_written() {
    let learned = r#"{"ratio":0.75,"items":[{"name":"a"},{"name":"b"}]}"#;
    let changes = vec![("name".to_string(), text("z"))];
    let value = to_value(&adapt_body(learned, decoded(learned), &changes).unwrap());
    assert_eq!(value["ratio"], 0.75);
    assert_eq!(value["items"][1]["name"], "z");
}

#[test]
fn a_replacement_that_leads_back_to_its_key_never_settles() {
    let body = decoded(r#"{"a":1}"#).unwrap();
    let looping = vec![("a".to_string(), decoded(r#"{"a":2}"#).unwrap())];
    assert!(!settles_within(&body, &looping, 1));
    assert!(!settles_within(&body, &looping, 5));
    let chained = vec![
        ("a".to_string(), decoded(r#"{"b":2}"#).unwrap()),
        ("b".to_string(), text("fin")),
    ];
    assert!(settles_within(&body, &chained, 2));
    assert!(!settles_within(&body, &chained, 1));
    let value = to_value(&adapt_body(r#"{"a":1}"#, Some(body), &chained).unwrap());
    assert_eq!(value["a"]["b"], "fin");
}
