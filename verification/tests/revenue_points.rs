use chartographer::providers::modrinth::revenue_points;
use std::collections::{BTreeMap, HashMap};

/// The analytics body read as the application reads it, each project's
/// series then kept by the library.
fn parse_revenue(raw: &str) -> HashMap<String, BTreeMap<i64, String>> {
    let parsed: HashMap<String, HashMap<String, String>> = serde_json::from_str(raw).unwrap();
    parsed
        .into_iter()
        .map(|(project, points)| {
            let points: Vec<(String, String)> = points.into_iter().collect();
            (project, revenue_points(&points).into_iter().collect())
        })
        .collect()
}

#[test]
fn parse_revenue_keeps_full_decimal_precision() {
    let raw = r#"{"W0JWCVNo":{"1785888000":"0.00762273691987854525"}}"#;
    let out = parse_revenue(raw);
    let value = &out["W0JWCVNo"][&1_785_888_000];
    assert_eq!(value.to_string(), "0.00762273691987854525");
}

fn pair(ts: &str, amount: &str) -> (String, String) {
    (ts.to_string(), amount.to_string())
}

#[test]
fn points_that_do_not_read_are_dropped_in_order() {
    let kept = revenue_points(&vec![
        pair("1785888000", "1.50"),
        pair("tomorrow", "2.00"),
        pair("1785974400", "a lot"),
        pair("1786060800", "-0.25"),
    ]);
    assert_eq!(
        kept,
        vec![(1_785_888_000, "1.50".to_string()), (1_786_060_800, "-0.25".to_string())]
    );
}

#[test]
fn an_empty_series_keeps_nothing() {
    assert!(revenue_points(&vec![]).is_empty());
}
