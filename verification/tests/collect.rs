use chartographer::collect::{pick_project_id, worth_visiting};

fn known() -> Vec<(i64, String)> {
    vec![(7, "1002185".into()), (9, "444333".into())]
}

#[test]
fn recognises_a_project_from_the_address() {
    let id = pick_project_id(
        "https://authors.curseforge.com/dashboard/project/1002185/analytics",
        "{}",
        &known(),
    );
    assert_eq!(id, Some(7));
}

#[test]
fn recognises_a_project_from_the_body() {
    let id = pick_project_id("https://x/y", r#"{"projectId":444333}"#, &known());
    assert_eq!(id, Some(9));
}

#[test]
fn refuses_a_number_that_merely_contains_the_identifier() {
    assert_eq!(
        pick_project_id("https://x/31002185", r#"{"id":91002185}"#, &known()),
        None,
        "31002185 n'est pas 1002185"
    );
}

#[test]
fn keeps_only_dashboard_pages_that_may_carry_series() {
    let links = vec![
        "https://authors.curseforge.com/dashboard/projects".to_string(),
        "https://authors.curseforge.com/dashboard/project/1002185/files".to_string(),
        "https://www.curseforge.com/minecraft/mc-mods/mobblocker".to_string(),
        "https://authors.curseforge.com/dashboard/analytics".to_string(),
    ];
    let kept = worth_visiting(&links);
    assert_eq!(
        kept,
        vec![
            "https://authors.curseforge.com/dashboard/projects",
            "https://authors.curseforge.com/dashboard/analytics"
        ]
    );
}

#[test]
fn ignores_duplicates() {
    let links = vec![
        "https://authors.curseforge.com/dashboard/projects".to_string(),
        "https://authors.curseforge.com/dashboard/projects".to_string(),
    ];
    assert_eq!(worth_visiting(&links).len(), 1);
}

#[test]
fn the_first_known_project_mentioned_wins() {
    let known = vec![(1, "555".to_string()), (2, "777".to_string())];
    assert_eq!(pick_project_id("/x/777/y/555", "", &known), Some(1));
}

#[test]
fn an_empty_identifier_is_never_found() {
    let known = vec![(1, String::new())];
    assert_eq!(pick_project_id("anything", "at all", &known), None);
}

#[test]
fn an_uppercase_address_is_still_recognised() {
    let links = vec!["https://authors.curseforge.com/DASHBOARD".to_string()];
    assert_eq!(worth_visiting(&links).len(), 1);
    let off_site = vec!["https://AUTHORS.curseforge.com/dashboard".to_string()];
    assert!(worth_visiting(&off_site).is_empty());
}
