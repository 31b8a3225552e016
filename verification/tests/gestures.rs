use chartographer::gestures::{creation, file_removal, fill, generalize, learn, worth_learning, Observed};

fn observed(method: &str, url: &str, status: i64, sent: &str) -> Observed {
    Observed {
        method: method.into(),
        url: url.into(),
        status,
        sent: sent.into(),
    }
}

#[test]
fn only_successful_writes_on_the_internal_interface_are_learned() {
    assert!(worth_learning(&observed("POST", "/_api/projects", 200, "{}")));
    assert!(!worth_learning(&observed("GET", "/_api/projects", 200, "")));
    assert!(!worth_learning(&observed(
        "POST",
        "https://o.clarity.ms/collect",
        204,
        ""
    )));
    assert!(
        !worth_learning(&observed("POST", "/_api/projects", 400, "{}")),
        "un geste refusé n'apprend pas comment faire"
    );
}

#[test]
fn identifiers_leave_room_for_markers() {
    assert_eq!(
        generalize("/_api/project-files/6123456"),
        "/_api/project-files/{1}"
    );
    assert_eq!(
        generalize("/_api/projects/1002185/files/6123456"),
        "/_api/projects/{1}/files/{2}"
    );
    assert_eq!(generalize("/_api/projects"), "/_api/projects");
}

#[test]
fn the_query_string_is_left_alone() {
    assert_eq!(
        generalize("/_api/project-files/42?force=true"),
        "/_api/project-files/{1}?force=true"
    );
}

#[test]
fn markers_take_identifiers_back_in_order() {
    assert_eq!(
        fill("/_api/projects/{1}/files/{2}", &[1002185, 6123456]),
        "/_api/projects/1002185/files/6123456"
    );
}

#[test]
fn the_same_gesture_repeated_keeps_its_latest_form() {
    let seen = vec![
        observed("POST", "/_api/projects", 200, r#"{"name":"un"}"#),
        observed("POST", "/_api/projects", 200, r#"{"name":"deux"}"#),
    ];
    let learned = learn(&seen);
    assert_eq!(learned.len(), 1);
    assert_eq!(learned[0].body, r#"{"name":"deux"}"#);
}

#[test]
fn creation_and_removal_are_recognised_among_the_rest() {
    let seen = vec![
        observed("POST", "/_api/projects", 201, r#"{"name":"un"}"#),
        observed("PUT", "/_api/projects/description/1002185", 200, "{}"),
        observed("DELETE", "/_api/project-files/6123456", 204, ""),
    ];
    let learned = learn(&seen);
    assert_eq!(creation(&learned).unwrap().method, "POST");
    assert_eq!(
        file_removal(&learned).unwrap().pattern,
        "/_api/project-files/{1}"
    );
}

#[test]
fn nothing_is_invented_when_nothing_was_observed() {
    let learned = learn(&[]);
    assert!(creation(&learned).is_none());
    assert!(file_removal(&learned).is_none());
}

#[test]
fn a_lowercase_method_is_learned_in_capitals() {
    let learned = learn(&[observed("patch", "/_api/projects/12", 200, "{}")]);
    assert_eq!(learned[0].method, "PATCH");
    assert_eq!(learned[0].pattern, "/_api/projects/{1}");
}

#[test]
fn negative_and_repeated_markers_are_filled() {
    assert_eq!(fill("{1}/{1}/{2}", &[-5, 0]), "-5/-5/0");
    assert_eq!(fill("{12}", &[7]), "{12}");
}

#[test]
fn shelving_stands_in_for_a_missing_deletion() {
    let learned = learn(&[observed("PUT", "/_api/project-files/9/archive", 200, "{}")]);
    assert_eq!(file_removal(&learned).unwrap().pattern, "/_api/project-files/{1}/archive");
}

#[test]
fn an_empty_segment_is_not_a_number() {
    assert_eq!(generalize("//12//"), "//{1}//");
}

#[test]
fn filling_a_generalized_address_gives_it_back() {
    let urls: [(&str, &[i64]); 4] = [
        ("/_api/projects/1002185/files/6123456?force=true&n=1", &[1002185, 6123456]),
        ("/1/2/3/4/5/6/7/8/9/10/11/12", &[1, 2, 3, 4, 5, 6, 7, 8, 9, 10, 11, 12]),
        ("//0//x7/", &[0]),
        ("/_api/projects?page=2", &[]),
    ];
    for (url, ids) in urls {
        assert_eq!(fill(&generalize(url), ids), url);
    }
}
