use chartographer::matching::{normalize, pair_projects, Candidate, MatchKind};

fn c(id: i64, slug: &str, title: &str) -> Candidate {
    Candidate {
        id,
        slug: Some(slug.into()),
        title: title.into(),
    }
}

/// The fuzzy verdict, as the application computes it: Jaro-Winkler over the
/// normalised titles, at the threshold of 0.88.
fn close(m: &[Candidate], cf: &[Candidate]) -> Vec<Vec<bool>> {
    m.iter()
        .map(|a| {
            cf.iter()
                .map(|b| strsim::jaro_winkler(&normalize(&a.title), &normalize(&b.title)) >= 0.88)
                .collect()
        })
        .collect()
}

fn run(m: &[Candidate], cf: &[Candidate]) -> Vec<chartographer::matching::Pairing> {
    pair_projects(m, cf, &close(m, cf))
}

#[test]
fn normalize_strips_separators_and_case() {
    assert_eq!(normalize("Custom Clear Lag"), "customclearlag");
    assert_eq!(normalize("no-night-skip"), "nonightskip");
    assert_eq!(normalize("Vein_Vantage"), "veinvantage");
}

#[test]
fn exact_slug_wins() {
    let m = vec![c(1, "vein-vantage", "Vein Vantage")];
    let cf = vec![c(10, "vein-vantage", "Something Else")];
    let out = run(&m, &cf);
    assert_eq!(out.len(), 1);
    assert_eq!((out[0].modrinth_id, out[0].curseforge_id), (1, 10));
    assert_eq!(out[0].kind, MatchKind::Slug);
}

#[test]
fn exact_title_matches_when_slugs_differ() {
    let m = vec![c(1, "mobsblocker", "Mobs Blocker")];
    let cf = vec![c(10, "mobblocker", "Mobs Blocker")];
    let out = run(&m, &cf);
    assert_eq!(out.len(), 1);
    assert_eq!(out[0].kind, MatchKind::Title);
}

#[test]
fn fuzzy_title_matches_colony_project() {
    let m = vec![c(1, "colony", "Colony")];
    let cf = vec![c(10, "colony-project", "Colony Project")];
    let out = run(&m, &cf);
    assert_eq!(out.len(), 1);
    assert_eq!(out[0].kind, MatchKind::Fuzzy);
}

#[test]
fn ambiguous_fuzzy_produces_no_match() {
    let m = vec![c(1, "colony", "Colony")];
    let cf = vec![c(10, "colonies", "Colonies"), c(11, "colonyx", "Colony X")];
    assert!(run(&m, &cf).is_empty());
}

#[test]
fn unrelated_projects_do_not_match() {
    let m = vec![c(1, "fake-fps", "Fake FPS")];
    let cf = vec![c(10, "zone-cleaner", "Zone Cleaner")];
    assert!(run(&m, &cf).is_empty());
}

#[test]
fn each_curseforge_project_is_claimed_once() {
    let m = vec![
        c(1, "health-tag", "Health Tag"),
        c(2, "healthtag", "Health Tag"),
    ];
    let cf = vec![c(10, "health-tag", "Health Tag")];
    assert_eq!(run(&m, &cf).len(), 1);
}

#[test]
fn a_missing_slug_never_matches_by_slug() {
    let m = vec![Candidate { id: 1, slug: None, title: "A".into() }];
    let cf = vec![Candidate { id: 2, slug: None, title: "B".into() }];
    assert!(pair_projects(&m, &cf, &vec![vec![false]]).is_empty());
}
