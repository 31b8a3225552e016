use chartographer::error::AppError;
use chartographer::secrets::{
    clear, cleared_outcome, is_present, load, loaded_outcome, present, store, stored_outcome,
    KeyringFault, Shelf, CURSEFORGE_UPLOAD_TOKEN, MODRINTH_TOKEN, SERVICE,
};

fn scratch(suffix: &str) -> String {
    format!("test-{suffix}")
}

#[test]
fn a_token_survives_a_round_trip() {
    let mut shelf = Shelf::new();
    let name = scratch("aller-retour");
    assert_eq!(load(&shelf, &name).unwrap(), None, "rien avant d'avoir rangé");
    store(&mut shelf, &name, "mrp_secret").unwrap();
    assert_eq!(load(&shelf, &name).unwrap().as_deref(), Some("mrp_secret"));
    assert!(present(&shelf, &name));
    clear(&mut shelf, &name).unwrap();
    assert_eq!(load(&shelf, &name).unwrap(), None, "plus rien après avoir oublié");
    assert!(!present(&shelf, &name));
}

#[test]
fn forgetting_twice_is_not_an_error() {
    let mut shelf = Shelf::new();
    let name = scratch("double-oubli");
    clear(&mut shelf, &name).unwrap();
    clear(&mut shelf, &name).unwrap();
}

#[test]
fn storing_again_replaces_the_previous_one() {
    let mut shelf = Shelf::new();
    let name = scratch("remplacement");
    store(&mut shelf, &name, "premier").unwrap();
    store(&mut shelf, &name, "second").unwrap();
    assert_eq!(load(&shelf, &name).unwrap().as_deref(), Some("second"));
    clear(&mut shelf, &name).unwrap();
}

#[test]
fn two_names_stay_apart() {
    let mut shelf = Shelf::new();
    store(&mut shelf, &scratch("un"), "premier").unwrap();
    store(&mut shelf, &scratch("deux"), "second").unwrap();
    assert_eq!(load(&shelf, &scratch("un")).unwrap().as_deref(), Some("premier"));
    clear(&mut shelf, &scratch("un")).unwrap();
    assert_eq!(load(&shelf, &scratch("deux")).unwrap().as_deref(), Some("second"));
    clear(&mut shelf, &scratch("deux")).unwrap();
}

#[test]
fn the_two_tokens_have_names_of_their_own() {
    assert_eq!(SERVICE, "fr.dreykaoas.chartographer");
    assert_ne!(MODRINTH_TOKEN, CURSEFORGE_UPLOAD_TOKEN);
}

#[test]
fn a_missing_entry_is_no_error() {
    let missing = KeyringFault { no_entry: true, detail: "No matching entry".into() };
    assert_eq!(loaded_outcome(MODRINTH_TOKEN, Err(missing.clone())).unwrap(), None);
    assert!(cleared_outcome(MODRINTH_TOKEN, Err(missing.clone())).is_ok());
    assert!(!is_present(&loaded_outcome(MODRINTH_TOKEN, Err(missing.clone()))));
    // Storing has no "missing entry" to forgive.
    assert!(stored_outcome(MODRINTH_TOKEN, Err(missing)).is_err());
}

#[test]
fn a_silent_keyring_says_what_is_missing() {
    let silent = KeyringFault { no_entry: false, detail: "dbus".into() };
    let err = loaded_outcome("modrinth-token", Err(silent.clone())).unwrap_err();
    match &err {
        AppError::Config(m) => {
            assert!(m.starts_with("le trousseau du système n'a pas répondu pour « modrinth-token » (dbus)."));
            assert!(m.ends_with("une fois le trousseau accessible."));
        }
        other => panic!("{other:?}"),
    }
    assert!(cleared_outcome("x", Err(silent.clone())).is_err());
    assert!(stored_outcome("x", Err(silent)).is_err());
    let found = loaded_outcome("x", Ok("mrp".to_string()));
    assert_eq!(found.as_ref().unwrap().as_deref(), Some("mrp"));
    assert!(is_present(&found));
    assert!(stored_outcome("x", Ok(())).is_ok());
}
