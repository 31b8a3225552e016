use chartographer::scrape::{day_from_epoch, day_from_text, excerpt_around, extract_points, parse_number};

#[test]
fn excerpt_centres_on_the_word() {
    let page = "En-tête inutile. Solde actuel : 320 points disponibles. Pied de page.";
    let out = excerpt_around(page, "point", 20);
    assert!(out.contains("320 points"), "extrait obtenu : {out}");
}

#[test]
fn excerpt_falls_back_on_the_beginning() {
    assert_eq!(excerpt_around("court texte", "absent", 40), "court texte");
    assert_eq!(excerpt_around("abcdefghij", "absent", 3), "abcdef");
}

#[test]
fn reads_a_balance_written_before_the_word() {
    assert_eq!(extract_points("Your balance: 1 240 points"), Some(1240));
    assert_eq!(extract_points("1,240 Points available"), Some(1240));
}

#[test]
fn reads_a_balance_written_after_the_word() {
    assert_eq!(extract_points("Points: 132"), Some(132));
    assert_eq!(extract_points("Reward points = 4 501"), Some(4501));
}

#[test]
fn ignores_the_rate_and_keeps_looking() {
    let page = "The value of a single point is 0.05 USD. Your balance: 320 points";
    assert_eq!(extract_points(page), Some(320));
}

#[test]
fn returns_nothing_when_the_page_holds_no_balance() {
    assert_eq!(
        extract_points("Connecte-toi pour voir ton tableau de bord"),
        None
    );
    assert_eq!(extract_points(""), None);
}

#[test]
fn more_than_twelve_digits_is_no_balance() {
    assert_eq!(extract_points("Points: 1234567890123"), None);
    assert_eq!(extract_points("Points: 123456789012"), Some(123456789012));
}

#[test]
fn excerpt_collapses_white_space_around_the_word() {
    assert_eq!(excerpt_around("a  b\n point  c", "POINT", 2), "b po");
}

#[test]
fn dates_open_the_text_or_come_from_unix_time() {
    assert_eq!(day_from_text("2026-08-01T10:00:00Z").as_deref(), Some("2026-08-01"));
    assert_eq!(day_from_text("2026/08/01"), None);
    assert_eq!(day_from_text("2026-08-0"), None);
    assert_eq!(day_from_epoch(1785888000).as_deref(), Some("2026-08-05"));
    assert_eq!(day_from_epoch(1785974400000).as_deref(), Some("2026-08-06"));
    assert_eq!(day_from_epoch(42), None);
}

#[test]
fn a_rate_written_after_the_word_is_no_balance() {
    assert_eq!(extract_points("Price per point: 0.05 USD"), None);
    assert_eq!(extract_points("Points: 1,240"), Some(1240));
    assert_eq!(extract_points("Price per point: 0.05 USD. Points: 75"), Some(75));
}

fn chars(s: &str) -> Vec<char> {
    s.chars().collect()
}

#[test]
fn two_decimals_after_the_last_separator_are_left_out() {
    assert_eq!(parse_number(&chars("1 240,50")), Some(1240));
    assert_eq!(parse_number(&chars("1.240.000")), Some(1240000));
    assert_eq!(parse_number(&chars("1,240")), Some(1240));
    assert_eq!(parse_number(&chars("0.05")), Some(0));
    assert_eq!(parse_number(&chars(",50")), None);
}

#[test]
fn a_needle_that_lowers_to_ascii_is_found_in_ascii_text() {
    // The Kelvin sign lower-cases to a plain `k`.
    assert_eq!(excerpt_around("the KEY point", "\u{212A}ey", 2), "he KE");
}
