use chartographer::rankings::rank_within;
use chartographer::dates::day_axis;
use chartographer::queries::PlatformFilter;
use chartographer::rankings::{revenue_by_day, DayRevenue, PointsGained};
use chartographer::revenue::RevenueEntry;
use rust_decimal::Decimal;
use std::str::FromStr;

#[test]
fn rank_counts_only_better_days() {
    assert_eq!(rank_within(&[10, 30, 20], 30), Some(1));
    assert_eq!(rank_within(&[10, 30, 20], 20), Some(2));
    assert_eq!(rank_within(&[10, 30, 20], 10), Some(3));
}

#[test]
fn a_day_without_downloads_has_no_rank() {
    assert_eq!(rank_within(&[10, 30], 0), None);
}

#[test]
fn equal_days_share_their_rank() {
    assert_eq!(rank_within(&[50, 50, 10], 50), Some(1));
}

#[test]
fn a_better_day_never_ranks_behind() {
    let window = [5, 40, 12, 40, 3];
    assert!(rank_within(&window, 41).unwrap() <= rank_within(&window, 12).unwrap());
    assert_eq!(rank_within(&window, 1), Some(6));
    assert_eq!(rank_within(&[], 7), Some(1));
}

fn entry(day: &str, amount: &str) -> RevenueEntry {
    RevenueEntry { day: day.into(), amount: amount.into() }
}

/// The window walked day by day, with the points gained on each day.
fn gains(from: &str, to: &str, points: &[(&str, i64)]) -> Vec<PointsGained> {
    day_axis(from, to)
        .into_iter()
        .map(|day| {
            let gained = points.iter().find(|(d, _)| *d == day).map(|(_, n)| *n).unwrap_or(0);
            PointsGained { day, points: gained }
        })
        .collect()
}

fn on<'a>(by_day: &'a [DayRevenue], day: &str) -> Option<&'a DayRevenue> {
    by_day.iter().find(|r| r.day == day)
}

fn dec(s: &str) -> Decimal {
    Decimal::from_str(s).unwrap()
}

#[test]
fn revenue_is_returned_day_by_day() {
    let rows = vec![entry("2026-08-10", "1.25"), entry("2026-08-11", "3.50")];
    let by_day = revenue_by_day(
        PlatformFilter::default(),
        &rows,
        &gains("2026-08-10", "2026-08-12", &[]),
    )
    .unwrap();
    assert_eq!(dec(&on(&by_day, "2026-08-10").unwrap().modrinth), Decimal::from_str("1.25").unwrap());
    assert_eq!(dec(&on(&by_day, "2026-08-11").unwrap().modrinth), Decimal::from_str("3.50").unwrap());
    assert_eq!(by_day.len(), 2, "les jours sans revenu ne sont pas inventés");
}

/// Hiding Modrinth empties its revenue rather than letting it through under
/// another name.
#[test]
fn hiding_modrinth_hides_its_revenue() {
    let rows = vec![entry("2026-08-10", "1.25")];
    let filter = PlatformFilter { modrinth: false, curseforge: true };
    let by_day = revenue_by_day(filter, &rows, &gains("2026-08-10", "2026-08-11", &[])).unwrap();
    assert!(on(&by_day, "2026-08-10").map(|v| dec(&v.modrinth)).unwrap_or_default().is_zero());
}

#[test]
fn points_gained_become_dollars_on_their_day() {
    let by_day = revenue_by_day(
        PlatformFilter::default(),
        &vec![],
        &gains("2026-08-10", "2026-08-13", &[("2026-08-11", 20)]),
    )
    .unwrap();
    assert_eq!(by_day.len(), 1);
    assert_eq!(by_day[0].day, "2026-08-11");
    assert_eq!(dec(&by_day[0].curseforge), dec("1.00"));
    assert!(dec(&by_day[0].modrinth).is_zero());
}

#[test]
fn both_platforms_share_a_day_and_days_stay_in_order() {
    let rows = vec![
        entry("2026-08-12", "2.00"),
        entry("2026-08-11", "0.40"),
        entry("2026-08-12", "0.50"),
    ];
    let by_day = revenue_by_day(
        PlatformFilter::default(),
        &rows,
        &gains("2026-08-10", "2026-08-13", &[("2026-08-10", 4), ("2026-08-12", -2)]),
    )
    .unwrap();
    let days: Vec<&str> = by_day.iter().map(|r| r.day.as_str()).collect();
    assert_eq!(days, vec!["2026-08-10", "2026-08-11", "2026-08-12"]);
    assert_eq!(dec(&by_day[0].curseforge), dec("0.20"));
    assert!(dec(&by_day[0].modrinth).is_zero());
    assert_eq!(dec(&by_day[1].modrinth), dec("0.40"));
    assert!(dec(&by_day[1].curseforge).is_zero());
    assert_eq!(dec(&by_day[2].modrinth), dec("2.50"));
    assert_eq!(dec(&by_day[2].curseforge), dec("-0.10"));
}

#[test]
fn hiding_curseforge_drops_the_days_it_alone_filled() {
    let filter = PlatformFilter { modrinth: true, curseforge: false };
    let by_day = revenue_by_day(
        filter,
        &vec![entry("2026-08-11", "1.00")],
        &gains("2026-08-10", "2026-08-12", &[("2026-08-10", 40)]),
    )
    .unwrap();
    assert_eq!(by_day.len(), 1);
    assert_eq!(by_day[0].day, "2026-08-11");
    assert!(dec(&by_day[0].curseforge).is_zero());
}
