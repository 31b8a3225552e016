//! The headline figures of the dashboard: downloads, revenue, followers and
//! projects, platform by platform, from what the database holds.

use crate::dates::{axis_of, day_axis, shift_day, shifted};
use crate::models::{Kpis, Payout, Platform};
use crate::money::{
    add_amounts, amount_normal, amount_product, amount_sum, amount_total, amount_zero,
    is_zero_amount, multiply_amount, normalize_amount, point_value, point_value_text,
    total_amount, zero_amount, zero_text,
};
use crate::queries::PlatformFilter;
use crate::scrape::{integer_text, parse_integer};
use vstd::prelude::*;

verus! {

/// One figure, Modrinth's and CurseForge's.
#[derive(Debug, Clone, Copy, PartialEq, Eq, Structural)]
pub struct PerPlatform {
    pub modrinth: i64,
    pub curseforge: i64,
}

/// The days that bound the windows of the headline figures.
#[derive(Debug, Clone)]
pub struct KpiWindows {
    /// First day of the thirty days that end today (excluded).
    pub last_30d_from: String,
    /// First day of the thirty days before those.
    pub previous_30d_from: String,
    /// First day of the period as long as the chosen one that precedes it.
    pub previous_range_from: String,
}

/// What the headline figures are made of, as the database gives it.
#[derive(Debug, Clone)]
pub struct KpiReadings {
    /// Downloads from `last_30d_from` to today excluded.
    pub last_30d: PerPlatform,
    /// Downloads from `previous_30d_from` to `last_30d_from` excluded.
    pub previous_30d: PerPlatform,
    /// Downloads of the chosen period.
    pub range: PerPlatform,
    /// Downloads from `previous_range_from` to the start of the period.
    pub range_previous: PerPlatform,
    /// Lifetime downloads of the projects that are not archived.
    pub totals: PerPlatform,
    /// Projects that are not archived.
    pub projects: PerPlatform,
    /// Followers of the Modrinth projects that are not archived.
    pub followers_modrinth: i64,
    /// The CurseForge follower count read on the author page, as stored.
    pub followers_curseforge: Option<String>,
    /// Every daily revenue recorded, as stored.
    pub revenues: Vec<String>,
    /// The daily revenues of the Modrinth projects in the chosen period.
    pub range_revenues: Vec<String>,
    /// CurseForge points gained during the chosen period.
    pub points_gained: i64,
    /// The last CurseForge points balance read, if any.
    pub points_balance: Option<i64>,
    /// The Modrinth payout balance.
    pub payout: Payout,
}

/// `today` moved back thirty and sixty days, and `from` moved back by the
/// number of days of the period.
pub open spec fn windows_of(today: Seq<char>, from: Seq<char>, to: Seq<char>) -> (Seq<char>, Seq<char>, Seq<char>) {
    (shifted(today, -30i64), shifted(today, -60i64), shifted(from, (-(axis_of(from, to).len() as int)) as i64))
}

pub fn kpi_windows(today: &str, from: &str, to: &str) -> (r: KpiWindows)
    ensures
        (r.last_30d_from@, r.previous_30d_from@, r.previous_range_from@) == windows_of(today@, from@, to@),
{
    let axis = day_axis(from, to);
    proof {
        match (crate::dates::day_number(from@), crate::dates::day_number(to@)) {
            (Some(a), Some(b)) => crate::dates::lemma_days_between_len(a as int, b as int),
            _ => {},
        }
        assert(axis@.len() == axis.deep_view().len());
    }
    let span: i64 = axis.len() as i64;
    KpiWindows {
        last_30d_from: shift_day(today, -30),
        previous_30d_from: shift_day(today, -60),
        previous_range_from: shift_day(from, -span),
    }
}

/// A figure of one platform, or zero when the platform is hidden.
pub open spec fn shown(filter: PlatformFilter, platform: Platform, v: i64) -> int {
    if filter.shows_spec(platform) {
        v as int
    } else {
        0
    }
}

pub open spec fn shown_modrinth(filter: PlatformFilter, p: PerPlatform) -> int {
    shown(filter, Platform::Modrinth, p.modrinth)
}

pub open spec fn shown_curseforge(filter: PlatformFilter, p: PerPlatform) -> int {
    shown(filter, Platform::CurseForge, p.curseforge)
}

pub open spec fn both(filter: PlatformFilter, p: PerPlatform) -> int {
    shown_modrinth(filter, p) + shown_curseforge(filter, p)
}

/// The stored CurseForge follower count, zero when none was read or it does
/// not read as a number.
pub open spec fn stored_count(raw: Option<String>) -> int {
    match raw {
        Some(t) => match integer_text(t@) {
            Some(v) => v as int,
            None => 0,
        },
        None => 0,
    }
}

pub open spec fn followers_shown(r: KpiReadings, filter: PlatformFilter) -> (int, int) {
    (
        if filter.modrinth { r.followers_modrinth as int } else { 0 },
        if filter.curseforge { stored_count(r.followers_curseforge) } else { 0 },
    )
}

pub open spec fn fits_i64(v: int) -> bool {
    i64::MIN <= v <= i64::MAX
}

/// Every sum of counts that the figures make holds in an `i64`.
pub open spec fn counts_fit(r: KpiReadings, filter: PlatformFilter) -> bool {
    &&& fits_i64(both(filter, r.last_30d))
    &&& fits_i64(both(filter, r.previous_30d))
    &&& fits_i64(both(filter, r.range))
    &&& fits_i64(both(filter, r.range_previous))
    &&& fits_i64(both(filter, r.totals))
    &&& fits_i64(both(filter, r.projects))
    &&& fits_i64(followers_shown(r, filter).0 + followers_shown(r, filter).1)
}

/// The Modrinth balance that the figures use: none when Modrinth is hidden.
pub open spec fn balance_shown(r: KpiReadings, filter: PlatformFilter) -> (Seq<char>, Seq<char>, Seq<char>) {
    if filter.modrinth {
        (r.payout.withdrawn_lifetime@, r.payout.available@, r.payout.pending@)
    } else {
        (Seq::empty(), Seq::empty(), Seq::empty())
    }
}

/// Revenue recorded day by day, over every day kept.
pub open spec fn window_revenue(r: KpiReadings, filter: PlatformFilter) -> Option<Seq<char>> {
    if filter.modrinth {
        amount_total(r.revenues.deep_view())
    } else {
        Some(zero_text())
    }
}

/// What Modrinth has paid or will pay: withdrawn, available and pending.
pub open spec fn earned(r: KpiReadings, filter: PlatformFilter) -> Option<Seq<char>> {
    let b = balance_shown(r, filter);
    match amount_sum(b.0, b.1) {
        Some(s) => amount_sum(s, b.2),
        None => None,
    }
}

/// The lifetime Modrinth revenue comes from the payout balance; without a
/// balance, the daily revenue is the only measure known.
pub open spec fn modrinth_revenue(r: KpiReadings, filter: PlatformFilter) -> Option<Seq<char>> {
    match earned(r, filter) {
        Some(e) => if amount_zero(e) {
            window_revenue(r, filter)
        } else {
            Some(e)
        },
        None => None,
    }
}

/// The last CurseForge points balance converted to dollars.
pub open spec fn curseforge_revenue(r: KpiReadings, filter: PlatformFilter) -> Option<Seq<char>> {
    if filter.curseforge {
        match r.points_balance {
            Some(p) => amount_product(p, point_value_text()),
            None => Some(zero_text()),
        }
    } else {
        Some(zero_text())
    }
}

pub open spec fn range_modrinth_revenue(r: KpiReadings, filter: PlatformFilter) -> Option<Seq<char>> {
    if filter.modrinth {
        amount_total(r.range_revenues.deep_view())
    } else {
        Some(zero_text())
    }
}

/// CurseForge publishes no daily revenue: the points gained over the
/// period, converted to dollars, stand for it.
pub open spec fn range_curseforge_revenue(r: KpiReadings, filter: PlatformFilter) -> Option<Seq<char>> {
    if filter.curseforge {
        amount_product(r.points_gained, point_value_text())
    } else {
        Some(zero_text())
    }
}

pub open spec fn sum_of(a: Option<Seq<char>>, b: Option<Seq<char>>) -> Option<Seq<char>> {
    match (a, b) {
        (Some(x), Some(y)) => amount_sum(x, y),
        _ => None,
    }
}

/// Every amount that the figures add up holds in a decimal.
pub open spec fn money_fits(r: KpiReadings, filter: PlatformFilter) -> bool {
    &&& window_revenue(r, filter) is Some
    &&& modrinth_revenue(r, filter) is Some
    &&& curseforge_revenue(r, filter) is Some
    &&& sum_of(modrinth_revenue(r, filter), curseforge_revenue(r, filter)) is Some
    &&& sum_of(Some(balance_shown(r, filter).1), curseforge_revenue(r, filter)) is Some
    &&& range_modrinth_revenue(r, filter) is Some
    &&& range_curseforge_revenue(r, filter) is Some
    &&& sum_of(range_modrinth_revenue(r, filter), range_curseforge_revenue(r, filter)) is Some
}

pub open spec fn normal_of(a: Option<Seq<char>>) -> Seq<char> {
    match a {
        Some(x) => amount_normal(x),
        None => Seq::empty(),
    }
}

/// The headline figures that the readings give with the platforms shown.
pub open spec fn describes_kpis(k: Kpis, r: KpiReadings, filter: PlatformFilter) -> bool {
    let rm = modrinth_revenue(r, filter);
    let rc = curseforge_revenue(r, filter);
    let gm = range_modrinth_revenue(r, filter);
    let gc = range_curseforge_revenue(r, filter);
    let f = followers_shown(r, filter);
    &&& k.downloads_modrinth == shown_modrinth(filter, r.totals)
    &&& k.downloads_curseforge == shown_curseforge(filter, r.totals)
    &&& k.downloads_total == both(filter, r.totals)
    &&& k.downloads_30d_modrinth == shown_modrinth(filter, r.last_30d)
    &&& k.downloads_30d_curseforge == shown_curseforge(filter, r.last_30d)
    &&& k.downloads_30d == both(filter, r.last_30d)
    &&& k.downloads_prev_30d == both(filter, r.previous_30d)
    &&& k.range_downloads_modrinth == shown_modrinth(filter, r.range)
    &&& k.range_downloads_curseforge == shown_curseforge(filter, r.range)
    &&& k.range_downloads == both(filter, r.range)
    &&& k.range_downloads_prev == both(filter, r.range_previous)
    &&& k.followers_modrinth == f.0
    &&& k.followers_curseforge == f.1
    &&& k.followers == f.0 + f.1
    &&& k.projects_modrinth == shown_modrinth(filter, r.projects)
    &&& k.projects_curseforge == shown_curseforge(filter, r.projects)
    &&& k.projects_active == both(filter, r.projects)
    &&& k.revenue_modrinth@ == normal_of(rm)
    &&& k.revenue_curseforge@ == normal_of(rc)
    &&& k.revenue_total@ == normal_of(sum_of(rm, rc))
    &&& k.revenue_available@ == normal_of(sum_of(Some(balance_shown(r, filter).1), rc))
    &&& k.revenue_available_modrinth@ == amount_normal(balance_shown(r, filter).1)
    &&& k.revenue_available_curseforge@ == normal_of(rc)
    &&& k.revenue_pending@ == balance_shown(r, filter).2
    &&& k.revenue_window@ == normal_of(window_revenue(r, filter))
    &&& k.range_revenue_modrinth@ == normal_of(gm)
    &&& k.range_revenue_curseforge@ == normal_of(gc)
    &&& k.range_revenue@ == normal_of(sum_of(gm, gc))
}

/// Each headline count announces where its total comes from: the two
/// platforms' parts add up to the total shown.
pub proof fn every_count_is_split_between_the_platforms(k: Kpis, r: KpiReadings, filter: PlatformFilter)
    requires
        describes_kpis(k, r, filter),
    ensures
        k.downloads_total == k.downloads_modrinth + k.downloads_curseforge,
        k.downloads_30d == k.downloads_30d_modrinth + k.downloads_30d_curseforge,
        k.range_downloads == k.range_downloads_modrinth + k.range_downloads_curseforge,
        k.followers == k.followers_modrinth + k.followers_curseforge,
        k.projects_active == k.projects_modrinth + k.projects_curseforge,
{
}

/// Hiding a platform removes what it brings, instead of leaving figures
/// whose source is no longer shown: its counts are zero, its revenue is the
/// empty sum, and hidden Modrinth leaves no balance behind.
pub proof fn hiding_a_platform_removes_its_figures(k: Kpis, r: KpiReadings, filter: PlatformFilter)
    requires
        describes_kpis(k, r, filter),
    ensures
        !filter.modrinth ==> {
            &&& k.downloads_modrinth == 0
            &&& k.downloads_30d_modrinth == 0
            &&& k.range_downloads_modrinth == 0
            &&& k.followers_modrinth == 0
            &&& k.projects_modrinth == 0
            &&& k.revenue_window@ == amount_normal(zero_text())
            &&& k.range_revenue_modrinth@ == amount_normal(zero_text())
            &&& k.revenue_pending@.len() == 0
            &&& k.revenue_available_modrinth@ == amount_normal(Seq::empty())
        },
        !filter.curseforge ==> {
            &&& k.downloads_curseforge == 0
            &&& k.downloads_30d_curseforge == 0
            &&& k.range_downloads_curseforge == 0
            &&& k.followers_curseforge == 0
            &&& k.projects_curseforge == 0
            &&& k.revenue_curseforge@ == amount_normal(zero_text())
            &&& k.revenue_available_curseforge@ == amount_normal(zero_text())
            &&& k.range_revenue_curseforge@ == amount_normal(zero_text())
        },
{
}

/// The lifetime Modrinth revenue is the payout balance; only without one
/// (a balance that reads as zero) does the daily revenue stand for it.
pub proof fn the_balance_decides_the_lifetime_revenue(k: Kpis, r: KpiReadings, filter: PlatformFilter)
    requires
        describes_kpis(k, r, filter),
        money_fits(r, filter),
    ensures
        match earned(r, filter) {
            Some(e) => if amount_zero(e) {
                k.revenue_modrinth@ == k.revenue_window@
            } else {
                k.revenue_modrinth@ == amount_normal(e)
            },
            None => false,
        },
{
}

/// The amounts behind the revenue figures, before they are written for display.
struct RevenueTexts {
    window: String,
    modrinth: String,
    curseforge: String,
    total: String,
    available: String,
    range_modrinth: String,
    range_curseforge: String,
    range_total: String,
}

fn one_of(filter_on: bool, p: i64) -> (r: i64)
    ensures
        r == if filter_on { p as int } else { 0 },
{
    if filter_on {
        p
    } else {
        0
    }
}

fn shown_text(filter_on: bool, t: &String) -> (r: String)
    ensures
        r@ == if filter_on { t@ } else { Seq::<char>::empty() },
{
    if filter_on {
        t.clone()
    } else {
        String::new()
    }
}

fn revenue_texts(r: &KpiReadings, filter: PlatformFilter) -> (o: Option<RevenueTexts>)
    ensures
        o is Some <==> money_fits(*r, filter),
        o matches Some(m) ==> {
            &&& Some(m.window@) == window_revenue(*r, filter)
            &&& Some(m.modrinth@) == modrinth_revenue(*r, filter)
            &&& Some(m.curseforge@) == curseforge_revenue(*r, filter)
            &&& Some(m.total@) == sum_of(modrinth_revenue(*r, filter), curseforge_revenue(*r, filter))
            &&& Some(m.available@) == sum_of(Some(balance_shown(*r, filter).1), curseforge_revenue(*r, filter))
            &&& Some(m.range_modrinth@) == range_modrinth_revenue(*r, filter)
            &&& Some(m.range_curseforge@) == range_curseforge_revenue(*r, filter)
            &&& Some(m.range_total@) == sum_of(range_modrinth_revenue(*r, filter), range_curseforge_revenue(*r, filter))
        },
{
    let window = if filter.modrinth {
        match total_amount(&r.revenues) {
            Some(t) => t,
            None => return None,
        }
    } else {
        zero_amount()
    };
    let withdrawn = shown_text(filter.modrinth, &r.payout.withdrawn_lifetime);
    let available = shown_text(filter.modrinth, &r.payout.available);
    let pending = shown_text(filter.modrinth, &r.payout.pending);
    let earned = match add_amounts(withdrawn.as_str(), available.as_str()) {
        Some(s) => match add_amounts(s.as_str(), pending.as_str()) {
            Some(e) => e,
            None => return None,
        },
        None => return None,
    };
    let modrinth = if is_zero_amount(earned.as_str()) {
        window.clone()
    } else {
        earned
    };
    let curseforge = if filter.curseforge {
        match r.points_balance {
            Some(p) => match multiply_amount(p, point_value()) {
                Some(v) => v,
                None => return None,
            },
            None => zero_amount(),
        }
    } else {
        zero_amount()
    };
    let total = match add_amounts(modrinth.as_str(), curseforge.as_str()) {
        Some(t) => t,
        None => return None,
    };
    let available_now = match add_amounts(available.as_str(), curseforge.as_str()) {
        Some(t) => t,
        None => return None,
    };
    let range_modrinth = if filter.modrinth {
        match total_amount(&r.range_revenues) {
            Some(t) => t,
            None => return None,
        }
    } else {
        zero_amount()
    };
    let range_curseforge = if filter.curseforge {
        match multiply_amount(r.points_gained, point_value()) {
            Some(v) => v,
            None => return None,
        }
    } else {
        zero_amount()
    };
    let range_total = match add_amounts(range_modrinth.as_str(), range_curseforge.as_str()) {
        Some(t) => t,
        None => return None,
    };
    Some(RevenueTexts {
        window,
        modrinth,
        curseforge,
        total,
        available: available_now,
        range_modrinth,
        range_curseforge,
        range_total,
    })
}

/// Headline figures.
///
/// Two readings live side by side: the state measures (lifetime downloads,
/// balance, followers) depend on the day only, while the period figures
/// follow the chosen period and compare it with the one of equal length
/// before it. Revenue is a Modrinth matter, so hiding Modrinth removes it;
/// CurseForge revenue is its points, converted at the published rate.
pub fn kpis(readings: &KpiReadings, filter: PlatformFilter) -> (k: Kpis)
    requires
        counts_fit(*readings, filter),
        money_fits(*readings, filter),
    ensures
        describes_kpis(k, *readings, filter),
{
    let m = match revenue_texts(readings, filter) {
        Some(m) => m,
        None => vstd::pervasive::unreached(),
    };
    let r = readings;
    let dm = one_of(filter.modrinth, r.totals.modrinth);
    let dc = one_of(filter.curseforge, r.totals.curseforge);
    let wm = one_of(filter.modrinth, r.last_30d.modrinth);
    let wc = one_of(filter.curseforge, r.last_30d.curseforge);
    let pm = one_of(filter.modrinth, r.previous_30d.modrinth);
    let pc = one_of(filter.curseforge, r.previous_30d.curseforge);
    let gm = one_of(filter.modrinth, r.range.modrinth);
    let gc = one_of(filter.curseforge, r.range.curseforge);
    let qm = one_of(filter.modrinth, r.range_previous.modrinth);
    let qc = one_of(filter.curseforge, r.range_previous.curseforge);
    let jm = one_of(filter.modrinth, r.projects.modrinth);
    let jc = one_of(filter.curseforge, r.projects.curseforge);
    let fm = one_of(filter.modrinth, r.followers_modrinth);
    let fc: i64 = if filter.curseforge {
        match &r.followers_curseforge {
            Some(raw) => match parse_integer(raw.as_str()) {
                Some(v) => v,
                None => 0,
            },
            None => 0,
        }
    } else {
        0
    };
    let pending = shown_text(filter.modrinth, &r.payout.pending);
    let available = shown_text(filter.modrinth, &r.payout.available);
    Kpis {
        downloads_total: dm + dc,
        downloads_modrinth: dm,
        downloads_curseforge: dc,
        downloads_30d: wm + wc,
        downloads_30d_modrinth: wm,
        downloads_30d_curseforge: wc,
        downloads_prev_30d: pm + pc,
        revenue_total: normalize_amount(m.total.as_str()),
        revenue_modrinth: normalize_amount(m.modrinth.as_str()),
        revenue_curseforge: normalize_amount(m.curseforge.as_str()),
        revenue_available: normalize_amount(m.available.as_str()),
        revenue_available_modrinth: normalize_amount(available.as_str()),
        revenue_available_curseforge: normalize_amount(m.curseforge.as_str()),
        revenue_pending: pending,
        revenue_window: normalize_amount(m.window.as_str()),
        range_downloads: gm + gc,
        range_downloads_modrinth: gm,
        range_downloads_curseforge: gc,
        range_downloads_prev: qm + qc,
        range_revenue: normalize_amount(m.range_total.as_str()),
        range_revenue_modrinth: normalize_amount(m.range_modrinth.as_str()),
        range_revenue_curseforge: normalize_amount(m.range_curseforge.as_str()),
        followers: fm + fc,
        followers_modrinth: fm,
        followers_curseforge: fc,
        projects_active: jm + jc,
        projects_modrinth: jm,
        projects_curseforge: jc,
    }
}

/// The headline figures, or `None` when a sum of counts leaves an `i64` or a
/// sum of amounts leaves what a decimal holds.
pub fn checked_kpis(readings: &KpiReadings, filter: PlatformFilter) -> (r: Option<Kpis>)
    ensures
        r is Some <==> (counts_fit(*readings, filter) && money_fits(*readings, filter)),
        r matches Some(k) ==> describes_kpis(k, *readings, filter),
{
    let r = readings;
    let fc: i64 = if filter.curseforge {
        match &r.followers_curseforge {
            Some(raw) => match parse_integer(raw.as_str()) {
                Some(v) => v,
                None => 0,
            },
            None => 0,
        }
    } else {
        0
    };
    let fm = one_of(filter.modrinth, r.followers_modrinth);
    let fit = pair_fits(filter, r.last_30d) && pair_fits(filter, r.previous_30d)
        && pair_fits(filter, r.range) && pair_fits(filter, r.range_previous)
        && pair_fits(filter, r.totals) && pair_fits(filter, r.projects)
        && fm.checked_add(fc).is_some();
    if !fit {
        return None;
    }
    if revenue_texts(readings, filter).is_none() {
        return None;
    }
    Some(kpis(readings, filter))
}

fn pair_fits(filter: PlatformFilter, p: PerPlatform) -> (r: bool)
    ensures
        r == fits_i64(both(filter, p)),
{
    let a = one_of(filter.modrinth, p.modrinth);
    let b = one_of(filter.curseforge, p.curseforge);
    a.checked_add(b).is_some()
}

} // verus!
