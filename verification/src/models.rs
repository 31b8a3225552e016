//! The values that the dashboard shows.

use crate::text::{chars_of, same_chars};
use vstd::prelude::*;

verus! {

/// One of the two publishing platforms.
#[derive(Debug, Clone, Copy, PartialEq, Eq, Structural, Hash)]
pub enum Platform {
    Modrinth,
    CurseForge,
}

/// The lowercase name under which a platform is stored and sent.
pub open spec fn platform_name(p: Platform) -> Seq<char> {
    match p {
        Platform::Modrinth => "modrinth"@,
        Platform::CurseForge => "curseforge"@,
    }
}

/// The platform a stored name designates: `curseforge`, and Modrinth for
/// anything else.
pub open spec fn platform_named(s: Seq<char>) -> Platform {
    if s == "curseforge"@ {
        Platform::CurseForge
    } else {
        Platform::Modrinth
    }
}

impl Platform {
    pub fn as_str(&self) -> (r: &'static str)
        ensures
            r@ == platform_name(*self),
    {
        match self {
            Platform::Modrinth => "modrinth",
            Platform::CurseForge => "curseforge",
        }
    }

    pub fn from_str_lossy(s: &str) -> (r: Self)
        ensures
            r == platform_named(s@),
    {
        if same_chars(&chars_of(s), &chars_of("curseforge")) {
            Platform::CurseForge
        } else {
            Platform::Modrinth
        }
    }
}

/// Reading a platform back from its name gives the platform.
pub proof fn platform_name_round_trip(p: Platform)
    ensures
        platform_named(platform_name(p)) == p,
{
    reveal_strlit("modrinth");
    reveal_strlit("curseforge");
    assert("modrinth"@ != "curseforge"@ ) by {
        assert("modrinth"@[0] != "curseforge"@[0]);
    }
}

/// Headline figures.
#[derive(Debug, Clone)]
pub struct Kpis {
    pub downloads_total: i64,
    pub downloads_modrinth: i64,
    pub downloads_curseforge: i64,
    pub downloads_30d: i64,
    pub downloads_30d_modrinth: i64,
    pub downloads_30d_curseforge: i64,
    pub downloads_prev_30d: i64,
    pub revenue_total: String,
    pub revenue_modrinth: String,
    pub revenue_curseforge: String,
    pub revenue_available: String,
    pub revenue_available_modrinth: String,
    pub revenue_available_curseforge: String,
    pub revenue_pending: String,
    pub revenue_window: String,
    pub range_downloads: i64,
    pub range_downloads_modrinth: i64,
    pub range_downloads_curseforge: i64,
    pub range_downloads_prev: i64,
    pub range_revenue: String,
    pub range_revenue_modrinth: String,
    pub range_revenue_curseforge: String,
    pub followers: i64,
    pub followers_modrinth: i64,
    pub followers_curseforge: i64,
    pub projects_active: i64,
    pub projects_modrinth: i64,
    pub projects_curseforge: i64,
}

#[derive(Debug, Clone)]
pub struct DayMoney {
    pub total: String,
    pub modrinth: String,
    pub curseforge: String,
    pub previous: String,
    pub average_7: String,
    pub average_28: String,
}

#[derive(Debug, Clone)]
pub struct DayProject {
    pub key: String,
    pub title: String,
    pub icon_url: Option<String>,
    pub modrinth: i64,
    pub curseforge: i64,
    pub total: i64,
    pub previous: i64,
}

/// A day in the ranking, with the rank that the settings produced.
#[derive(Debug, Clone)]
pub struct DayRankRow {
    pub day: String,
    pub modrinth: i64,
    pub curseforge: i64,
    pub total: i64,
    pub revenue: String,
    pub rank: Option<i64>,
    pub compared_days: i64,
}

#[derive(Debug, Clone)]
pub struct DayRankings {
    pub rows: Vec<DayRankRow>,
    pub first_modrinth_day: Option<String>,
    pub first_curseforge_day: Option<String>,
}

/// What the days are ranked on.
#[derive(Debug, Clone, Copy, PartialEq, Eq, Structural)]
pub enum RankBy {
    Downloads,
    Revenue,
}

impl Default for RankBy {
    fn default() -> (r: Self)
        ensures
            r == RankBy::Downloads,
    {
        RankBy::Downloads
    }
}

#[derive(Debug, Clone)]
pub struct TimelinePoint {
    pub day: String,
    pub modrinth: i64,
    pub curseforge: i64,
}

#[derive(Debug, Clone)]
pub struct CountryTotal {
    pub country: String,
    pub downloads: i64,
}

#[derive(Debug, Clone)]
pub struct LoaderCell {
    pub game_version: String,
    pub loader: String,
    pub downloads: i64,
}

#[derive(Debug, Clone)]
pub struct RevenuePoint {
    pub day: String,
    pub amount: String,
}

/// One instalment of the Modrinth payout schedule.
#[derive(Debug, Clone)]
pub struct PayoutPoint {
    pub date: String,
    pub amount: String,
    /// The instalment falls after today: revenue to come.
    pub future: bool,
}

#[derive(Debug, Clone)]
pub struct Payout {
    pub available: String,
    pub pending: String,
    pub withdrawn_lifetime: String,
    pub withdrawn_ytd: String,
    pub schedule: Vec<PayoutPoint>,
}

impl Default for Payout {
    fn default() -> (r: Self)
        ensures
            r.available@.len() == 0,
            r.pending@.len() == 0,
            r.withdrawn_lifetime@.len() == 0,
            r.withdrawn_ytd@.len() == 0,
            r.schedule@.len() == 0,
    {
        Payout {
            available: String::new(),
            pending: String::new(),
            withdrawn_lifetime: String::new(),
            withdrawn_ytd: String::new(),
            schedule: Vec::new(),
        }
    }
}

/// What CurseForge says of money: its points balance, the value of those
/// points in dollars, the months its dashboard announced and its two
/// estimates.
#[derive(Debug, Clone)]
pub struct CfRevenue {
    pub points: i64,
    pub points_usd: String,
    pub last_month: Option<String>,
    pub year_to_date: Option<String>,
    pub monthly: Vec<(String, String)>,
}

impl Default for CfRevenue {
    fn default() -> (r: Self)
        ensures
            r.points == 0,
            r.points_usd@.len() == 0,
            r.last_month is None,
            r.year_to_date is None,
            r.monthly@.len() == 0,
    {
        CfRevenue {
            points: 0,
            points_usd: String::new(),
            last_month: None,
            year_to_date: None,
            monthly: Vec::new(),
        }
    }
}

/// An estimate as the dashboard gave it; an empty one counts as none.
pub open spec fn given(o: Option<String>) -> Option<String> {
    match o {
        Some(s) => if s@.len() > 0 {
            Some(s)
        } else {
            None
        },
        None => None,
    }
}

fn given_text(o: Option<String>) -> (r: Option<String>)
    ensures
        r == given(o),
{
    match o {
        Some(s) => {
            if chars_of(s.as_str()).len() > 0 {
                Some(s)
            } else {
                None
            }
        },
        None => None,
    }
}

/// What CurseForge says of money, from what was read of it: no balance read
/// counts as no point, and an estimate the dashboard left empty is absent
/// rather than shown as a blank. The dollar value of the points is worked
/// out at the published rate by the caller.
pub fn cf_revenue(
    points: Option<i64>,
    points_usd: String,
    last_month: Option<String>,
    year_to_date: Option<String>,
    monthly: Vec<(String, String)>,
) -> (r: CfRevenue)
    ensures
        r.points == match points {
            Some(p) => p,
            None => 0,
        },
        r.points_usd == points_usd,
        r.last_month == given(last_month),
        r.year_to_date == given(year_to_date),
        r.monthly == monthly,
{
    CfRevenue {
        points: match points {
            Some(p) => p,
            None => 0,
        },
        points_usd,
        last_month: given_text(last_month),
        year_to_date: given_text(year_to_date),
        monthly,
    }
}

#[derive(Debug, Clone)]
pub struct RevenueByProject {
    pub key: String,
    pub title: String,
    pub amount: String,
}

#[derive(Debug, Clone)]
pub struct EventRow {
    pub occurred_at: String,
    pub kind: String,
    pub title: String,
    pub detail: String,
}

#[derive(Debug, Clone)]
pub struct Freshness {
    pub provider: String,
    pub status: String,
    pub finished_at: Option<String>,
    pub detail: String,
}

#[derive(Debug, Clone)]
pub struct VersionRow {
    pub version_number: Option<String>,
    pub game_versions: Vec<String>,
    pub loaders: Vec<String>,
    pub downloads: i64,
    pub date_published: Option<String>,
}

} // verus!
