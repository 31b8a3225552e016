//! Modrinth: projects, versions, payouts and notifications as the library
//! keeps them.

use crate::dates::{utc_day, utc_day_text};
use crate::json::{member, member_text, text_in, Json};
use crate::money::{amount_read, read_amount};
use crate::scrape::{integer_text, parse_integer};
use crate::text::{append_chars, chars_of, text_of};
use vstd::prelude::*;

verus! {

#[derive(Debug, Clone)]
pub struct ModrinthProject {
    pub id: String,
    pub slug: String,
    pub title: String,
    pub project_type: Option<String>,
    pub downloads: i64,
    pub followers: i64,
    pub icon_url: Option<String>,
    pub published: Option<String>,
}

#[derive(Debug, Clone)]
pub struct ModrinthVersion {
    pub id: String,
    pub version_number: Option<String>,
    pub game_versions: Vec<String>,
    pub loaders: Vec<String>,
    pub downloads: i64,
    pub date_published: Option<String>,
}

/// Payout balance. `available` can be withdrawn at once, `pending` still
/// matures, and `dates` is the monthly schedule, in the order of its days:
/// the entries after today are revenue to come.
#[derive(Debug, Clone)]
pub struct PayoutBalance {
    pub available: String,
    pub pending: String,
    pub withdrawn_lifetime: String,
    pub withdrawn_ytd: String,
    pub dates: Vec<(String, String)>,
}

#[derive(Debug, Clone)]
pub struct Notification {
    pub occurred_at: String,
    pub kind: String,
    pub project_ext_id: Option<String>,
    pub detail: String,
}

/// The UTC day of a Unix time, empty beyond chrono's calendar.
pub fn timestamp_to_day(ts: i64) -> (r: String)
    ensures
        r@ == match utc_day_text(ts) {
            Some(t) => t,
            None => Seq::<char>::empty(),
        },
{
    match utc_day(ts) {
        Some(d) => d,
        None => String::new(),
    }
}

pub open spec fn text_or(value: Option<Seq<char>>, fallback: Seq<char>) -> Seq<char> {
    match value {
        Some(t) => t,
        None => fallback,
    }
}

/// What a notification says: the change of status of a project when the
/// body gives one, else the body itself, as `rendered` writes it.
pub open spec fn notification_detail(body: Json, rendered: Seq<char>) -> Seq<char> {
    match (member(body, "old_status"@), member(body, "new_status"@)) {
        (Some(old), Some(new)) => text_or(text_in(Some(old)), seq![]) + " vers "@ + text_or(
            text_in(Some(new)),
            seq![],
        ),
        _ => rendered,
    }
}

/// A notification read from its date and its body; `rendered` is the body
/// written back as JSON text.
pub fn notification_from(created: String, body: &Json, rendered: String) -> (r: Notification)
    ensures
        r.occurred_at == created,
        r.kind@ == text_or(text_in(member(*body, "type"@)), "unknown"@),
        match text_in(member(*body, "project_id"@)) {
            Some(t) => r.project_ext_id matches Some(x) && x@ == t,
            None => r.project_ext_id is None,
        },
        r.detail@ == notification_detail(*body, rendered@),
{
    proof {
        reveal_strlit("type");
        reveal_strlit("unknown");
        reveal_strlit("project_id");
        reveal_strlit("old_status");
        reveal_strlit("new_status");
        reveal_strlit(" vers ");
    }
    let kind = match member_text(body, "type") {
        Some(k) => k,
        None => "unknown".to_string(),
    };
    let project_ext_id = member_text(body, "project_id");
    let detail = match (body.get("old_status"), body.get("new_status")) {
        (Some(old), Some(new)) => {
            let mut out: Vec<char> = Vec::new();
            if let Some(t) = old.as_text() {
                append_chars(&mut out, &chars_of(t.as_str()));
            }
            append_chars(&mut out, &chars_of(" vers "));
            if let Some(t) = new.as_text() {
                append_chars(&mut out, &chars_of(t.as_str()));
            }
            text_of(&out)
        },
        _ => rendered,
    };
    Notification { occurred_at: created, kind, project_ext_id, detail }
}

/// The points of a revenue series that read: each timestamp and amount as
/// the analytics send them, kept in order when the timestamp reads as an
/// integer and the amount as a decimal, the amount as rust_decimal writes
/// it back.
pub open spec fn kept_revenue(points: Seq<(Seq<char>, Seq<char>)>) -> Seq<(i64, Seq<char>)>
    decreases points.len(),
{
    if points.len() == 0 {
        seq![]
    } else {
        let rest = kept_revenue(points.drop_last());
        match (integer_text(points.last().0), amount_read(points.last().1)) {
            (Some(t), Some(a)) => rest.push((t, a)),
            _ => rest,
        }
    }
}

/// Reads the points of one project's revenue series: a point whose
/// timestamp or amount does not read is dropped, every digit of an amount
/// that reads is kept.
pub fn revenue_points(points: &Vec<(String, String)>) -> (r: Vec<(i64, String)>)
    ensures
        r.deep_view() == kept_revenue(points.deep_view()),
{
    let ghost all = points.deep_view();
    let mut out: Vec<(i64, String)> = Vec::new();
    let mut k: usize = 0;
    assert(all.take(0) =~= Seq::<(Seq<char>, Seq<char>)>::empty());
    assert(out.deep_view() =~= Seq::<(i64, Seq<char>)>::empty());
    while k < points.len()
        invariant
            k <= points@.len(),
            all == points.deep_view(),
            out.deep_view() == kept_revenue(all.take(k as int)),
        decreases points@.len() - k,
    {
        proof {
            assert(all.take(k + 1).drop_last() =~= all.take(k as int));
            assert(all.take(k + 1).last() == all[k as int]);
            assert(all[k as int] == (points@[k as int].0@, points@[k as int].1@));
        }
        let ts = parse_integer(points[k].0.as_str());
        let amount = read_amount(points[k].1.as_str());
        match (ts, amount) {
            (Some(t), Some(a)) => {
                let ghost before = out.deep_view();
                out.push((t, a));
                proof {
                    assert(out.deep_view() =~= before.push((t, a@)));
                }
            },
            _ => {},
        }
        k = k + 1;
    }
    assert(all.take(points@.len() as int) =~= all);
    out
}

} // verus!
