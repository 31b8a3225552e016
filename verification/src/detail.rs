//! The detailed view of one mod: its series aligned on the dense axis of the
//! window, its countries, and its publications on both platforms in one
//! chronology.

use crate::dates::{axis_of, day_axis};
use crate::error::AppError;
use crate::models::{CountryTotal, VersionRow};
use crate::money::{amount_written, write_amount, zero_amount, zero_text};
use crate::queries::{gap_last, in_window, ProjectSummary};
use crate::store::SnapshotDelta;
use crate::text::{
    chars_of, lemma_text_before_irreflexive, lemma_text_before_total, lemma_text_before_transitive,
    less_text, same_chars, text_before,
};
use vstd::prelude::*;

verus! {

/// What the base holds for one day of the Modrinth project.
#[derive(Debug, Clone)]
pub struct DetailDay {
    pub day: String,
    pub downloads: i64,
    pub views: i64,
    pub revenue: Option<String>,
}

/// Everything the detailed view of a project shows, aligned on a dense axis
/// of days.
#[derive(Debug, Clone)]
pub struct ProjectDetail {
    pub summary: ProjectSummary,
    pub days: Vec<String>,
    pub downloads: Vec<i64>,
    pub views: Vec<i64>,
    pub curseforge: Vec<i64>,
    pub revenue: Vec<String>,
    pub countries: Vec<CountryTotal>,
    pub versions: Vec<VersionRow>,
}

/// The line the detail is about: the Modrinth project's when one is named,
/// else the CurseForge project's.
pub open spec fn is_subject(s: ProjectSummary, modrinth_id: Option<i64>, curseforge_id: Option<i64>) -> bool {
    ||| (modrinth_id is Some && s.modrinth_id == modrinth_id)
    ||| (modrinth_id is None && s.curseforge_id == curseforge_id)
}

/// The last row of day `d`.
pub open spec fn row_of_day(rows: Seq<DetailDay>, d: Seq<char>) -> Option<DetailDay>
    decreases rows.len(),
{
    if rows.len() == 0 {
        None
    } else if rows.last().day@ == d {
        Some(rows.last())
    } else {
        row_of_day(rows.drop_last(), d)
    }
}

/// The revenue of the last row of day `d` that carries one.
pub open spec fn revenue_of_day(rows: Seq<DetailDay>, d: Seq<char>) -> Option<Seq<char>>
    decreases rows.len(),
{
    if rows.len() == 0 {
        None
    } else {
        match rows.last().revenue {
            Some(t) if rows.last().day@ == d => Some(t@),
            _ => revenue_of_day(rows.drop_last(), d),
        }
    }
}

/// The Modrinth rows count only when a Modrinth project is named.
pub open spec fn modrinth_rows(rows: Seq<DetailDay>, modrinth_id: Option<i64>) -> Seq<DetailDay> {
    if modrinth_id is Some {
        rows
    } else {
        Seq::empty()
    }
}

pub open spec fn downloads_on(rows: Seq<DetailDay>, d: Seq<char>) -> int {
    match row_of_day(rows, d) {
        Some(r) => r.downloads as int,
        None => 0,
    }
}

pub open spec fn views_on(rows: Seq<DetailDay>, d: Seq<char>) -> int {
    match row_of_day(rows, d) {
        Some(r) => r.views as int,
        None => 0,
    }
}

/// The revenue of the day as rust_decimal writes it, zero without one.
pub open spec fn revenue_on(rows: Seq<DetailDay>, d: Seq<char>) -> Seq<char> {
    match revenue_of_day(rows, d) {
        Some(t) => amount_written(t),
        None => zero_text(),
    }
}

/// What the CurseForge twin gained that day, from the snapshots.
pub open spec fn gain_on(curseforge_id: Option<i64>, deltas: Seq<SnapshotDelta>, d: Seq<char>, from: Seq<char>, to: Seq<char>) -> int {
    match curseforge_id {
        Some(id) => gap_last(deltas, id, d, from, to),
        None => 0,
    }
}

/// The publication date of a version, when it has one.
pub open spec fn date_of(v: VersionRow) -> Option<Seq<char>> {
    match v.date_published {
        Some(d) => Some(d@),
        None => None,
    }
}

/// `a` comes before `b` in time; a version without a date comes before all.
pub open spec fn published_before(a: Option<Seq<char>>, b: Option<Seq<char>>) -> bool {
    match (a, b) {
        (None, Some(_)) => true,
        (Some(x), Some(y)) => text_before(x, y),
        _ => false,
    }
}

pub open spec fn dated(k: Option<Seq<char>>) -> spec_fn(VersionRow) -> bool {
    |v: VersionRow| date_of(v) == k
}

/// `out` holds the versions of `input`, most recent first, and those of the
/// same date in the order in which they came.
pub open spec fn newest_first(out: Seq<VersionRow>, input: Seq<VersionRow>) -> bool {
    &&& forall|i: int, j: int| 0 <= i < j < out.len() ==> !published_before(date_of(#[trigger] out[i]), date_of(#[trigger] out[j]))
    &&& forall|k: Option<Seq<char>>| #[trigger] out.filter(dated(k)) == input.filter(dated(k))
}

proof fn lemma_published_order(a: Option<Seq<char>>, b: Option<Seq<char>>, c: Option<Seq<char>>)
    ensures
        !published_before(a, a),
        a != b ==> (published_before(a, b) || published_before(b, a)),
        !(published_before(a, b) && published_before(b, a)),
        published_before(a, b) && published_before(b, c) ==> published_before(a, c),
{
    match a {
        Some(x) => lemma_text_before_irreflexive(x),
        None => {},
    }
    match (a, b) {
        (Some(x), Some(y)) => lemma_text_before_total(x, y),
        _ => {},
    }
    match (a, b, c) {
        (Some(x), Some(y), Some(z)) => {
            if text_before(x, y) && text_before(y, z) {
                lemma_text_before_transitive(x, y, z);
            }
        },
        _ => {},
    }
}

proof fn lemma_filter_insert_version(s: Seq<VersionRow>, p: int, x: VersionRow, k: Option<Seq<char>>)
    requires
        0 <= p <= s.len(),
        forall|i: int| p <= i < s.len() ==> published_before(date_of(#[trigger] s[i]), date_of(x)),
    ensures
        s.insert(p, x).filter(dated(k)) == if date_of(x) == k {
            s.filter(dated(k)).push(x)
        } else {
            s.filter(dated(k))
        },
{
    let f = dated(k);
    let a = s.take(p);
    let b = s.skip(p);
    assert(s =~= a + b);
    assert(s.insert(p, x) =~= a.push(x) + b);
    Seq::filter_distributes_over_add(a, b, f);
    Seq::filter_distributes_over_add(a.push(x), b, f);
    a.lemma_filter_push(x, f);
    if date_of(x) == k {
        assert(b.filter(f) =~= Seq::<VersionRow>::empty()) by {
            assert forall|i: int| 0 <= i < b.len() implies !f(#[trigger] b[i]) by {
                assert(s[p + i] == b[i]);
                lemma_published_order(date_of(b[i]), date_of(x), date_of(x));
            }
            b.lemma_all_neg_filter_empty(f);
        }
        assert(s.filter(f) =~= a.filter(f));
        assert(s.insert(p, x).filter(f) =~= a.filter(f).push(x));
    }
}

fn published_earlier(a: &Option<String>, b: &Option<String>) -> (r: bool)
    ensures
        r == published_before(
            match a { Some(d) => Some(d@), None => None },
            match b { Some(d) => Some(d@), None => None },
        ),
{
    match (a, b) {
        (None, Some(_)) => true,
        (Some(x), Some(y)) => less_text(&chars_of(x.as_str()), &chars_of(y.as_str())),
        _ => false,
    }
}

/// The versions of both platforms in one chronology, most recent first; those
/// published the same day keep their order.
pub fn newest_versions_first(versions: Vec<VersionRow>) -> (r: Vec<VersionRow>)
    ensures
        newest_first(r@, versions@),
        r@.len() == versions@.len(),
{
    let ghost input = versions@;
    let count: usize = versions.len();
    let mut rest = versions;
    let mut out: Vec<VersionRow> = Vec::new();
    let mut k: usize = 0;
    proof {
        assert forall|key: Option<Seq<char>>| #[trigger] out@.filter(dated(key)) == input.take(0).filter(dated(key)) by {
            reveal(Seq::filter);
            assert(input.take(0) =~= Seq::<VersionRow>::empty());
        }
        assert(rest@ =~= input.skip(0));
    }
    while rest.len() > 0
        invariant
            k <= input.len(),
            rest@ == input.skip(k as int),
            out@.len() == k,
            k + rest@.len() == input.len(),
            input.len() == count,
            forall|i: int, j: int| 0 <= i < j < out@.len() ==> !published_before(date_of(#[trigger] out@[i]), date_of(#[trigger] out@[j])),
            forall|key: Option<Seq<char>>| #[trigger] out@.filter(dated(key)) == input.take(k as int).filter(dated(key)),
        decreases rest@.len(),
    {
        let x = rest.remove(0);
        proof {
            assert(x == input[k as int]);
            assert(rest@ =~= input.skip(k + 1));
            assert(input.take(k + 1) =~= input.take(k as int).push(x));
        }
        let mut p: usize = 0;
        while p < out.len() && !published_earlier(&out[p].date_published, &x.date_published)
            invariant
                p <= out@.len(),
                forall|i: int| 0 <= i < p ==> !published_before(date_of(#[trigger] out@[i]), date_of(x)),
            decreases out@.len() - p,
        {
            p = p + 1;
        }
        let ghost before = out@;
        let ghost xv = x;
        proof {
            assert forall|i: int| p <= i < before.len() implies published_before(date_of(#[trigger] before[i]), date_of(xv)) by {
                assert(published_before(date_of(before[p as int]), date_of(xv)));
                if i > p {
                    assert(!published_before(date_of(before[p as int]), date_of(before[i])));
                    lemma_published_order(date_of(before[i]), date_of(before[p as int]), date_of(xv));
                }
            }
        }
        out.insert(p, x);
        proof {
            assert(out@ == before.insert(p as int, xv));
            assert forall|i: int, j: int| 0 <= i < j < out@.len() implies !published_before(
                date_of(#[trigger] out@[i]),
                date_of(#[trigger] out@[j]),
            ) by {
                if j < p {
                    assert(out@[i] == before[i]);
                    assert(out@[j] == before[j]);
                } else if j == p {
                    assert(out@[i] == before[i]);
                } else if i == p {
                    assert(out@[j] == before[j - 1]);
                    lemma_published_order(date_of(xv), date_of(before[j - 1]), date_of(xv));
                } else if i < p {
                    assert(out@[i] == before[i]);
                    assert(out@[j] == before[j - 1]);
                } else {
                    assert(out@[i] == before[i - 1]);
                    assert(out@[j] == before[j - 1]);
                }
            }
            assert forall|key: Option<Seq<char>>| #[trigger] out@.filter(dated(key)) == input.take(k + 1).filter(dated(key)) by {
                lemma_filter_insert_version(before, p as int, xv, key);
                input.take(k as int).lemma_filter_push(xv, dated(key));
            }
        }
        k = k + 1;
    }
    proof {
        assert(input.take(k as int) =~= input);
    }
    out
}

/// The index of the last row of the day.
fn last_row_of(rows: &Vec<DetailDay>, day: &[char]) -> (r: Option<usize>)
    ensures
        match r {
            Some(j) => j < rows@.len() && row_of_day(rows@, day@) == Some(rows@[j as int]),
            None => row_of_day(rows@, day@) is None,
        },
{
    let mut found: Option<usize> = None;
    let mut k: usize = 0;
    assert(rows@.subrange(0, 0) =~= Seq::<DetailDay>::empty());
    while k < rows.len()
        invariant
            k <= rows@.len(),
            match found {
                Some(j) => j < k && row_of_day(rows@.subrange(0, k as int), day@) == Some(rows@[j as int]),
                None => row_of_day(rows@.subrange(0, k as int), day@) is None,
            },
        decreases rows@.len() - k,
    {
        proof {
            assert(rows@.subrange(0, k + 1).drop_last() =~= rows@.subrange(0, k as int));
            assert(rows@.subrange(0, k + 1).last() == rows@[k as int]);
        }
        if same_chars(&chars_of(rows[k].day.as_str()), day) {
            found = Some(k);
        }
        k = k + 1;
    }
    assert(rows@.subrange(0, rows@.len() as int) =~= rows@);
    found
}

/// The revenue of the last row of the day that carries one.
fn last_revenue_of(rows: &Vec<DetailDay>, day: &[char]) -> (r: Option<String>)
    ensures
        match r {
            Some(t) => revenue_of_day(rows@, day@) == Some(t@),
            None => revenue_of_day(rows@, day@) is None,
        },
{
    let mut found: Option<String> = None;
    let mut k: usize = 0;
    assert(rows@.subrange(0, 0) =~= Seq::<DetailDay>::empty());
    while k < rows.len()
        invariant
            k <= rows@.len(),
            match found {
                Some(t) => revenue_of_day(rows@.subrange(0, k as int), day@) == Some(t@),
                None => revenue_of_day(rows@.subrange(0, k as int), day@) is None,
            },
        decreases rows@.len() - k,
    {
        proof {
            assert(rows@.subrange(0, k + 1).drop_last() =~= rows@.subrange(0, k as int));
            assert(rows@.subrange(0, k + 1).last() == rows@[k as int]);
        }
        match &rows[k].revenue {
            Some(t) => {
                if same_chars(&chars_of(rows[k].day.as_str()), day) {
                    found = Some(t.clone());
                }
            },
            None => {},
        }
        k = k + 1;
    }
    assert(rows@.subrange(0, rows@.len() as int) =~= rows@);
    found
}

/// The last gain given for the project on the day, inside the window.
fn last_gain(deltas: &Vec<SnapshotDelta>, pid: i64, day: &[char], from: &[char], to: &[char]) -> (r: i64)
    ensures
        r as int == gap_last(deltas@, pid, day@, from@, to@),
{
    let inside = !less_text(day, from) && less_text(day, to);
    let mut value: i64 = 0;
    let mut k: usize = 0;
    assert(deltas@.subrange(0, 0) =~= Seq::<SnapshotDelta>::empty());
    while k < deltas.len()
        invariant
            k <= deltas@.len(),
            inside == in_window(day@, from@, to@),
            value as int == gap_last(deltas@.subrange(0, k as int), pid, day@, from@, to@),
        decreases deltas@.len() - k,
    {
        proof {
            assert(deltas@.subrange(0, k + 1).drop_last() =~= deltas@.subrange(0, k as int));
            assert(deltas@.subrange(0, k + 1).last() == deltas@[k as int]);
        }
        if inside && deltas[k].project_id == pid && same_chars(&chars_of(deltas[k].day.as_str()), day) {
            value = deltas[k].delta;
        }
        k = k + 1;
    }
    assert(deltas@.subrange(0, deltas@.len() as int) =~= deltas@);
    value
}

fn is_subject_line(s: &ProjectSummary, modrinth_id: Option<i64>, curseforge_id: Option<i64>) -> (r: bool)
    ensures
        r == is_subject(*s, modrinth_id, curseforge_id),
{
    match modrinth_id {
        Some(m) => match s.modrinth_id {
            Some(x) => x == m,
            None => false,
        },
        None => match (s.curseforge_id, curseforge_id) {
            (Some(x), Some(y)) => x == y,
            (None, None) => true,
            _ => false,
        },
    }
}

pub open spec fn not_found_message() -> Seq<char> {
    "projet introuvable"@
}

/// The series of the detail, day by day over the axis.
pub open spec fn aligned(
    d: ProjectDetail,
    rows: Seq<DetailDay>,
    deltas: Seq<SnapshotDelta>,
    from: Seq<char>,
    to: Seq<char>,
) -> bool {
    let axis = axis_of(from, to);
    &&& d.days.deep_view() == axis
    &&& d.downloads@.len() == axis.len()
    &&& d.views@.len() == axis.len()
    &&& d.curseforge@.len() == axis.len()
    &&& d.revenue@.len() == axis.len()
    &&& forall|i: int| 0 <= i < axis.len() ==> {
        &&& #[trigger] d.downloads@[i] == downloads_on(rows, axis[i])
        &&& d.views@[i] == views_on(rows, axis[i])
        &&& d.curseforge@[i] == gain_on(d.summary.curseforge_id, deltas, axis[i], from, to)
        &&& d.revenue@[i]@ == revenue_on(rows, axis[i])
    }
}

/// The detailed series of one project, aligned on the dense axis of the
/// window. The detail of a mod always shows both platforms, the screen filter
/// does not apply: one comes here to compare them. `summaries` are the lines
/// of the table with every platform shown; `days` the Modrinth project's rows
/// of the window; `countries` its downloads by country; `versions` the
/// versions of both projects.
pub fn project_detail(
    summaries: Vec<ProjectSummary>,
    from: &str,
    to: &str,
    modrinth_id: Option<i64>,
    curseforge_id: Option<i64>,
    days: &Vec<DetailDay>,
    deltas: &Vec<SnapshotDelta>,
    countries: Vec<CountryTotal>,
    versions: Vec<VersionRow>,
) -> (r: Result<ProjectDetail, AppError>)
    ensures
        match r {
            Ok(d) => {
                &&& exists|i: int| {
                    &&& 0 <= i < summaries@.len()
                    &&& #[trigger] is_subject(summaries@[i], modrinth_id, curseforge_id)
                    &&& d.summary == summaries@[i]
                    &&& forall|j: int| 0 <= j < i ==> !is_subject(#[trigger] summaries@[j], modrinth_id, curseforge_id)
                }
                &&& aligned(d, modrinth_rows(days@, modrinth_id), deltas@, from@, to@)
                &&& d.countries@ == if modrinth_id is Some { countries@ } else { Seq::<CountryTotal>::empty() }
                &&& newest_first(d.versions@, versions@)
                &&& d.versions@.len() == versions@.len()
            },
            Err(e) => {
                &&& forall|i: int| 0 <= i < summaries@.len() ==> !is_subject(#[trigger] summaries@[i], modrinth_id, curseforge_id)
                &&& e matches AppError::Data(m) && m@ == not_found_message()
            },
        },
{
    let mut i: usize = 0;
    while i < summaries.len() && !is_subject_line(&summaries[i], modrinth_id, curseforge_id)
        invariant
            i <= summaries@.len(),
            forall|j: int| 0 <= j < i ==> !is_subject(#[trigger] summaries@[j], modrinth_id, curseforge_id),
        decreases summaries@.len() - i,
    {
        i = i + 1;
    }
    if i == summaries.len() {
        proof {
            reveal_strlit("projet introuvable");
        }
        return Err(AppError::Data("projet introuvable".to_string()));
    }
    let ghost all = summaries@;
    let mut summaries = summaries;
    let summary = summaries.remove(i);
    assert(summary == all[i as int]);
    let empty: Vec<DetailDay> = Vec::new();
    let rows: &Vec<DetailDay> = if modrinth_id.is_some() {
        days
    } else {
        &empty
    };
    assert(rows@ == modrinth_rows(days@, modrinth_id));
    let axis = day_axis(from, to);
    let from_chars = chars_of(from);
    let to_chars = chars_of(to);
    let ghost ax = axis_of(from@, to@);
    let mut downloads: Vec<i64> = Vec::new();
    let mut views: Vec<i64> = Vec::new();
    let mut curseforge: Vec<i64> = Vec::new();
    let mut revenue: Vec<String> = Vec::new();
    let mut k: usize = 0;
    while k < axis.len()
        invariant
            k <= axis@.len(),
            axis.deep_view() == ax,
            ax.len() == axis@.len(),
            from_chars@ == from@,
            to_chars@ == to@,
            downloads@.len() == k,
            views@.len() == k,
            curseforge@.len() == k,
            revenue@.len() == k,
            forall|j: int| 0 <= j < k ==> {
                &&& #[trigger] downloads@[j] == downloads_on(rows@, ax[j])
                &&& views@[j] == views_on(rows@, ax[j])
                &&& curseforge@[j] == gain_on(summary.curseforge_id, deltas@, ax[j], from@, to@)
                &&& revenue@[j]@ == revenue_on(rows@, ax[j])
            },
        decreases axis@.len() - k,
    {
        let day = chars_of(axis[k].as_str());
        assert(day@ == ax[k as int]);
        match last_row_of(rows, &day) {
            Some(j) => {
                downloads.push(rows[j].downloads);
                views.push(rows[j].views);
            },
            None => {
                downloads.push(0);
                views.push(0);
            },
        }
        let gain: i64 = match summary.curseforge_id {
            Some(id) => last_gain(deltas, id, &day, &from_chars, &to_chars),
            None => 0,
        };
        curseforge.push(gain);
        let money = match last_revenue_of(rows, &day) {
            Some(t) => write_amount(t.as_str()),
            None => zero_amount(),
        };
        revenue.push(money);
        k = k + 1;
    }
    let countries = if modrinth_id.is_some() {
        countries
    } else {
        Vec::new()
    };
    let versions = newest_versions_first(versions);
    let detail = ProjectDetail {
        summary,
        days: axis,
        downloads,
        views,
        curseforge,
        revenue,
        countries,
        versions,
    };
    assert(aligned(detail, rows@, deltas@, from@, to@));
    Ok(detail)
}

} // verus!
