//! What the local base keeps, and the decisions taken on what it gives back:
//! the daily gain between two CurseForge snapshots, and what a survey of the
//! CurseForge followers tells about arrivals and departures.

use crate::models::Platform;
use crate::providers::curseforge::same_ignoring_ascii_case;
use crate::text::{chars_of, less_text, same_chars, text_before, to_ascii_lower};
use vstd::prelude::*;

verus! {

/// A CurseForge follower, as the public page of the account shows them.
#[derive(Debug, Clone)]
pub struct Follower {
    pub name: String,
    pub avatar_url: Option<String>,
    /// Age of the account as the site writes it.
    pub seniority: Option<String>,
    /// Day of the first survey where the name appeared.
    pub first_seen: String,
    pub last_seen: String,
    /// Day when the name stopped appearing, if it left.
    pub lost_on: Option<String>,
    /// Rank in the list of the site, the most recent first.
    pub rank: i64,
    /// False while the name was only seen at the very first survey: the
    /// follow is older, by an unknown time.
    pub arrival_known: bool,
}

/// What a survey reports of a follower, before it meets the base.
#[derive(Debug, Clone)]
pub struct Seen {
    pub name: String,
    pub avatar_url: Option<String>,
    pub seniority: Option<String>,
}

/// A day of the curve of followers, platform by platform.
#[derive(Debug, Clone, PartialEq)]
pub struct FollowerDay {
    pub day: String,
    pub modrinth: i64,
    pub curseforge: i64,
}

/// A reading of the CurseForge points balance.
#[derive(Debug, Clone, PartialEq)]
pub struct CfPointEntry {
    pub day: String,
    pub points: i64,
    /// Value in dollars at the rate that CurseForge announces.
    pub value_usd: String,
}

#[derive(Debug, Clone)]
pub struct DailyRow {
    pub project_id: i64,
    pub day: String,
    pub downloads: Option<i64>,
    pub views: Option<i64>,
    pub revenue: Option<String>,
}

#[derive(Debug, Clone)]
pub struct ProjectUpsert {
    pub platform: Platform,
    pub ext_id: String,
    pub slug: Option<String>,
    pub title: String,
    pub project_type: Option<String>,
    pub url: Option<String>,
    pub icon_url: Option<String>,
    pub created_at: Option<String>,
    pub total_downloads: i64,
    /// Followers, when the source counts them; `None` keeps the known count.
    pub followers: Option<i64>,
}

#[derive(Debug, Clone)]
pub struct ProjectRow {
    pub id: i64,
    pub platform: Platform,
    pub ext_id: String,
    pub slug: Option<String>,
    pub title: String,
    pub project_type: Option<String>,
    pub url: Option<String>,
    pub icon_url: Option<String>,
    pub created_at: Option<String>,
    pub total_downloads: i64,
    pub followers: i64,
    pub archived_at: Option<String>,
}

/// A pairing between a Modrinth project and a CurseForge one, as the pairing
/// screen reads it.
#[derive(Debug, Clone, Copy)]
pub struct Link {
    pub modrinth_project_id: i64,
    pub cf_project_id: i64,
    pub manual: bool,
}

/// A count never goes below zero in the base: a negative reading is clamped
/// rather than stored.
pub fn clamp_count(value: i64) -> (r: i64)
    ensures
        r == if value < 0 { 0 } else { value },
{
    if value < 0 {
        0
    } else {
        value
    }
}

/// The arrival of a follower is known unless the name was first seen at the
/// very first survey: then the follow is older, by an unknown time.
pub fn arrival_known(first_survey: &Option<String>, first_seen: &str) -> (r: bool)
    ensures
        r == !(first_survey matches Some(f) && f@ == first_seen@),
{
    match first_survey {
        Some(f) => !crate::text::same_chars(&crate::text::chars_of(f.as_str()), &crate::text::chars_of(first_seen)),
        None => true,
    }
}

// ---------------------------------------------------------------------------
// Daily gains between CurseForge snapshots.

/// The greatest total of a project read on a day, in the order of project
/// then day.
#[derive(Debug, Clone)]
pub struct Snapshot {
    pub project_id: i64,
    pub day: String,
    pub total: i64,
}

#[derive(Debug, Clone)]
pub struct SnapshotDelta {
    pub project_id: i64,
    pub day: String,
    pub delta: i64,
}

/// Two snapshots that follow each other can be subtracted without overflow.
pub open spec fn gaps_fit(rows: Seq<Snapshot>) -> bool {
    forall|i: int|
        0 < i < rows.len() ==> i64::MIN <= #[trigger] rows[i].total - rows[i - 1].total <= i64::MAX
}

/// The gain of each day over the snapshot before it, for the same project,
/// never below zero; the first snapshot of a project gives no gain.
pub open spec fn deltas_of(rows: Seq<Snapshot>) -> Seq<(i64, Seq<char>, i64)>
    decreases rows.len(),
{
    if rows.len() < 2 {
        seq![]
    } else {
        let prev = rows[rows.len() - 2];
        let cur = rows.last();
        let base = deltas_of(rows.drop_last());
        if prev.project_id == cur.project_id {
            let gain = cur.total - prev.total;
            base.push((cur.project_id, cur.day@, if gain < 0 { 0 } else { gain as i64 }))
        } else {
            base
        }
    }
}

pub open spec fn delta_view(d: SnapshotDelta) -> (i64, Seq<char>, i64) {
    (d.project_id, d.day@, d.delta)
}

pub fn snapshot_deltas(rows: &Vec<Snapshot>) -> (r: Vec<SnapshotDelta>)
    requires
        gaps_fit(rows@),
    ensures
        r@.map_values(|d: SnapshotDelta| delta_view(d)) == deltas_of(rows@),
{
    let mut out: Vec<SnapshotDelta> = Vec::new();
    if rows.len() == 0 {
        assert(out@.map_values(|d: SnapshotDelta| delta_view(d)) =~= deltas_of(rows@));
        return out;
    }
    let mut k: usize = 1;
    assert(out@.map_values(|d: SnapshotDelta| delta_view(d)) =~= deltas_of(rows@.subrange(0, 1)));
    while k < rows.len()
        invariant
            1 <= k <= rows@.len(),
            gaps_fit(rows@),
            out@.map_values(|d: SnapshotDelta| delta_view(d)) == deltas_of(rows@.subrange(0, k as int)),
        decreases rows@.len() - k,
    {
        let ghost before = out@;
        proof {
            let p = rows@.subrange(0, k + 1);
            assert(p.drop_last() =~= rows@.subrange(0, k as int));
            assert(p[p.len() - 2] == rows@[k - 1]);
            assert(p.last() == rows@[k as int]);
        }
        let prev = &rows[k - 1];
        let cur = &rows[k];
        if prev.project_id == cur.project_id {
            assert(i64::MIN <= rows@[k as int].total - rows@[k - 1].total <= i64::MAX);
            let gain = cur.total - prev.total;
            let d = SnapshotDelta {
                project_id: cur.project_id,
                day: cur.day.clone(),
                delta: if gain < 0 { 0 } else { gain },
            };
            let ghost seen = delta_view(d);
            out.push(d);
            proof {
                assert(out@.map_values(|d: SnapshotDelta| delta_view(d)) =~= before.map_values(
                    |d: SnapshotDelta| delta_view(d),
                ).push(seen));
            }
        }
        k = k + 1;
    }
    assert(rows@.subrange(0, rows@.len() as int) =~= rows@);
    out
}

/// The gain between two snapshots is never negative: a total that went down
/// (a deleted file, a correction of the site) counts as no download.
pub proof fn snapshot_deltas_never_go_negative(rows: Seq<Snapshot>)
    requires
        gaps_fit(rows),
    ensures
        forall|i: int| 0 <= i < deltas_of(rows).len() ==> #[trigger] deltas_of(rows)[i].2 >= 0,
    decreases rows.len(),
{
    if rows.len() >= 2 {
        assert(gaps_fit(rows.drop_last())) by {
            assert forall|i: int| 0 < i < rows.drop_last().len() implies i64::MIN <= #[trigger] rows.drop_last()[i].total
                - rows.drop_last()[i - 1].total <= i64::MAX by {
                assert(rows.drop_last()[i] == rows[i]);
                assert(rows.drop_last()[i - 1] == rows[i - 1]);
            }
        }
        assert(i64::MIN <= rows[rows.len() - 1].total - rows[rows.len() - 2].total <= i64::MAX);
        snapshot_deltas_never_go_negative(rows.drop_last());
        let base = deltas_of(rows.drop_last());
        assert forall|i: int| 0 <= i < deltas_of(rows).len() implies #[trigger] deltas_of(rows)[i].2
            >= 0 by {
            if i < base.len() {
                assert(deltas_of(rows)[i] == base[i]);
            }
        }
    }
}

// ---------------------------------------------------------------------------
// Surveys of the CurseForge followers.

/// A follower to write in the base: the name with what was seen of it, and
/// its rank on the page.
#[derive(Debug, Clone)]
pub struct SurveyRow {
    pub seen: Seen,
    pub rank: i64,
}

/// What a survey changes: the followers to write, the number of arrivals,
/// and whether the names absent from it are to be marked as gone.
#[derive(Debug, Clone)]
pub struct Survey {
    pub rows: Vec<SurveyRow>,
    pub arrived: usize,
    pub mark_lost: bool,
}

/// The account whose page is read is not its own follower: its link heads
/// the page.
pub open spec fn is_account(name: Seq<char>, owner: Seq<char>) -> bool {
    same_ignoring_ascii_case(name, owner)
}

/// The names of the survey that are written, each with its rank, the
/// position on the page.
pub open spec fn survey_rows(seen: Seq<Seen>, owner: Seq<char>) -> Seq<(Seq<char>, i64)>
    decreases seen.len(),
{
    if seen.len() == 0 {
        seq![]
    } else if is_account(seen.last().name@, owner) {
        survey_rows(seen.drop_last(), owner)
    } else {
        survey_rows(seen.drop_last(), owner).push((seen.last().name@, (seen.len() - 1) as i64))
    }
}

pub open spec fn named_before(earlier: Seq<Seen>, name: Seq<char>) -> bool {
    exists|j: int| 0 <= j < earlier.len() && #[trigger] earlier[j].name@ == name
}

/// A name is an arrival when the base already held a survey, and neither the
/// base nor the survey so far knew it.
pub open spec fn arrives(x: Seen, earlier: Seq<Seen>, known: Set<Seq<char>>, owner: Seq<char>, surveyed_before: bool) -> bool {
    &&& surveyed_before
    &&& !is_account(x.name@, owner)
    &&& !known.contains(x.name@)
    &&& !named_before(earlier, x.name@)
}

pub open spec fn arrivals(seen: Seq<Seen>, known: Set<Seq<char>>, owner: Seq<char>, surveyed_before: bool) -> nat
    decreases seen.len(),
{
    if seen.len() == 0 {
        0
    } else {
        arrivals(seen.drop_last(), known, owner, surveyed_before) + if arrives(
            seen.last(),
            seen.drop_last(),
            known,
            owner,
            surveyed_before,
        ) {
            1nat
        } else {
            0nat
        }
    }
}

pub open spec fn names_of(v: Seq<String>) -> Set<Seq<char>> {
    Set::new(|n: Seq<char>| exists|i: int| 0 <= i < v.len() && #[trigger] v[i]@ == n)
}

pub open spec fn row_view(r: SurveyRow) -> (Seq<char>, i64) {
    (r.seen.name@, r.rank)
}

/// The survey writes the name again: an entry of it bears the name, and it
/// is not the account itself.
pub open spec fn renewed(seen: Seq<Seen>, owner: Seq<char>, name: Seq<char>) -> bool {
    exists|j: int| 0 <= j < seen.len() && #[trigger] seen[j].name@ == name && !is_account(name, owner)
}

/// The followers the survey finds gone, in the order of the base: those still
/// standing, last seen before `day`, that the survey does not write again;
/// none at all after an empty survey, which proves nothing.
pub open spec fn departures_of(standing: Seq<(Seq<char>, Seq<char>)>, seen: Seq<Seen>, owner: Seq<char>, day: Seq<char>) -> Seq<Seq<char>>
    decreases standing.len(),
{
    if standing.len() == 0 || seen.len() == 0 {
        seq![]
    } else {
        let before = departures_of(standing.drop_last(), seen, owner, day);
        let (name, last_seen) = standing.last();
        if text_before(last_seen, day) && !renewed(seen, owner, name) {
            before.push(name)
        } else {
            before
        }
    }
}

/// Who a survey finds gone. An empty survey proves nothing and finds nobody.
/// After a survey with names on it: no name written on the page, the
/// account's own apart, is gone, wherever it stands on the page; every name
/// found gone is a standing follower last seen before the day; and every
/// standing follower last seen before the day whose name is not on the page
/// is found gone.
pub proof fn a_name_on_the_page_is_never_found_gone(
    standing: Seq<(Seq<char>, Seq<char>)>,
    seen: Seq<Seen>,
    owner: Seq<char>,
    day: Seq<char>,
)
    ensures
        seen.len() == 0 ==> departures_of(standing, seen, owner, day).len() == 0,
        forall|j: int|
            0 <= j < seen.len() && !is_account(seen[j].name@, owner) ==> !departures_of(standing, seen, owner, day).contains(
                #[trigger] seen[j].name@,
            ),
        forall|k: int|
            #![trigger departures_of(standing, seen, owner, day)[k]]
            0 <= k < departures_of(standing, seen, owner, day).len() ==> exists|i: int|
                0 <= i < standing.len() && #[trigger] standing[i].0 == departures_of(standing, seen, owner, day)[k]
                    && text_before(standing[i].1, day),
        forall|i: int|
            0 <= i < standing.len() && seen.len() > 0 && text_before(standing[i].1, day) && (forall|j: int|
                0 <= j < seen.len() ==> (#[trigger] seen[j].name@) != standing[i].0) ==> departures_of(
                standing,
                seen,
                owner,
                day,
            ).contains(#[trigger] standing[i].0),
    decreases standing.len(),
{
    if standing.len() > 0 && seen.len() > 0 {
        let rest = standing.drop_last();
        a_name_on_the_page_is_never_found_gone(rest, seen, owner, day);
        let before = departures_of(rest, seen, owner, day);
        let out = departures_of(standing, seen, owner, day);
        let (name, last_seen) = standing.last();
        assert forall|j: int|
            0 <= j < seen.len() && !is_account(seen[j].name@, owner) implies !out.contains(
                #[trigger] seen[j].name@,
            ) by {
            assert(!before.contains(seen[j].name@));
            if out.len() > before.len() {
                assert(renewed(seen, owner, seen[j].name@));
                if out.contains(seen[j].name@) {
                    let k = choose|k: int| 0 <= k < out.len() && out[k] == seen[j].name@;
                    if k < before.len() {
                        assert(out[k] == before[k]);
                    }
                }
            }
        }
        assert forall|k: int| #![trigger out[k]] 0 <= k < out.len() implies exists|i: int|
            0 <= i < standing.len() && #[trigger] standing[i].0 == out[k] && text_before(standing[i].1, day) by {
            if k < before.len() {
                assert(out[k] == before[k]);
                let i = choose|i: int|
                    0 <= i < rest.len() && #[trigger] rest[i].0 == before[k] && text_before(rest[i].1, day);
                assert(standing[i] == rest[i]);
            } else {
                assert(standing[standing.len() - 1] == standing.last());
            }
        }
        assert forall|i: int|
            0 <= i < standing.len() && seen.len() > 0 && text_before(standing[i].1, day) && (forall|j: int|
                0 <= j < seen.len() ==> (#[trigger] seen[j].name@) != standing[i].0) implies out.contains(
                #[trigger] standing[i].0,
            ) by {
            if i < rest.len() {
                assert(standing[i] == rest[i]);
                assert(before.contains(rest[i].0));
                let k = choose|k: int| 0 <= k < before.len() && before[k] == rest[i].0;
                assert(out[k] == before[k]);
            } else {
                assert(standing[i] == standing.last());
                assert(!renewed(seen, owner, name));
                assert(out[out.len() - 1] == name);
            }
        }
    }
}

fn renewed_by(seen: &Vec<Seen>, owner: &str, name: &str) -> (r: bool)
    ensures
        r == renewed(seen@, owner@, name@),
{
    if is_account_name(name, owner) {
        return false;
    }
    let wanted = chars_of(name);
    let mut k: usize = 0;
    while k < seen.len()
        invariant
            k <= seen@.len(),
            wanted@ == name@,
            !is_account(name@, owner@),
            forall|j: int| 0 <= j < k ==> seen@[j].name@ != name@,
        decreases seen@.len() - k,
    {
        if same_chars(&chars_of(seen[k].name.as_str()), &wanted) {
            assert(seen@[k as int].name@ == name@);
            return true;
        }
        k = k + 1;
    }
    false
}

/// The followers a survey finds gone, to be marked lost on `day`.
/// `standing` are the names of the base not yet marked lost, each with the
/// day it was last seen, once the account itself was taken out of it.
pub fn departures(standing: &Vec<(String, String)>, seen: &Vec<Seen>, owner: &str, day: &str) -> (r: Vec<String>)
    ensures
        r.deep_view() == departures_of(standing.deep_view(), seen@, owner@, day@),
{
    let ghost all = standing.deep_view();
    let mut out: Vec<String> = Vec::new();
    if seen.len() == 0 {
        assert(out.deep_view() =~= departures_of(all, seen@, owner@, day@));
        return out;
    }
    let today = chars_of(day);
    let mut k: usize = 0;
    assert(all.take(0) =~= Seq::<(Seq<char>, Seq<char>)>::empty());
    assert(out.deep_view() =~= Seq::<Seq<char>>::empty());
    while k < standing.len()
        invariant
            k <= standing@.len(),
            seen@.len() > 0,
            today@ == day@,
            all == standing.deep_view(),
            out.deep_view() == departures_of(all.take(k as int), seen@, owner@, day@),
        decreases standing@.len() - k,
    {
        proof {
            assert(all.take(k + 1).drop_last() =~= all.take(k as int));
            assert(all.take(k + 1).last() == all[k as int]);
            assert(all[k as int] == (standing@[k as int].0@, standing@[k as int].1@));
        }
        let (name, last_seen) = (&standing[k].0, &standing[k].1);
        if less_text(&chars_of(last_seen.as_str()), &today) && !renewed_by(seen, owner, name.as_str()) {
            let ghost before = out.deep_view();
            out.push(name.clone());
            proof {
                assert(out.deep_view() =~= before.push(name@));
            }
        }
        k = k + 1;
    }
    assert(all.take(standing@.len() as int) =~= all);
    out
}

fn among(names: &Vec<String>, name: &str) -> (r: bool)
    ensures
        r == names_of(names@).contains(name@),
{
    let wanted = chars_of(name);
    let mut k: usize = 0;
    while k < names.len()
        invariant
            k <= names@.len(),
            wanted@ == name@,
            forall|j: int| 0 <= j < k ==> names@[j]@ != name@,
        decreases names@.len() - k,
    {
        if same_chars(&chars_of(names[k].as_str()), &wanted) {
            assert(names_of(names@).contains(name@));
            return true;
        }
        k = k + 1;
    }
    false
}

fn seen_before(seen: &Vec<Seen>, upto: usize, name: &str) -> (r: bool)
    requires
        upto <= seen@.len(),
    ensures
        r == named_before(seen@.subrange(0, upto as int), name@),
{
    let wanted = chars_of(name);
    let ghost earlier = seen@.subrange(0, upto as int);
    let mut k: usize = 0;
    while k < upto
        invariant
            k <= upto <= seen@.len(),
            earlier == seen@.subrange(0, upto as int),
            wanted@ == name@,
            forall|j: int| 0 <= j < k ==> seen@[j].name@ != name@,
        decreases upto - k,
    {
        if same_chars(&chars_of(seen[k].name.as_str()), &wanted) {
            assert(earlier[k as int].name@ == name@);
            return true;
        }
        k = k + 1;
    }
    proof {
        assert forall|j: int| 0 <= j < earlier.len() implies #[trigger] earlier[j].name@ != name@ by {
            assert(earlier[j] == seen@[j]);
        }
    }
    false
}

fn is_account_name(name: &str, owner: &str) -> (r: bool)
    ensures
        r == is_account(name@, owner@),
{
    let a = chars_of(name);
    let b = chars_of(owner);
    if a.len() != b.len() {
        return false;
    }
    let mut k: usize = 0;
    while k < a.len()
        invariant
            a@.len() == b@.len(),
            a@ == name@,
            b@ == owner@,
            k <= a@.len(),
            forall|i: int| 0 <= i < k ==> crate::text::ascii_lower(#[trigger] a@[i]) == crate::text::ascii_lower(b@[i]),
        decreases a@.len() - k,
    {
        if to_ascii_lower(a[k]) != to_ascii_lower(b[k]) {
            return false;
        }
        k = k + 1;
    }
    true
}

/// Meets a survey with what the base knows: `known` are the names the base
/// holds once the account itself was taken out of it, and `surveyed_before`
/// tells whether it held any survey then. The rows are then written, and the
/// names absent from the survey marked as gone on that day when
/// `mark_lost` says so: an empty survey proves nothing (a page that failed to
/// load gives as much), so it marks no departure.
pub fn survey_outcome(owner: &str, seen: &Vec<Seen>, known: &Vec<String>, surveyed_before: bool) -> (r: Survey)
    requires
        seen@.len() <= i64::MAX,
    ensures
        r.rows@.map_values(|x: SurveyRow| row_view(x)) == survey_rows(seen@, owner@),
        r.arrived == arrivals(seen@, names_of(known@), owner@, surveyed_before),
        r.mark_lost == (seen@.len() > 0),
{
    let mut rows: Vec<SurveyRow> = Vec::new();
    let mut arrived: usize = 0;
    let mut k: usize = 0;
    assert(seen@.subrange(0, 0) =~= Seq::<Seen>::empty());
    while k < seen.len()
        invariant
            k <= seen@.len() <= i64::MAX,
            rows@.map_values(|x: SurveyRow| row_view(x)) == survey_rows(seen@.subrange(0, k as int), owner@),
            arrived == arrivals(seen@.subrange(0, k as int), names_of(known@), owner@, surveyed_before),
            arrived <= k,
        decreases seen@.len() - k,
    {
        let ghost prefix = seen@.subrange(0, k + 1);
        proof {
            assert(prefix.drop_last() =~= seen@.subrange(0, k as int));
            assert(prefix.last() == seen@[k as int]);
        }
        let entry = &seen[k];
        if !is_account_name(entry.name.as_str(), owner) {
            let new = surveyed_before && !among(known, entry.name.as_str()) && !seen_before(
                seen,
                k,
                entry.name.as_str(),
            );
            if new {
                arrived = arrived + 1;
            }
            let ghost before = rows@;
            let row = SurveyRow {
                seen: Seen {
                    name: entry.name.clone(),
                    avatar_url: entry.avatar_url.clone(),
                    seniority: entry.seniority.clone(),
                },
                rank: k as i64,
            };
            let ghost seen_row = row_view(row);
            rows.push(row);
            proof {
                assert(rows@.map_values(|x: SurveyRow| row_view(x)) =~= before.map_values(
                    |x: SurveyRow| row_view(x),
                ).push(seen_row));
            }
        }
        k = k + 1;
    }
    assert(seen@.subrange(0, seen@.len() as int) =~= seen@);
    Survey { rows, arrived, mark_lost: seen.len() > 0 }
}

/// At the first survey nobody is a new follower: the application discovers
/// the state of things, it does not watch arrivals.
pub proof fn the_first_survey_counts_nobody_as_new(seen: Seq<Seen>, known: Set<Seq<char>>, owner: Seq<char>)
    ensures
        arrivals(seen, known, owner, false) == 0,
    decreases seen.len(),
{
    if seen.len() > 0 {
        the_first_survey_counts_nobody_as_new(seen.drop_last(), known, owner);
    }
}

/// The account is never written as its own follower.
pub proof fn the_account_is_never_its_own_follower(seen: Seq<Seen>, owner: Seq<char>)
    ensures
        forall|i: int|
            0 <= i < survey_rows(seen, owner).len() ==> !is_account(
                #[trigger] survey_rows(seen, owner)[i].0,
                owner,
            ),
    decreases seen.len(),
{
    if seen.len() > 0 {
        the_account_is_never_its_own_follower(seen.drop_last(), owner);
        let base = survey_rows(seen.drop_last(), owner);
        assert forall|i: int| 0 <= i < survey_rows(seen, owner).len() implies !is_account(
            #[trigger] survey_rows(seen, owner)[i].0,
            owner,
        ) by {
            if i < base.len() {
                assert(survey_rows(seen, owner)[i] == base[i]);
            }
        }
    }
}

/// A name counted as an arrival is written: there are never more arrivals
/// than followers written.
pub proof fn arrivals_are_written(seen: Seq<Seen>, known: Set<Seq<char>>, owner: Seq<char>, surveyed_before: bool)
    ensures
        arrivals(seen, known, owner, surveyed_before) <= survey_rows(seen, owner).len(),
    decreases seen.len(),
{
    if seen.len() > 0 {
        arrivals_are_written(seen.drop_last(), known, owner, surveyed_before);
    }
}

} // verus!
