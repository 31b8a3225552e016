//! The reading side of the dashboard: which platforms are shown, and which
//! window of days is read.

use crate::dates::{is_valid_day, max_shift, shifted, valid_day};
use crate::models::{platform_named, Payout, PayoutPoint, Platform, TimelinePoint};
use crate::providers::modrinth::PayoutBalance;
use crate::scrape::{integer_text, parse_integer};
use crate::sorting::{sort_by_key_desc, stably_sorted};
use crate::store::{Link, ProjectRow, SnapshotDelta};
use crate::text::{
    chars_of, lemma_text_before_irreflexive, lemma_text_before_total, lemma_text_before_transitive,
    less_text, same_chars, text_before, text_of, utf8_width,
};
use vstd::prelude::*;

pub use crate::dates::{day_axis, shift_day};
use crate::dates::axis_of;

verus! {

/// Platforms kept on screen. Hiding one deletes nothing: readings go on,
/// only what is read is filtered.
#[derive(Debug, Clone, Copy, PartialEq, Eq, Structural)]
pub struct PlatformFilter {
    pub modrinth: bool,
    pub curseforge: bool,
}

impl Default for PlatformFilter {
    fn default() -> (r: Self)
        ensures
            r.modrinth && r.curseforge,
    {
        PlatformFilter { modrinth: true, curseforge: true }
    }
}

/// The names sent by the interface contain `name`.
pub open spec fn names_contain(names: Seq<Seq<char>>, name: Seq<char>) -> bool {
    exists|i: int| 0 <= i < names.len() && names[i] == name
}

/// The filter that a list of names asks for; an absent or empty list shows
/// everything.
pub open spec fn filter_of(names: Option<Seq<Seq<char>>>) -> PlatformFilter {
    match names {
        Some(n) => if n.len() == 0 {
            PlatformFilter { modrinth: true, curseforge: true }
        } else {
            PlatformFilter {
                modrinth: names_contain(n, "modrinth"@),
                curseforge: names_contain(n, "curseforge"@),
            }
        },
        None => PlatformFilter { modrinth: true, curseforge: true },
    }
}

fn lists(names: &[String], name: &str) -> (r: bool)
    ensures
        r == names_contain(names.deep_view(), name@),
{
    let wanted = chars_of(name);
    let mut k: usize = 0;
    while k < names.len()
        invariant
            k <= names@.len(),
            wanted@ == name@,
            forall|j: int| 0 <= j < k ==> names.deep_view()[j] != name@,
        decreases names@.len() - k,
    {
        if same_chars(&chars_of(names[k].as_str()), &wanted) {
            assert(names.deep_view()[k as int] == name@);
            return true;
        }
        k = k + 1;
    }
    false
}

impl PlatformFilter {
    /// Builds the filter from the list sent by the interface. An absent or
    /// empty list means "show everything": better show too much than an
    /// empty screen on a malformed value.
    pub fn from_names(names: Option<&[String]>) -> (r: Self)
        ensures
            r == filter_of(
                match names {
                    Some(n) => Some(n.deep_view()),
                    None => None,
                },
            ),
    {
        match names {
            Some(n) => {
                if n.len() == 0 {
                    PlatformFilter { modrinth: true, curseforge: true }
                } else {
                    PlatformFilter { modrinth: lists(n, "modrinth"), curseforge: lists(n, "curseforge") }
                }
            },
            None => PlatformFilter { modrinth: true, curseforge: true },
        }
    }

    pub open spec fn shows_spec(&self, platform: Platform) -> bool {
        match platform {
            Platform::Modrinth => self.modrinth,
            Platform::CurseForge => self.curseforge,
        }
    }

    pub fn shows(&self, platform: Platform) -> (r: bool)
        ensures
            r == self.shows_spec(platform),
    {
        match platform {
            Platform::Modrinth => self.modrinth,
            Platform::CurseForge => self.curseforge,
        }
    }
}

/// The internal bounds `(first day included, last day excluded)` of the
/// window asked for by the interface, which reasons in included days.
pub open spec fn range_of(
    today: Seq<char>,
    range_days: i64,
    from: Option<Seq<char>>,
    to: Option<Seq<char>>,
) -> (Seq<char>, Seq<char>) {
    let start = match from {
        Some(d) => if is_valid_day(d) {
            d
        } else {
            shifted(today, (-range_days) as i64)
        },
        None => shifted(today, (-range_days) as i64),
    };
    let end = match to {
        Some(d) => if is_valid_day(d) {
            shifted(d, 1)
        } else {
            shifted(today, 1)
        },
        None => shifted(today, 1),
    };
    if !text_before(start, end) {
        (start, shifted(start, 1))
    } else {
        (start, end)
    }
}

/// Resolves the window asked for into internal bounds. Without explicit
/// bounds, the sliding window of `range_days` days ending today is used; the
/// chosen last day stays inside the window; a window upside down is
/// repaired into the single first day.
pub fn resolve_range(today: &str, range_days: i64, from: Option<&str>, to: Option<&str>) -> (r: (
    String,
    String,
))
    requires
        -max_shift() <= range_days <= max_shift(),
    ensures
        (r.0@, r.1@) == range_of(
            today@,
            range_days,
            match from {
                Some(d) => Some(d@),
                None => None,
            },
            match to {
                Some(d) => Some(d@),
                None => None,
            },
        ),
{
    let start = match from {
        Some(d) => if valid_day(d) {
            d.to_string()
        } else {
            shift_day(today, -range_days)
        },
        None => shift_day(today, -range_days),
    };
    let end = match to {
        Some(d) => if valid_day(d) {
            shift_day(d, 1)
        } else {
            shift_day(today, 1)
        },
        None => shift_day(today, 1),
    };
    if !less_text(&chars_of(start.as_str()), &chars_of(end.as_str())) {
        let repaired = shift_day(start.as_str(), 1);
        return (start, repaired);
    }
    (start, end)
}

// ---------------------------------------------------------------------------
// Downloads day by day.

/// What a list of counts says of day `d`: the sum of its counts, platform
/// by platform.
pub open spec fn sums_for(cs: Seq<TimelinePoint>, d: Seq<char>) -> (int, int)
    decreases cs.len(),
{
    if cs.len() == 0 {
        (0, 0)
    } else {
        let s = sums_for(cs.drop_last(), d);
        if cs.last().day@ == d {
            (s.0 + cs.last().modrinth, s.1 + cs.last().curseforge)
        } else {
            s
        }
    }
}

pub open spec fn mentions(cs: Seq<TimelinePoint>, d: Seq<char>) -> bool {
    exists|i: int| 0 <= i < cs.len() && #[trigger] cs[i].day@ == d
}

/// A pair of sums that an `i64` holds.
pub open spec fn fits_pair(s: (int, int)) -> bool {
    i64::MIN <= s.0 <= i64::MAX && i64::MIN <= s.1 <= i64::MAX
}

/// Adding the counts one by one, every running sum of a day stays within an
/// `i64`, platform by platform: the sums where adding would overflow.
pub open spec fn running_sums_fit(cs: Seq<TimelinePoint>) -> bool {
    forall|k: int| 0 < k <= cs.len() ==> #[trigger] fits_pair(sums_for(cs.take(k), cs[k - 1].day@))
}

/// The point carries these sums.
pub open spec fn carries(p: TimelinePoint, s: (int, int)) -> bool {
    p.modrinth as int == s.0 && p.curseforge as int == s.1
}

/// `out` holds one point per day that the counts mention, in the order of
/// days, each with the sums of the counts of its day.
pub open spec fn grouped(out: Seq<TimelinePoint>, cs: Seq<TimelinePoint>) -> bool {
    &&& forall|i: int, j: int| 0 <= i < j < out.len() ==> text_before(#[trigger] out[i].day@, #[trigger] out[j].day@)
    &&& forall|d: Seq<char>| mentions(cs, d) <==> mentions(out, d)
    &&& forall|i: int| 0 <= i < out.len() ==> carries(#[trigger] out[i], sums_for(cs, out[i].day@))
}

proof fn lemma_unmentioned_sums(cs: Seq<TimelinePoint>, d: Seq<char>)
    requires
        !mentions(cs, d),
    ensures
        sums_for(cs, d) == (0int, 0int),
    decreases cs.len(),
{
    if cs.len() > 0 {
        assert(cs.last() == cs[cs.len() - 1]);
        assert(!mentions(cs.drop_last(), d)) by {
            if mentions(cs.drop_last(), d) {
                let i = choose|i: int| 0 <= i < cs.drop_last().len() && #[trigger] cs.drop_last()[i].day@ == d;
                assert(cs[i].day@ == d);
            }
        }
        lemma_unmentioned_sums(cs.drop_last(), d);
    }
}

/// Gathers counts day by day, days in order; `None` when a running sum of
/// a day leaves what an `i64` holds.
fn group_checked(cs: &Vec<TimelinePoint>) -> (r: Option<Vec<TimelinePoint>>)
    ensures
        r is Some <==> running_sums_fit(cs@),
        r matches Some(v) ==> grouped(v@, cs@),
{
    let mut out: Vec<TimelinePoint> = Vec::new();
    let mut k: usize = 0;
    assert(cs@.subrange(0, 0) =~= Seq::<TimelinePoint>::empty());
    while k < cs.len()
        invariant
            k <= cs@.len(),
            forall|j: int| 0 < j <= k ==> #[trigger] fits_pair(sums_for(cs@.take(j), cs@[j - 1].day@)),
            grouped(out@, cs@.subrange(0, k as int)),
        decreases cs@.len() - k,
    {
        let ghost prev = cs@.subrange(0, k as int);
        let ghost next = cs@.subrange(0, k + 1);
        proof {
            assert(next.drop_last() =~= prev);
            assert(next.last() == cs@[k as int]);
            assert(cs@.take(k + 1) =~= next);
        }
        let c = &cs[k];
        let day = chars_of(c.day.as_str());
        let mut p: usize = 0;
        while p < out.len() && less_text(&chars_of(out[p].day.as_str()), &day)
            invariant
                p <= out@.len(),
                day@ == c.day@,
                forall|i: int| 0 <= i < p ==> text_before(#[trigger] out@[i].day@, day@),
            decreases out@.len() - p,
        {
            p = p + 1;
        }
        let ghost before = out@;
        if p < out.len() && same_chars(&chars_of(out[p].day.as_str()), &day) {
            // The day is known: its sums grow.
            proof {
                assert(sums_for(next, c.day@) == (sums_for(prev, c.day@).0 + c.modrinth, sums_for(prev, c.day@).1 + c.curseforge));
                assert(carries(before[p as int], sums_for(prev, before[p as int].day@)));
            }
            let m = match out[p].modrinth.checked_add(c.modrinth) {
                Some(v) => v,
                None => {
                    proof {
                        assert(!fits_pair(sums_for(cs@.take(k + 1), cs@[k as int].day@)));
                    }
                    return None;
                },
            };
            let cf = match out[p].curseforge.checked_add(c.curseforge) {
                Some(v) => v,
                None => {
                    proof {
                        assert(!fits_pair(sums_for(cs@.take(k + 1), cs@[k as int].day@)));
                    }
                    return None;
                },
            };
            let point = TimelinePoint { day: c.day.clone(), modrinth: m, curseforge: cf };
            out.set(p, point);
            proof {
                assert forall|i: int, j: int| 0 <= i < j < out@.len() implies text_before(
                    #[trigger] out@[i].day@,
                    #[trigger] out@[j].day@,
                ) by {
                    assert(out@[i].day@ == before[i].day@);
                    assert(out@[j].day@ == before[j].day@);
                }
                assert forall|d: Seq<char>| mentions(next, d) <==> mentions(out@, d) by {
                    if mentions(next, d) {
                        let i = choose|i: int| 0 <= i < next.len() && #[trigger] next[i].day@ == d;
                        if i < prev.len() {
                            assert(prev[i].day@ == d);
                            assert(mentions(prev, d));
                            assert(mentions(before, d));
                            let j = choose|j: int| 0 <= j < before.len() && #[trigger] before[j].day@ == d;
                            assert(out@[j].day@ == d);
                        } else {
                            assert(out@[p as int].day@ == d);
                        }
                    }
                    if mentions(out@, d) {
                        let j = choose|j: int| 0 <= j < out@.len() && #[trigger] out@[j].day@ == d;
                        assert(before[j].day@ == d);
                        assert(mentions(before, d));
                        let i = choose|i: int| 0 <= i < prev.len() && #[trigger] prev[i].day@ == d;
                        assert(next[i].day@ == d);
                    }
                }
                assert forall|i: int| 0 <= i < out@.len() implies carries(#[trigger] out@[i], sums_for(next, out@[i].day@)) by {
                    if i != p {
                        assert(out@[i] == before[i]);
                        if before[i].day@ == c.day@ {
                            if i < p {
                                lemma_text_before_irreflexive(c.day@);
                            } else {
                                assert(text_before(before[p as int].day@, before[i].day@));
                                lemma_text_before_irreflexive(c.day@);
                            }
                        }
                    }
                }
            }
        } else {
            // A new day, between those that sort before it and those after.
            proof {
                assert(!mentions(prev, c.day@)) by {
                    if mentions(prev, c.day@) {
                        assert(mentions(before, c.day@));
                        let j = choose|j: int| 0 <= j < before.len() && #[trigger] before[j].day@ == c.day@;
                        if j < p {
                            lemma_text_before_irreflexive(c.day@);
                        } else {
                            if p < before.len() {
                                lemma_text_before_total(before[p as int].day@, c.day@);
                                if j > p {
                                    lemma_text_before_transitive(c.day@, before[p as int].day@, before[j].day@);
                                    lemma_text_before_irreflexive(c.day@);
                                }
                            }
                        }
                    }
                }
                lemma_unmentioned_sums(prev, c.day@);
                assert(sums_for(next, c.day@) == (c.modrinth as int, c.curseforge as int));
                if p < before.len() {
                    lemma_text_before_total(before[p as int].day@, c.day@);
                }
            }
            let point = TimelinePoint { day: c.day.clone(), modrinth: c.modrinth, curseforge: c.curseforge };
            out.insert(p, point);
            proof {
                assert(out@ == before.insert(p as int, out@[p as int]));
                assert forall|i: int, j: int| 0 <= i < j < out@.len() implies text_before(
                    #[trigger] out@[i].day@,
                    #[trigger] out@[j].day@,
                ) by {
                    if j < p {
                        assert(out@[i] == before[i]);
                        assert(out@[j] == before[j]);
                    } else if j == p {
                        assert(out@[i] == before[i]);
                    } else if i == p {
                        assert(out@[j] == before[j - 1]);
                        if j - 1 > p {
                            lemma_text_before_transitive(c.day@, before[p as int].day@, before[j - 1].day@);
                        }
                    } else if i < p {
                        assert(out@[i] == before[i]);
                        assert(out@[j] == before[j - 1]);
                        if i < j - 1 {
                        } else {
                            assert(i == j - 1);
                            assert(false);
                        }
                    } else {
                        assert(out@[i] == before[i - 1]);
                        assert(out@[j] == before[j - 1]);
                    }
                }
                assert forall|d: Seq<char>| mentions(next, d) <==> mentions(out@, d) by {
                    if mentions(next, d) {
                        let i = choose|i: int| 0 <= i < next.len() && #[trigger] next[i].day@ == d;
                        if i < prev.len() {
                            assert(prev[i].day@ == d);
                            assert(mentions(prev, d));
                            assert(mentions(before, d));
                            let j = choose|j: int| 0 <= j < before.len() && #[trigger] before[j].day@ == d;
                            if j < p {
                                assert(out@[j].day@ == d);
                            } else {
                                assert(out@[j + 1].day@ == d);
                            }
                        } else {
                            assert(out@[p as int].day@ == d);
                        }
                    }
                    if mentions(out@, d) {
                        let j = choose|j: int| 0 <= j < out@.len() && #[trigger] out@[j].day@ == d;
                        if j == p {
                            assert(next[k as int].day@ == d);
                        } else {
                            let j0 = if j < p { j } else { j - 1 };
                            assert(before[j0].day@ == d);
                            assert(mentions(before, d));
                            let i = choose|i: int| 0 <= i < prev.len() && #[trigger] prev[i].day@ == d;
                            assert(next[i].day@ == d);
                        }
                    }
                }
                assert forall|i: int| 0 <= i < out@.len() implies carries(#[trigger] out@[i], sums_for(next, out@[i].day@)) by {
                    if i != p {
                        let i0 = if i < p { i } else { i - 1 };
                        assert(out@[i] == before[i0]);
                        if before[i0].day@ == c.day@ {
                            assert(mentions(before, c.day@));
                        }
                    }
                }
            }
        }
        proof {
            assert(fits_pair(sums_for(cs@.take(k + 1), cs@[k as int].day@)));
        }
        k = k + 1;
    }
    assert(cs@.subrange(0, cs@.len() as int) =~= cs@);
    Some(out)
}

/// Gathers counts day by day, days in order.
pub fn group_by_day(cs: &Vec<TimelinePoint>) -> (r: Vec<TimelinePoint>)
    requires
        running_sums_fit(cs@),
    ensures
        grouped(r@, cs@),
{
    match group_checked(cs) {
        Some(v) => v,
        None => vstd::pervasive::unreached(),
    }
}

/// The downloads of one platform on one day, summed by the base.
#[derive(Debug, Clone)]
pub struct PlatformDay {
    pub platform: String,
    pub day: String,
    pub downloads: i64,
}

/// The counts that the daily rows give: a Modrinth row feeds the Modrinth
/// series, a CurseForge row (a day brought back from the author dashboard)
/// the CurseForge one, each while its platform is shown.
pub open spec fn row_counts(rows: Seq<PlatformDay>, filter: PlatformFilter) -> Seq<TimelinePoint>
    decreases rows.len(),
{
    if rows.len() == 0 {
        seq![]
    } else {
        let base = row_counts(rows.drop_last(), filter);
        let r = rows.last();
        match platform_named(r.platform@) {
            Platform::Modrinth => if filter.modrinth {
                base.push(TimelinePoint { day: r.day, modrinth: r.downloads, curseforge: 0 })
            } else {
                base
            },
            Platform::CurseForge => if filter.curseforge {
                base.push(TimelinePoint { day: r.day, modrinth: 0, curseforge: r.downloads })
            } else {
                base
            },
        }
    }
}

/// A CurseForge day measured by a daily row.
pub open spec fn measured(rows: Seq<PlatformDay>, d: Seq<char>) -> bool {
    exists|i: int|
        0 <= i < rows.len() && platform_named(rows[i].platform@) == Platform::CurseForge
            && #[trigger] rows[i].day@ == d
}

/// The day is in the window `[from, to)`.
pub open spec fn in_window(d: Seq<char>, from: Seq<char>, to: Seq<char>) -> bool {
    !text_before(d, from) && text_before(d, to)
}

/// The gains between CurseForge snapshots that count: those of the window,
/// on days that no daily row measured. A measured day wins over the gap
/// between two snapshots; otherwise the day would be counted twice.
pub open spec fn gap_counts(deltas: Seq<SnapshotDelta>, rows: Seq<PlatformDay>, from: Seq<char>, to: Seq<char>) -> Seq<TimelinePoint>
    decreases deltas.len(),
{
    if deltas.len() == 0 {
        seq![]
    } else {
        let base = gap_counts(deltas.drop_last(), rows, from, to);
        let d = deltas.last();
        if in_window(d.day@, from, to) && !measured(rows, d.day@) {
            base.push(TimelinePoint { day: d.day, modrinth: 0, curseforge: d.delta })
        } else {
            base
        }
    }
}

/// Every count of the timeline.
pub open spec fn timeline_counts(
    rows: Seq<PlatformDay>,
    deltas: Seq<SnapshotDelta>,
    from: Seq<char>,
    to: Seq<char>,
    filter: PlatformFilter,
) -> Seq<TimelinePoint> {
    row_counts(rows, filter) + if filter.curseforge {
        gap_counts(deltas, rows, from, to)
    } else {
        seq![]
    }
}

fn is_measured(rows: &Vec<PlatformDay>, day: &[char]) -> (r: bool)
    ensures
        r == measured(rows@, day@),
{
    let mut k: usize = 0;
    while k < rows.len()
        invariant
            k <= rows@.len(),
            forall|i: int|
                0 <= i < k ==> !(platform_named(rows@[i].platform@) == Platform::CurseForge
                    && #[trigger] rows@[i].day@ == day@),
        decreases rows@.len() - k,
    {
        let p = Platform::from_str_lossy(rows[k].platform.as_str());
        let cf = match p {
            Platform::CurseForge => true,
            Platform::Modrinth => false,
        };
        if cf && same_chars(&chars_of(rows[k].day.as_str()), day) {
            return true;
        }
        k = k + 1;
    }
    false
}

/// Downloads day by day over `[from, to)`, the two platforms side by side,
/// days in order. `rows` are the daily sums of the base for the window,
/// `deltas` the gains between CurseForge snapshots.
pub fn timeline(
    rows: &Vec<PlatformDay>,
    deltas: &Vec<SnapshotDelta>,
    from: &str,
    to: &str,
    filter: PlatformFilter,
) -> (r: Vec<TimelinePoint>)
    requires
        running_sums_fit(timeline_counts(rows@, deltas@, from@, to@, filter)),
    ensures
        grouped(r@, timeline_counts(rows@, deltas@, from@, to@, filter)),
{
    group_by_day(&timeline_points(rows, deltas, from, to, filter))
}

/// The timeline, or `None` when a running sum of a day leaves what an
/// `i64` holds.
pub fn checked_timeline(
    rows: &Vec<PlatformDay>,
    deltas: &Vec<SnapshotDelta>,
    from: &str,
    to: &str,
    filter: PlatformFilter,
) -> (r: Option<Vec<TimelinePoint>>)
    ensures
        r is Some <==> running_sums_fit(timeline_counts(rows@, deltas@, from@, to@, filter)),
        r matches Some(v) ==> grouped(v@, timeline_counts(rows@, deltas@, from@, to@, filter)),
{
    group_checked(&timeline_points(rows, deltas, from, to, filter))
}

/// The counts that the timeline groups: the rows of the platforms shown,
/// then the snapshot gains of the days CurseForge did not measure.
fn timeline_points(
    rows: &Vec<PlatformDay>,
    deltas: &Vec<SnapshotDelta>,
    from: &str,
    to: &str,
    filter: PlatformFilter,
) -> (counts: Vec<TimelinePoint>)
    ensures
        counts@ == timeline_counts(rows@, deltas@, from@, to@, filter),
{
    let mut counts: Vec<TimelinePoint> = Vec::new();
    let mut k: usize = 0;
    assert(rows@.subrange(0, 0) =~= Seq::<PlatformDay>::empty());
    while k < rows.len()
        invariant
            k <= rows@.len(),
            counts@ == row_counts(rows@.subrange(0, k as int), filter),
        decreases rows@.len() - k,
    {
        proof {
            let p = rows@.subrange(0, k + 1);
            assert(p.drop_last() =~= rows@.subrange(0, k as int));
            assert(p.last() == rows@[k as int]);
        }
        let r = &rows[k];
        match Platform::from_str_lossy(r.platform.as_str()) {
            Platform::Modrinth => if filter.modrinth {
                counts.push(TimelinePoint { day: r.day.clone(), modrinth: r.downloads, curseforge: 0 });
            },
            Platform::CurseForge => if filter.curseforge {
                counts.push(TimelinePoint { day: r.day.clone(), modrinth: 0, curseforge: r.downloads });
            },
        }
        k = k + 1;
    }
    assert(rows@.subrange(0, rows@.len() as int) =~= rows@);
    let ghost from_rows = counts@;
    if filter.curseforge {
        let start = chars_of(from);
        let end = chars_of(to);
        let mut j: usize = 0;
        assert(deltas@.subrange(0, 0) =~= Seq::<SnapshotDelta>::empty());
        while j < deltas.len()
            invariant
                j <= deltas@.len(),
                start@ == from@,
                end@ == to@,
                counts@ == from_rows + gap_counts(deltas@.subrange(0, j as int), rows@, from@, to@),
            decreases deltas@.len() - j,
        {
            proof {
                let p = deltas@.subrange(0, j + 1);
                assert(p.drop_last() =~= deltas@.subrange(0, j as int));
                assert(p.last() == deltas@[j as int]);
            }
            let d = &deltas[j];
            let day = chars_of(d.day.as_str());
            if !less_text(&day, &start) && less_text(&day, &end) && !is_measured(rows, &day) {
                let ghost before = counts@;
                counts.push(TimelinePoint { day: d.day.clone(), modrinth: 0, curseforge: d.delta });
                proof {
                    assert(counts@ =~= from_rows + gap_counts(deltas@.subrange(0, j + 1), rows@, from@, to@));
                }
            }
            j = j + 1;
        }
        assert(deltas@.subrange(0, deltas@.len() as int) =~= deltas@);
    } else {
        assert(counts@ =~= timeline_counts(rows@, deltas@, from@, to@, filter));
    }
    counts
}

proof fn lemma_sums_of_concat(a: Seq<TimelinePoint>, b: Seq<TimelinePoint>, d: Seq<char>)
    ensures
        sums_for(a + b, d).0 == sums_for(a, d).0 + sums_for(b, d).0,
        sums_for(a + b, d).1 == sums_for(a, d).1 + sums_for(b, d).1,
    decreases b.len(),
{
    if b.len() == 0 {
        assert(a + b =~= a);
    } else {
        lemma_sums_of_concat(a, b.drop_last(), d);
        assert((a + b).drop_last() =~= a + b.drop_last());
        assert((a + b).last() == b.last());
    }
}

proof fn lemma_no_modrinth_counts(rows: Seq<PlatformDay>, filter: PlatformFilter, d: Seq<char>)
    requires
        !filter.modrinth,
    ensures
        sums_for(row_counts(rows, filter), d).0 == 0,
    decreases rows.len(),
{
    if rows.len() > 0 {
        lemma_no_modrinth_counts(rows.drop_last(), filter, d);
        let base = row_counts(rows.drop_last(), filter);
        let cs = row_counts(rows, filter);
        if cs.len() > base.len() {
            assert(cs.drop_last() =~= base);
        }
    }
}

proof fn lemma_gaps_carry_no_modrinth(deltas: Seq<SnapshotDelta>, rows: Seq<PlatformDay>, from: Seq<char>, to: Seq<char>, d: Seq<char>)
    ensures
        sums_for(gap_counts(deltas, rows, from, to), d).0 == 0,
    decreases deltas.len(),
{
    if deltas.len() > 0 {
        lemma_gaps_carry_no_modrinth(deltas.drop_last(), rows, from, to, d);
        let base = gap_counts(deltas.drop_last(), rows, from, to);
        let cs = gap_counts(deltas, rows, from, to);
        if cs.len() > base.len() {
            assert(cs.drop_last() =~= base);
        }
    }
}

proof fn lemma_no_gap_on_measured_days(deltas: Seq<SnapshotDelta>, rows: Seq<PlatformDay>, from: Seq<char>, to: Seq<char>, d: Seq<char>)
    requires
        measured(rows, d),
    ensures
        sums_for(gap_counts(deltas, rows, from, to), d) == (0int, 0int),
    decreases deltas.len(),
{
    if deltas.len() > 0 {
        lemma_no_gap_on_measured_days(deltas.drop_last(), rows, from, to, d);
        let base = gap_counts(deltas.drop_last(), rows, from, to);
        let cs = gap_counts(deltas, rows, from, to);
        if cs.len() > base.len() {
            assert(cs.drop_last() =~= base);
            assert(cs.last().day@ != d);
        }
    }
}

/// Hiding Modrinth empties its series: every day of the timeline then
/// counts no Modrinth download.
pub proof fn hiding_modrinth_empties_its_series(
    rows: Seq<PlatformDay>,
    deltas: Seq<SnapshotDelta>,
    from: Seq<char>,
    to: Seq<char>,
    filter: PlatformFilter,
    out: Seq<TimelinePoint>,
)
    requires
        !filter.modrinth,
        grouped(out, timeline_counts(rows, deltas, from, to, filter)),
    ensures
        forall|i: int| 0 <= i < out.len() ==> #[trigger] out[i].modrinth == 0,
{
    assert forall|i: int| 0 <= i < out.len() implies #[trigger] out[i].modrinth == 0 by {
        let d = out[i].day@;
        let extra = if filter.curseforge { gap_counts(deltas, rows, from, to) } else { Seq::<TimelinePoint>::empty() };
        lemma_sums_of_concat(row_counts(rows, filter), extra, d);
        lemma_no_modrinth_counts(rows, filter, d);
        lemma_gaps_carry_no_modrinth(deltas, rows, from, to, d);
        assert(carries(out[i], sums_for(timeline_counts(rows, deltas, from, to, filter), d)));
    }
}

proof fn lemma_no_curseforge_counts(rows: Seq<PlatformDay>, filter: PlatformFilter, d: Seq<char>)
    requires
        !filter.curseforge,
    ensures
        sums_for(row_counts(rows, filter), d).1 == 0,
    decreases rows.len(),
{
    if rows.len() > 0 {
        lemma_no_curseforge_counts(rows.drop_last(), filter, d);
        let base = row_counts(rows.drop_last(), filter);
        let cs = row_counts(rows, filter);
        if cs.len() > base.len() {
            assert(cs.drop_last() =~= base);
        }
    }
}

/// Hiding CurseForge empties its series: every day of the timeline then
/// counts no CurseForge download, neither measured nor rebuilt from the
/// snapshots.
pub proof fn hiding_curseforge_empties_its_series(
    rows: Seq<PlatformDay>,
    deltas: Seq<SnapshotDelta>,
    from: Seq<char>,
    to: Seq<char>,
    filter: PlatformFilter,
    out: Seq<TimelinePoint>,
)
    requires
        !filter.curseforge,
        grouped(out, timeline_counts(rows, deltas, from, to, filter)),
    ensures
        forall|i: int| 0 <= i < out.len() ==> #[trigger] out[i].curseforge == 0,
{
    assert forall|i: int| 0 <= i < out.len() implies #[trigger] out[i].curseforge == 0 by {
        let d = out[i].day@;
        assert(timeline_counts(rows, deltas, from, to, filter) =~= row_counts(rows, filter));
        lemma_no_curseforge_counts(rows, filter, d);
        assert(carries(out[i], sums_for(timeline_counts(rows, deltas, from, to, filter), d)));
    }
}

proof fn lemma_row_counts_in_window(rows: Seq<PlatformDay>, filter: PlatformFilter, from: Seq<char>, to: Seq<char>)
    requires
        forall|i: int| 0 <= i < rows.len() ==> in_window(#[trigger] rows[i].day@, from, to),
    ensures
        forall|j: int| 0 <= j < row_counts(rows, filter).len() ==> in_window(#[trigger] row_counts(rows, filter)[j].day@, from, to),
    decreases rows.len(),
{
    if rows.len() > 0 {
        assert(forall|i: int| 0 <= i < rows.drop_last().len() ==> rows.drop_last()[i] == rows[i]);
        lemma_row_counts_in_window(rows.drop_last(), filter, from, to);
        let base = row_counts(rows.drop_last(), filter);
        let cs = row_counts(rows, filter);
        let r = rows.last();
        assert(r == rows[rows.len() - 1]);
        assert(in_window(r.day@, from, to));
        assert(cs == base || (cs.len() == base.len() + 1 && cs.drop_last() == base && cs.last().day == r.day)) by {
            if cs != base {
                assert(cs.drop_last() =~= base);
            }
        }
        assert forall|j: int| 0 <= j < cs.len() implies in_window(#[trigger] cs[j].day@, from, to) by {
            if j < base.len() {
                assert(cs[j] == base[j]);
                assert(in_window(base[j].day@, from, to));
            } else {
                assert(cs[j] == cs.last());
                assert(cs.len() == base.len() + 1);
            }
        }
    }
}

proof fn lemma_gap_counts_in_window(deltas: Seq<SnapshotDelta>, rows: Seq<PlatformDay>, from: Seq<char>, to: Seq<char>)
    ensures
        forall|j: int| 0 <= j < gap_counts(deltas, rows, from, to).len() ==> in_window(
            #[trigger] gap_counts(deltas, rows, from, to)[j].day@,
            from,
            to,
        ),
    decreases deltas.len(),
{
    if deltas.len() > 0 {
        lemma_gap_counts_in_window(deltas.drop_last(), rows, from, to);
        let base = gap_counts(deltas.drop_last(), rows, from, to);
        let cs = gap_counts(deltas, rows, from, to);
        let d = deltas.last();
        assert(cs == base || (cs.len() == base.len() + 1 && cs.drop_last() == base && cs.last().day == d.day && in_window(d.day@, from, to))) by {
            if cs != base {
                assert(cs.drop_last() =~= base);
            }
        }
        assert forall|j: int| 0 <= j < cs.len() implies in_window(#[trigger] cs[j].day@, from, to) by {
            if j < base.len() {
                assert(cs[j] == base[j]);
                assert(in_window(base[j].day@, from, to));
            } else {
                assert(cs[j] == cs.last());
                assert(cs.len() == base.len() + 1);
            }
        }
    }
}

/// The timeline runs day by day in order, each day once; when the daily rows
/// read all lie in `[from, to)`, so does every day of the timeline, the days
/// rebuilt from the snapshots included.
pub proof fn the_timeline_runs_in_order_inside_the_window(
    rows: Seq<PlatformDay>,
    deltas: Seq<SnapshotDelta>,
    from: Seq<char>,
    to: Seq<char>,
    filter: PlatformFilter,
    out: Seq<TimelinePoint>,
)
    requires
        grouped(out, timeline_counts(rows, deltas, from, to, filter)),
    ensures
        forall|i: int, j: int| 0 <= i < j < out.len() ==> text_before(#[trigger] out[i].day@, #[trigger] out[j].day@),
        (forall|i: int| 0 <= i < rows.len() ==> in_window(#[trigger] rows[i].day@, from, to)) ==> forall|i: int|
            0 <= i < out.len() ==> in_window(#[trigger] out[i].day@, from, to),
{
    if forall|i: int| 0 <= i < rows.len() ==> in_window(#[trigger] rows[i].day@, from, to) {
        let a = row_counts(rows, filter);
        let b = if filter.curseforge { gap_counts(deltas, rows, from, to) } else { Seq::<TimelinePoint>::empty() };
        let cs = timeline_counts(rows, deltas, from, to, filter);
        assert(cs == a + b);
        lemma_row_counts_in_window(rows, filter, from, to);
        lemma_gap_counts_in_window(deltas, rows, from, to);
        assert forall|i: int| 0 <= i < out.len() implies in_window(#[trigger] out[i].day@, from, to) by {
            let d = out[i].day@;
            assert(mentions(out, d));
            assert(mentions(cs, d));
            let j = choose|j: int| 0 <= j < cs.len() && #[trigger] cs[j].day@ == d;
            if j < a.len() {
                assert(cs[j] == a[j]);
                assert(in_window(a[j].day@, from, to));
            } else {
                assert(cs[j] == b[j - a.len()]);
                assert(filter.curseforge);
                assert(in_window(b[j - a.len()].day@, from, to));
            }
        }
    }
}

/// A CurseForge day brought back from the dashboard wins over the gap
/// between two snapshots: on a measured day, the CurseForge count is the sum
/// of the daily rows alone.
pub proof fn an_imported_curseforge_day_beats_the_snapshot_gap(
    rows: Seq<PlatformDay>,
    deltas: Seq<SnapshotDelta>,
    from: Seq<char>,
    to: Seq<char>,
    filter: PlatformFilter,
    d: Seq<char>,
)
    requires
        measured(rows, d),
    ensures
        sums_for(timeline_counts(rows, deltas, from, to, filter), d) == sums_for(row_counts(rows, filter), d),
{
    let extra = if filter.curseforge { gap_counts(deltas, rows, from, to) } else { Seq::<TimelinePoint>::empty() };
    lemma_sums_of_concat(row_counts(rows, filter), extra, d);
    lemma_no_gap_on_measured_days(deltas, rows, from, to, d);
}

/// The downloads that the daily rows of platform `p` give on day `d`.
pub open spec fn platform_downloads_on(rows: Seq<PlatformDay>, p: Platform, d: Seq<char>) -> int
    decreases rows.len(),
{
    if rows.len() == 0 {
        0
    } else {
        platform_downloads_on(rows.drop_last(), p, d) + if platform_named(rows.last().platform@) == p
            && rows.last().day@ == d {
            rows.last().downloads as int
        } else {
            0
        }
    }
}

/// The gains between snapshots recorded for day `d`, all projects together.
pub open spec fn gains_on(deltas: Seq<SnapshotDelta>, d: Seq<char>) -> int
    decreases deltas.len(),
{
    if deltas.len() == 0 {
        0
    } else {
        gains_on(deltas.drop_last(), d) + if deltas.last().day@ == d {
            deltas.last().delta as int
        } else {
            0
        }
    }
}

proof fn lemma_row_sums(rows: Seq<PlatformDay>, filter: PlatformFilter, d: Seq<char>)
    ensures
        sums_for(row_counts(rows, filter), d).0 == if filter.modrinth {
            platform_downloads_on(rows, Platform::Modrinth, d)
        } else {
            0
        },
        sums_for(row_counts(rows, filter), d).1 == if filter.curseforge {
            platform_downloads_on(rows, Platform::CurseForge, d)
        } else {
            0
        },
    decreases rows.len(),
{
    if rows.len() > 0 {
        lemma_row_sums(rows.drop_last(), filter, d);
        let base = row_counts(rows.drop_last(), filter);
        let cs = row_counts(rows, filter);
        if cs.len() > base.len() {
            assert(cs.drop_last() =~= base);
        }
    }
}

proof fn lemma_gap_sums(deltas: Seq<SnapshotDelta>, rows: Seq<PlatformDay>, from: Seq<char>, to: Seq<char>, d: Seq<char>)
    ensures
        sums_for(gap_counts(deltas, rows, from, to), d).1 == if in_window(d, from, to) && !measured(rows, d) {
            gains_on(deltas, d)
        } else {
            0
        },
    decreases deltas.len(),
{
    if deltas.len() > 0 {
        lemma_gap_sums(deltas.drop_last(), rows, from, to, d);
        let base = gap_counts(deltas.drop_last(), rows, from, to);
        let cs = gap_counts(deltas, rows, from, to);
        if cs.len() > base.len() {
            assert(cs.drop_last() =~= base);
        }
    }
}

/// What the timeline says of any day `d`: the Modrinth downloads of its daily
/// rows; and the CurseForge downloads of its daily rows, to which the gains
/// between snapshots recorded for `d` are added when `d` lies in the window
/// and no CurseForge row measures that very day. A hidden platform counts
/// nothing.
pub proof fn each_day_counts_its_rows_and_its_unmeasured_gains(
    rows: Seq<PlatformDay>,
    deltas: Seq<SnapshotDelta>,
    from: Seq<char>,
    to: Seq<char>,
    filter: PlatformFilter,
    d: Seq<char>,
)
    ensures
        sums_for(timeline_counts(rows, deltas, from, to, filter), d).0 == if filter.modrinth {
            platform_downloads_on(rows, Platform::Modrinth, d)
        } else {
            0
        },
        sums_for(timeline_counts(rows, deltas, from, to, filter), d).1 == if filter.curseforge {
            platform_downloads_on(rows, Platform::CurseForge, d) + if in_window(d, from, to) && !(exists|i: int|
                0 <= i < rows.len() && platform_named(rows[i].platform@) == Platform::CurseForge
                    && #[trigger] rows[i].day@ == d) {
                gains_on(deltas, d)
            } else {
                0
            }
        } else {
            0
        },
{
    let extra = if filter.curseforge { gap_counts(deltas, rows, from, to) } else { Seq::<TimelinePoint>::empty() };
    lemma_sums_of_concat(row_counts(rows, filter), extra, d);
    lemma_row_sums(rows, filter, d);
    lemma_gap_sums(deltas, rows, from, to, d);
    lemma_gaps_carry_no_modrinth(deltas, rows, from, to, d);
}

// ---------------------------------------------------------------------------
// Downloads mod by mod.

/// The downloads of a project on a day, as the base gives them.
#[derive(Debug, Clone)]
pub struct ProjectDay {
    pub project_id: i64,
    pub day: String,
    pub downloads: i64,
}

/// A line of the table of mods: a Modrinth project with its CurseForge twin,
/// or a CurseForge project alone. The confidence of the pairing, a float, is
/// added by the caller that owns the links.
#[derive(Debug, Clone)]
pub struct ProjectSummary {
    pub key: String,
    pub title: String,
    pub icon_url: Option<String>,
    pub modrinth_id: Option<i64>,
    pub curseforge_id: Option<i64>,
    /// Identifiers as the platforms know them.
    pub modrinth_ext_id: Option<String>,
    pub curseforge_ext_id: Option<i64>,
    pub modrinth_downloads: i64,
    pub curseforge_downloads: i64,
    pub followers: i64,
    /// Downloads day by day over the axis of the window.
    pub spark: Vec<i64>,
}

/// The downloads of project `pid` on day `d`.
pub open spec fn day_total(daily: Seq<ProjectDay>, pid: i64, d: Seq<char>) -> int
    decreases daily.len(),
{
    if daily.len() == 0 {
        0
    } else {
        day_total(daily.drop_last(), pid, d) + if daily.last().project_id == pid && daily.last().day@ == d {
            daily.last().downloads as int
        } else {
            0
        }
    }
}

/// The gains of CurseForge project `pid` on day `d`, inside the window.
pub open spec fn gap_sum(deltas: Seq<SnapshotDelta>, pid: i64, d: Seq<char>, from: Seq<char>, to: Seq<char>) -> int
    decreases deltas.len(),
{
    if deltas.len() == 0 {
        0
    } else {
        gap_sum(deltas.drop_last(), pid, d, from, to) + if deltas.last().project_id == pid
            && deltas.last().day@ == d && in_window(d, from, to) {
            deltas.last().delta as int
        } else {
            0
        }
    }
}

/// The last gain given for CurseForge project `pid` on day `d`, inside the window.
pub open spec fn gap_last(deltas: Seq<SnapshotDelta>, pid: i64, d: Seq<char>, from: Seq<char>, to: Seq<char>) -> int
    decreases deltas.len(),
{
    if deltas.len() == 0 {
        0
    } else if deltas.last().project_id == pid && deltas.last().day@ == d && in_window(d, from, to) {
        deltas.last().delta as int
    } else {
        gap_last(deltas.drop_last(), pid, d, from, to)
    }
}

/// The last project of the list with that identifier.
pub open spec fn with_id(projects: Seq<ProjectRow>, id: i64) -> Option<ProjectRow>
    decreases projects.len(),
{
    if projects.len() == 0 {
        None
    } else if projects.last().id == id {
        Some(projects.last())
    } else {
        with_id(projects.drop_last(), id)
    }
}

/// The first link of a Modrinth project.
pub open spec fn modrinth_link(links: Seq<Link>, id: i64) -> Option<Link>
    decreases links.len(),
{
    if links.len() == 0 {
        None
    } else if links[0].modrinth_project_id == id {
        Some(links[0])
    } else {
        modrinth_link(links.drop_first(), id)
    }
}

/// The CurseForge twin of a Modrinth project.
pub open spec fn twin_of(projects: Seq<ProjectRow>, links: Seq<Link>, m: ProjectRow) -> Option<ProjectRow> {
    match modrinth_link(links, m.id) {
        Some(l) => with_id(projects, l.cf_project_id),
        None => None,
    }
}

/// A CurseForge project already shown as the twin of a Modrinth one.
pub open spec fn consumed(projects: Seq<ProjectRow>, links: Seq<Link>, id: i64) -> bool {
    exists|i: int|
        0 <= i < projects.len() && projects[i].platform == Platform::Modrinth && (#[trigger] twin_of(
            projects,
            links,
            projects[i],
        ) matches Some(t) && t.id == id)
}

/// Where a line comes from: its project, its twin, and whether it is a
/// Modrinth line.
pub open spec fn modrinth_sources(rows: Seq<ProjectRow>, projects: Seq<ProjectRow>, links: Seq<Link>, filter: PlatformFilter) -> Seq<(ProjectRow, Option<ProjectRow>, bool)>
    decreases rows.len(),
{
    if rows.len() == 0 {
        seq![]
    } else {
        let base = modrinth_sources(rows.drop_last(), projects, links, filter);
        let m = rows.last();
        if m.platform == Platform::Modrinth && (filter.modrinth || twin_of(projects, links, m) is Some) {
            base.push((m, twin_of(projects, links, m), true))
        } else {
            base
        }
    }
}

pub open spec fn curseforge_sources(rows: Seq<ProjectRow>, projects: Seq<ProjectRow>, links: Seq<Link>) -> Seq<(ProjectRow, Option<ProjectRow>, bool)>
    decreases rows.len(),
{
    if rows.len() == 0 {
        seq![]
    } else {
        let base = curseforge_sources(rows.drop_last(), projects, links);
        let c = rows.last();
        if c.platform == Platform::CurseForge && !consumed(projects, links, c.id) {
            base.push((c, None, false))
        } else {
            base
        }
    }
}

/// The lines of the table before they are ordered: the Modrinth projects
/// (one whose only platform is hidden disappears: left at zero it would be an
/// empty line), then the CurseForge projects that no Modrinth one took.
pub open spec fn line_sources(projects: Seq<ProjectRow>, links: Seq<Link>, filter: PlatformFilter) -> Seq<(ProjectRow, Option<ProjectRow>, bool)> {
    modrinth_sources(projects, projects, links, filter) + if filter.curseforge {
        curseforge_sources(projects, projects, links)
    } else {
        seq![]
    }
}

/// The count of a line on day `d`.
pub open spec fn line_value(
    src: (ProjectRow, Option<ProjectRow>, bool),
    daily: Seq<ProjectDay>,
    deltas: Seq<SnapshotDelta>,
    from: Seq<char>,
    to: Seq<char>,
    filter: PlatformFilter,
    d: Seq<char>,
) -> int {
    if src.2 {
        (if filter.modrinth { day_total(daily, src.0.id, d) } else { 0 }) + match src.1 {
            Some(c) => if filter.curseforge { gap_sum(deltas, c.id, d, from, to) } else { 0 },
            None => 0,
        }
    } else {
        gap_last(deltas, src.0.id, d, from, to)
    }
}

pub open spec fn text_view_opt(o: Option<String>) -> Option<Seq<char>> {
    match o {
        Some(s) => Some(s@),
        None => None,
    }
}

/// The line says what its source gives.
pub open spec fn describes(
    s: ProjectSummary,
    src: (ProjectRow, Option<ProjectRow>, bool),
    daily: Seq<ProjectDay>,
    deltas: Seq<SnapshotDelta>,
    axis: Seq<Seq<char>>,
    from: Seq<char>,
    to: Seq<char>,
    filter: PlatformFilter,
) -> bool {
    let row = src.0;
    &&& s.title@ == row.title@
    &&& s.followers == row.followers
    &&& s.spark@.len() == axis.len()
    &&& forall|i: int| 0 <= i < axis.len() ==> #[trigger] s.spark@[i] as int == line_value(src, daily, deltas, from, to, filter, axis[i])
    &&& if src.2 {
        &&& s.key@ == seq!['m'] + crate::text::signed_decimal(row.id as int)
        &&& s.modrinth_id == Some(row.id)
        &&& s.modrinth_ext_id matches Some(e) && e@ == row.ext_id@
        &&& s.modrinth_downloads == if filter.modrinth { row.total_downloads } else { 0 }
        &&& match src.1 {
            Some(c) => {
                &&& s.curseforge_id == Some(c.id)
                &&& s.curseforge_ext_id == integer_text(c.ext_id@)
                &&& s.curseforge_downloads == if filter.curseforge { c.total_downloads } else { 0 }
                &&& text_view_opt(s.icon_url) == match row.icon_url {
                    Some(u) => Some(u@),
                    None => text_view_opt(c.icon_url),
                }
            },
            None => {
                &&& s.curseforge_id is None
                &&& s.curseforge_ext_id is None
                &&& s.curseforge_downloads == 0
                &&& text_view_opt(s.icon_url) == text_view_opt(row.icon_url)
            },
        }
    } else {
        &&& s.key@ == seq!['c'] + crate::text::signed_decimal(row.id as int)
        &&& s.modrinth_id is None
        &&& s.modrinth_ext_id is None
        &&& s.curseforge_id == Some(row.id)
        &&& s.curseforge_ext_id == integer_text(row.ext_id@)
        &&& s.modrinth_downloads == 0
        &&& s.curseforge_downloads == row.total_downloads
        &&& text_view_opt(s.icon_url) == text_view_opt(row.icon_url)
    }
}

pub open spec fn summary_keyed(s: Seq<ProjectSummary>) -> Seq<(i128, ProjectSummary)> {
    s.map_values(|x: ProjectSummary| ((x.modrinth_downloads + x.curseforge_downloads) as i128, x))
}

/// The line's count fits an `i64` on every day of the axis.
pub open spec fn line_fits(
    src: (ProjectRow, Option<ProjectRow>, bool),
    daily: Seq<ProjectDay>,
    deltas: Seq<SnapshotDelta>,
    from: Seq<char>,
    to: Seq<char>,
    filter: PlatformFilter,
    axis: Seq<Seq<char>>,
) -> bool {
    forall|j: int| 0 <= j < axis.len() ==> i64::MIN <= #[trigger] line_value(src, daily, deltas, from, to, filter, axis[j]) <= i64::MAX
}

/// The count of every Modrinth project's line, twin included, fits an `i64`
/// on every day of the window: the sums where the table would overflow.
pub open spec fn sparks_fit(
    projects: Seq<ProjectRow>,
    links: Seq<Link>,
    daily: Seq<ProjectDay>,
    deltas: Seq<SnapshotDelta>,
    from: Seq<char>,
    to: Seq<char>,
    filter: PlatformFilter,
) -> bool {
    forall|k: int|
        0 <= k < projects.len() && projects[k].platform == Platform::Modrinth ==> line_fits(
            (#[trigger] projects[k], twin_of(projects, links, projects[k]), true),
            daily,
            deltas,
            from,
            to,
            filter,
            axis_of(from, to),
        )
}

/// The last gain given is one of the gains, or none.
proof fn lemma_gap_last_bound(deltas: Seq<SnapshotDelta>, pid: i64, d: Seq<char>, from: Seq<char>, to: Seq<char>)
    ensures
        i64::MIN <= gap_last(deltas, pid, d, from, to) <= i64::MAX,
    decreases deltas.len(),
{
    if deltas.len() > 0 {
        lemma_gap_last_bound(deltas.drop_last(), pid, d, from, to);
    }
}

fn day_total_of(daily: &Vec<ProjectDay>, pid: i64, day: &[char]) -> (r: i128)
    ensures
        r as int == day_total(daily@, pid, day@),
{
    let mut total: i128 = 0;
    let mut k: usize = 0;
    assert(daily@.subrange(0, 0) =~= Seq::<ProjectDay>::empty());
    while k < daily.len()
        invariant
            k <= daily@.len(),
            -(k as int) * 0x8000_0000_0000_0000 <= total <= (k as int) * 0x7fff_ffff_ffff_ffff,
            total as int == day_total(daily@.subrange(0, k as int), pid, day@),
        decreases daily@.len() - k,
    {
        proof {
            assert(daily@.subrange(0, k + 1).drop_last() =~= daily@.subrange(0, k as int));
            assert(daily@.subrange(0, k + 1).last() == daily@[k as int]);
        }
        if daily[k].project_id == pid && same_chars(&chars_of(daily[k].day.as_str()), day) {
            total = total + daily[k].downloads as i128;
        }
        k = k + 1;
    }
    assert(daily@.subrange(0, daily@.len() as int) =~= daily@);
    total
}

fn gap_of(deltas: &Vec<SnapshotDelta>, pid: i64, day: &[char], from: &[char], to: &[char], last_only: bool) -> (r: i128)
    ensures
        r as int == if last_only {
            gap_last(deltas@, pid, day@, from@, to@)
        } else {
            gap_sum(deltas@, pid, day@, from@, to@)
        },
{
    let inside = !less_text(day, from) && less_text(day, to);
    let mut value: i128 = 0;
    let mut k: usize = 0;
    assert(deltas@.subrange(0, 0) =~= Seq::<SnapshotDelta>::empty());
    while k < deltas.len()
        invariant
            k <= deltas@.len(),
            inside == in_window(day@, from@, to@),
            -(k as int) * 0x8000_0000_0000_0000 <= value <= (k as int) * 0x7fff_ffff_ffff_ffff,
            value as int == if last_only {
                gap_last(deltas@.subrange(0, k as int), pid, day@, from@, to@)
            } else {
                gap_sum(deltas@.subrange(0, k as int), pid, day@, from@, to@)
            },
        decreases deltas@.len() - k,
    {
        proof {
            assert(deltas@.subrange(0, k + 1).drop_last() =~= deltas@.subrange(0, k as int));
            assert(deltas@.subrange(0, k + 1).last() == deltas@[k as int]);
        }
        if inside && deltas[k].project_id == pid && same_chars(&chars_of(deltas[k].day.as_str()), day) {
            if last_only {
                value = deltas[k].delta as i128;
            } else {
                value = value + deltas[k].delta as i128;
            }
        }
        k = k + 1;
    }
    assert(deltas@.subrange(0, deltas@.len() as int) =~= deltas@);
    value
}

/// The counts of a line over the axis; `None` when one of them leaves what
/// an `i64` holds, which a CurseForge line never does.
fn spark_of(
    src: (&ProjectRow, Option<&ProjectRow>, bool),
    daily: &Vec<ProjectDay>,
    deltas: &Vec<SnapshotDelta>,
    axis: &Vec<String>,
    from: &[char],
    to: &[char],
    filter: PlatformFilter,
) -> (r: Option<Vec<i64>>)
    ensures
        r is Some <==> line_fits(
            (*src.0, match src.1 { Some(c) => Some(*c), None => None }, src.2),
            daily@,
            deltas@,
            from@,
            to@,
            filter,
            axis.deep_view(),
        ),
        !src.2 ==> r is Some,
        r matches Some(v) ==> v@.len() == axis@.len(),
        r matches Some(v) ==> forall|i: int| 0 <= i < axis@.len() ==> #[trigger] v@[i] as int == line_value(
            (*src.0, match src.1 { Some(c) => Some(*c), None => None }, src.2),
            daily@,
            deltas@,
            from@,
            to@,
            filter,
            axis@[i]@,
        ),
{
    let ghost full = (*src.0, match src.1 { Some(c) => Some(*c), None => None }, src.2);
    let ghost ax = axis.deep_view();
    let mut out: Vec<i64> = Vec::new();
    let mut k: usize = 0;
    while k < axis.len()
        invariant
            k <= axis@.len(),
            out@.len() == k,
            ax == axis.deep_view(),
            full == (*src.0, match src.1 { Some(c) => Some(*c), None => None }, src.2),
            forall|i: int| 0 <= i < k ==> #[trigger] out@[i] as int == line_value(full, daily@, deltas@, from@, to@, filter, axis@[i]@),
        decreases axis@.len() - k,
    {
        let day = chars_of(axis[k].as_str());
        assert(ax[k as int] == axis@[k as int]@);
        let v: i128 = if src.2 {
            let own: i128 = if filter.modrinth {
                day_total_of(daily, src.0.id, &day)
            } else {
                0
            };
            let twin: i128 = match src.1 {
                Some(c) => if filter.curseforge {
                    gap_of(deltas, c.id, &day, from, to, false)
                } else {
                    0
                },
                None => 0,
            };
            match own.checked_add(twin) {
                Some(v) => v,
                None => {
                    proof {
                        assert(!(i64::MIN <= line_value(full, daily@, deltas@, from@, to@, filter, ax[k as int]) <= i64::MAX));
                    }
                    return None;
                },
            }
        } else {
            proof {
                lemma_gap_last_bound(deltas@, src.0.id, day@, from@, to@);
            }
            gap_of(deltas, src.0.id, &day, from, to, true)
        };
        if v < i64::MIN as i128 || v > i64::MAX as i128 {
            proof {
                assert(!(i64::MIN <= line_value(full, daily@, deltas@, from@, to@, filter, ax[k as int]) <= i64::MAX));
            }
            return None;
        }
        out.push(v as i64);
        k = k + 1;
    }
    proof {
        assert forall|j: int| 0 <= j < ax.len() implies i64::MIN <= #[trigger] line_value(full, daily@, deltas@, from@, to@, filter, ax[j]) <= i64::MAX by {
            assert(ax[j] == axis@[j]@);
            assert(out@[j] as int == line_value(full, daily@, deltas@, from@, to@, filter, axis@[j]@));
        }
    }
    Some(out)
}

pub(crate) fn key_text(prefix: char, id: i64) -> (r: String)
    ensures
        r@ == seq![prefix] + crate::text::signed_decimal(id as int),
{
    let mut out: Vec<char> = Vec::new();
    out.push(prefix);
    let ghost start = out@;
    crate::text::append_chars(&mut out, &crate::text::signed_text(id));
    assert(start =~= seq![prefix]);
    text_of(&out)
}

fn first_modrinth_link(links: &Vec<Link>, id: i64) -> (r: Option<Link>)
    ensures
        r == modrinth_link(links@, id),
{
    let mut k: usize = 0;
    assert(links@.skip(0) =~= links@);
    while k < links.len()
        invariant
            k <= links@.len(),
            modrinth_link(links@, id) == modrinth_link(links@.skip(k as int), id),
        decreases links@.len() - k,
    {
        proof {
            assert(links@.skip(k as int).drop_first() =~= links@.skip(k + 1));
            assert(links@.skip(k as int)[0] == links@[k as int]);
        }
        if links[k].modrinth_project_id == id {
            return Some(links[k]);
        }
        k = k + 1;
    }
    assert(links@.skip(k as int).len() == 0);
    None
}

fn last_with_id(projects: &Vec<ProjectRow>, id: i64) -> (r: Option<usize>)
    ensures
        match with_id(projects@, id) {
            Some(c) => r matches Some(i) && i < projects@.len() && projects@[i as int] == c,
            None => r is None,
        },
{
    let mut j: usize = projects.len();
    assert(projects@.subrange(0, j as int) =~= projects@);
    while j > 0
        invariant
            j <= projects@.len(),
            with_id(projects@, id) == with_id(projects@.subrange(0, j as int), id),
        decreases j,
    {
        proof {
            assert(projects@.subrange(0, j as int).drop_last() =~= projects@.subrange(0, j - 1));
            assert(projects@.subrange(0, j as int).last() == projects@[j - 1]);
        }
        if projects[j - 1].id == id {
            return Some(j - 1);
        }
        j = j - 1;
    }
    None
}

fn find_twin(projects: &Vec<ProjectRow>, links: &Vec<Link>, m: &ProjectRow) -> (r: Option<usize>)
    ensures
        match twin_of(projects@, links@, *m) {
            Some(c) => r matches Some(i) && i < projects@.len() && projects@[i as int] == c,
            None => r is None,
        },
{
    match first_modrinth_link(links, m.id) {
        Some(l) => last_with_id(projects, l.cf_project_id),
        None => None,
    }
}

fn modrinth_line(
    m: &ProjectRow,
    twin: Option<&ProjectRow>,
    daily: &Vec<ProjectDay>,
    deltas: &Vec<SnapshotDelta>,
    axis: &Vec<String>,
    from: &[char],
    to: &[char],
    filter: PlatformFilter,
) -> (r: Option<ProjectSummary>)
    ensures
        r is Some <==> line_fits(
            (*m, match twin { Some(c) => Some(*c), None => None }, true),
            daily@,
            deltas@,
            from@,
            to@,
            filter,
            axis.deep_view(),
        ),
        r matches Some(l) ==> describes(
            l,
            (*m, match twin { Some(c) => Some(*c), None => None }, true),
            daily@,
            deltas@,
            axis.deep_view(),
            from@,
            to@,
            filter,
        ),
{
    let spark = match spark_of((m, twin, true), daily, deltas, axis, from, to, filter) {
        Some(v) => v,
        None => return None,
    };
    let icon_url = match &m.icon_url {
        Some(u) => Some(u.clone()),
        None => match twin {
            Some(c) => c.icon_url.clone(),
            None => None,
        },
    };
    let (curseforge_id, curseforge_ext_id, curseforge_downloads) = match twin {
        Some(c) => (
            Some(c.id),
            parse_integer(c.ext_id.as_str()),
            if filter.curseforge {
                c.total_downloads
            } else {
                0
            },
        ),
        None => (None, None, 0),
    };
    let r = ProjectSummary {
        key: key_text('m', m.id),
        title: m.title.clone(),
        icon_url,
        modrinth_id: Some(m.id),
        curseforge_id,
        modrinth_ext_id: Some(m.ext_id.clone()),
        curseforge_ext_id,
        modrinth_downloads: if filter.modrinth {
            m.total_downloads
        } else {
            0
        },
        curseforge_downloads,
        followers: m.followers,
        spark,
    };
    proof {
        assert forall|i: int| 0 <= i < axis@.len() implies axis.deep_view()[i] == axis@[i]@ by {}
    }
    Some(r)
}

fn curseforge_line(
    c: &ProjectRow,
    daily: &Vec<ProjectDay>,
    deltas: &Vec<SnapshotDelta>,
    axis: &Vec<String>,
    from: &[char],
    to: &[char],
    filter: PlatformFilter,
) -> (r: ProjectSummary)
    ensures
        describes(r, (*c, None, false), daily@, deltas@, axis.deep_view(), from@, to@, filter),
{
    let spark = match spark_of((c, None, false), daily, deltas, axis, from, to, filter) {
        Some(v) => v,
        None => vstd::pervasive::unreached(),
    };
    let r = ProjectSummary {
        key: key_text('c', c.id),
        title: c.title.clone(),
        icon_url: c.icon_url.clone(),
        modrinth_id: None,
        curseforge_id: Some(c.id),
        modrinth_ext_id: None,
        curseforge_ext_id: parse_integer(c.ext_id.as_str()),
        modrinth_downloads: 0,
        curseforge_downloads: c.total_downloads,
        followers: c.followers,
        spark,
    };
    proof {
        assert forall|i: int| 0 <= i < axis@.len() implies axis.deep_view()[i] == axis@[i]@ by {}
    }
    r
}

fn is_consumed(projects: &Vec<ProjectRow>, links: &Vec<Link>, id: i64) -> (r: bool)
    ensures
        r == consumed(projects@, links@, id),
{
    let mut k: usize = 0;
    while k < projects.len()
        invariant
            k <= projects@.len(),
            forall|i: int|
                0 <= i < k && projects@[i].platform == Platform::Modrinth ==> !(#[trigger] twin_of(
                    projects@,
                    links@,
                    projects@[i],
                ) matches Some(t) && t.id == id),
        decreases projects@.len() - k,
    {
        let is_modrinth = match projects[k].platform {
            Platform::Modrinth => true,
            Platform::CurseForge => false,
        };
        if is_modrinth {
            match find_twin(projects, links, &projects[k]) {
                Some(i) => {
                    if projects[i].id == id {
                        assert(twin_of(projects@, links@, projects@[k as int]) matches Some(t) && t.id == id);
                        return true;
                    }
                },
                None => {},
            }
        }
        k = k + 1;
    }
    false
}

/// The rows of the table, ordered: each described by its source, the most
/// downloaded first and equal ones in the order of their sources.
pub open spec fn table_of(
    r: Seq<ProjectSummary>,
    projects: Seq<ProjectRow>,
    links: Seq<Link>,
    daily: Seq<ProjectDay>,
    deltas: Seq<SnapshotDelta>,
    from: Seq<char>,
    to: Seq<char>,
    filter: PlatformFilter,
) -> bool {
    exists|lines: Seq<ProjectSummary>| {
        &&& lines.len() == line_sources(projects, links, filter).len()
        &&& forall|i: int| 0 <= i < lines.len() ==> describes(
            #[trigger] lines[i],
            line_sources(projects, links, filter)[i],
            daily,
            deltas,
            axis_of(from, to),
            from,
            to,
            filter,
        )
        &&& stably_sorted(summary_keyed(r), summary_keyed(lines))
    }
}

/// The table of mods over `[from, to)`: each Modrinth project with its
/// CurseForge twin on one line, each CurseForge project that no Modrinth one
/// took on a line of its own, the most downloaded first (equal ones keep their
/// order). `daily` are the daily downloads of the window, `deltas` the gains
/// between CurseForge snapshots.
pub fn per_project(
    projects: &Vec<ProjectRow>,
    links: &Vec<Link>,
    daily: &Vec<ProjectDay>,
    deltas: &Vec<SnapshotDelta>,
    from: &str,
    to: &str,
    filter: PlatformFilter,
) -> (r: Vec<ProjectSummary>)
    requires
        sparks_fit(projects@, links@, daily@, deltas@, from@, to@, filter),
    ensures
        table_of(r@, projects@, links@, daily@, deltas@, from@, to@, filter),
{
    match checked_per_project(projects, links, daily, deltas, from, to, filter) {
        Some(v) => v,
        None => vstd::pervasive::unreached(),
    }
}

/// The table of mods, or `None` when a line's count on a day leaves what an
/// `i64` holds.
pub fn checked_per_project(
    projects: &Vec<ProjectRow>,
    links: &Vec<Link>,
    daily: &Vec<ProjectDay>,
    deltas: &Vec<SnapshotDelta>,
    from: &str,
    to: &str,
    filter: PlatformFilter,
) -> (r: Option<Vec<ProjectSummary>>)
    ensures
        r is Some <==> sparks_fit(projects@, links@, daily@, deltas@, from@, to@, filter),
        r matches Some(v) ==> table_of(v@, projects@, links@, daily@, deltas@, from@, to@, filter),
{
    let axis = day_axis(from, to);
    let start = chars_of(from);
    let end = chars_of(to);
    let ghost ax = axis.deep_view();
    let mut lines: Vec<ProjectSummary> = Vec::new();
    let mut k: usize = 0;
    assert(projects@.subrange(0, 0) =~= Seq::<ProjectRow>::empty());
    while k < projects.len()
        invariant
            k <= projects@.len(),
            ax == axis.deep_view(),
            start@ == from@,
            end@ == to@,
            ax == axis_of(from@, to@),
            forall|i: int|
                0 <= i < k && projects@[i].platform == Platform::Modrinth ==> line_fits(
                    (#[trigger] projects@[i], twin_of(projects@, links@, projects@[i]), true),
                    daily@,
                    deltas@,
                    from@,
                    to@,
                    filter,
                    ax,
                ),
            lines@.len() == modrinth_sources(projects@.subrange(0, k as int), projects@, links@, filter).len(),
            forall|i: int| 0 <= i < lines@.len() ==> describes(
                #[trigger] lines@[i],
                modrinth_sources(projects@.subrange(0, k as int), projects@, links@, filter)[i],
                daily@,
                deltas@,
                ax,
                from@,
                to@,
                filter,
            ),
        decreases projects@.len() - k,
    {
        let ghost before = modrinth_sources(projects@.subrange(0, k as int), projects@, links@, filter);
        proof {
            assert(projects@.subrange(0, k + 1).drop_last() =~= projects@.subrange(0, k as int));
            assert(projects@.subrange(0, k + 1).last() == projects@[k as int]);
        }
        let m = &projects[k];
        let is_modrinth = match m.platform {
            Platform::Modrinth => true,
            Platform::CurseForge => false,
        };
        if is_modrinth {
            let twin_at = find_twin(projects, links, m);
            let twin: Option<&ProjectRow> = match twin_at {
                Some(i) => Some(&projects[i]),
                None => None,
            };
            if filter.modrinth || twin.is_some() {
                match modrinth_line(m, twin, daily, deltas, &axis, &start, &end, filter) {
                    Some(line) => lines.push(line),
                    None => {
                        proof {
                            assert(projects@[k as int] == *m);
                        }
                        return None;
                    },
                }
            } else {
                proof {
                    assert forall|j: int| 0 <= j < ax.len() implies i64::MIN <= #[trigger] line_value(
                        (*m, twin_of(projects@, links@, *m), true),
                        daily@,
                        deltas@,
                        from@,
                        to@,
                        filter,
                        ax[j],
                    ) <= i64::MAX by {}
                }
            }
        }
        k = k + 1;
    }
    assert(projects@.subrange(0, projects@.len() as int) =~= projects@);
    let ghost modrinth_count = lines@.len();
    if filter.curseforge {
        let mut j: usize = 0;
        assert(projects@.subrange(0, 0) =~= Seq::<ProjectRow>::empty());
        while j < projects.len()
            invariant
                j <= projects@.len(),
                filter.curseforge,
                ax == axis.deep_view(),
                start@ == from@,
                end@ == to@,
                modrinth_count == modrinth_sources(projects@, projects@, links@, filter).len(),
                lines@.len() == modrinth_count + curseforge_sources(projects@.subrange(0, j as int), projects@, links@).len(),
                forall|i: int| 0 <= i < lines@.len() ==> describes(
                    #[trigger] lines@[i],
                    (modrinth_sources(projects@, projects@, links@, filter) + curseforge_sources(
                        projects@.subrange(0, j as int),
                        projects@,
                        links@,
                    ))[i],
                    daily@,
                    deltas@,
                    ax,
                    from@,
                    to@,
                    filter,
                ),
            decreases projects@.len() - j,
        {
            proof {
                assert(projects@.subrange(0, j + 1).drop_last() =~= projects@.subrange(0, j as int));
                assert(projects@.subrange(0, j + 1).last() == projects@[j as int]);
            }
            let c = &projects[j];
            let is_curseforge = match c.platform {
                Platform::Modrinth => false,
                Platform::CurseForge => true,
            };
            if is_curseforge && !is_consumed(projects, links, c.id) {
                let line = curseforge_line(c, daily, deltas, &axis, &start, &end, filter);
                lines.push(line);
                proof {
                    let ms = modrinth_sources(projects@, projects@, links@, filter);
                    let cs0 = curseforge_sources(projects@.subrange(0, j as int), projects@, links@);
                    let cs1 = curseforge_sources(projects@.subrange(0, j + 1), projects@, links@);
                    assert(cs1 == cs0.push((*c, None::<ProjectRow>, false)));
                    assert(ms + cs1 =~= (ms + cs0).push((*c, None::<ProjectRow>, false)));
                }
            } else {
                proof {
                    let ms = modrinth_sources(projects@, projects@, links@, filter);
                    let cs0 = curseforge_sources(projects@.subrange(0, j as int), projects@, links@);
                    let cs1 = curseforge_sources(projects@.subrange(0, j + 1), projects@, links@);
                    assert(cs1 == cs0);
                }
            }
            j = j + 1;
        }
        assert(projects@.subrange(0, projects@.len() as int) =~= projects@);
    } else {
        proof {
            assert(line_sources(projects@, links@, filter) =~= modrinth_sources(projects@, projects@, links@, filter));
        }
    }
    let ghost unsorted = lines@;
    proof {
        assert(ax == axis_of(from@, to@));
        if filter.curseforge {
            assert(line_sources(projects@, links@, filter) == modrinth_sources(projects@, projects@, links@, filter)
                + curseforge_sources(projects@, projects@, links@));
        }
    }
    // Keyed by total downloads, the most downloaded first.
    let mut rest = lines;
    let mut keyed: Vec<(i128, ProjectSummary)> = Vec::new();
    while rest.len() > 0
        invariant
            summary_keyed(unsorted) == keyed@ + summary_keyed(rest@),
        decreases rest@.len(),
    {
        let ghost r0 = rest@;
        let line = rest.remove(0);
        let ghost k0 = keyed@;
        let key = line.modrinth_downloads as i128 + line.curseforge_downloads as i128;
        keyed.push((key, line));
        proof {
            assert(summary_keyed(r0) =~= seq![summary_keyed(r0)[0]] + summary_keyed(rest@));
            assert(keyed@ =~= k0.push(summary_keyed(r0)[0]));
            assert(summary_keyed(unsorted) =~= keyed@ + summary_keyed(rest@));
        }
    }
    assert(summary_keyed(rest@) =~= Seq::<(i128, ProjectSummary)>::empty());
    assert(keyed@ =~= summary_keyed(unsorted));
    let ghost keyed_view = keyed@;
    let mut sorted = sort_by_key_desc(keyed);
    let ghost sorted_view = sorted@;
    proof {
        assert forall|i: int| 0 <= i < sorted_view.len() implies #[trigger] sorted_view[i].0 == (
        sorted_view[i].1.modrinth_downloads + sorted_view[i].1.curseforge_downloads) as i128 by {
            crate::sorting::lemma_sorted_from_input(sorted_view, keyed_view, i);
            let j = choose|j: int| 0 <= j < keyed_view.len() && keyed_view[j] == sorted_view[i];
        }
    }
    let mut out: Vec<ProjectSummary> = Vec::new();
    while sorted.len() > 0
        invariant
            sorted_view == summary_keyed(out@) + sorted@,
            forall|i: int| 0 <= i < sorted_view.len() ==> #[trigger] sorted_view[i].0 == (
            sorted_view[i].1.modrinth_downloads + sorted_view[i].1.curseforge_downloads) as i128,
        decreases sorted@.len(),
    {
        let ghost s0 = sorted@;
        let ghost o0 = out@;
        let pair = sorted.remove(0);
        proof {
            assert(pair == s0[0]);
            assert(sorted@ =~= s0.skip(1));
            assert(s0[0] == sorted_view[o0.len() as int]);
            assert(pair.0 == (pair.1.modrinth_downloads + pair.1.curseforge_downloads) as i128);
        }
        let line = pair.1;
        out.push(line);
        proof {
            assert(summary_keyed(out@) =~= summary_keyed(o0).push(pair));
            assert(s0 =~= seq![pair] + sorted@);
        }
    }
    assert(sorted_view =~= summary_keyed(out@));
    Some(out)
}

proof fn lemma_modrinth_sources(rows: Seq<ProjectRow>, projects: Seq<ProjectRow>, links: Seq<Link>, filter: PlatformFilter)
    ensures
        forall|i: int| 0 <= i < modrinth_sources(rows, projects, links, filter).len() ==> {
            let src = #[trigger] modrinth_sources(rows, projects, links, filter)[i];
            &&& src.2
            &&& src.0.platform == Platform::Modrinth
            &&& src.1 == twin_of(projects, links, src.0)
            &&& (filter.modrinth || src.1 is Some)
            &&& exists|k: int| 0 <= k < rows.len() && rows[k] == src.0
        },
    decreases rows.len(),
{
    if rows.len() > 0 {
        lemma_modrinth_sources(rows.drop_last(), projects, links, filter);
        let base = modrinth_sources(rows.drop_last(), projects, links, filter);
        let all = modrinth_sources(rows, projects, links, filter);
        assert forall|i: int| 0 <= i < all.len() implies {
            let src = #[trigger] all[i];
            &&& src.2
            &&& src.0.platform == Platform::Modrinth
            &&& src.1 == twin_of(projects, links, src.0)
            &&& (filter.modrinth || src.1 is Some)
            &&& exists|k: int| 0 <= k < rows.len() && rows[k] == src.0
        } by {
            if i < base.len() {
                assert(all[i] == base[i]);
                let k = choose|k: int| 0 <= k < rows.drop_last().len() && rows.drop_last()[k] == base[i].0;
                assert(rows[k] == base[i].0);
            } else {
                assert(all[i].0 == rows[rows.len() - 1]);
            }
        }
    }
}

proof fn lemma_curseforge_sources(rows: Seq<ProjectRow>, projects: Seq<ProjectRow>, links: Seq<Link>)
    ensures
        forall|i: int| 0 <= i < curseforge_sources(rows, projects, links).len() ==> {
            let src = #[trigger] curseforge_sources(rows, projects, links)[i];
            &&& !src.2
            &&& !consumed(projects, links, src.0.id)
        },
    decreases rows.len(),
{
    if rows.len() > 0 {
        lemma_curseforge_sources(rows.drop_last(), projects, links);
        let base = curseforge_sources(rows.drop_last(), projects, links);
        let all = curseforge_sources(rows, projects, links);
        assert forall|i: int| 0 <= i < all.len() implies {
            let src = #[trigger] all[i];
            &&& !src.2
            &&& !consumed(projects, links, src.0.id)
        } by {
            if i < base.len() {
                assert(all[i] == base[i]);
            }
        }
    }
}

/// Hiding Modrinth drops the mods that only live there: every Modrinth line
/// left then has a CurseForge twin.
pub proof fn hiding_modrinth_drops_projects_that_only_live_there(projects: Seq<ProjectRow>, links: Seq<Link>, filter: PlatformFilter)
    requires
        !filter.modrinth,
    ensures
        forall|i: int| 0 <= i < line_sources(projects, links, filter).len() && (#[trigger] line_sources(projects, links, filter)[i]).2
            ==> line_sources(projects, links, filter)[i].1 is Some,
{
    lemma_modrinth_sources(projects, projects, links, filter);
    lemma_curseforge_sources(projects, projects, links);
    let ms = modrinth_sources(projects, projects, links, filter);
    let extra = if filter.curseforge { curseforge_sources(projects, projects, links) } else { Seq::empty() };
    assert forall|i: int| 0 <= i < line_sources(projects, links, filter).len() && (#[trigger] line_sources(projects, links, filter)[i]).2
        implies line_sources(projects, links, filter)[i].1 is Some by {
        if i < ms.len() {
            assert(line_sources(projects, links, filter)[i] == ms[i]);
        } else {
            assert(line_sources(projects, links, filter)[i] == extra[i - ms.len()]);
        }
    }
}

/// Linked projects share one line: the CurseForge twin of a Modrinth line
/// never stands on a line of its own.
pub proof fn per_project_groups_linked_projects_under_one_row(projects: Seq<ProjectRow>, links: Seq<Link>, filter: PlatformFilter)
    ensures
        forall|i: int, j: int|
            0 <= i < line_sources(projects, links, filter).len() && 0 <= j < line_sources(projects, links, filter).len()
                && (#[trigger] line_sources(projects, links, filter)[i]).2 && !(#[trigger] line_sources(projects, links, filter)[j]).2
                ==> !(line_sources(projects, links, filter)[i].1 matches Some(c) && c.id == line_sources(projects, links, filter)[j].0.id),
{
    lemma_modrinth_sources(projects, projects, links, filter);
    lemma_curseforge_sources(projects, projects, links);
    let ls = line_sources(projects, links, filter);
    let ms = modrinth_sources(projects, projects, links, filter);
    let extra = if filter.curseforge { curseforge_sources(projects, projects, links) } else { Seq::empty() };
    assert forall|i: int, j: int|
        0 <= i < ls.len() && 0 <= j < ls.len() && (#[trigger] ls[i]).2 && !(#[trigger] ls[j]).2
        implies !(ls[i].1 matches Some(c) && c.id == ls[j].0.id) by {
        if i >= ms.len() {
            assert(ls[i] == extra[i - ms.len()]);
        }
        if j < ms.len() {
            assert(ls[j] == ms[j]);
        }
        assert(ls[i] == ms[i]);
        assert(ls[j] == extra[j - ms.len()]);
        let m = ms[i].0;
        let k = choose|k: int| 0 <= k < projects.len() && projects[k] == m;
        if ls[i].1 matches Some(c) && c.id == ls[j].0.id {
            assert(twin_of(projects, links, projects[k]) matches Some(t) && t.id == ls[j].0.id);
            assert(consumed(projects, links, ls[j].0.id));
        }
    }
}

// ---------------------------------------------------------------------------
// The payout schedule.

/// The first characters of a text that take exactly `n` bytes, as
/// `str::get(..n)` gives them; nothing when `n` does not fall between two
/// characters or the text is shorter.
pub open spec fn byte_prefix(s: Seq<char>, n: int) -> Option<Seq<char>>
    decreases s.len(),
{
    if n == 0 {
        Some(seq![])
    } else if s.len() == 0 || n < 0 {
        None
    } else if utf8_width(s[0]) > n {
        None
    } else {
        match byte_prefix(s.drop_first(), n - utf8_width(s[0])) {
            Some(p) => Some(seq![s[0]] + p),
            None => None,
        }
    }
}

/// An instalment falls after today when its day, the first ten bytes of
/// its date, sorts after today.
pub open spec fn falls_after(date: Seq<char>, today: Seq<char>) -> bool {
    match byte_prefix(date, 10) {
        Some(d) => text_before(today, d),
        None => false,
    }
}

fn after_today(date: &str, today: &[char]) -> (r: bool)
    ensures
        r == falls_after(date@, today@),
{
    let s = chars_of(date);
    let mut k: usize = 0;
    let mut used: usize = 0;
    assert(s@.skip(0) =~= s@);
    assert(s@.take(0) =~= Seq::<char>::empty());
    while used < 10 && k < s.len()
        invariant
            k <= s@.len(),
            s@ == date@,
            used <= 10,
            byte_prefix(s@, 10) == match byte_prefix(s@.skip(k as int), 10 - used) {
                Some(p) => Some(s@.take(k as int) + p),
                None => None::<Seq<char>>,
            },
        decreases s@.len() - k,
    {
        let c = s[k] as u32;
        let w: usize = if c < 0x80 {
            1
        } else if c < 0x800 {
            2
        } else if c < 0x10000 {
            3
        } else {
            4
        };
        proof {
            assert(w == utf8_width(s@[k as int]));
            assert(s@.skip(k as int)[0] == s@[k as int]);
            assert(s@.skip(k as int).drop_first() =~= s@.skip(k + 1));
        }
        if w > 10 - used {
            assert(byte_prefix(s@.skip(k as int), 10 - used) == None::<Seq<char>>);
            return false;
        }
        proof {
            assert(s@.take(k + 1) =~= s@.take(k as int).push(s@[k as int]));
            let rest = byte_prefix(s@.skip(k + 1), 10 - used - w);
            match rest {
                Some(p) => {
                    assert(s@.take(k as int) + (seq![s@[k as int]] + p) =~= s@.take(k + 1) + p);
                },
                None => {},
            }
        }
        used = used + w;
        k = k + 1;
    }
    if used < 10 {
        return false;
    }
    let day = crate::text::slice_text(&s, 0, k);
    proof {
        assert(s@.take(k as int) + Seq::<char>::empty() =~= s@.take(k as int));
        assert(day@ =~= s@.take(k as int));
    }
    less_text(today, &day)
}

/// The payout balance as the dashboard shows it: the instalments of the
/// schedule that fall after today are revenue to come.
pub fn payout_of(balance: PayoutBalance, today: &str) -> (r: Payout)
    ensures
        r.available == balance.available,
        r.pending == balance.pending,
        r.withdrawn_lifetime == balance.withdrawn_lifetime,
        r.withdrawn_ytd == balance.withdrawn_ytd,
        r.schedule@.len() == balance.dates@.len(),
        forall|i: int| 0 <= i < balance.dates@.len() ==> {
            &&& (#[trigger] r.schedule@[i]).date == balance.dates@[i].0
            &&& r.schedule@[i].amount == balance.dates@[i].1
            &&& r.schedule@[i].future == falls_after(balance.dates@[i].0@, today@)
        },
{
    let now = chars_of(today);
    let mut schedule: Vec<PayoutPoint> = Vec::new();
    let mut k: usize = 0;
    while k < balance.dates.len()
        invariant
            k <= balance.dates@.len(),
            now@ == today@,
            schedule@.len() == k,
            forall|i: int| 0 <= i < k ==> {
                &&& (#[trigger] schedule@[i]).date == balance.dates@[i].0
                &&& schedule@[i].amount == balance.dates@[i].1
                &&& schedule@[i].future == falls_after(balance.dates@[i].0@, today@)
            },
        decreases balance.dates@.len() - k,
    {
        let (date, amount) = (balance.dates[k].0.clone(), balance.dates[k].1.clone());
        let future = after_today(date.as_str(), &now);
        schedule.push(PayoutPoint { date, amount, future });
        k = k + 1;
    }
    Payout {
        available: balance.available,
        pending: balance.pending,
        withdrawn_lifetime: balance.withdrawn_lifetime,
        withdrawn_ytd: balance.withdrawn_ytd,
        schedule,
    }
}

/// The total downloads a row is ordered by.
pub open spec fn row_total(s: ProjectSummary) -> int {
    s.modrinth_downloads + s.curseforge_downloads
}

/// The rows of the table, whatever the base holds: the most downloaded
/// first; each spark runs over every day of the axis; with Modrinth hidden
/// every row counts no Modrinth download and stands for a CurseForge
/// project; with CurseForge hidden every row counts no CurseForge download
/// and stands for a Modrinth project.
pub proof fn per_project_rows_follow_the_filter(
    projects: Seq<ProjectRow>,
    links: Seq<Link>,
    daily: Seq<ProjectDay>,
    deltas: Seq<SnapshotDelta>,
    from: Seq<char>,
    to: Seq<char>,
    filter: PlatformFilter,
    lines: Seq<ProjectSummary>,
    rows: Seq<ProjectSummary>,
)
    requires
        lines.len() == line_sources(projects, links, filter).len(),
        forall|i: int| 0 <= i < lines.len() ==> describes(
            #[trigger] lines[i],
            line_sources(projects, links, filter)[i],
            daily,
            deltas,
            axis_of(from, to),
            from,
            to,
            filter,
        ),
        stably_sorted(summary_keyed(rows), summary_keyed(lines)),
    ensures
        forall|i: int, j: int| 0 <= i < j < rows.len() ==> row_total(#[trigger] rows[i]) >= row_total(#[trigger] rows[j]),
        forall|i: int| 0 <= i < rows.len() ==> (#[trigger] rows[i]).spark@.len() == axis_of(from, to).len(),
        !filter.modrinth ==> forall|i: int|
            0 <= i < rows.len() ==> (#[trigger] rows[i]).modrinth_downloads == 0 && rows[i].curseforge_id is Some,
        !filter.curseforge ==> forall|i: int|
            0 <= i < rows.len() ==> (#[trigger] rows[i]).curseforge_downloads == 0 && rows[i].modrinth_id is Some,
{
    let ls = line_sources(projects, links, filter);
    let ms = modrinth_sources(projects, projects, links, filter);
    let extra = if filter.curseforge { curseforge_sources(projects, projects, links) } else { Seq::empty() };
    lemma_modrinth_sources(projects, projects, links, filter);
    lemma_curseforge_sources(projects, projects, links);
    if !filter.modrinth {
        hiding_modrinth_drops_projects_that_only_live_there(projects, links, filter);
    }
    let kr = summary_keyed(rows);
    let kl = summary_keyed(lines);
    assert forall|i: int, j: int| 0 <= i < j < rows.len() implies row_total(#[trigger] rows[i]) >= row_total(#[trigger] rows[j]) by {
        assert(kr[i].0 >= kr[j].0);
    }
    assert forall|i: int| 0 <= i < rows.len() implies {
        &&& (#[trigger] rows[i]).spark@.len() == axis_of(from, to).len()
        &&& !filter.modrinth ==> rows[i].modrinth_downloads == 0 && rows[i].curseforge_id is Some
        &&& !filter.curseforge ==> rows[i].curseforge_downloads == 0 && rows[i].modrinth_id is Some
    } by {
        crate::sorting::lemma_sorted_from_input(kr, kl, i);
        let j = choose|j: int| 0 <= j < kl.len() && kl[j] == kr[i];
        assert(lines[j] == rows[i]);
        assert(describes(lines[j], ls[j], daily, deltas, axis_of(from, to), from, to, filter));
        if j < ms.len() {
            assert(ls[j] == ms[j]);
        } else {
            assert(ls[j] == extra[j - ms.len()]);
        }
    }
}

} // verus!
