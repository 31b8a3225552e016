//! Rank of a day among those before it: not "how many", but "was it a good
//! day when it happened".

use crate::models::RevenuePoint;
use crate::money::{
    amount_product, amount_total, multiply_amount, point_value, point_value_text, zero_amount,
    zero_text,
};
use crate::queries::PlatformFilter;
use crate::revenue::{
    amounts_on, day_sums_fit, group_revenue, points_mention, revenue_grouped, rows_mention,
    RevenueEntry,
};
use crate::text::{
    chars_of, lemma_text_before_irreflexive, lemma_text_before_total, lemma_text_before_transitive,
    less_text, text_before,
};
use vstd::prelude::*;

verus! {

/// Length of the comparison window, in days, the judged day included.
pub const RANK_WINDOW_DAYS: i64 = 90;

/// Number of days in the window strictly better than `total`.
pub open spec fn better_days(window: Seq<i64>, total: i64) -> nat
    decreases window.len(),
{
    if window.len() == 0 {
        0
    } else {
        better_days(window.drop_last(), total) + if window.last() > total {
            1nat
        } else {
            0nat
        }
    }
}

/// Rank of a day: one more than the strictly better days; a day without
/// downloads has no rank.
pub open spec fn rank_of(window: Seq<i64>, total: i64) -> Option<i64> {
    if total > 0 {
        Some((better_days(window, total) + 1) as i64)
    } else {
        None
    }
}

pub proof fn lemma_better_days_bound(window: Seq<i64>, total: i64)
    ensures
        better_days(window, total) <= window.len(),
    decreases window.len(),
{
    if window.len() > 0 {
        lemma_better_days_bound(window.drop_last(), total);
    }
}

/// Rank of `total` among the totals of its window, 1 being the best. Days
/// at zero are days without a reading and have no rank; equal days share
/// their rank.
pub fn rank_within(window: &[i64], total: i64) -> (r: Option<i64>)
    requires
        window@.len() < i64::MAX,
    ensures
        r == rank_of(window@, total),
{
    if total <= 0 {
        return None;
    }
    let mut count: usize = 0;
    let mut k: usize = 0;
    assert(window@.subrange(0, 0) =~= Seq::<i64>::empty());
    while k < window.len()
        invariant
            k <= window@.len(),
            window@.len() < i64::MAX,
            count == better_days(window@.subrange(0, k as int), total),
            count <= k,
        decreases window@.len() - k,
    {
        proof {
            assert(window@.subrange(0, k + 1).drop_last() =~= window@.subrange(0, k as int));
        }
        if window[k] > total {
            count = count + 1;
        }
        k = k + 1;
    }
    assert(window@.subrange(0, window@.len() as int) =~= window@);
    Some(count as i64 + 1)
}

proof fn lemma_better_days_monotone(window: Seq<i64>, a: i64, b: i64)
    requires
        a <= b,
    ensures
        better_days(window, b) <= better_days(window, a),
    decreases window.len(),
{
    if window.len() > 0 {
        lemma_better_days_monotone(window.drop_last(), a, b);
    }
}

/// A better day never ranks behind a worse one: ranks run opposite to
/// totals, and lie between 1 and one more than the window's length.
pub proof fn better_days_rank_ahead(window: Seq<i64>, a: i64, b: i64)
    requires
        0 < a <= b,
        window.len() < i64::MAX,
    ensures
        rank_of(window, b)->0 <= rank_of(window, a)->0,
        1 <= rank_of(window, a)->0 <= window.len() + 1,
{
    lemma_better_days_bound(window, a);
    lemma_better_days_bound(window, b);
    lemma_better_days_monotone(window, a, b);
}

// Revenue day by day, platform by platform.

/// The CurseForge points gained over one day: the gap between two balances,
/// put on the day where it was seen.
#[derive(Debug, Clone)]
pub struct PointsGained {
    pub day: String,
    pub points: i64,
}

/// The dollar value of `n` points, as rust_decimal writes it.
pub open spec fn dollars_of(n: i64) -> Seq<char> {
    match amount_product(n, point_value_text()) {
        Some(t) => t,
        None => zero_text(),
    }
}

/// Some points were gained on day `d`.
pub open spec fn gained_on(gains: Seq<PointsGained>, d: Seq<char>) -> bool {
    exists|i: int| 0 <= i < gains.len() && #[trigger] gains[i].day@ == d && gains[i].points != 0
}

/// The dollar values of the points gained on day `d`, in the order of the
/// readings; a reading without points adds nothing.
pub open spec fn values_on(gains: Seq<PointsGained>, d: Seq<char>) -> Seq<Seq<char>>
    decreases gains.len(),
{
    if gains.len() == 0 {
        Seq::empty()
    } else if gains.last().day@ == d && gains.last().points != 0 {
        values_on(gains.drop_last(), d).push(dollars_of(gains.last().points))
    } else {
        values_on(gains.drop_last(), d)
    }
}

/// Every gain converts to dollars.
pub open spec fn points_convert(gains: Seq<PointsGained>) -> bool {
    forall|i: int|
        0 <= i < gains.len() && gains[i].points != 0 ==> #[trigger] amount_product(
            gains[i].points,
            point_value_text(),
        ) is Some
}

/// Every gain converts to dollars and every day's dollars add up without
/// leaving what a decimal holds.
pub open spec fn curseforge_fits(gains: Seq<PointsGained>) -> bool {
    &&& points_convert(gains)
    &&& forall|i: int|
        0 <= i < gains.len() && gains[i].points != 0 ==> #[trigger] amount_total(
            values_on(gains, gains[i].day@),
        ) is Some
}

proof fn lemma_gain_step(prev: Seq<PointsGained>, next: Seq<PointsGained>, g: PointsGained, d: Seq<char>)
    requires
        next == prev.push(g),
    ensures
        values_on(next, d) == if g.day@ == d && g.points != 0 {
            values_on(prev, d).push(dollars_of(g.points))
        } else {
            values_on(prev, d)
        },
        gained_on(next, d) <==> gained_on(prev, d) || (g.day@ == d && g.points != 0),
{
    assert(next.drop_last() =~= prev);
    assert(next.last() == g);
    if gained_on(next, d) {
        let i = choose|i: int| 0 <= i < next.len() && #[trigger] next[i].day@ == d && next[i].points != 0;
        if i < prev.len() {
            assert(prev[i].day@ == d);
        }
    }
    if gained_on(prev, d) {
        let i = choose|i: int| 0 <= i < prev.len() && #[trigger] prev[i].day@ == d && prev[i].points != 0;
        assert(next[i].day@ == d);
    }
    if g.day@ == d && g.points != 0 {
        assert(next[prev.len() as int].day@ == d);
    }
}

proof fn lemma_entry_step(prev: Seq<RevenueEntry>, next: Seq<RevenueEntry>, e: RevenueEntry, d: Seq<char>)
    requires
        next == prev.push(e),
    ensures
        amounts_on(next, d) == if e.day@ == d {
            amounts_on(prev, d).push(e.amount@)
        } else {
            amounts_on(prev, d)
        },
        rows_mention(next, d) <==> rows_mention(prev, d) || e.day@ == d,
{
    assert(next.drop_last() =~= prev);
    assert(next.last() == e);
    if rows_mention(next, d) {
        let i = choose|i: int| 0 <= i < next.len() && #[trigger] next[i].day@ == d;
        if i < prev.len() {
            assert(prev[i].day@ == d);
        }
    }
    if rows_mention(prev, d) {
        let i = choose|i: int| 0 <= i < prev.len() && #[trigger] prev[i].day@ == d;
        assert(next[i].day@ == d);
    }
    if e.day@ == d {
        assert(next[prev.len() as int].day@ == d);
    }
}

/// The gains turned into dollar rows, one per reading with points; `None`
/// when a gain does not convert.
fn dollar_rows(gains: &Vec<PointsGained>) -> (r: Option<Vec<RevenueEntry>>)
    ensures
        r is Some <==> points_convert(gains@),
        r matches Some(e) ==> forall|d: Seq<char>| #[trigger] amounts_on(e@, d) == values_on(gains@, d),
        r matches Some(e) ==> forall|d: Seq<char>| #[trigger] rows_mention(e@, d) <==> gained_on(gains@, d),
{
    let mut out: Vec<RevenueEntry> = Vec::new();
    let mut k: usize = 0;
    proof {
        assert(gains@.take(0) =~= Seq::<PointsGained>::empty());
        assert forall|d: Seq<char>| #[trigger] rows_mention(out@, d) <==> gained_on(gains@.take(0), d) by {}
    }
    while k < gains.len()
        invariant
            k <= gains@.len(),
            points_convert(gains@.take(k as int)),
            forall|d: Seq<char>| #[trigger] amounts_on(out@, d) == values_on(gains@.take(k as int), d),
            forall|d: Seq<char>| #[trigger] rows_mention(out@, d) <==> gained_on(gains@.take(k as int), d),
        decreases gains@.len() - k,
    {
        let ghost prev = gains@.take(k as int);
        let ghost next = gains@.take(k + 1);
        let ghost before = out@;
        proof {
            assert(next =~= prev.push(gains@[k as int]));
        }
        let g = &gains[k];
        if g.points != 0 {
            match multiply_amount(g.points, point_value()) {
                Some(t) => {
                    let e = RevenueEntry { day: g.day.clone(), amount: t };
                    out.push(e);
                    proof {
                        assert(out@ == before.push(e));
                        assert forall|d: Seq<char>| #[trigger] amounts_on(out@, d) == values_on(next, d) by {
                            lemma_entry_step(before, out@, e, d);
                            lemma_gain_step(prev, next, gains@[k as int], d);
                        }
                        assert forall|d: Seq<char>| #[trigger] rows_mention(out@, d) <==> gained_on(next, d) by {
                            lemma_entry_step(before, out@, e, d);
                            lemma_gain_step(prev, next, gains@[k as int], d);
                        }
                        assert forall|i: int|
                            0 <= i < next.len() && next[i].points != 0 implies #[trigger] amount_product(
                            next[i].points,
                            point_value_text(),
                        ) is Some by {
                            if i < prev.len() {
                                assert(prev[i] == next[i]);
                            }
                        }
                    }
                },
                None => {
                    proof {
                        assert(gains@[k as int].points != 0);
                        assert(amount_product(gains@[k as int].points, point_value_text()) is None);
                    }
                    return None;
                },
            }
        } else {
            proof {
                assert forall|d: Seq<char>| #[trigger] amounts_on(out@, d) == values_on(next, d) by {
                    lemma_gain_step(prev, next, gains@[k as int], d);
                }
                assert forall|d: Seq<char>| #[trigger] rows_mention(out@, d) <==> gained_on(next, d) by {
                    lemma_gain_step(prev, next, gains@[k as int], d);
                }
                assert forall|i: int|
                    0 <= i < next.len() && next[i].points != 0 implies #[trigger] amount_product(
                    next[i].points,
                    point_value_text(),
                ) is Some by {
                    assert(prev[i] == next[i]);
                }
            }
        }
        k = k + 1;
    }
    proof {
        assert(gains@.take(gains@.len() as int) =~= gains@);
    }
    Some(out)
}

/// One day of revenue, each platform on its own: Modrinth's payout and the
/// dollar value of the CurseForge points gained that day.
#[derive(Debug, Clone)]
pub struct DayRevenue {
    pub day: String,
    pub modrinth: String,
    pub curseforge: String,
}

/// The days listed include `d`.
pub open spec fn lists_day(out: Seq<DayRevenue>, d: Seq<char>) -> bool {
    exists|i: int| 0 <= i < out.len() && #[trigger] out[i].day@ == d
}

/// Days in strictly increasing order.
pub open spec fn days_ascend(out: Seq<DayRevenue>) -> bool {
    forall|i: int, j: int| 0 <= i < j < out.len() ==> text_before(#[trigger] out[i].day@, #[trigger] out[j].day@)
}

pub open spec fn points_ascend(ps: Seq<RevenuePoint>) -> bool {
    forall|i: int, j: int| 0 <= i < j < ps.len() ==> text_before(#[trigger] ps[i].day@, #[trigger] ps[j].day@)
}

/// `a` is what `ps` holds for day `d`, or zero when `ps` holds nothing for it.
pub open spec fn carries_amount(ps: Seq<RevenuePoint>, d: Seq<char>, a: Seq<char>) -> bool {
    &&& forall|j: int| 0 <= j < ps.len() && #[trigger] ps[j].day@ == d ==> a == ps[j].amount@
    &&& !points_mention(ps, d) ==> a == zero_text()
}

/// `out` lays the two groupings side by side, day by day.
pub open spec fn merged(out: Seq<DayRevenue>, m: Seq<RevenuePoint>, c: Seq<RevenuePoint>) -> bool {
    &&& days_ascend(out)
    &&& forall|d: Seq<char>| #[trigger] lists_day(out, d) <==> points_mention(m, d) || points_mention(c, d)
    &&& forall|i: int|
        #![trigger out[i]]
        0 <= i < out.len() ==> carries_amount(m, out[i].day@, out[i].modrinth@) && carries_amount(
            c,
            out[i].day@,
            out[i].curseforge@,
        )
}

/// A day after every day before position `j` and before the day at `j` is
/// not in an increasing grouping.
proof fn lemma_absent(ps: Seq<RevenuePoint>, j: int, x: Seq<char>)
    requires
        points_ascend(ps),
        0 <= j <= ps.len(),
        j < ps.len() ==> text_before(x, ps[j].day@),
        forall|q: int| 0 <= q < j ==> text_before(#[trigger] ps[q].day@, x),
    ensures
        !points_mention(ps, x),
{
    if points_mention(ps, x) {
        let q = choose|q: int| 0 <= q < ps.len() && #[trigger] ps[q].day@ == x;
        lemma_text_before_irreflexive(x);
        if q > j {
            assert(text_before(ps[j].day@, ps[q].day@));
            lemma_text_before_transitive(x, ps[j].day@, x);
        }
    }
}

/// In an increasing grouping a day is held once.
proof fn lemma_once(ps: Seq<RevenuePoint>, i: int, x: Seq<char>)
    requires
        points_ascend(ps),
        0 <= i < ps.len(),
        ps[i].day@ == x,
    ensures
        carries_amount(ps, x, ps[i].amount@),
{
    assert forall|j: int| 0 <= j < ps.len() && #[trigger] ps[j].day@ == x implies ps[i].amount@ == ps[j].amount@ by {
        if j != i {
            lemma_text_before_irreflexive(x);
            if j < i {
                assert(text_before(ps[j].day@, ps[i].day@));
            } else {
                assert(text_before(ps[i].day@, ps[j].day@));
            }
        }
    }
}

/// Every day of `ps` before position `j` is listed, hence before `x`.
proof fn lemma_listed_before(out: Seq<DayRevenue>, ps: Seq<RevenuePoint>, j: int, x: Seq<char>)
    requires
        0 <= j <= ps.len(),
        forall|q: int| 0 <= q < j ==> lists_day(out, #[trigger] ps[q].day@),
        forall|k: int| 0 <= k < out.len() ==> text_before(#[trigger] out[k].day@, x),
    ensures
        forall|q: int| 0 <= q < j ==> text_before(#[trigger] ps[q].day@, x),
{
    assert forall|q: int| 0 <= q < j implies text_before(#[trigger] ps[q].day@, x) by {
        assert(lists_day(out, ps[q].day@));
        let k = choose|k: int| 0 <= k < out.len() && #[trigger] out[k].day@ == ps[q].day@;
        assert(text_before(out[k].day@, x));
    }
}

/// Lays two increasing groupings side by side, day by day.
fn merge_days(m: &Vec<RevenuePoint>, c: &Vec<RevenuePoint>) -> (out: Vec<DayRevenue>)
    requires
        points_ascend(m@),
        points_ascend(c@),
    ensures
        merged(out@, m@, c@),
{
    let mut out: Vec<DayRevenue> = Vec::new();
    let mut i: usize = 0;
    let mut j: usize = 0;
    while i < m.len() || j < c.len()
        invariant
            i <= m@.len(),
            j <= c@.len(),
            points_ascend(m@),
            points_ascend(c@),
            days_ascend(out@),
            forall|d: Seq<char>| #[trigger] lists_day(out@, d) <==> points_mention(m@.take(i as int), d) || points_mention(c@.take(j as int), d),
            i < m@.len() ==> forall|k: int| 0 <= k < out@.len() ==> text_before(#[trigger] out@[k].day@, m@[i as int].day@),
            j < c@.len() ==> forall|k: int| 0 <= k < out@.len() ==> text_before(#[trigger] out@[k].day@, c@[j as int].day@),
            forall|k: int|
                #![trigger out@[k]]
                0 <= k < out@.len() ==> carries_amount(m@, out@[k].day@, out@[k].modrinth@) && carries_amount(
                    c@,
                    out@[k].day@,
                    out@[k].curseforge@,
                ),
        decreases m@.len() - i + c@.len() - j,
    {
        let ghost before = out@;
        let mut take_m = i < m.len();
        let mut take_c = j < c.len();
        if take_m && take_c {
            let dm = chars_of(m[i].day.as_str());
            let dc = chars_of(c[j].day.as_str());
            if less_text(&dm, &dc) {
                take_c = false;
            } else if less_text(&dc, &dm) {
                take_m = false;
            } else {
                proof {
                    lemma_text_before_total(dm@, dc@);
                }
            }
        }
        proof {
            assert forall|q: int| 0 <= q < i implies lists_day(before, #[trigger] m@[q].day@) by {
                assert(m@.take(i as int)[q] == m@[q]);
                assert(points_mention(m@.take(i as int), m@[q].day@));
            }
            assert forall|q: int| 0 <= q < j implies lists_day(before, #[trigger] c@[q].day@) by {
                assert(c@.take(j as int)[q] == c@[q]);
                assert(points_mention(c@.take(j as int), c@[q].day@));
            }
        }
        let day = if take_m {
            m[i].day.clone()
        } else {
            c[j].day.clone()
        };
        let modrinth = if take_m {
            m[i].amount.clone()
        } else {
            zero_amount()
        };
        let curseforge = if take_c {
            c[j].amount.clone()
        } else {
            zero_amount()
        };
        let e = DayRevenue { day, modrinth, curseforge };
        proof {
            if take_m {
                assert(e.day@ == m@[i as int].day@);
                lemma_once(m@, i as int, e.day@);
                if take_c {
                    lemma_once(c@, j as int, e.day@);
                } else {
                    lemma_listed_before(before, c@, j as int, e.day@);
                    lemma_absent(c@, j as int, e.day@);
                }
            } else {
                assert(e.day@ == c@[j as int].day@);
                lemma_once(c@, j as int, e.day@);
                lemma_listed_before(before, m@, i as int, e.day@);
                lemma_absent(m@, i as int, e.day@);
            }
        }
        out.push(e);
        let ghost ni: int = if take_m { i + 1 } else { i as int };
        let ghost nj: int = if take_c { j + 1 } else { j as int };
        proof {
            assert(out@ == before.push(e));
            assert forall|a: int, b: int| 0 <= a < b < out@.len() implies text_before(
                #[trigger] out@[a].day@,
                #[trigger] out@[b].day@,
            ) by {
                if b == before.len() {
                    assert(out@[a] == before[a]);
                    if take_m {
                        assert(text_before(before[a].day@, m@[i as int].day@));
                    } else {
                        assert(text_before(before[a].day@, c@[j as int].day@));
                    }
                } else {
                    assert(out@[a] == before[a]);
                    assert(out@[b] == before[b]);
                }
            }
            assert forall|d: Seq<char>| #[trigger] lists_day(out@, d) <==> points_mention(m@.take(ni), d) || points_mention(c@.take(nj), d) by {
                if lists_day(out@, d) {
                    let k = choose|k: int| 0 <= k < out@.len() && #[trigger] out@[k].day@ == d;
                    if k < before.len() {
                        assert(before[k].day@ == d);
                        assert(lists_day(before, d));
                        if points_mention(m@.take(i as int), d) {
                            let q = choose|q: int| 0 <= q < m@.take(i as int).len() && #[trigger] m@.take(i as int)[q].day@ == d;
                            assert(m@.take(ni)[q].day@ == d);
                        } else {
                            let q = choose|q: int| 0 <= q < c@.take(j as int).len() && #[trigger] c@.take(j as int)[q].day@ == d;
                            assert(c@.take(nj)[q].day@ == d);
                        }
                    } else if take_m {
                        assert(m@.take(ni)[i as int].day@ == d);
                    } else {
                        assert(c@.take(nj)[j as int].day@ == d);
                    }
                }
                if points_mention(m@.take(ni), d) {
                    let q = choose|q: int| 0 <= q < m@.take(ni).len() && #[trigger] m@.take(ni)[q].day@ == d;
                    if q < i {
                        assert(m@.take(i as int)[q].day@ == d);
                        assert(lists_day(before, d));
                        let k = choose|k: int| 0 <= k < before.len() && #[trigger] before[k].day@ == d;
                        assert(out@[k].day@ == d);
                    } else {
                        assert(out@[before.len() as int].day@ == d);
                    }
                }
                if points_mention(c@.take(nj), d) {
                    let q = choose|q: int| 0 <= q < c@.take(nj).len() && #[trigger] c@.take(nj)[q].day@ == d;
                    if q < j {
                        assert(c@.take(j as int)[q].day@ == d);
                        assert(lists_day(before, d));
                        let k = choose|k: int| 0 <= k < before.len() && #[trigger] before[k].day@ == d;
                        assert(out@[k].day@ == d);
                    } else {
                        assert(out@[before.len() as int].day@ == d);
                    }
                }
            }
            if ni < m@.len() {
                assert forall|k: int| 0 <= k < out@.len() implies text_before(#[trigger] out@[k].day@, m@[ni].day@) by {
                    if take_m {
                        assert(text_before(m@[i as int].day@, m@[ni].day@));
                        if k < before.len() {
                            assert(out@[k] == before[k]);
                            lemma_text_before_transitive(before[k].day@, m@[i as int].day@, m@[ni].day@);
                        }
                    } else {
                        if k < before.len() {
                            assert(out@[k] == before[k]);
                        }
                    }
                }
            }
            if nj < c@.len() {
                assert forall|k: int| 0 <= k < out@.len() implies text_before(#[trigger] out@[k].day@, c@[nj].day@) by {
                    if take_c {
                        assert(text_before(c@[j as int].day@, c@[nj].day@));
                        if k < before.len() {
                            assert(out@[k] == before[k]);
                            lemma_text_before_transitive(before[k].day@, c@[j as int].day@, c@[nj].day@);
                        }
                    } else {
                        if k < before.len() {
                            assert(out@[k] == before[k]);
                        }
                    }
                }
            }
            assert forall|k: int|
                #![trigger out@[k]]
                0 <= k < out@.len() implies carries_amount(m@, out@[k].day@, out@[k].modrinth@) && carries_amount(
                    c@,
                    out@[k].day@,
                    out@[k].curseforge@,
                ) by {
                if k < before.len() {
                    assert(out@[k] == before[k]);
                }
            }
        }
        if take_m {
            i = i + 1;
        }
        if take_c {
            j = j + 1;
        }
    }
    proof {
        assert(m@.take(m@.len() as int) =~= m@);
        assert(c@.take(c@.len() as int) =~= c@);
    }
    out
}

/// A total, or zero where it does not exist.
pub open spec fn total_or_zero(t: Option<Seq<char>>) -> Seq<char> {
    match t {
        Some(x) => x,
        None => zero_text(),
    }
}

/// What Modrinth earned on day `d`, zero when it is hidden or earned nothing
/// recorded.
pub open spec fn modrinth_on(filter: PlatformFilter, rows: Seq<RevenueEntry>, d: Seq<char>) -> Seq<char> {
    if filter.modrinth && rows_mention(rows, d) {
        total_or_zero(amount_total(amounts_on(rows, d)))
    } else {
        zero_text()
    }
}

/// The dollar value of the points gained on day `d`, zero when CurseForge is
/// hidden or gained nothing.
pub open spec fn curseforge_on(filter: PlatformFilter, gains: Seq<PointsGained>, d: Seq<char>) -> Seq<char> {
    if filter.curseforge && gained_on(gains, d) {
        total_or_zero(amount_total(values_on(gains, d)))
    } else {
        zero_text()
    }
}

/// The sums of the days fit, for each platform shown.
pub open spec fn day_revenue_fits(filter: PlatformFilter, rows: Seq<RevenueEntry>, gains: Seq<PointsGained>) -> bool {
    &&& filter.modrinth ==> day_sums_fit(rows)
    &&& filter.curseforge ==> curseforge_fits(gains)
}

/// One line per day with a recorded revenue on a platform shown, days in
/// order, each platform's figure on its own.
pub open spec fn split_by_day(
    out: Seq<DayRevenue>,
    filter: PlatformFilter,
    rows: Seq<RevenueEntry>,
    gains: Seq<PointsGained>,
) -> bool {
    &&& days_ascend(out)
    &&& forall|d: Seq<char>|
        #[trigger] lists_day(out, d) <==> (filter.modrinth && rows_mention(rows, d)) || (filter.curseforge
            && gained_on(gains, d))
    &&& forall|i: int|
        #![trigger out[i]]
        0 <= i < out.len() ==> out[i].modrinth@ == modrinth_on(filter, rows, out[i].day@) && out[i].curseforge@
            == curseforge_on(filter, gains, out[i].day@)
}

/// Revenue day by day, platform by platform. Modrinth's rows are its daily
/// payouts in the window; CurseForge publishes none, so its figure is the
/// dollar value of the points gained that day. A day without any revenue is
/// absent rather than put at zero: nothing was recorded, which is not the
/// same as nothing earned. `None` when a day's sum leaves what a decimal
/// holds.
pub fn revenue_by_day(
    filter: PlatformFilter,
    modrinth: &Vec<RevenueEntry>,
    curseforge: &Vec<PointsGained>,
) -> (r: Option<Vec<DayRevenue>>)
    ensures
        r is Some <==> day_revenue_fits(filter, modrinth@, curseforge@),
        r matches Some(v) ==> split_by_day(v@, filter, modrinth@, curseforge@),
{
    let m: Vec<RevenuePoint> = if filter.modrinth {
        match group_revenue(modrinth) {
            Some(v) => v,
            None => return None,
        }
    } else {
        Vec::new()
    };
    let c: Vec<RevenuePoint> = if filter.curseforge {
        let rows = match dollar_rows(curseforge) {
            Some(e) => e,
            None => {
                proof {
                    assert(!curseforge_fits(curseforge@));
                }
                return None;
            },
        };
        match group_revenue(&rows) {
            Some(v) => {
                proof {
                    assert forall|i: int|
                        0 <= i < curseforge@.len() && curseforge@[i].points != 0 implies #[trigger] amount_total(
                        values_on(curseforge@, curseforge@[i].day@),
                    ) is Some by {
                        let d = curseforge@[i].day@;
                        assert(gained_on(curseforge@, d));
                        assert(rows_mention(rows@, d));
                        let k = choose|k: int| 0 <= k < rows@.len() && #[trigger] rows@[k].day@ == d;
                        assert(amount_total(amounts_on(rows@, rows@[k].day@)) is Some);
                        assert(amounts_on(rows@, d) == values_on(curseforge@, d));
                    }
                }
                v
            },
            None => {
                proof {
                    assert(!day_sums_fit(rows@));
                    let k = choose|k: int| 0 <= k < rows@.len() && !(#[trigger] amount_total(amounts_on(rows@, rows@[k].day@)) is Some);
                    let d = rows@[k].day@;
                    assert(rows_mention(rows@, d));
                    assert(gained_on(curseforge@, d));
                    let i = choose|i: int| 0 <= i < curseforge@.len() && #[trigger] curseforge@[i].day@ == d && curseforge@[i].points != 0;
                    assert(amounts_on(rows@, d) == values_on(curseforge@, d));
                    assert(amount_total(values_on(curseforge@, curseforge@[i].day@)) is None);
                }
                return None;
            },
        }
    } else {
        Vec::new()
    };
    let out = merge_days(&m, &c);
    proof {
        assert forall|d: Seq<char>|
            #[trigger] lists_day(out@, d) <==> (filter.modrinth && rows_mention(modrinth@, d)) || (filter.curseforge
                && gained_on(curseforge@, d)) by {
            if !filter.modrinth {
                assert(!points_mention(m@, d));
            }
            if !filter.curseforge {
                assert(!points_mention(c@, d));
            }
        }
        assert forall|i: int|
            #![trigger out@[i]]
            0 <= i < out@.len() implies out@[i].modrinth@ == modrinth_on(filter, modrinth@, out@[i].day@)
                && out@[i].curseforge@ == curseforge_on(filter, curseforge@, out@[i].day@) by {
            let d = out@[i].day@;
            if filter.modrinth && rows_mention(modrinth@, d) {
                let j = choose|j: int| 0 <= j < m@.len() && #[trigger] m@[j].day@ == d;
                assert(amount_total(amounts_on(modrinth@, m@[j].day@)) == Some(m@[j].amount@));
            } else if filter.modrinth {
                assert(!points_mention(m@, d));
            } else {
                assert(!points_mention(m@, d));
            }
            if filter.curseforge && gained_on(curseforge@, d) {
                let j = choose|j: int| 0 <= j < c@.len() && #[trigger] c@[j].day@ == d;
                assert(c@[j].day@ == d);
            } else {
                assert(!points_mention(c@, d));
            }
        }
    }
    Some(out)
}

/// Hiding Modrinth empties its revenue rather than letting it through under
/// another name: every day shows zero for it.
pub proof fn hiding_modrinth_hides_its_revenue(
    out: Seq<DayRevenue>,
    filter: PlatformFilter,
    rows: Seq<RevenueEntry>,
    gains: Seq<PointsGained>,
)
    requires
        split_by_day(out, filter, rows, gains),
        !filter.modrinth,
    ensures
        forall|i: int| 0 <= i < out.len() ==> #[trigger] out[i].modrinth@ == zero_text(),
        forall|d: Seq<char>| lists_day(out, d) ==> filter.curseforge && gained_on(gains, d),
{
    assert forall|i: int| 0 <= i < out.len() implies #[trigger] out[i].modrinth@ == zero_text() by {
        assert(out[i].modrinth@ == modrinth_on(filter, rows, out[i].day@));
    }
}

} // verus!
