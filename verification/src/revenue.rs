//! Revenue as the dashboard shows it: day by day, and project by project,
//! the best-earning first.

use crate::models::{RevenueByProject, RevenuePoint};
use crate::money::{
    add_amounts, amount_normal, amount_parts, amount_total, below_amount,
    lemma_value_order, normalize_amount, same_value, value_below, zero_amount, zero_text,
};
use crate::text::signed_decimal;
use crate::text::{
    chars_of, lemma_text_before_irreflexive, lemma_text_before_total, lemma_text_before_transitive,
    less_text, same_chars, text_before,
};
use vstd::prelude::*;

verus! {

/// A revenue recorded for one day, as the base keeps it.
#[derive(Debug, Clone)]
pub struct RevenueEntry {
    pub day: String,
    pub amount: String,
}

/// The amounts recorded on day `d`, in the order of the rows.
pub open spec fn amounts_on(rows: Seq<RevenueEntry>, d: Seq<char>) -> Seq<Seq<char>>
    decreases rows.len(),
{
    if rows.len() == 0 {
        Seq::empty()
    } else if rows.last().day@ == d {
        amounts_on(rows.drop_last(), d).push(rows.last().amount@)
    } else {
        amounts_on(rows.drop_last(), d)
    }
}

pub open spec fn rows_mention(rows: Seq<RevenueEntry>, d: Seq<char>) -> bool {
    exists|i: int| 0 <= i < rows.len() && #[trigger] rows[i].day@ == d
}

pub open spec fn points_mention(out: Seq<RevenuePoint>, d: Seq<char>) -> bool {
    exists|i: int| 0 <= i < out.len() && #[trigger] out[i].day@ == d
}

/// Every day's amounts add up without leaving what a decimal holds.
pub open spec fn day_sums_fit(rows: Seq<RevenueEntry>) -> bool {
    forall|i: int| 0 <= i < rows.len() ==> #[trigger] amount_total(amounts_on(rows, rows[i].day@)) is Some
}

/// One point per day with a revenue, days in order, each with the sum of
/// the day.
pub open spec fn revenue_grouped(out: Seq<RevenuePoint>, rows: Seq<RevenueEntry>) -> bool {
    &&& forall|i: int, j: int| 0 <= i < j < out.len() ==> text_before(#[trigger] out[i].day@, #[trigger] out[j].day@)
    &&& forall|d: Seq<char>| rows_mention(rows, d) <==> points_mention(out, d)
    &&& forall|i: int| 0 <= i < out.len() ==> amount_total(amounts_on(rows, #[trigger] out[i].day@)) == Some(out[i].amount@)
}

proof fn lemma_unmentioned(rows: Seq<RevenueEntry>, d: Seq<char>)
    requires
        !rows_mention(rows, d),
    ensures
        amounts_on(rows, d) == Seq::<Seq<char>>::empty(),
    decreases rows.len(),
{
    if rows.len() > 0 {
        assert(rows.last() == rows[rows.len() - 1]);
        assert(!rows_mention(rows.drop_last(), d)) by {
            if rows_mention(rows.drop_last(), d) {
                let i = choose|i: int| 0 <= i < rows.drop_last().len() && #[trigger] rows.drop_last()[i].day@ == d;
                assert(rows[i].day@ == d);
            }
        }
        lemma_unmentioned(rows.drop_last(), d);
    }
}

/// The amounts of a day over a prefix of the rows are a prefix of those over
/// all the rows.
proof fn lemma_amounts_prefix(rows: Seq<RevenueEntry>, k: int, d: Seq<char>)
    requires
        0 <= k <= rows.len(),
    ensures
        amounts_on(rows.take(k), d).len() <= amounts_on(rows, d).len(),
        amounts_on(rows, d).take(amounts_on(rows.take(k), d).len() as int) == amounts_on(rows.take(k), d),
    decreases rows.len(),
{
    if k == rows.len() {
        assert(rows.take(k) =~= rows);
        assert(amounts_on(rows, d).take(amounts_on(rows, d).len() as int) =~= amounts_on(rows, d));
    } else {
        assert(rows.drop_last().take(k) =~= rows.take(k));
        lemma_amounts_prefix(rows.drop_last(), k, d);
        let a = amounts_on(rows.take(k), d);
        let b = amounts_on(rows.drop_last(), d);
        if rows.last().day@ == d {
            assert(b.push(rows.last().amount@).take(a.len() as int) =~= b.take(a.len() as int));
        }
    }
}

/// A sum that overflows on a prefix overflows on the whole.
proof fn lemma_total_prefix_none(s: Seq<Seq<char>>, n: int)
    requires
        0 <= n <= s.len(),
        amount_total(s.take(n)) is None,
    ensures
        amount_total(s) is None,
    decreases s.len() - n,
{
    if n < s.len() {
        assert(s.take(n + 1).drop_last() =~= s.take(n));
        lemma_total_prefix_none(s, n + 1);
    } else {
        assert(s.take(n) =~= s);
    }
}

proof fn lemma_step(prev: Seq<RevenueEntry>, next: Seq<RevenueEntry>, c: RevenueEntry, d: Seq<char>)
    requires
        next == prev.push(c),
    ensures
        amounts_on(next, d) == if c.day@ == d { amounts_on(prev, d).push(c.amount@) } else { amounts_on(prev, d) },
{
    assert(next.drop_last() =~= prev);
    assert(next.last() == c);
}

/// Groups the revenue day by day, days in order; `None` when a day's sum
/// leaves what a decimal holds.
pub(crate) fn group_revenue(rows: &Vec<RevenueEntry>) -> (o: Option<Vec<RevenuePoint>>)
    ensures
        o is Some <==> day_sums_fit(rows@),
        o matches Some(v) ==> revenue_grouped(v@, rows@),
{
    let mut out: Vec<RevenuePoint> = Vec::new();
    let mut k: usize = 0;
    assert(rows@.take(0) =~= Seq::<RevenueEntry>::empty());
    while k < rows.len()
        invariant
            k <= rows@.len(),
            revenue_grouped(out@, rows@.take(k as int)),
            day_sums_fit(rows@.take(k as int)),
        decreases rows@.len() - k,
    {
        let ghost prev = rows@.take(k as int);
        let ghost next = rows@.take(k + 1);
        let c = &rows[k];
        proof {
            assert(next =~= prev.push(rows@[k as int]));
        }
        let day = chars_of(c.day.as_str());
        let mut p: usize = 0;
        while p < out.len() && less_text(&chars_of(out[p].day.as_str()), &day)
            invariant
                p <= out@.len(),
                day@ == c.day@,
                forall|i: int| 0 <= i < p ==> text_before(#[trigger] out@[i].day@, day@),
            decreases out@.len() - p,
        {
            p = p + 1;
        }
        let ghost before = out@;
        let known = p < out.len() && same_chars(&chars_of(out[p].day.as_str()), &day);
        let ghost base: Seq<char> = if known { before[p as int].amount@ } else { zero_text() };
        proof {
            if known {
                assert(amount_total(amounts_on(prev, c.day@)) == Some(base));
            } else {
                assert(!rows_mention(prev, c.day@)) by {
                    if rows_mention(prev, c.day@) {
                        assert(points_mention(before, c.day@));
                        let j = choose|j: int| 0 <= j < before.len() && #[trigger] before[j].day@ == c.day@;
                        if j < p {
                            lemma_text_before_irreflexive(c.day@);
                        } else if p < before.len() {
                            lemma_text_before_total(before[p as int].day@, c.day@);
                            if j > p {
                                lemma_text_before_transitive(c.day@, before[p as int].day@, before[j].day@);
                                lemma_text_before_irreflexive(c.day@);
                            }
                        }
                    }
                }
                lemma_unmentioned(prev, c.day@);
                assert(amount_total(amounts_on(prev, c.day@)) == Some(base));
            }
            lemma_step(prev, next, rows@[k as int], c.day@);
            assert(amounts_on(next, c.day@).drop_last() =~= amounts_on(prev, c.day@));
        }
        let start = if known {
            out[p].amount.clone()
        } else {
            zero_amount()
        };
        assert(start@ == base);
        let sum = match add_amounts(start.as_str(), c.amount.as_str()) {
            Some(t) => t,
            None => {
                proof {
                    assert(amount_total(amounts_on(next, c.day@)) is None);
                    lemma_amounts_prefix(rows@, k + 1, c.day@);
                    lemma_total_prefix_none(amounts_on(rows@, c.day@), amounts_on(next, c.day@).len() as int);
                    assert(rows@[k as int].day@ == c.day@);
                }
                return None;
            },
        };
        let point = RevenuePoint { day: c.day.clone(), amount: sum };
        proof {
            assert(amount_total(amounts_on(next, c.day@)) == Some(point.amount@));
        }
        if known {
            out.set(p, point);
            proof {
                assert forall|i: int, j: int| 0 <= i < j < out@.len() implies text_before(
                    #[trigger] out@[i].day@,
                    #[trigger] out@[j].day@,
                ) by {
                    assert(out@[i].day@ == before[i].day@);
                    assert(out@[j].day@ == before[j].day@);
                }
                assert forall|d: Seq<char>| rows_mention(next, d) <==> points_mention(out@, d) by {
                    if rows_mention(next, d) {
                        let i = choose|i: int| 0 <= i < next.len() && #[trigger] next[i].day@ == d;
                        if i < prev.len() {
                            assert(prev[i].day@ == d);
                            assert(points_mention(before, d));
                            let j = choose|j: int| 0 <= j < before.len() && #[trigger] before[j].day@ == d;
                            assert(out@[j].day@ == d);
                        } else {
                            assert(out@[p as int].day@ == d);
                        }
                    }
                    if points_mention(out@, d) {
                        let j = choose|j: int| 0 <= j < out@.len() && #[trigger] out@[j].day@ == d;
                        assert(before[j].day@ == d);
                        assert(points_mention(before, d));
                        let i = choose|i: int| 0 <= i < prev.len() && #[trigger] prev[i].day@ == d;
                        assert(next[i].day@ == d);
                    }
                }
                assert forall|i: int| 0 <= i < out@.len() implies amount_total(amounts_on(next, #[trigger] out@[i].day@)) == Some(out@[i].amount@) by {
                    lemma_step(prev, next, rows@[k as int], out@[i].day@);
                    if i != p {
                        assert(out@[i] == before[i]);
                        if before[i].day@ == c.day@ {
                            if i < p {
                                lemma_text_before_irreflexive(c.day@);
                            } else {
                                assert(text_before(before[p as int].day@, before[i].day@));
                                lemma_text_before_irreflexive(c.day@);
                            }
                        }
                    }
                }
            }
        } else {
            proof {
                if p < before.len() {
                    lemma_text_before_total(before[p as int].day@, c.day@);
                }
            }
            out.insert(p, point);
            proof {
                assert(out@ == before.insert(p as int, out@[p as int]));
                assert forall|i: int, j: int| 0 <= i < j < out@.len() implies text_before(
                    #[trigger] out@[i].day@,
                    #[trigger] out@[j].day@,
                ) by {
                    if j < p {
                        assert(out@[i] == before[i]);
                        assert(out@[j] == before[j]);
                    } else if j == p {
                        assert(out@[i] == before[i]);
                    } else if i == p {
                        assert(out@[j] == before[j - 1]);
                        if j - 1 > p {
                            lemma_text_before_transitive(c.day@, before[p as int].day@, before[j - 1].day@);
                        }
                    } else if i < p {
                        assert(out@[i] == before[i]);
                        assert(out@[j] == before[j - 1]);
                    } else {
                        assert(out@[i] == before[i - 1]);
                        assert(out@[j] == before[j - 1]);
                    }
                }
                assert forall|d: Seq<char>| rows_mention(next, d) <==> points_mention(out@, d) by {
                    if rows_mention(next, d) {
                        let i = choose|i: int| 0 <= i < next.len() && #[trigger] next[i].day@ == d;
                        if i < prev.len() {
                            assert(prev[i].day@ == d);
                            assert(points_mention(before, d));
                            let j = choose|j: int| 0 <= j < before.len() && #[trigger] before[j].day@ == d;
                            if j < p {
                                assert(out@[j].day@ == d);
                            } else {
                                assert(out@[j + 1].day@ == d);
                            }
                        } else {
                            assert(out@[p as int].day@ == d);
                        }
                    }
                    if points_mention(out@, d) {
                        let j = choose|j: int| 0 <= j < out@.len() && #[trigger] out@[j].day@ == d;
                        if j == p {
                            assert(next[k as int].day@ == d);
                        } else {
                            let j0 = if j < p { j } else { j - 1 };
                            assert(before[j0].day@ == d);
                            assert(points_mention(before, d));
                            let i = choose|i: int| 0 <= i < prev.len() && #[trigger] prev[i].day@ == d;
                            assert(next[i].day@ == d);
                        }
                    }
                }
                assert forall|i: int| 0 <= i < out@.len() implies amount_total(amounts_on(next, #[trigger] out@[i].day@)) == Some(out@[i].amount@) by {
                    lemma_step(prev, next, rows@[k as int], out@[i].day@);
                    if i != p {
                        let i0 = if i < p { i } else { i - 1 };
                        assert(out@[i] == before[i0]);
                        if before[i0].day@ == c.day@ {
                            assert(points_mention(before, c.day@));
                        }
                    }
                }
            }
        }
        proof {
            assert forall|i: int| 0 <= i < next.len() implies #[trigger] amount_total(amounts_on(next, next[i].day@)) is Some by {
                lemma_step(prev, next, rows@[k as int], next[i].day@);
                if next[i].day@ != c.day@ {
                    assert(prev[i].day@ == next[i].day@);
                }
            }
        }
        k = k + 1;
    }
    assert(rows@.take(rows@.len() as int) =~= rows@);
    Some(out)
}

/// Revenue day by day over the window, days in order; the amounts of a day,
/// whatever the project, add up.
pub fn revenue(rows: &Vec<RevenueEntry>) -> (r: Vec<RevenuePoint>)
    requires
        day_sums_fit(rows@),
    ensures
        revenue_grouped(r@, rows@),
{
    match group_revenue(rows) {
        Some(v) => v,
        None => vstd::pervasive::unreached(),
    }
}

/// Revenue day by day, or `None` when a day's sum leaves what a decimal holds.
pub fn checked_revenue(rows: &Vec<RevenueEntry>) -> (r: Option<Vec<RevenuePoint>>)
    ensures
        r is Some <==> day_sums_fit(rows@),
        r matches Some(v) ==> revenue_grouped(v@, rows@),
{
    if group_revenue(rows).is_some() {
        Some(revenue(rows))
    } else {
        None
    }
}

// Revenue project by project.

/// A revenue recorded for one Modrinth project on one day.
#[derive(Debug, Clone)]
pub struct ProjectRevenueEntry {
    pub project_id: i64,
    pub title: String,
    pub amount: String,
}

/// The amounts recorded for the project, in the order of the rows.
pub open spec fn project_amounts(rows: Seq<ProjectRevenueEntry>, id: i64, title: Seq<char>) -> Seq<Seq<char>>
    decreases rows.len(),
{
    if rows.len() == 0 {
        Seq::empty()
    } else if rows.last().project_id == id && rows.last().title@ == title {
        project_amounts(rows.drop_last(), id, title).push(rows.last().amount@)
    } else {
        project_amounts(rows.drop_last(), id, title)
    }
}

pub open spec fn project_mentioned(rows: Seq<ProjectRevenueEntry>, id: i64, title: Seq<char>) -> bool {
    exists|i: int| 0 <= i < rows.len() && (#[trigger] rows[i]).project_id == id && rows[i].title@ == title
}

/// Every project's amounts add up without leaving what a decimal holds.
pub open spec fn project_sums_fit(rows: Seq<ProjectRevenueEntry>) -> bool {
    forall|i: int| 0 <= i < rows.len() ==> #[trigger] amount_total(project_amounts(rows, rows[i].project_id, rows[i].title@)) is Some
}

/// Projects in the order of their identifier, then of their title.
pub open spec fn key_before(a: (i64, Seq<char>), b: (i64, Seq<char>)) -> bool {
    a.0 < b.0 || (a.0 == b.0 && text_before(a.1, b.1))
}

/// A line `(project, title, amount)` comes before another: it earned more,
/// or as much with a smaller key.
pub open spec fn ranks_before(a: (i64, Seq<char>, Seq<char>), b: (i64, Seq<char>, Seq<char>)) -> bool {
    let pa = amount_parts(a.2);
    let pb = amount_parts(b.2);
    ||| value_below(pb, pa)
    ||| (same_value(pa, pb) && key_before((a.0, a.1), (b.0, b.1)))
}

/// The lines of the projects that earned, the best first, each with the
/// sum of its amounts without trailing zeros.
pub open spec fn ranked_lines(lines: Seq<(i64, Seq<char>, Seq<char>)>, rows: Seq<ProjectRevenueEntry>) -> bool {
    &&& forall|i: int, j: int| 0 <= i < j < lines.len() ==> ranks_before(#[trigger] lines[i], #[trigger] lines[j])
    &&& forall|i: int| 0 <= i < lines.len() ==> {
        &&& project_mentioned(rows, (#[trigger] lines[i]).0, lines[i].1)
        &&& match amount_total(project_amounts(rows, lines[i].0, lines[i].1)) {
            Some(t) => lines[i].2 == amount_normal(t),
            None => false,
        }
    }
    &&& forall|k: int| 0 <= k < rows.len() ==> exists|i: int| 0 <= i < lines.len() && (#[trigger] lines[i]).0 == (#[trigger] rows[k]).project_id && lines[i].1 == rows[k].title@
}

/// The line that the dashboard shows: the key `m` and the identifier, the
/// title, the amount.
pub open spec fn line_shows(l: RevenueByProject, line: (i64, Seq<char>, Seq<char>)) -> bool {
    &&& l.key@ == seq!['m'] + signed_decimal(line.0 as int)
    &&& l.title@ == line.1
    &&& l.amount@ == line.2
}

proof fn lemma_rank_order(a: (i64, Seq<char>, Seq<char>), b: (i64, Seq<char>, Seq<char>), c: (i64, Seq<char>, Seq<char>))
    ensures
        !ranks_before(a, a),
        ranks_before(a, b) && ranks_before(b, c) ==> ranks_before(a, c),
        (a.0, a.1) != (b.0, b.1) ==> ranks_before(a, b) || ranks_before(b, a),
{
    let pa = amount_parts(a.2);
    let pb = amount_parts(b.2);
    let pc = amount_parts(c.2);
    lemma_value_order(pa, pb, pc);
    lemma_value_order(pc, pb, pa);
    lemma_value_order(pb, pa, pc);
    lemma_value_order(pa, pc, pb);
    lemma_value_order(pb, pc, pa);
    lemma_value_order(pc, pa, pb);
    lemma_text_before_irreflexive(a.1);
    lemma_text_before_total(a.1, b.1);
    if text_before(a.1, b.1) && text_before(b.1, c.1) {
        lemma_text_before_transitive(a.1, b.1, c.1);
    }
    if (a.0, a.1) != (b.0, b.1) && a.0 == b.0 {
        assert(a.1 != b.1);
    }
}

/// The sums of the projects, keys all different.
pub open spec fn grouped_projects(groups: Seq<(i64, String, String)>, rows: Seq<ProjectRevenueEntry>) -> bool {
    &&& forall|i: int, j: int| 0 <= i < j < groups.len() ==> ((#[trigger] groups[i]).0, groups[i].1@) != ((#[trigger] groups[j]).0, groups[j].1@)
    &&& forall|i: int| 0 <= i < groups.len() ==> {
        &&& project_mentioned(rows, (#[trigger] groups[i]).0, groups[i].1@)
        &&& amount_total(project_amounts(rows, groups[i].0, groups[i].1@)) == Some(groups[i].2@)
    }
    &&& forall|k: int| 0 <= k < rows.len() ==> exists|i: int| 0 <= i < groups.len() && (#[trigger] groups[i]).0 == (#[trigger] rows[k]).project_id && groups[i].1@ == rows[k].title@
}

proof fn lemma_project_step(prev: Seq<ProjectRevenueEntry>, next: Seq<ProjectRevenueEntry>, c: ProjectRevenueEntry, id: i64, t: Seq<char>)
    requires
        next == prev.push(c),
    ensures
        project_amounts(next, id, t) == if c.project_id == id && c.title@ == t {
            project_amounts(prev, id, t).push(c.amount@)
        } else {
            project_amounts(prev, id, t)
        },
{
    assert(next.drop_last() =~= prev);
    assert(next.last() == c);
}

proof fn lemma_project_unmentioned(rows: Seq<ProjectRevenueEntry>, id: i64, t: Seq<char>)
    requires
        !project_mentioned(rows, id, t),
    ensures
        project_amounts(rows, id, t) == Seq::<Seq<char>>::empty(),
    decreases rows.len(),
{
    if rows.len() > 0 {
        assert(rows.last() == rows[rows.len() - 1]);
        assert(!project_mentioned(rows.drop_last(), id, t)) by {
            if project_mentioned(rows.drop_last(), id, t) {
                let i = choose|i: int| 0 <= i < rows.drop_last().len() && (#[trigger] rows.drop_last()[i]).project_id == id && rows.drop_last()[i].title@ == t;
                assert(rows[i] == rows.drop_last()[i]);
            }
        }
        lemma_project_unmentioned(rows.drop_last(), id, t);
    }
}

proof fn lemma_project_prefix(rows: Seq<ProjectRevenueEntry>, k: int, id: i64, t: Seq<char>)
    requires
        0 <= k <= rows.len(),
    ensures
        project_amounts(rows.take(k), id, t).len() <= project_amounts(rows, id, t).len(),
        project_amounts(rows, id, t).take(project_amounts(rows.take(k), id, t).len() as int) == project_amounts(rows.take(k), id, t),
    decreases rows.len(),
{
    if k == rows.len() {
        assert(rows.take(k) =~= rows);
        assert(project_amounts(rows, id, t).take(project_amounts(rows, id, t).len() as int) =~= project_amounts(rows, id, t));
    } else {
        assert(rows.drop_last().take(k) =~= rows.take(k));
        lemma_project_prefix(rows.drop_last(), k, id, t);
        let a = project_amounts(rows.take(k), id, t);
        let b = project_amounts(rows.drop_last(), id, t);
        if rows.last().project_id == id && rows.last().title@ == t {
            assert(b.push(rows.last().amount@).take(a.len() as int) =~= b.take(a.len() as int));
        }
    }
}

/// Sums the amounts project by project, in the order in which projects come;
/// `None` when a sum leaves what a decimal holds.
fn group_projects(rows: &Vec<ProjectRevenueEntry>) -> (o: Option<Vec<(i64, String, String)>>)
    ensures
        o is Some <==> project_sums_fit(rows@),
        o matches Some(g) ==> grouped_projects(g@, rows@),
{
    let mut out: Vec<(i64, String, String)> = Vec::new();
    let mut k: usize = 0;
    assert(rows@.take(0) =~= Seq::<ProjectRevenueEntry>::empty());
    while k < rows.len()
        invariant
            k <= rows@.len(),
            grouped_projects(out@, rows@.take(k as int)),
            project_sums_fit(rows@.take(k as int)),
        decreases rows@.len() - k,
    {
        let ghost prev = rows@.take(k as int);
        let ghost next = rows@.take(k + 1);
        let c = &rows[k];
        proof {
            assert(next =~= prev.push(rows@[k as int]));
        }
        let title = chars_of(c.title.as_str());
        let mut p: usize = 0;
        while p < out.len() && !(out[p].0 == c.project_id && same_chars(&chars_of(out[p].1.as_str()), &title))
            invariant
                p <= out@.len(),
                title@ == c.title@,
                forall|i: int| 0 <= i < p ==> ((#[trigger] out@[i]).0, out@[i].1@) != (c.project_id, c.title@),
            decreases out@.len() - p,
        {
            p = p + 1;
        }
        let ghost before = out@;
        let known = p < out.len();
        let start = if known {
            out[p].2.clone()
        } else {
            zero_amount()
        };
        proof {
            if known {
                assert(amount_total(project_amounts(prev, c.project_id, c.title@)) == Some(start@));
            } else {
                assert(!project_mentioned(prev, c.project_id, c.title@)) by {
                    if project_mentioned(prev, c.project_id, c.title@) {
                        let i = choose|i: int| 0 <= i < prev.len() && (#[trigger] prev[i]).project_id == c.project_id && prev[i].title@ == c.title@;
                        let j = choose|j: int| 0 <= j < before.len() && (#[trigger] before[j]).0 == (#[trigger] prev[i]).project_id && before[j].1@ == prev[i].title@;
                    }
                }
                lemma_project_unmentioned(prev, c.project_id, c.title@);
            }
            lemma_project_step(prev, next, rows@[k as int], c.project_id, c.title@);
            assert(project_amounts(next, c.project_id, c.title@).drop_last() =~= project_amounts(prev, c.project_id, c.title@));
        }
        let sum = match add_amounts(start.as_str(), c.amount.as_str()) {
            Some(t) => t,
            None => {
                proof {
                    lemma_project_prefix(rows@, k + 1, c.project_id, c.title@);
                    lemma_total_prefix_none(project_amounts(rows@, c.project_id, c.title@), project_amounts(next, c.project_id, c.title@).len() as int);
                    assert(rows@[k as int].project_id == c.project_id);
                }
                return None;
            },
        };
        let group = (c.project_id, c.title.clone(), sum);
        if known {
            out.set(p, group);
        } else {
            out.push(group);
        }
        proof {
            assert forall|i: int, j: int| 0 <= i < j < out@.len() implies ((#[trigger] out@[i]).0, out@[i].1@) != ((#[trigger] out@[j]).0, out@[j].1@) by {
                if !known && j == before.len() {
                    assert(out@[i] == before[i]);
                } else if known && (i == p || j == p) {
                    if i == p {
                        assert(before[j] == out@[j]);
                        assert((before[p as int].0, before[p as int].1@) != (before[j].0, before[j].1@));
                    } else {
                        assert(before[i] == out@[i]);
                        assert((before[i].0, before[i].1@) != (before[p as int].0, before[p as int].1@));
                    }
                } else {
                    assert(out@[i] == before[i]);
                    assert(out@[j] == before[j]);
                }
            }
            assert forall|i: int| 0 <= i < out@.len() implies {
                &&& project_mentioned(next, (#[trigger] out@[i]).0, out@[i].1@)
                &&& amount_total(project_amounts(next, out@[i].0, out@[i].1@)) == Some(out@[i].2@)
            } by {
                lemma_project_step(prev, next, rows@[k as int], out@[i].0, out@[i].1@);
                if (known && i == p) || (!known && i == before.len()) {
                    assert(next[k as int] == rows@[k as int]);
                } else {
                    assert(out@[i] == before[i]);
                    let w = choose|w: int| 0 <= w < prev.len() && (#[trigger] prev[w]).project_id == before[i].0 && prev[w].title@ == before[i].1@;
                    assert(next[w] == prev[w]);
                }
            }
            assert forall|q: int| 0 <= q < next.len() implies exists|i: int| 0 <= i < out@.len() && (#[trigger] out@[i]).0 == (#[trigger] next[q]).project_id && out@[i].1@ == next[q].title@ by {
                if q == k {
                    let i = if known { p as int } else { before.len() as int };
                    assert(out@[i].0 == next[q].project_id && out@[i].1@ == next[q].title@);
                } else {
                    assert(next[q] == prev[q]);
                    let i = choose|i: int| 0 <= i < before.len() && (#[trigger] before[i]).0 == (#[trigger] prev[q]).project_id && before[i].1@ == prev[q].title@;
                    if known && i == p {
                        assert(out@[i].0 == next[q].project_id && out@[i].1@ == next[q].title@);
                    } else {
                        assert(out@[i] == before[i]);
                    }
                }
            }
            assert forall|q: int| 0 <= q < next.len() implies #[trigger] amount_total(project_amounts(next, next[q].project_id, next[q].title@)) is Some by {
                lemma_project_step(prev, next, rows@[k as int], next[q].project_id, next[q].title@);
                if q < k {
                    assert(next[q] == prev[q]);
                }
            }
        }
        k = k + 1;
    }
    assert(rows@.take(rows@.len() as int) =~= rows@);
    Some(out)
}

pub open spec fn line_view(l: (i64, String, String)) -> (i64, Seq<char>, Seq<char>) {
    (l.0, l.1@, l.2@)
}

fn ranks_earlier(a: &(i64, String, String), b: &(i64, String, String)) -> (r: bool)
    ensures
        r == ranks_before(line_view(*a), line_view(*b)),
{
    proof {
        lemma_value_order(amount_parts(a.2@), amount_parts(b.2@), amount_parts(b.2@));
    }
    if below_amount(b.2.as_str(), a.2.as_str()) {
        return true;
    }
    if below_amount(a.2.as_str(), b.2.as_str()) {
        return false;
    }
    a.0 < b.0 || (a.0 == b.0 && less_text(&chars_of(a.1.as_str()), &chars_of(b.1.as_str())))
}

pub open spec fn sorted_lines(out: Seq<(i64, String, String)>) -> bool {
    forall|i: int, j: int| 0 <= i < j < out.len() ==> ranks_before(line_view(#[trigger] out[i]), line_view(#[trigger] out[j]))
}

/// Each line comes from one of the first `k` groups, its amount written
/// without trailing zeros.
pub open spec fn lines_from(out: Seq<(i64, String, String)>, gv: Seq<(i64, String, String)>, k: int) -> bool {
    forall|i: int| 0 <= i < out.len() ==> exists|j: int| 0 <= j < k && (#[trigger] out[i]).0 == (#[trigger] gv[j]).0 && out[i].1@ == gv[j].1@ && out[i].2@ == amount_normal(gv[j].2@)
}

/// Each of the first `k` groups has its line.
pub open spec fn lines_cover(out: Seq<(i64, String, String)>, gv: Seq<(i64, String, String)>, k: int) -> bool {
    forall|j: int| 0 <= j < k ==> exists|i: int| 0 <= i < out.len() && (#[trigger] out[i]).0 == (#[trigger] gv[j]).0 && out[i].1@ == gv[j].1@
}

pub open spec fn keys_differ(gv: Seq<(i64, String, String)>) -> bool {
    forall|i: int, j: int| 0 <= i < j < gv.len() ==> ((#[trigger] gv[i]).0, gv[i].1@) != ((#[trigger] gv[j]).0, gv[j].1@)
}

proof fn lemma_insert_sorted(before: Seq<(i64, String, String)>, p: int, x: (i64, String, String))
    requires
        0 <= p <= before.len(),
        sorted_lines(before),
        forall|i: int| 0 <= i < before.len() ==> (line_view(#[trigger] before[i]).0, line_view(before[i]).1) != (line_view(x).0, line_view(x).1),
        forall|i: int| 0 <= i < p ==> !ranks_before(line_view(x), line_view(#[trigger] before[i])),
        p < before.len() ==> ranks_before(line_view(x), line_view(before[p])),
    ensures
        sorted_lines(before.insert(p, x)),
{
    let xv = line_view(x);
    let out = before.insert(p, x);
    assert forall|i: int| 0 <= i < p implies ranks_before(line_view(#[trigger] before[i]), xv) by {
        lemma_rank_order(line_view(before[i]), xv, xv);
    }
    assert forall|i: int| p <= i < before.len() implies ranks_before(xv, line_view(#[trigger] before[i])) by {
        if i > p {
            lemma_rank_order(xv, line_view(before[p]), line_view(before[i]));
        }
    }
    assert forall|i: int, j: int| 0 <= i < j < out.len() implies ranks_before(line_view(#[trigger] out[i]), line_view(#[trigger] out[j])) by {
        if j < p {
            assert(out[i] == before[i]);
            assert(out[j] == before[j]);
        } else if j == p {
            assert(out[i] == before[i]);
        } else if i == p {
            assert(out[j] == before[j - 1]);
        } else if i < p {
            assert(out[i] == before[i]);
            assert(out[j] == before[j - 1]);
            lemma_rank_order(line_view(before[i]), xv, line_view(before[j - 1]));
        } else {
            assert(out[i] == before[i - 1]);
            assert(out[j] == before[j - 1]);
        }
    }
}

proof fn lemma_new_key(before: Seq<(i64, String, String)>, x: (i64, String, String), gv: Seq<(i64, String, String)>, k: int)
    requires
        0 <= k < gv.len(),
        keys_differ(gv),
        lines_from(before, gv, k),
        x.0 == gv[k].0,
        x.1@ == gv[k].1@,
    ensures
        forall|i: int| 0 <= i < before.len() ==> (line_view(#[trigger] before[i]).0, line_view(before[i]).1) != (line_view(x).0, line_view(x).1),
{
    assert forall|i: int| 0 <= i < before.len() implies (line_view(#[trigger] before[i]).0, line_view(before[i]).1) != (line_view(x).0, line_view(x).1) by {
        let j = choose|j: int| 0 <= j < k && (#[trigger] before[i]).0 == (#[trigger] gv[j]).0 && before[i].1@ == gv[j].1@ && before[i].2@ == amount_normal(gv[j].2@);
        assert((gv[j].0, gv[j].1@) != (gv[k].0, gv[k].1@));
    }
}

proof fn lemma_insert_from(before: Seq<(i64, String, String)>, p: int, x: (i64, String, String), gv: Seq<(i64, String, String)>, k: int)
    requires
        0 <= k < gv.len(),
        0 <= p <= before.len(),
        lines_from(before, gv, k),
        x.0 == gv[k].0,
        x.1@ == gv[k].1@,
        x.2@ == amount_normal(gv[k].2@),
    ensures
        lines_from(before.insert(p, x), gv, k + 1),
{
    let out = before.insert(p, x);
    assert forall|i: int| 0 <= i < out.len() implies exists|j: int| 0 <= j < k + 1 && (#[trigger] out[i]).0 == (#[trigger] gv[j]).0 && out[i].1@ == gv[j].1@ && out[i].2@ == amount_normal(gv[j].2@) by {
        if i == p {
            assert(out[i].0 == gv[k].0);
        } else {
            let i0 = if i < p { i } else { i - 1 };
            assert(out[i] == before[i0]);
            let j = choose|j: int| 0 <= j < k && (#[trigger] before[i0]).0 == (#[trigger] gv[j]).0 && before[i0].1@ == gv[j].1@ && before[i0].2@ == amount_normal(gv[j].2@);
            assert(out[i].0 == gv[j].0);
        }
    }
}

proof fn lemma_insert_cover(before: Seq<(i64, String, String)>, p: int, x: (i64, String, String), gv: Seq<(i64, String, String)>, k: int)
    requires
        0 <= k < gv.len(),
        0 <= p <= before.len(),
        lines_cover(before, gv, k),
        x.0 == gv[k].0,
        x.1@ == gv[k].1@,
    ensures
        lines_cover(before.insert(p, x), gv, k + 1),
{
    let out = before.insert(p, x);
    assert forall|j: int| 0 <= j < k + 1 implies exists|i: int| 0 <= i < out.len() && (#[trigger] out[i]).0 == (#[trigger] gv[j]).0 && out[i].1@ == gv[j].1@ by {
        if j == k {
            assert(out[p].0 == gv[j].0);
        } else {
            let i = choose|i: int| 0 <= i < before.len() && (#[trigger] before[i]).0 == (#[trigger] gv[j]).0 && before[i].1@ == gv[j].1@;
            if i < p {
                assert(out[i] == before[i]);
            } else {
                assert(out[i + 1] == before[i]);
            }
        }
    }
}

proof fn lemma_insert_line(
    before: Seq<(i64, String, String)>,
    p: int,
    x: (i64, String, String),
    gv: Seq<(i64, String, String)>,
    k: int,
)
    requires
        0 <= k < gv.len(),
        0 <= p <= before.len(),
        keys_differ(gv),
        sorted_lines(before),
        lines_from(before, gv, k),
        lines_cover(before, gv, k),
        x.0 == gv[k].0,
        x.1@ == gv[k].1@,
        x.2@ == amount_normal(gv[k].2@),
        forall|i: int| 0 <= i < p ==> !ranks_before(line_view(x), line_view(#[trigger] before[i])),
        p < before.len() ==> ranks_before(line_view(x), line_view(before[p])),
    ensures
        sorted_lines(before.insert(p, x)),
        lines_from(before.insert(p, x), gv, k + 1),
        lines_cover(before.insert(p, x), gv, k + 1),
{
    lemma_new_key(before, x, gv, k);
    lemma_insert_sorted(before, p, x);
    lemma_insert_from(before, p, x, gv, k);
    lemma_insert_cover(before, p, x, gv, k);
}

/// Orders the sums of the projects, the best first, amounts written without
/// trailing zeros.
fn rank_groups(groups: Vec<(i64, String, String)>) -> (r: Vec<(i64, String, String)>)
    requires
        keys_differ(groups@),
    ensures
        sorted_lines(r@),
        lines_from(r@, groups@, groups@.len() as int),
        lines_cover(r@, groups@, groups@.len() as int),
{
    let ghost gv = groups@;
    let mut out: Vec<(i64, String, String)> = Vec::new();
    let mut k: usize = 0;
    while k < groups.len()
        invariant
            k <= gv.len(),
            gv == groups@,
            keys_differ(gv),
            sorted_lines(out@),
            lines_from(out@, gv, k as int),
            lines_cover(out@, gv, k as int),
        decreases gv.len() - k,
    {
        let x = (groups[k].0, groups[k].1.clone(), normalize_amount(groups[k].2.as_str()));
        let ghost xv = line_view(x);
        let mut p: usize = 0;
        while p < out.len() && !ranks_earlier(&x, &out[p])
            invariant
                p <= out@.len(),
                xv == line_view(x),
                forall|i: int| 0 <= i < p ==> !ranks_before(xv, line_view(#[trigger] out@[i])),
            decreases out@.len() - p,
        {
            p = p + 1;
        }
        let ghost before = out@;
        proof {
            lemma_insert_line(before, p as int, x, gv, k as int);
        }
        out.insert(p, x);
        assert(out@ == before.insert(p as int, x));
        k = k + 1;
    }
    out
}

fn group_and_rank(rows: &Vec<ProjectRevenueEntry>) -> (o: Option<Vec<RevenueByProject>>)
    ensures
        o is Some <==> project_sums_fit(rows@),
        o matches Some(r) ==> exists|lines: Seq<(i64, Seq<char>, Seq<char>)>| {
            &&& ranked_lines(lines, rows@)
            &&& lines.len() == r@.len()
            &&& forall|i: int| 0 <= i < r@.len() ==> line_shows(#[trigger] r@[i], lines[i])
        },
{
    let groups = match group_projects(rows) {
        Some(g) => g,
        None => return None,
    };
    let ghost gv = groups@;
    let ranked = rank_groups(groups);
    let ghost lines = ranked@.map_values(|l: (i64, String, String)| line_view(l));
    let mut out: Vec<RevenueByProject> = Vec::new();
    let mut k: usize = 0;
    while k < ranked.len()
        invariant
            k <= ranked@.len(),
            lines == ranked@.map_values(|l: (i64, String, String)| line_view(l)),
            out@.len() == k,
            forall|i: int| 0 <= i < k ==> line_shows(#[trigger] out@[i], lines[i]),
        decreases ranked@.len() - k,
    {
        let line = RevenueByProject {
            key: crate::queries::key_text('m', ranked[k].0),
            title: ranked[k].1.clone(),
            amount: ranked[k].2.clone(),
        };
        out.push(line);
        k = k + 1;
    }
    proof {
        assert forall|i: int, j: int| 0 <= i < j < lines.len() implies ranks_before(#[trigger] lines[i], #[trigger] lines[j]) by {
            assert(lines[i] == line_view(ranked@[i]));
            assert(lines[j] == line_view(ranked@[j]));
        }
        assert forall|i: int| 0 <= i < lines.len() implies {
            &&& project_mentioned(rows@, (#[trigger] lines[i]).0, lines[i].1)
            &&& match amount_total(project_amounts(rows@, lines[i].0, lines[i].1)) {
                Some(t) => lines[i].2 == amount_normal(t),
                None => false,
            }
        } by {
            assert(lines[i] == line_view(ranked@[i]));
            let j = choose|j: int| 0 <= j < gv.len() && (#[trigger] ranked@[i]).0 == (#[trigger] gv[j]).0 && ranked@[i].1@ == gv[j].1@ && ranked@[i].2@ == amount_normal(gv[j].2@);
            assert(project_mentioned(rows@, gv[j].0, gv[j].1@));
            assert(amount_total(project_amounts(rows@, gv[j].0, gv[j].1@)) == Some(gv[j].2@));
        }
        assert forall|q: int| 0 <= q < rows@.len() implies exists|i: int| 0 <= i < lines.len() && (#[trigger] lines[i]).0 == (#[trigger] rows@[q]).project_id && lines[i].1 == rows@[q].title@ by {
            let j = choose|j: int| 0 <= j < gv.len() && (#[trigger] gv[j]).0 == (#[trigger] rows@[q]).project_id && gv[j].1@ == rows@[q].title@;
            let i = choose|i: int| 0 <= i < ranked@.len() && (#[trigger] ranked@[i]).0 == (#[trigger] gv[j]).0 && ranked@[i].1@ == gv[j].1@;
            assert(lines[i] == line_view(ranked@[i]));
        }
        assert(ranked_lines(lines, rows@));
        assert(forall|i: int| 0 <= i < out@.len() ==> line_shows(#[trigger] out@[i], lines[i]));
    }
    Some(out)
}

/// Revenue cumulated by Modrinth project over the window, the best-earning
/// first; projects that earned as much keep the order of their identifier.
pub fn revenue_by_project(rows: &Vec<ProjectRevenueEntry>) -> (r: Vec<RevenueByProject>)
    requires
        project_sums_fit(rows@),
    ensures
        exists|lines: Seq<(i64, Seq<char>, Seq<char>)>| {
            &&& ranked_lines(lines, rows@)
            &&& lines.len() == r@.len()
            &&& forall|i: int| 0 <= i < r@.len() ==> line_shows(#[trigger] r@[i], lines[i])
        },
{
    match group_and_rank(rows) {
        Some(r) => r,
        None => vstd::pervasive::unreached(),
    }
}

/// Revenue by project, or `None` when a project's sum leaves what a decimal
/// holds.
pub fn checked_revenue_by_project(rows: &Vec<ProjectRevenueEntry>) -> (r: Option<Vec<RevenueByProject>>)
    ensures
        r is Some <==> project_sums_fit(rows@),
        r matches Some(v) ==> exists|lines: Seq<(i64, Seq<char>, Seq<char>)>| {
            &&& ranked_lines(lines, rows@)
            &&& lines.len() == v@.len()
            &&& forall|i: int| 0 <= i < v@.len() ==> line_shows(#[trigger] v@[i], lines[i])
        },
{
    if group_and_rank(rows).is_some() {
        Some(revenue_by_project(rows))
    } else {
        None
    }
}

} // verus!
