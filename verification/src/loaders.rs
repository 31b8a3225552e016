//! Downloads by game version and loader. Both platforms feed it: Modrinth
//! with its versions, CurseForge with its published files. A version counts
//! its downloads once for each pair of game version and loader it declares,
//! so the map shows a distribution, not a total.

use crate::models::{LoaderCell, Platform};
use crate::queries::PlatformFilter;
use crate::text::{chars_of, same_chars};
use vstd::prelude::*;

verus! {

/// A published version: its platform, what it declares, its downloads.
#[derive(Debug, Clone)]
pub struct VersionLoaders {
    pub platform: Platform,
    pub game_versions: Vec<String>,
    pub loaders: Vec<String>,
    pub downloads: i64,
}

/// What one version gives a game version: one share per loader.
pub open spec fn loader_shares(g: Seq<char>, loaders: Seq<String>, d: i64) -> Seq<(Seq<char>, Seq<char>, i64)> {
    loaders.map_values(|l: String| (g, l@, d))
}

/// What one version gives: one share per pair of game version and loader.
pub open spec fn version_shares(games: Seq<String>, loaders: Seq<String>, d: i64) -> Seq<(Seq<char>, Seq<char>, i64)>
    decreases games.len(),
{
    if games.len() == 0 {
        Seq::empty()
    } else {
        version_shares(games.drop_last(), loaders, d) + loader_shares(games.last()@, loaders, d)
    }
}

/// The shares of every version of a platform shown, in order.
pub open spec fn all_shares(rows: Seq<VersionLoaders>, filter: PlatformFilter) -> Seq<(Seq<char>, Seq<char>, i64)>
    decreases rows.len(),
{
    if rows.len() == 0 {
        Seq::empty()
    } else {
        all_shares(rows.drop_last(), filter) + if filter.shows_spec(rows.last().platform) {
            version_shares(rows.last().game_versions@, rows.last().loaders@, rows.last().downloads)
        } else {
            Seq::empty()
        }
    }
}

/// The downloads of a pair: the sum of its shares.
pub open spec fn pair_total(shares: Seq<(Seq<char>, Seq<char>, i64)>, g: Seq<char>, l: Seq<char>) -> int
    decreases shares.len(),
{
    if shares.len() == 0 {
        0
    } else {
        pair_total(shares.drop_last(), g, l) + if shares.last().0 == g && shares.last().1 == l {
            shares.last().2 as int
        } else {
            0
        }
    }
}

/// Adding the shares one by one, the running total of the pair that the
/// `n`-th share names fits an `i64`.
pub open spec fn fits_at(shares: Seq<(Seq<char>, Seq<char>, i64)>, n: int) -> bool {
    i64::MIN <= pair_total(shares.take(n), shares[n - 1].0, shares[n - 1].1) <= i64::MAX
}

/// Every running total of a pair fits an `i64`: the sums where grouping the
/// shares would overflow.
pub open spec fn pair_sums_fit(shares: Seq<(Seq<char>, Seq<char>, i64)>) -> bool {
    forall|n: int| 0 < n <= shares.len() ==> #[trigger] fits_at(shares, n)
}

/// `a` opens `b`.
pub open spec fn is_prefix<T>(a: Seq<T>, b: Seq<T>) -> bool {
    a.len() <= b.len() && b.take(a.len() as int) == a
}

pub open spec fn share_named(shares: Seq<(Seq<char>, Seq<char>, i64)>, g: Seq<char>, l: Seq<char>) -> bool {
    exists|i: int| 0 <= i < shares.len() && (#[trigger] shares[i]).0 == g && shares[i].1 == l
}

pub open spec fn cell_key(c: LoaderCell) -> (Seq<char>, Seq<char>) {
    (c.game_version@, c.loader@)
}

/// Some cell stands for the pair.
pub open spec fn pair_kept(cells: Seq<LoaderCell>, g: Seq<char>, l: Seq<char>) -> bool {
    exists|j: int| 0 <= j < cells.len() && #[trigger] cell_key(cells[j]) == (g, l)
}

/// One cell per pair named by a share, each with the sum of its shares.
pub open spec fn cells_of(cells: Seq<LoaderCell>, shares: Seq<(Seq<char>, Seq<char>, i64)>) -> bool {
    &&& forall|i: int, j: int| 0 <= i < j < cells.len() ==> cell_key(#[trigger] cells[i]) != cell_key(#[trigger] cells[j])
    &&& forall|i: int| 0 <= i < cells.len() ==> {
        &&& share_named(shares, (#[trigger] cells[i]).game_version@, cells[i].loader@)
        &&& cells[i].downloads == pair_total(shares, cells[i].game_version@, cells[i].loader@)
    }
    &&& forall|i: int| 0 <= i < shares.len() ==> pair_kept(cells, (#[trigger] shares[i]).0, shares[i].1)
}

proof fn lemma_unnamed_total(shares: Seq<(Seq<char>, Seq<char>, i64)>, g: Seq<char>, l: Seq<char>)
    requires
        !share_named(shares, g, l),
    ensures
        pair_total(shares, g, l) == 0,
    decreases shares.len(),
{
    if shares.len() > 0 {
        assert(shares.last() == shares[shares.len() - 1]);
        assert(!share_named(shares.drop_last(), g, l)) by {
            if share_named(shares.drop_last(), g, l) {
                let i = choose|i: int| 0 <= i < shares.drop_last().len() && (#[trigger] shares.drop_last()[i]).0 == g && shares.drop_last()[i].1 == l;
                assert(shares[i] == shares.drop_last()[i]);
            }
        }
        lemma_unnamed_total(shares.drop_last(), g, l);
    }
}

/// Adds one share to the cells; `false` when the pair's total would leave
/// what an `i64` holds.
fn add_share(out: &mut Vec<LoaderCell>, g: &String, l: &String, d: i64, Ghost(done): Ghost<Seq<(Seq<char>, Seq<char>, i64)>>) -> (ok: bool)
    requires
        cells_of(old(out)@, done),
    ensures
        ok <==> i64::MIN <= pair_total(done.push((g@, l@, d)), g@, l@) <= i64::MAX,
        ok ==> cells_of(final(out)@, done.push((g@, l@, d))),
{
    let ghost next = done.push((g@, l@, d));
    let gc = chars_of(g.as_str());
    let lc = chars_of(l.as_str());
    let mut p: usize = 0;
    while p < out.len() && !(same_chars(&chars_of(out[p].game_version.as_str()), &gc) && same_chars(&chars_of(out[p].loader.as_str()), &lc))
        invariant
            p <= out@.len(),
            gc@ == g@,
            lc@ == l@,
            forall|i: int| 0 <= i < p ==> cell_key(#[trigger] out@[i]) != (g@, l@),
        decreases out@.len() - p,
    {
        p = p + 1;
    }
    let ghost before = out@;
    proof {
        assert(next.drop_last() =~= done);
        assert(next.last() == (g@, l@, d));
        assert forall|a: Seq<char>, b: Seq<char>| pair_total(next, a, b) == pair_total(done, a, b) + if a == g@ && b == l@ { d as int } else { 0 } by {}
    }
    if p < out.len() {
        proof {
            assert(pair_total(next, g@, l@) == before[p as int].downloads + d);
        }
        let total = match out[p].downloads.checked_add(d) {
            Some(t) => t,
            None => return false,
        };
        let cell = LoaderCell { game_version: out[p].game_version.clone(), loader: out[p].loader.clone(), downloads: total };
        out.set(p, cell);
        proof {
            assert forall|i: int, j: int| 0 <= i < j < out@.len() implies cell_key(#[trigger] out@[i]) != cell_key(#[trigger] out@[j]) by {
                assert(cell_key(out@[i]) == cell_key(before[i]));
                assert(cell_key(out@[j]) == cell_key(before[j]));
            }
            assert forall|i: int| 0 <= i < out@.len() implies {
                &&& share_named(next, (#[trigger] out@[i]).game_version@, out@[i].loader@)
                &&& out@[i].downloads == pair_total(next, out@[i].game_version@, out@[i].loader@)
            } by {
                assert(cell_key(out@[i]) == cell_key(before[i]));
                let w = choose|w: int| 0 <= w < done.len() && (#[trigger] done[w]).0 == before[i].game_version@ && done[w].1 == before[i].loader@;
                assert(next[w] == done[w]);
                if i != p {
                    assert(out@[i] == before[i]);
                }
            }
            assert forall|q: int| 0 <= q < next.len() implies pair_kept(out@, (#[trigger] next[q]).0, next[q].1) by {
                if q == done.len() {
                    assert(cell_key(out@[p as int]) == (next[q].0, next[q].1));
                } else {
                    assert(next[q] == done[q]);
                    let j = choose|j: int| 0 <= j < before.len() && #[trigger] cell_key(before[j]) == (done[q].0, done[q].1);
                    assert(cell_key(out@[j]) == cell_key(before[j]));
                }
            }
        }
    } else {
        proof {
            assert(!share_named(done, g@, l@)) by {
                if share_named(done, g@, l@) {
                    let w = choose|w: int| 0 <= w < done.len() && (#[trigger] done[w]).0 == g@ && done[w].1 == l@;
                    assert(pair_kept(before, done[w].0, done[w].1));
                    let j = choose|j: int| 0 <= j < before.len() && #[trigger] cell_key(before[j]) == (done[w].0, done[w].1);
                }
            }
            lemma_unnamed_total(done, g@, l@);
        }
        let cell = LoaderCell { game_version: g.clone(), loader: l.clone(), downloads: d };
        out.push(cell);
        proof {
            assert forall|i: int, j: int| 0 <= i < j < out@.len() implies cell_key(#[trigger] out@[i]) != cell_key(#[trigger] out@[j]) by {
                assert(out@[i] == before[i]);
                if j < before.len() {
                    assert(out@[j] == before[j]);
                }
            }
            assert forall|i: int| 0 <= i < out@.len() implies {
                &&& share_named(next, (#[trigger] out@[i]).game_version@, out@[i].loader@)
                &&& out@[i].downloads == pair_total(next, out@[i].game_version@, out@[i].loader@)
            } by {
                if i < before.len() {
                    assert(out@[i] == before[i]);
                    let w = choose|w: int| 0 <= w < done.len() && (#[trigger] done[w]).0 == before[i].game_version@ && done[w].1 == before[i].loader@;
                    assert(next[w] == done[w]);
                } else {
                    assert(next[done.len() as int] == (g@, l@, d));
                }
            }
            assert forall|q: int| 0 <= q < next.len() implies pair_kept(out@, (#[trigger] next[q]).0, next[q].1) by {
                if q == done.len() {
                    assert(cell_key(out@[before.len() as int]) == (next[q].0, next[q].1));
                } else {
                    assert(next[q] == done[q]);
                    let j = choose|j: int| 0 <= j < before.len() && #[trigger] cell_key(before[j]) == (done[q].0, done[q].1);
                    assert(out@[j] == before[j]);
                }
            }
        }
    }
    true
}

proof fn lemma_prefix_trans<T>(a: Seq<T>, b: Seq<T>, c: Seq<T>)
    requires
        is_prefix(a, b),
        is_prefix(b, c),
    ensures
        is_prefix(a, c),
{
    assert(c.take(a.len() as int) =~= c.take(b.len() as int).take(a.len() as int));
}

proof fn lemma_prefix_concat<T>(p: Seq<T>, a: Seq<T>, b: Seq<T>)
    requires
        is_prefix(a, b),
    ensures
        is_prefix(p + a, p + b),
{
    assert((p + b).take((p + a).len() as int) =~= p + a);
}

proof fn lemma_prefix_append<T>(a: Seq<T>, b: Seq<T>, t: Seq<T>)
    requires
        is_prefix(a, b),
    ensures
        is_prefix(a, b + t),
{
    assert((b + t).take(a.len() as int) =~= b.take(a.len() as int));
}

/// The shares of the first versions open those of all.
proof fn lemma_all_shares_is_prefix(rows: Seq<VersionLoaders>, k: int, filter: PlatformFilter)
    requires
        0 <= k <= rows.len(),
    ensures
        is_prefix(all_shares(rows.take(k), filter), all_shares(rows, filter)),
    decreases rows.len(),
{
    if k == rows.len() {
        assert(rows.take(k) =~= rows);
        assert(all_shares(rows, filter).take(all_shares(rows, filter).len() as int) =~= all_shares(rows, filter));
    } else {
        assert(rows.drop_last().take(k) =~= rows.take(k));
        lemma_all_shares_is_prefix(rows.drop_last(), k, filter);
        let tail = if filter.shows_spec(rows.last().platform) {
            version_shares(rows.last().game_versions@, rows.last().loaders@, rows.last().downloads)
        } else {
            Seq::empty()
        };
        lemma_prefix_append(all_shares(rows.take(k), filter), all_shares(rows.drop_last(), filter), tail);
    }
}

/// The shares of the first game versions open those of all.
proof fn lemma_version_is_prefix(games: Seq<String>, a: int, loaders: Seq<String>, d: i64)
    requires
        0 <= a <= games.len(),
    ensures
        is_prefix(version_shares(games.take(a), loaders, d), version_shares(games, loaders, d)),
    decreases games.len(),
{
    if a == games.len() {
        assert(games.take(a) =~= games);
        assert(version_shares(games, loaders, d).take(version_shares(games, loaders, d).len() as int) =~= version_shares(games, loaders, d));
    } else {
        assert(games.drop_last().take(a) =~= games.take(a));
        lemma_version_is_prefix(games.drop_last(), a, loaders, d);
        lemma_prefix_append(
            version_shares(games.take(a), loaders, d),
            version_shares(games.drop_last(), loaders, d),
            loader_shares(games.last()@, loaders, d),
        );
    }
}

/// Once a run of shares opens them all, the running total at its end is the
/// one it reaches itself.
proof fn lemma_fits_at_prefix(total: Seq<(Seq<char>, Seq<char>, i64)>, next: Seq<(Seq<char>, Seq<char>, i64)>)
    requires
        is_prefix(next, total),
        next.len() > 0,
    ensures
        fits_at(total, next.len() as int) <==> i64::MIN <= pair_total(next, next.last().0, next.last().1) <= i64::MAX,
{
    assert(total.take(next.len() as int) == next);
    assert(total[next.len() - 1] == next[next.len() - 1]);
}

/// Groups the shares of the versions shown by pair; `None` when a pair's
/// running total leaves what an `i64` holds.
fn group_shares(rows: &Vec<VersionLoaders>, filter: PlatformFilter) -> (r: Option<Vec<LoaderCell>>)
    ensures
        r is Some <==> pair_sums_fit(all_shares(rows@, filter)),
        r matches Some(v) ==> cells_of(v@, all_shares(rows@, filter)),
{
    let ghost total = all_shares(rows@, filter);
    let mut out: Vec<LoaderCell> = Vec::new();
    let mut k: usize = 0;
    assert(rows@.take(0) =~= Seq::<VersionLoaders>::empty());
    assert(all_shares(rows@.take(0), filter) =~= Seq::empty());
    assert(total.take(0) =~= Seq::<(Seq<char>, Seq<char>, i64)>::empty());
    while k < rows.len()
        invariant
            k <= rows@.len(),
            total == all_shares(rows@, filter),
            is_prefix(all_shares(rows@.take(k as int), filter), total),
            forall|n: int| 0 < n <= all_shares(rows@.take(k as int), filter).len() ==> #[trigger] fits_at(total, n),
            cells_of(out@, all_shares(rows@.take(k as int), filter)),
        decreases rows@.len() - k,
    {
        let ghost prev = all_shares(rows@.take(k as int), filter);
        proof {
            assert(rows@.take(k + 1).drop_last() =~= rows@.take(k as int));
            assert(rows@.take(k + 1).last() == rows@[k as int]);
            lemma_all_shares_is_prefix(rows@, k + 1, filter);
        }
        let row = &rows[k];
        if filter.shows(row.platform) {
            let ghost lds = row.loaders@;
            let ghost whole = version_shares(row.game_versions@, lds, row.downloads);
            assert(all_shares(rows@.take(k + 1), filter) == prev + whole);
            let mut a: usize = 0;
            assert(row.game_versions@.take(0) =~= Seq::<String>::empty());
            assert(prev + Seq::empty() =~= prev);
            while a < row.game_versions.len()
                invariant
                    a <= row.game_versions@.len(),
                    lds == row.loaders@,
                    total == all_shares(rows@, filter),
                    whole == version_shares(row.game_versions@, lds, row.downloads),
                    is_prefix(prev + whole, total),
                    forall|n: int|
                        0 < n <= (prev + version_shares(row.game_versions@.take(a as int), lds, row.downloads)).len() ==> #[trigger] fits_at(total, n),
                    cells_of(out@, prev + version_shares(row.game_versions@.take(a as int), lds, row.downloads)),
                decreases row.game_versions@.len() - a,
            {
                let g = &row.game_versions[a];
                let ghost head = prev + version_shares(row.game_versions@.take(a as int), lds, row.downloads);
                let ghost gs = loader_shares(g@, lds, row.downloads);
                proof {
                    assert(row.game_versions@.take(a + 1).drop_last() =~= row.game_versions@.take(a as int));
                    assert(row.game_versions@.take(a + 1).last() == row.game_versions@[a as int]);
                    assert(version_shares(row.game_versions@.take(a + 1), lds, row.downloads)
                        == version_shares(row.game_versions@.take(a as int), lds, row.downloads) + gs);
                    assert(head + gs =~= prev + version_shares(row.game_versions@.take(a + 1), lds, row.downloads));
                    lemma_version_is_prefix(row.game_versions@, a + 1, lds, row.downloads);
                    lemma_prefix_concat(prev, version_shares(row.game_versions@.take(a + 1), lds, row.downloads), whole);
                    lemma_prefix_trans(head + gs, prev + whole, total);
                }
                let mut b: usize = 0;
                assert(lds.take(0).map_values(|l: String| (g@, l@, row.downloads)) =~= Seq::empty());
                assert(head + Seq::empty() =~= head);
                while b < row.loaders.len()
                    invariant
                        b <= lds.len(),
                        lds == row.loaders@,
                        total == all_shares(rows@, filter),
                        gs == loader_shares(g@, lds, row.downloads),
                        is_prefix(head + gs, total),
                        forall|n: int|
                            0 < n <= (head + lds.take(b as int).map_values(|l: String| (g@, l@, row.downloads))).len() ==> #[trigger] fits_at(total, n),
                        cells_of(out@, head + lds.take(b as int).map_values(|l: String| (g@, l@, row.downloads))),
                    decreases lds.len() - b,
                {
                    let ghost done = head + lds.take(b as int).map_values(|l: String| (g@, l@, row.downloads));
                    let ghost next = done.push((g@, lds[b as int]@, row.downloads));
                    proof {
                        assert(lds.take(b + 1).map_values(|l: String| (g@, l@, row.downloads))
                            =~= lds.take(b as int).map_values(|l: String| (g@, l@, row.downloads)).push((g@, lds[b as int]@, row.downloads)));
                        assert(head + lds.take(b + 1).map_values(|l: String| (g@, l@, row.downloads)) =~= next);
                        assert(gs.take(b + 1) =~= lds.take(b + 1).map_values(|l: String| (g@, l@, row.downloads)));
                        assert(is_prefix(lds.take(b + 1).map_values(|l: String| (g@, l@, row.downloads)), gs));
                        lemma_prefix_concat(head, lds.take(b + 1).map_values(|l: String| (g@, l@, row.downloads)), gs);
                        lemma_prefix_trans(next, head + gs, total);
                        lemma_fits_at_prefix(total, next);
                        assert(next.last() == (g@, lds[b as int]@, row.downloads));
                    }
                    if !add_share(&mut out, g, &row.loaders[b], row.downloads, Ghost(done)) {
                        proof {
                            assert(!fits_at(total, next.len() as int));
                        }
                        return None;
                    }
                    b = b + 1;
                }
                proof {
                    assert(lds.take(lds.len() as int) =~= lds);
                    assert(lds.map_values(|l: String| (g@, l@, row.downloads)) == gs);
                    assert(head + gs =~= prev + version_shares(row.game_versions@.take(a + 1), lds, row.downloads));
                }
                a = a + 1;
            }
            proof {
                assert(row.game_versions@.take(row.game_versions@.len() as int) =~= row.game_versions@);
            }
        } else {
            assert(all_shares(rows@.take(k + 1), filter) == prev + Seq::empty());
            assert(prev + Seq::empty() =~= prev);
        }
        k = k + 1;
    }
    assert(rows@.take(rows@.len() as int) =~= rows@);
    Some(out)
}

pub open spec fn downloads_fall(s: Seq<LoaderCell>) -> bool {
    forall|i: int, j: int| 0 <= i < j < s.len() ==> (#[trigger] s[i]).downloads >= (#[trigger] s[j]).downloads
}

pub open spec fn keys_apart(s: Seq<LoaderCell>) -> bool {
    forall|i: int, j: int| 0 <= i < j < s.len() ==> cell_key(#[trigger] s[i]) != cell_key(#[trigger] s[j])
}

/// Each cell is one of the first `k` of the input.
#[verifier::opaque]
pub open spec fn taken_from(s: Seq<LoaderCell>, input: Seq<LoaderCell>, k: int) -> bool {
    forall|i: int| 0 <= i < s.len() ==> exists|j: int| 0 <= j < k && (#[trigger] s[i]) == (#[trigger] input[j])
}

/// Each of the first `k` cells of the input is there.
#[verifier::opaque]
pub open spec fn holds_first(s: Seq<LoaderCell>, input: Seq<LoaderCell>, k: int) -> bool {
    forall|j: int| 0 <= j < k ==> exists|i: int| 0 <= i < s.len() && (#[trigger] s[i]) == (#[trigger] input[j])
}

proof fn lemma_insert_falls(before: Seq<LoaderCell>, p: int, xv: LoaderCell)
    requires
        0 <= p <= before.len(),
        downloads_fall(before),
        forall|i: int| 0 <= i < p ==> (#[trigger] before[i]).downloads >= xv.downloads,
        forall|i: int| p <= i < before.len() ==> (#[trigger] before[i]).downloads < xv.downloads,
    ensures
        downloads_fall(before.insert(p, xv)),
{
    let out = before.insert(p, xv);
    assert forall|i: int, j: int| 0 <= i < j < out.len() implies (#[trigger] out[i]).downloads >= (#[trigger] out[j]).downloads by {
        if j < p {
            assert(out[i] == before[i]);
            assert(out[j] == before[j]);
        } else if j == p {
            assert(out[i] == before[i]);
        } else if i == p {
            assert(out[j] == before[j - 1]);
        } else if i < p {
            assert(out[i] == before[i]);
            assert(out[j] == before[j - 1]);
        } else {
            assert(out[i] == before[i - 1]);
            assert(out[j] == before[j - 1]);
        }
    }
}

proof fn lemma_insert_apart(before: Seq<LoaderCell>, p: int, xv: LoaderCell)
    requires
        0 <= p <= before.len(),
        keys_apart(before),
        forall|i: int| 0 <= i < before.len() ==> cell_key(#[trigger] before[i]) != cell_key(xv),
    ensures
        keys_apart(before.insert(p, xv)),
{
    let out = before.insert(p, xv);
    assert forall|i: int, j: int| 0 <= i < j < out.len() implies cell_key(#[trigger] out[i]) != cell_key(#[trigger] out[j]) by {
        if j < p {
            assert(out[i] == before[i]);
            assert(out[j] == before[j]);
        } else if j == p {
            assert(out[i] == before[i]);
        } else if i == p {
            assert(out[j] == before[j - 1]);
        } else if i < p {
            assert(out[i] == before[i]);
            assert(out[j] == before[j - 1]);
        } else {
            assert(out[i] == before[i - 1]);
            assert(out[j] == before[j - 1]);
        }
    }
}

proof fn lemma_insert_taken(before: Seq<LoaderCell>, p: int, input: Seq<LoaderCell>, k: int)
    requires
        0 <= k < input.len(),
        0 <= p <= before.len(),
        taken_from(before, input, k),
    ensures
        taken_from(before.insert(p, input[k]), input, k + 1),
{
    reveal(taken_from);
    let out = before.insert(p, input[k]);
    assert forall|i: int| 0 <= i < out.len() implies exists|j: int| 0 <= j < k + 1 && (#[trigger] out[i]) == (#[trigger] input[j]) by {
        if i == p {
            assert(out[i] == input[k]);
        } else {
            let i0 = if i < p { i } else { i - 1 };
            assert(out[i] == before[i0]);
            let j = choose|j: int| 0 <= j < k && (#[trigger] before[i0]) == (#[trigger] input[j]);
            assert(out[i] == input[j]);
        }
    }
}

proof fn lemma_insert_holds(before: Seq<LoaderCell>, p: int, input: Seq<LoaderCell>, k: int)
    requires
        0 <= k < input.len(),
        0 <= p <= before.len(),
        holds_first(before, input, k),
    ensures
        holds_first(before.insert(p, input[k]), input, k + 1),
{
    reveal(holds_first);
    let out = before.insert(p, input[k]);
    assert forall|j: int| 0 <= j < k + 1 implies exists|i: int| 0 <= i < out.len() && (#[trigger] out[i]) == (#[trigger] input[j]) by {
        if j == k {
            assert(out[p] == input[j]);
        } else {
            let i = choose|i: int| 0 <= i < before.len() && (#[trigger] before[i]) == (#[trigger] input[j]);
            if i < p {
                assert(out[i] == input[j]);
            } else {
                assert(out[i + 1] == input[j]);
            }
        }
    }
}

proof fn lemma_new_cell(before: Seq<LoaderCell>, p: int, input: Seq<LoaderCell>, k: int)
    requires
        0 <= k < input.len(),
        0 <= p <= before.len(),
        keys_apart(input),
        downloads_fall(before),
        taken_from(before, input, k),
        forall|i: int| 0 <= i < p ==> (#[trigger] before[i]).downloads >= input[k].downloads,
        p < before.len() ==> before[p].downloads < input[k].downloads,
    ensures
        forall|i: int| 0 <= i < before.len() ==> cell_key(#[trigger] before[i]) != cell_key(input[k]),
        forall|i: int| p <= i < before.len() ==> (#[trigger] before[i]).downloads < input[k].downloads,
{
    reveal(taken_from);
    assert forall|i: int| 0 <= i < before.len() implies cell_key(#[trigger] before[i]) != cell_key(input[k]) by {
        let j = choose|j: int| 0 <= j < k && (#[trigger] before[i]) == (#[trigger] input[j]);
        assert(cell_key(input[j]) != cell_key(input[k]));
    }
    assert forall|i: int| p <= i < before.len() implies (#[trigger] before[i]).downloads < input[k].downloads by {
        if i > p {
            assert(before[p].downloads >= before[i].downloads);
        }
    }
}

/// Downloads by game version and loader, the largest first. A hidden
/// platform's versions count for nothing.
pub fn loaders(rows: &Vec<VersionLoaders>, filter: PlatformFilter) -> (r: Vec<LoaderCell>)
    requires
        pair_sums_fit(all_shares(rows@, filter)),
    ensures
        cells_of(r@, all_shares(rows@, filter)),
        forall|i: int, j: int| 0 <= i < j < r@.len() ==> (#[trigger] r@[i]).downloads >= (#[trigger] r@[j]).downloads,
{
    match checked_loaders(rows, filter) {
        Some(v) => v,
        None => vstd::pervasive::unreached(),
    }
}

/// Downloads by game version and loader, or `None` when the running total
/// of a pair leaves what an `i64` holds.
pub fn checked_loaders(rows: &Vec<VersionLoaders>, filter: PlatformFilter) -> (r: Option<Vec<LoaderCell>>)
    ensures
        r is Some <==> pair_sums_fit(all_shares(rows@, filter)),
        r matches Some(v) ==> cells_of(v@, all_shares(rows@, filter)),
        r matches Some(v) ==> forall|i: int, j: int| 0 <= i < j < v@.len() ==> (#[trigger] v@[i]).downloads >= (#[trigger] v@[j]).downloads,
{
    let cells = match group_shares(rows, filter) {
        Some(c) => c,
        None => return None,
    };
    let ghost shares = all_shares(rows@, filter);
    let ghost input = cells@;
    assert(keys_apart(input));
    let count: usize = cells.len();
    let mut rest = cells;
    let mut out: Vec<LoaderCell> = Vec::new();
    let mut k: usize = 0;
    proof {
        reveal(taken_from);
        reveal(holds_first);
    }
    while rest.len() > 0
        invariant
            keys_apart(input),
            input.len() == count,
            k + rest@.len() == input.len(),
            rest@ == input.skip(k as int),
            downloads_fall(out@),
            keys_apart(out@),
            taken_from(out@, input, k as int),
            holds_first(out@, input, k as int),
        decreases rest@.len(),
    {
        let x = rest.remove(0);
        proof {
            assert(x == input[k as int]);
            assert(rest@ =~= input.skip(k + 1));
        }
        let mut p: usize = 0;
        while p < out.len() && out[p].downloads >= x.downloads
            invariant
                p <= out@.len(),
                forall|i: int| 0 <= i < p ==> (#[trigger] out@[i]).downloads >= x.downloads,
            decreases out@.len() - p,
        {
            p = p + 1;
        }
        let ghost before = out@;
        proof {
            lemma_new_cell(before, p as int, input, k as int);
            lemma_insert_falls(before, p as int, input[k as int]);
            lemma_insert_apart(before, p as int, input[k as int]);
            lemma_insert_taken(before, p as int, input, k as int);
            lemma_insert_holds(before, p as int, input, k as int);
        }
        out.insert(p, x);
        assert(out@ == before.insert(p as int, input[k as int]));
        k = k + 1;
    }
    proof {
        reveal(taken_from);
        reveal(holds_first);
        assert forall|i: int| 0 <= i < out@.len() implies {
            &&& share_named(shares, (#[trigger] out@[i]).game_version@, out@[i].loader@)
            &&& out@[i].downloads == pair_total(shares, out@[i].game_version@, out@[i].loader@)
        } by {
            let j = choose|j: int| 0 <= j < k && (#[trigger] out@[i]) == (#[trigger] input[j]);
        }
        assert(k == input.len());
        assert(holds_first(out@, input, input.len() as int));
        assert forall|q: int| 0 <= q < shares.len() implies pair_kept(out@, (#[trigger] shares[q]).0, shares[q].1) by {
            assert(pair_kept(input, shares[q].0, shares[q].1));
            let j = choose|j: int| 0 <= j < input.len() && #[trigger] cell_key(input[j]) == (shares[q].0, shares[q].1);
            assert(0 <= j < input.len());
            let i = choose|i: int| 0 <= i < out@.len() && (#[trigger] out@[i]) == (#[trigger] input[j]);
            assert(0 <= i < out@.len() && out@[i] == input[j]);
            assert(cell_key(out@[i]) == (shares[q].0, shares[q].1));
        }
    }
    Some(out)
}

} // verus!
