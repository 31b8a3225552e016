//! Pairing each Modrinth project with at most one CurseForge project: exact
//! slug first, then exact title, then a fuzzy title match that must be
//! unambiguous.
//!
//! The fuzzy comparison itself is a Jaro-Winkler score, a floating-point
//! value: its verdict, one boolean per pair of titles, is handed in.

use crate::text::{alnum, ascii_lower, chars_of, is_alnum, same_chars, text_of, to_ascii_lower};
use vstd::prelude::*;

verus! {

/// A project as the pairing sees it.
#[derive(Debug, Clone)]
pub struct Candidate {
    pub id: i64,
    pub slug: Option<String>,
    pub title: String,
}

/// How a pair was found.
#[derive(Debug, Clone, Copy, PartialEq, Eq, Structural)]
pub enum MatchKind {
    /// Same slug once normalised.
    Slug,
    /// Same title once normalised.
    Title,
    /// The only title close enough.
    Fuzzy,
}

/// A Modrinth project paired with a CurseForge project.
#[derive(Debug, Clone, Copy, PartialEq, Eq, Structural)]
pub struct Pairing {
    pub modrinth_id: i64,
    pub curseforge_id: i64,
    pub kind: MatchKind,
}

/// Letters and digits only, lower-cased.
pub open spec fn normalized(s: Seq<char>) -> Seq<char>
    decreases s.len(),
{
    if s.len() == 0 {
        seq![]
    } else if is_alnum(s.last()) {
        normalized(s.drop_last()).push(ascii_lower(s.last()))
    } else {
        normalized(s.drop_last())
    }
}

/// Normalising keeps the ASCII letters and digits of a text, in order, each
/// letter lower-cased, and drops every other character: one more character
/// at the end of a text adds itself (a digit or a small letter), its small
/// letter (a capital), or nothing (anything else). The empty text stays empty.
pub proof fn normalizing_keeps_letters_and_digits_in_order(s: Seq<char>, c: char)
    ensures
        normalized(Seq::<char>::empty()) == Seq::<char>::empty(),
        ('0' <= c && c <= '9') || ('a' <= c && c <= 'z') ==> normalized(s.push(c)) == normalized(s).push(c),
        'A' <= c && c <= 'Z' ==> normalized(s.push(c)) == normalized(s).push(((c as u32) + 32) as char),
        !(('0' <= c && c <= '9') || ('a' <= c && c <= 'z') || ('A' <= c && c <= 'Z')) ==> normalized(s.push(c))
            == normalized(s),
{
    assert(s.push(c).drop_last() =~= s);
    assert(s.push(c).last() == c);
}

/// Two texts that differ only in a last digit never normalise alike: `Tweaks 2`
/// and `Tweaks 3` stay two names.
pub proof fn a_digit_tells_two_names_apart(s: Seq<char>, a: char, b: char)
    requires
        '0' <= a && a <= '9',
        '0' <= b && b <= '9',
        a != b,
    ensures
        normalized(s.push(a)) != normalized(s.push(b)),
{
    normalizing_keeps_letters_and_digits_in_order(s, a);
    normalizing_keeps_letters_and_digits_in_order(s, b);
    assert(normalized(s.push(a)).last() == a);
    assert(normalized(s.push(b)).last() == b);
}

fn normalize_chars(s: &[char]) -> (r: Vec<char>)
    ensures
        r@ == normalized(s@),
{
    let mut out: Vec<char> = Vec::new();
    let mut k: usize = 0;
    assert(s@.subrange(0, 0) =~= Seq::<char>::empty());
    while k < s.len()
        invariant
            k <= s@.len(),
            out@ == normalized(s@.subrange(0, k as int)),
        decreases s@.len() - k,
    {
        proof {
            assert(s@.subrange(0, k + 1).drop_last() =~= s@.subrange(0, k as int));
        }
        if alnum(s[k]) {
            out.push(to_ascii_lower(s[k]));
        }
        k = k + 1;
    }
    assert(s@.subrange(0, s@.len() as int) =~= s@);
    out
}

/// Keeps letters and digits, lower-cased: `Custom Clear Lag` and
/// `custom-clear-lag` both become `customclearlag`.
pub fn normalize(value: &str) -> (r: String)
    ensures
        r@ == normalized(value@),
{
    text_of(&normalize_chars(&chars_of(value)))
}

/// The slug compared: an absent slug counts as empty.
pub open spec fn slug_of(c: Candidate) -> Seq<char> {
    match c.slug {
        Some(s) => s@,
        None => seq![],
    }
}

/// The field that a pass compares: the slug on the first pass, the title
/// afterwards.
pub open spec fn field_of(c: Candidate, pass: int) -> Seq<char> {
    if pass == 0 {
        normalized(slug_of(c))
    } else {
        normalized(c.title@)
    }
}

pub open spec fn is_claimed(out: Seq<Pairing>, cf_id: i64) -> bool {
    exists|k: int| 0 <= k < out.len() && out[k].curseforge_id == cf_id
}

pub open spec fn is_paired(out: Seq<Pairing>, m_id: i64) -> bool {
    exists|k: int| 0 <= k < out.len() && out[k].modrinth_id == m_id
}

/// `j` is the first unclaimed CurseForge project whose field equals the
/// non-empty field of the Modrinth project.
pub open spec fn exact_at(
    m: Candidate,
    pool: Seq<Candidate>,
    out: Seq<Pairing>,
    pass: int,
    j: int,
) -> bool {
    &&& field_of(m, pass).len() > 0
    &&& 0 <= j < pool.len()
    &&& !is_claimed(out, pool[j].id) && field_of(pool[j], pass) == field_of(m, pass)
    &&& forall|k: int|
        0 <= k < j ==> !(!is_claimed(out, pool[k].id) && field_of(#[trigger] pool[k], pass)
            == field_of(m, pass))
}

/// The unclaimed CurseForge projects whose title is close to that of the
/// `i`-th Modrinth project, among the first `n`.
pub open spec fn close_hits(
    pool: Seq<Candidate>,
    close_row: Seq<bool>,
    out: Seq<Pairing>,
    n: int,
) -> Seq<int>
    decreases n,
{
    if n <= 0 {
        seq![]
    } else {
        let before = close_hits(pool, close_row, out, n - 1);
        if n - 1 < close_row.len() && close_row[n - 1] && !is_claimed(out, pool[n - 1].id) {
            before.push(n - 1)
        } else {
            before
        }
    }
}

/// The CurseForge project that a pass pairs with the Modrinth project, if
/// any.
pub open spec fn pick(
    m: Candidate,
    pool: Seq<Candidate>,
    close_row: Seq<bool>,
    out: Seq<Pairing>,
    pass: int,
) -> Option<(int, MatchKind)> {
    if pass < 2 {
        if exists|j: int| exact_at(m, pool, out, pass, j) {
            Some(
                (
                    choose|j: int| exact_at(m, pool, out, pass, j),
                    if pass == 0 {
                        MatchKind::Slug
                    } else {
                        MatchKind::Title
                    },
                ),
            )
        } else {
            None
        }
    } else {
        let hits = close_hits(pool, close_row, out, pool.len() as int);
        if hits.len() == 1 {
            Some((hits[0], MatchKind::Fuzzy))
        } else {
            None
        }
    }
}

/// The pairs after a pass has looked at the first `n` Modrinth projects.
pub open spec fn run_pass(
    modrinth: Seq<Candidate>,
    pool: Seq<Candidate>,
    close: Seq<Seq<bool>>,
    start: Seq<Pairing>,
    pass: int,
    n: int,
) -> Seq<Pairing>
    decreases n,
{
    if n <= 0 {
        start
    } else {
        let out = run_pass(modrinth, pool, close, start, pass, n - 1);
        let m = modrinth[n - 1];
        if is_paired(out, m.id) {
            out
        } else {
            match pick(m, pool, close[n - 1], out, pass) {
                Some((j, kind)) => out.push(
                    Pairing { modrinth_id: m.id, curseforge_id: pool[j].id, kind },
                ),
                None => out,
            }
        }
    }
}

/// The three passes one after the other.
pub open spec fn pairings(
    modrinth: Seq<Candidate>,
    pool: Seq<Candidate>,
    close: Seq<Seq<bool>>,
) -> Seq<Pairing> {
    let n = modrinth.len() as int;
    let first = run_pass(modrinth, pool, close, seq![], 0, n);
    let second = run_pass(modrinth, pool, close, first, 1, n);
    run_pass(modrinth, pool, close, second, 2, n)
}

/// No CurseForge project is claimed twice, and no Modrinth project is paired
/// twice.
pub open spec fn one_to_one(out: Seq<Pairing>) -> bool {
    forall|a: int, b: int|
        0 <= a < out.len() && 0 <= b < out.len() && a != b ==> (#[trigger] out[a]).curseforge_id
            != (#[trigger] out[b]).curseforge_id && out[a].modrinth_id != out[b].modrinth_id
}

/// Every pair joins a project of each list.
pub open spec fn from_the_lists(out: Seq<Pairing>, modrinth: Seq<Candidate>, pool: Seq<Candidate>) -> bool {
    forall|k: int|
        0 <= k < out.len() ==> (exists|i: int|
            0 <= i < modrinth.len() && modrinth[i].id == (#[trigger] out[k]).modrinth_id) && (exists|
            j: int,
        |
            0 <= j < pool.len() && pool[j].id == out[k].curseforge_id)
}

proof fn lemma_close_hits_bounds(pool: Seq<Candidate>, close_row: Seq<bool>, out: Seq<Pairing>, n: int)
    requires
        n <= pool.len(),
    ensures
        forall|h: int|
            0 <= h < close_hits(pool, close_row, out, n).len() ==> 0 <= #[trigger] close_hits(
                pool,
                close_row,
                out,
                n,
            )[h] < n && !is_claimed(out, pool[close_hits(pool, close_row, out, n)[h]].id),
    decreases n,
{
    if n > 0 {
        lemma_close_hits_bounds(pool, close_row, out, n - 1);
    }
}

proof fn lemma_pick_sound(
    m: Candidate,
    pool: Seq<Candidate>,
    close_row: Seq<bool>,
    out: Seq<Pairing>,
    pass: int,
)
    ensures
        pick(m, pool, close_row, out, pass) matches Some((j, k)) ==> 0 <= j < pool.len()
            && !is_claimed(out, pool[j].id),
{
    if pass >= 2 {
        lemma_close_hits_bounds(pool, close_row, out, pool.len() as int);
    }
}

proof fn lemma_run_pass_invariant(
    modrinth: Seq<Candidate>,
    pool: Seq<Candidate>,
    close: Seq<Seq<bool>>,
    start: Seq<Pairing>,
    pass: int,
    n: int,
)
    requires
        n <= modrinth.len(),
        n <= close.len(),
        one_to_one(start),
        from_the_lists(start, modrinth, pool),
    ensures
        one_to_one(run_pass(modrinth, pool, close, start, pass, n)),
        from_the_lists(run_pass(modrinth, pool, close, start, pass, n), modrinth, pool),
    decreases n,
{
    if n > 0 {
        lemma_run_pass_invariant(modrinth, pool, close, start, pass, n - 1);
        let out = run_pass(modrinth, pool, close, start, pass, n - 1);
        let m = modrinth[n - 1];
        if !is_paired(out, m.id) {
            lemma_pick_sound(m, pool, close[n - 1], out, pass);
            match pick(m, pool, close[n - 1], out, pass) {
                Some((j, kind)) => {
                    let p = Pairing { modrinth_id: m.id, curseforge_id: pool[j].id, kind };
                    let after = out.push(p);
                    assert forall|a: int, b: int|
                        0 <= a < after.len() && 0 <= b < after.len() && a != b implies (
                    #[trigger] after[a]).curseforge_id != (#[trigger] after[b]).curseforge_id
                        && after[a].modrinth_id != after[b].modrinth_id by {
                        if a == out.len() {
                            assert(after[b] == out[b]);
                        } else if b == out.len() {
                            assert(after[a] == out[a]);
                        } else {
                            assert(after[a] == out[a] && after[b] == out[b]);
                        }
                    }
                    assert forall|k: int| 0 <= k < after.len() implies (exists|i: int|
                        0 <= i < modrinth.len() && modrinth[i].id == (
                        #[trigger] after[k]).modrinth_id) && (exists|j2: int|
                        0 <= j2 < pool.len() && pool[j2].id == after[k].curseforge_id) by {
                        if k == out.len() {
                            assert(modrinth[n - 1].id == after[k].modrinth_id);
                            assert(pool[j].id == after[k].curseforge_id);
                        } else {
                            assert(after[k] == out[k]);
                        }
                    }
                },
                None => {},
            }
        }
    }
}

/// The pairing is one to one, and joins projects of the two lists only.
pub proof fn pairings_are_one_to_one(
    modrinth: Seq<Candidate>,
    pool: Seq<Candidate>,
    close: Seq<Seq<bool>>,
)
    requires
        close.len() == modrinth.len(),
    ensures
        one_to_one(pairings(modrinth, pool, close)),
        from_the_lists(pairings(modrinth, pool, close), modrinth, pool),
{
    let n = modrinth.len() as int;
    let empty = Seq::<Pairing>::empty();
    lemma_run_pass_invariant(modrinth, pool, close, empty, 0, n);
    let first = run_pass(modrinth, pool, close, empty, 0, n);
    lemma_run_pass_invariant(modrinth, pool, close, first, 1, n);
    let second = run_pass(modrinth, pool, close, first, 1, n);
    lemma_run_pass_invariant(modrinth, pool, close, second, 2, n);
}

fn claimed(out: &Vec<Pairing>, cf_id: i64) -> (r: bool)
    ensures
        r == is_claimed(out@, cf_id),
{
    let mut k: usize = 0;
    while k < out.len()
        invariant
            k <= out@.len(),
            forall|j: int| 0 <= j < k ==> out@[j].curseforge_id != cf_id,
        decreases out@.len() - k,
    {
        if out[k].curseforge_id == cf_id {
            return true;
        }
        k = k + 1;
    }
    false
}

fn paired(out: &Vec<Pairing>, m_id: i64) -> (r: bool)
    ensures
        r == is_paired(out@, m_id),
{
    let mut k: usize = 0;
    while k < out.len()
        invariant
            k <= out@.len(),
            forall|j: int| 0 <= j < k ==> out@[j].modrinth_id != m_id,
        decreases out@.len() - k,
    {
        if out[k].modrinth_id == m_id {
            return true;
        }
        k = k + 1;
    }
    false
}

fn field(c: &Candidate, pass: u8) -> (r: Vec<char>)
    ensures
        r@ == field_of(*c, pass as int),
{
    if pass == 0 {
        match &c.slug {
            Some(s) => normalize_chars(&chars_of(s.as_str())),
            None => {
                let empty: Vec<char> = Vec::new();
                assert(normalized(Seq::<char>::empty()) =~= Seq::<char>::empty());
                empty
            },
        }
    } else {
        normalize_chars(&chars_of(c.title.as_str()))
    }
}

fn exact(m: &Candidate, pool: &[Candidate], out: &Vec<Pairing>, pass: u8) -> (r: Option<usize>)
    requires
        pass < 2,
    ensures
        match r {
            Some(j) => exact_at(*m, pool@, out@, pass as int, j as int),
            None => !exists|j: int| exact_at(*m, pool@, out@, pass as int, j),
        },
{
    let needle = field(m, pass);
    if needle.len() == 0 {
        return None;
    }
    let mut j: usize = 0;
    while j < pool.len()
        invariant
            j <= pool@.len(),
            pass < 2,
            needle@ == field_of(*m, pass as int),
            needle@.len() > 0,
            forall|k: int|
                0 <= k < j ==> !(!is_claimed(out@, pool@[k].id) && field_of(
                    #[trigger] pool@[k],
                    pass as int,
                ) == field_of(*m, pass as int)),
        decreases pool@.len() - j,
    {
        if !claimed(out, pool[j].id) && same_chars(&field(&pool[j], pass), &needle) {
            return Some(j);
        }
        j = j + 1;
    }
    proof {
        assert forall|x: int| !exact_at(*m, pool@, out@, pass as int, x) by {
            if 0 <= x < pool@.len() {
                assert(!(!is_claimed(out@, pool@[x].id) && field_of(pool@[x], pass as int)
                    == field_of(*m, pass as int)));
            }
        }
    }
    None
}

fn fuzzy(pool: &[Candidate], close_row: &Vec<bool>, out: &Vec<Pairing>) -> (r: Option<usize>)
    ensures
        ({
            let hits = close_hits(pool@, close_row@, out@, pool@.len() as int);
            if hits.len() == 1 {
                r matches Some(j) && j as int == hits[0] && j < pool@.len()
            } else {
                r is None
            }
        }),
{
    proof {
        lemma_close_hits_bounds(pool@, close_row@, out@, pool@.len() as int);
    }
    let mut hits: Vec<usize> = Vec::new();
    let mut j: usize = 0;
    while j < pool.len()
        invariant
            j <= pool@.len(),
            hits@.len() == close_hits(pool@, close_row@, out@, j as int).len(),
            forall|h: int|
                0 <= h < hits@.len() ==> hits@[h] as int == close_hits(
                    pool@,
                    close_row@,
                    out@,
                    j as int,
                )[h],
        decreases pool@.len() - j,
    {
        if j < close_row.len() && close_row[j] && !claimed(out, pool[j].id) {
            hits.push(j);
        }
        j = j + 1;
    }
    if hits.len() == 1 {
        Some(hits[0])
    } else {
        None
    }
}

/// Pairs each Modrinth project with at most one CurseForge project: exact
/// slug, then exact title, then the single close title. `close[i][j]` tells
/// whether the title of the `i`-th Modrinth project is close enough to that
/// of the `j`-th CurseForge project.
pub fn pair_projects(modrinth: &[Candidate], curseforge: &[Candidate], close: &Vec<Vec<bool>>) -> (r:
    Vec<Pairing>)
    requires
        close@.len() == modrinth@.len(),
    ensures
        r@ == pairings(modrinth@, curseforge@, close@.map_values(|row: Vec<bool>| row@)),
        one_to_one(r@),
        from_the_lists(r@, modrinth@, curseforge@),
{
    let ghost rows = close@.map_values(|row: Vec<bool>| row@);
    let ghost n = modrinth@.len() as int;
    let mut out: Vec<Pairing> = Vec::new();
    let mut pass: u8 = 0;
    let ghost mut start = Seq::<Pairing>::empty();
    while pass < 3
        invariant
            pass <= 3,
            close@.len() == modrinth@.len(),
            rows == close@.map_values(|row: Vec<bool>| row@),
            n == modrinth@.len(),
            out@ == if pass == 0 {
                Seq::<Pairing>::empty()
            } else if pass == 1 {
                run_pass(modrinth@, curseforge@, rows, Seq::<Pairing>::empty(), 0, n)
            } else if pass == 2 {
                run_pass(
                    modrinth@,
                    curseforge@,
                    rows,
                    run_pass(modrinth@, curseforge@, rows, Seq::<Pairing>::empty(), 0, n),
                    1,
                    n,
                )
            } else {
                pairings(modrinth@, curseforge@, rows)
            },
        decreases 3 - pass,
    {
        let ghost begin = out@;
        let mut i: usize = 0;
        while i < modrinth.len()
            invariant
                i <= modrinth@.len(),
                pass < 3,
                close@.len() == modrinth@.len(),
                rows == close@.map_values(|row: Vec<bool>| row@),
                out@ == run_pass(modrinth@, curseforge@, rows, begin, pass as int, i as int),
            decreases modrinth@.len() - i,
        {
            let m = &modrinth[i];
            if !paired(&out, m.id) {
                let found = if pass < 2 {
                    match exact(m, curseforge, &out, pass) {
                        Some(j) => Some(
                            (
                                j,
                                if pass == 0 {
                                    MatchKind::Slug
                                } else {
                                    MatchKind::Title
                                },
                            ),
                        ),
                        None => None,
                    }
                } else {
                    match fuzzy(curseforge, &close[i], &out) {
                        Some(j) => Some((j, MatchKind::Fuzzy)),
                        None => None,
                    }
                };
                proof {
                    assert(rows[i as int] == close@[i as int]@);
                    if pass < 2 {
                        if let Some((j, k)) = found {
                            let c = choose|x: int| exact_at(*m, curseforge@, out@, pass as int, x);
                            assert(c == j) by {
                                if c < j {
                                    assert(!(!is_claimed(out@, curseforge@[c].id) && field_of(
                                        curseforge@[c],
                                        pass as int,
                                    ) == field_of(*m, pass as int)));
                                }
                                if j < c {
                                    assert(!(!is_claimed(out@, curseforge@[j as int].id)
                                        && field_of(curseforge@[j as int], pass as int)
                                        == field_of(*m, pass as int)));
                                }
                            }
                        }
                    }
                }
                match found {
                    Some((j, kind)) => {
                        out.push(Pairing { modrinth_id: m.id, curseforge_id: curseforge[j].id, kind });
                    },
                    None => {},
                }
            }
            i = i + 1;
        }
        pass = pass + 1;
    }
    proof {
        pairings_are_one_to_one(modrinth@, curseforge@, rows);
    }
    out
}

} // verus!
