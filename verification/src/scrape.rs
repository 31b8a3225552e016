//! Reading the CurseForge points balance from the text of the author's page,
//! and recognising dated series in the responses of its internal interface.
//!
//! The reading is a heuristic: the value found is offered to the user, never
//! recorded behind their back.

use crate::dates::{utc_day, utc_day_text};
use crate::json::Json;
use crate::text::{
    ascii_lowered, ascii_text,
    chars_of, digit, find_from, first_at_or_after, is_digit, is_space, join_chars, join_with,
    lowercase, lowercased, occurs_at, slice_text, space, split_words, text_of,
    trailing_space, trim_bounds, trim_end, trimmed, words, lemma_trailing_space_bound,
};
use vstd::prelude::*;

verus! {

/// The digits of a text, in order.
pub open spec fn digits_in(s: Seq<char>) -> Seq<char>
    decreases s.len(),
{
    if s.len() == 0 {
        seq![]
    } else if is_digit(s.last()) {
        digits_in(s.drop_last()).push(s.last())
    } else {
        digits_in(s.drop_last())
    }
}

/// The number that a run of decimal digits writes.
pub open spec fn digits_value(d: Seq<char>) -> int
    decreases d.len(),
{
    if d.len() == 0 {
        0
    } else {
        digits_value(d.drop_last()) * 10 + (d.last() as int - 48)
    }
}

/// A decimal separator or a thousands separator.
pub open spec fn is_separator(c: char) -> bool {
    c == '.' || c == ','
}

/// The digits and separators of a text, in order.
pub open spec fn figures_in(s: Seq<char>) -> Seq<char>
    decreases s.len(),
{
    if s.len() == 0 {
        seq![]
    } else if is_digit(s.last()) || is_separator(s.last()) {
        figures_in(s.drop_last()).push(s.last())
    } else {
        figures_in(s.drop_last())
    }
}

/// The figures end with a separator and two decimals.
pub open spec fn ends_with_two_decimals(f: Seq<char>) -> bool {
    &&& f.len() >= 3
    &&& is_separator(f[f.len() - 3])
    &&& !is_separator(f[f.len() - 2])
    &&& !is_separator(f[f.len() - 1])
}

/// What a balance is read from: a decimal separator makes no sense for a
/// number of points, so what follows a last separator with two decimals is
/// left out; the other separators are thousands separators.
pub open spec fn whole_figures(raw: Seq<char>) -> Seq<char> {
    let f = figures_in(raw);
    if ends_with_two_decimals(f) {
        f.take(f.len() - 3)
    } else {
        f
    }
}

/// A number written the English or the French way, thousands separators
/// included: the digits of its whole part are read, and anything longer than
/// twelve digits is no balance.
pub open spec fn number_in(raw: Seq<char>) -> Option<i64> {
    let d = digits_in(whole_figures(raw));
    if d.len() == 0 || d.len() > 12 {
        None
    } else {
        Some(digits_value(d) as i64)
    }
}

pub open spec fn pow10(n: nat) -> int
    decreases n,
{
    if n == 0 {
        1
    } else {
        10 * pow10((n - 1) as nat)
    }
}

proof fn lemma_digits_value_bound(d: Seq<char>)
    requires
        forall|i: int| 0 <= i < d.len() ==> is_digit(#[trigger] d[i]),
    ensures
        0 <= digits_value(d) < pow10(d.len()),
    decreases d.len(),
{
    if d.len() > 0 {
        lemma_digits_value_bound(d.drop_last());
        assert(is_digit(d[d.len() - 1]));
    }
}

proof fn lemma_digits_in_are_digits(s: Seq<char>)
    ensures
        forall|i: int| 0 <= i < digits_in(s).len() ==> is_digit(#[trigger] digits_in(s)[i]),
    decreases s.len(),
{
    if s.len() > 0 {
        lemma_digits_in_are_digits(s.drop_last());
        let prev = digits_in(s.drop_last());
        if is_digit(s.last()) {
            assert forall|i: int| 0 <= i < digits_in(s).len() implies is_digit(
                #[trigger] digits_in(s)[i],
            ) by {
                if i < prev.len() {
                    assert(digits_in(s)[i] == prev[i]);
                }
            }
        }
    }
}

/// Reads a number of points written with thousands separators; two
/// decimals after a last separator are left out.
pub fn parse_number(raw: &[char]) -> (r: Option<i64>)
    ensures
        r == number_in(raw@),
{
    let mut figures: Vec<char> = Vec::new();
    let mut k: usize = 0;
    assert(raw@.subrange(0, 0) =~= Seq::<char>::empty());
    while k < raw.len()
        invariant
            k <= raw@.len(),
            figures@ == figures_in(raw@.subrange(0, k as int)),
        decreases raw@.len() - k,
    {
        proof {
            assert(raw@.subrange(0, k + 1).drop_last() =~= raw@.subrange(0, k as int));
        }
        if digit(raw[k]) || raw[k] == '.' || raw[k] == ',' {
            figures.push(raw[k]);
        }
        k = k + 1;
    }
    assert(raw@.subrange(0, raw@.len() as int) =~= raw@);
    let n = figures.len();
    let whole = if n >= 3 && (figures[n - 3] == '.' || figures[n - 3] == ',') && figures[n - 2] != '.'
        && figures[n - 2] != ',' && figures[n - 1] != '.' && figures[n - 1] != ',' {
        n - 3
    } else {
        n
    };
    assert(figures@.subrange(0, whole as int) =~= whole_figures(raw@));
    let mut cleaned: Vec<char> = Vec::new();
    let mut k: usize = 0;
    assert(figures@.subrange(0, 0) =~= Seq::<char>::empty());
    while k < whole
        invariant
            k <= whole,
            whole <= figures@.len(),
            cleaned@ == digits_in(figures@.subrange(0, k as int)),
        decreases whole - k,
    {
        proof {
            assert(figures@.subrange(0, k + 1).drop_last() =~= figures@.subrange(0, k as int));
        }
        if digit(figures[k]) {
            cleaned.push(figures[k]);
        }
        k = k + 1;
    }
    if cleaned.len() == 0 || cleaned.len() > 12 {
        return None;
    }
    proof {
        lemma_digits_in_are_digits(whole_figures(raw@));
    }
    let mut value: i64 = 0;
    let mut j: usize = 0;
    assert(cleaned@.subrange(0, 0) =~= Seq::<char>::empty());
    while j < cleaned.len()
        invariant
            j <= cleaned@.len(),
            cleaned@.len() <= 12,
            forall|i: int| 0 <= i < cleaned@.len() ==> is_digit(#[trigger] cleaned@[i]),
            value == digits_value(cleaned@.subrange(0, j as int)),
            0 <= value < pow10(j as nat),
        decreases cleaned@.len() - j,
    {
        let ghost prefix = cleaned@.subrange(0, j + 1);
        proof {
            assert(prefix.drop_last() =~= cleaned@.subrange(0, j as int));
            assert(is_digit(cleaned@[j as int]));
            assert(pow10(j as nat) <= pow10(11)) by {
                lemma_pow10_monotone(j as nat, 11);
            }
            assert(pow10(11) == 100_000_000_000) by {
                reveal_with_fuel(pow10, 12);
            }
        }
        let d = (cleaned[j] as u32 - 48) as i64;
        value = value * 10 + d;
        j = j + 1;
    }
    assert(cleaned@.subrange(0, cleaned@.len() as int) =~= cleaned@);
    Some(value)
}

proof fn lemma_pow10_monotone(a: nat, b: nat)
    requires
        a <= b,
    ensures
        1 <= pow10(a) <= pow10(b),
    decreases b,
{
    if a < b {
        lemma_pow10_monotone(a, (b - 1) as nat);
    } else if a > 0 {
        lemma_pow10_monotone((a - 1) as nat, (a - 1) as nat);
    }
}

/// Characters that may stand in a written number.
pub open spec fn numeric(c: char) -> bool {
    is_digit(c) || c == ' ' || c == ',' || c == '.'
}

/// Start of the run of numeric characters that ends the text.
pub open spec fn run_start(s: Seq<char>) -> nat
    decreases s.len(),
{
    if s.len() == 0 {
        0
    } else if numeric(s.last()) {
        run_start(s.drop_last())
    } else {
        s.len()
    }
}

/// Number of numeric characters that open the text.
pub open spec fn numeric_prefix(s: Seq<char>) -> nat
    decreases s.len(),
{
    if s.len() > 0 && numeric(s[0]) {
        1 + numeric_prefix(s.drop_first())
    } else {
        0
    }
}

/// Characters skipped between the word and its number: the plural `s`, a
/// colon, a dash, an equal sign or white space.
pub open spec fn filler(c: char) -> bool {
    c == 's' || c == ':' || c == '-' || c == '=' || is_space(c)
}

pub open spec fn filler_prefix(s: Seq<char>) -> nat
    decreases s.len(),
{
    if s.len() > 0 && filler(s[0]) {
        1 + filler_prefix(s.drop_first())
    } else {
        0
    }
}

pub open spec fn has_digit(s: Seq<char>) -> bool {
    exists|i: int| 0 <= i < s.len() && is_digit(s[i])
}

/// `p` is the last `.` or `,` of the text.
pub open spec fn last_separator(s: Seq<char>, p: int) -> bool {
    &&& 0 <= p < s.len()
    &&& (s[p] == '.' || s[p] == ',')
    &&& forall|j: int| p < j < s.len() ==> s[j] != '.' && s[j] != ','
}

/// Written with one or two decimals: a rate, not a balance.
pub open spec fn decimal_written(c: Seq<char>) -> bool {
    exists|p: int| last_separator(c, p) && 0 < c.len() - p - 1 < 3
}

/// Balance written before the word, `1 240 points`, for the word at `i`.
pub open spec fn balance_before(lower: Seq<char>, i: int) -> Option<i64> {
    let before = lower.subrange(0, i);
    if before.len() > 0 && is_space(before.last()) {
        let t = trim_end(before);
        let c = trimmed(t.subrange(run_start(t) as int, t.len() as int));
        if c.len() > 0 && has_digit(c) && !decimal_written(c) {
            number_in(c)
        } else {
            None
        }
    } else {
        None
    }
}

/// Balance written after the word and its separator, `Points : 1 240`; a
/// figure with decimals there is a rate, not a balance.
pub open spec fn balance_after(lower: Seq<char>, i: int) -> Option<i64> {
    let rest = lower.subrange(i + 5, lower.len() as int);
    let r2 = rest.skip(filler_prefix(rest) as int);
    let c = trimmed(r2.take(numeric_prefix(r2) as int));
    if c.len() > 0 && is_digit(c[0]) && !decimal_written(c) {
        number_in(c)
    } else {
        None
    }
}

pub open spec fn point_word() -> Seq<char> {
    seq!['p', 'o', 'i', 'n', 't']
}

/// What the occurrence of the word at `i` reads: the form before the word
/// first, then the form after it.
pub open spec fn balance_at(lower: Seq<char>, i: int) -> Option<i64> {
    match balance_before(lower, i) {
        Some(v) => Some(v),
        None => balance_after(lower, i),
    }
}

/// The first balance read at an occurrence of the word from `from` on.
pub open spec fn balance_from(lower: Seq<char>, from: int) -> Option<i64>
    decreases lower.len() + 1 - from,
{
    if from < 0 || from > lower.len() {
        None
    } else if exists|j: int| first_at_or_after(lower, point_word(), from, j) {
        let j = choose|j: int| first_at_or_after(lower, point_word(), from, j);
        match balance_at(lower, j) {
            Some(v) => Some(v),
            None => balance_from(lower, j + 5),
        }
    } else {
        None
    }
}

/// The points balance that a page shows, if any.
pub open spec fn points_in(text: Seq<char>) -> Option<i64> {
    balance_from(lowercased(text), 0)
}

fn numeric_char(c: char) -> (r: bool)
    ensures
        r == numeric(c),
{
    digit(c) || c == ' ' || c == ',' || c == '.'
}

fn filler_char(c: char) -> (r: bool)
    ensures
        r == filler(c),
{
    c == 's' || c == ':' || c == '-' || c == '=' || space(c)
}

fn any_digit(s: &[char]) -> (r: bool)
    ensures
        r == has_digit(s@),
{
    let mut k: usize = 0;
    while k < s.len()
        invariant
            k <= s@.len(),
            forall|j: int| 0 <= j < k ==> !is_digit(s@[j]),
        decreases s@.len() - k,
    {
        if digit(s[k]) {
            return true;
        }
        k = k + 1;
    }
    false
}

fn written_with_decimals(c: &[char]) -> (r: bool)
    ensures
        r == decimal_written(c@),
{
    let mut p = c.len();
    while p > 0 && c[p - 1] != '.' && c[p - 1] != ','
        invariant
            p <= c@.len(),
            forall|j: int| p <= j < c@.len() ==> c@[j] != '.' && c@[j] != ',',
        decreases p,
    {
        p = p - 1;
    }
    if p == 0 {
        assert(!exists|q: int| last_separator(c@, q));
        return false;
    }
    let sep = p - 1;
    assert(last_separator(c@, sep as int));
    proof {
        assert forall|q: int| #![auto] last_separator(c@, q) implies q == sep by {
            if q < sep {
                assert(c@[sep as int] == '.' || c@[sep as int] == ',');
            }
        }
    }
    let tail = c.len() - sep - 1;
    0 < tail && tail < 3
}

/// Start of the run of numeric characters that ends `s[..end]`.
fn run_start_of(s: &[char], end: usize) -> (r: usize)
    requires
        end <= s@.len(),
    ensures
        r == run_start(s@.subrange(0, end as int)),
        r <= end,
    decreases end,
{
    if end == 0 {
        0
    } else {
        proof {
            assert(s@.subrange(0, end as int).drop_last() =~= s@.subrange(0, end - 1));
        }
        if numeric_char(s[end - 1]) {
            run_start_of(s, end - 1)
        } else {
            end
        }
    }
}

/// Number of numeric characters from `from` on.
fn numeric_run(s: &[char], from: usize) -> (r: usize)
    requires
        from <= s@.len(),
    ensures
        r == numeric_prefix(s@.skip(from as int)),
        from + r <= s@.len(),
    decreases s@.len() - from,
{
    if from < s.len() && numeric_char(s[from]) {
        proof {
            assert(s@.skip(from as int).drop_first() =~= s@.skip(from + 1));
        }
        1 + numeric_run(s, from + 1)
    } else {
        0
    }
}

fn filler_run(s: &[char], from: usize) -> (r: usize)
    requires
        from <= s@.len(),
    ensures
        r == filler_prefix(s@.skip(from as int)),
        from + r <= s@.len(),
    decreases s@.len() - from,
{
    if from < s.len() && filler_char(s[from]) {
        proof {
            assert(s@.skip(from as int).drop_first() =~= s@.skip(from + 1));
        }
        1 + filler_run(s, from + 1)
    } else {
        0
    }
}

fn read_before(lower: &[char], i: usize) -> (r: Option<i64>)
    requires
        i <= lower@.len(),
    ensures
        r == balance_before(lower@, i as int),
{
    let ghost before = lower@.subrange(0, i as int);
    if i == 0 || !space(lower[i - 1]) {
        proof {
            if i > 0 {
                assert(before.last() == lower@[i - 1]);
            }
        }
        return None;
    }
    assert(before.last() == lower@[i - 1]);
    proof {
        lemma_trailing_space_bound(before);
    }
    let mut end = i;
    while end > 0 && space(lower[end - 1])
        invariant
            end <= i,
            i <= lower@.len(),
            before == lower@.subrange(0, i as int),
            i - end <= trailing_space(before),
            trailing_space(before) <= before.len(),
            forall|k: int|
                before.len() - trailing_space(before) <= k < before.len() ==> is_space(
                    #[trigger] before[k],
                ),
            trailing_space(before) < before.len() ==> !is_space(
                before[before.len() - trailing_space(before) - 1],
            ),
        decreases end,
    {
        assert(before[end - 1] == lower@[end - 1]);
        end = end - 1;
    }
    proof {
        if end > 0 {
            assert(before[end - 1] == lower@[end - 1]);
        }
        assert(i - end == trailing_space(before));
        assert(trim_end(before) =~= lower@.subrange(0, end as int));
    }
    let start = run_start_of(lower, end);
    let run = slice_text(lower, start, end);
    let (a, b) = trim_bounds(&run);
    let candidate = slice_text(&run, a, b);
    proof {
        let t = trim_end(before);
        assert(t == lower@.subrange(0, end as int));
        assert(run@ == t.subrange(run_start(t) as int, t.len() as int));
        assert(candidate@ == trimmed(run@));
    }
    if candidate.len() > 0 && any_digit(&candidate) && !written_with_decimals(&candidate) {
        parse_number(&candidate)
    } else {
        None
    }
}

fn read_after(lower: &[char], i: usize) -> (r: Option<i64>)
    requires
        i + 5 <= lower@.len(),
    ensures
        r == balance_after(lower@, i as int),
{
    let ghost rest = lower@.subrange(i + 5, lower@.len() as int);
    assert(lower@.len() == lower.len());
    let from = i + 5;
    assert(rest =~= lower@.skip(from as int));
    let skipped = filler_run(lower, from);
    let start = from + skipped;
    assert(rest.skip(skipped as int) =~= lower@.skip(start as int));
    let len = numeric_run(lower, start);
    let run = slice_text(lower, start, start + len);
    assert(run@ =~= lower@.skip(start as int).take(len as int));
    let (a, b) = trim_bounds(&run);
    let candidate = slice_text(&run, a, b);
    if candidate.len() > 0 && digit(candidate[0]) && !written_with_decimals(&candidate) {
        parse_number(&candidate)
    } else {
        None
    }
}

proof fn lemma_first_unique(hay: Seq<char>, needle: Seq<char>, from: int, a: int, b: int)
    requires
        first_at_or_after(hay, needle, from, a),
        first_at_or_after(hay, needle, from, b),
    ensures
        a == b,
{
    if a < b {
        assert(!occurs_at(hay, needle, a));
    }
    if b < a {
        assert(!occurs_at(hay, needle, b));
    }
}

/// Looks for a points balance in the text of a page. Two turns of phrase
/// cover most layouts: the number before the word (`1 240 points`) or after
/// it and a separator (`Points : 1 240`). Mentions of the rate (`0.05 USD
/// per point`) carry decimals and are passed over.
pub fn extract_points(text: &str) -> (r: Option<i64>)
    ensures
        r == points_in(text@),
        ascii_text(text@) ==> r == balance_from(ascii_lowered(text@), 0),
{
    let lower_text = lowercase(text);
    let lower = chars_of(lower_text.as_str());
    let word = chars_of("point");
    proof {
        reveal_strlit("point");
        assert(word@ =~= point_word());
    }
    let mut from: usize = 0;
    while from <= lower.len()
        invariant
            lower@ == lowercased(text@),
            ascii_text(text@) ==> lower@ == ascii_lowered(text@),
            word@ == point_word(),
            from <= lower@.len() + 1,
            balance_from(lower@, 0) == balance_from(lower@, from as int),
        decreases lower@.len() + 1 - from,
    {
        match find_from(&lower, &word, from) {
            None => {
                assert(!exists|j: int| first_at_or_after(lower@, point_word(), from as int, j));
                return None;
            },
            Some(j) => {
                proof {
                    let c = choose|c: int| first_at_or_after(lower@, point_word(), from as int, c);
                    lemma_first_unique(lower@, point_word(), from as int, c, j as int);
                }
                match read_before(&lower, j) {
                    Some(v) => return Some(v),
                    None => {},
                }
                match read_after(&lower, j) {
                    Some(v) => return Some(v),
                    None => {},
                }
                from = j + 5;
            },
        }
    }
    None
}

/// Short excerpt around the word looked for, so that the user sees at a
/// glance what the reading kept.
pub open spec fn excerpt_of(text: Seq<char>, needle: Seq<char>, radius: nat) -> Seq<char> {
    let lower = lowercased(text);
    let n = lowercased(needle);
    if exists|f: int| first_at_or_after(lower, n, 0, f) {
        let f0 = choose|f: int| first_at_or_after(lower, n, 0, f);
        let f = if f0 <= text.len() {
            f0
        } else {
            text.len() as int
        };
        let start = if f >= radius + 1 {
            f - radius - 1
        } else {
            0
        };
        let end = if f + radius < text.len() {
            f + radius
        } else {
            text.len() as int
        };
        join_with(words(text.subrange(start, end)), ' ')
    } else if 2 * radius <= text.len() {
        text.take((2 * radius) as int)
    } else {
        text
    }
}

/// The excerpt of an ASCII text, where lower-casing keeps every position:
/// when the word looked for, already lower-cased, does not occur in the
/// lower-cased text, the first `2 * radius` characters; otherwise, with `f`
/// the first match, the characters from the `radius + 1`-th before `f` (or
/// the start) to the `radius`-th after `f` (or the end), white-space runs
/// collapsed into one space.
pub open spec fn ascii_excerpt(text: Seq<char>, lowered_needle: Seq<char>, radius: nat) -> Seq<char> {
    let lower = ascii_lowered(text);
    if exists|f: int| first_at_or_after(lower, lowered_needle, 0, f) {
        let f = choose|f: int| first_at_or_after(lower, lowered_needle, 0, f);
        let start = if f >= radius + 1 {
            f - radius - 1
        } else {
            0
        };
        let end = if f + radius < text.len() {
            f + radius
        } else {
            text.len() as int
        };
        join_with(words(text.subrange(start, end)), ' ')
    } else if 2 * radius <= text.len() {
        text.take((2 * radius) as int)
    } else {
        text
    }
}

proof fn lemma_ascii_excerpt(text: Seq<char>, needle: Seq<char>, radius: nat)
    requires
        lowercased(text) == ascii_lowered(text),
    ensures
        excerpt_of(text, needle, radius) == ascii_excerpt(text, lowercased(needle), radius),
{
    let lower = ascii_lowered(text);
    let n = lowercased(needle);
    if exists|f: int| first_at_or_after(lower, n, 0, f) {
        let f = choose|f: int| first_at_or_after(lower, n, 0, f);
        assert(f <= lower.len());
    }
}

pub fn excerpt_around(text: &str, needle: &str, radius: usize) -> (r: String)
    requires
        radius <= usize::MAX / 2,
    ensures
        r@ == excerpt_of(text@, needle@, radius as nat),
        ascii_text(text@) ==> r@ == ascii_excerpt(text@, lowercased(needle@), radius as nat),
        ascii_text(text@) && ascii_text(needle@) ==> r@ == ascii_excerpt(
            text@,
            ascii_lowered(needle@),
            radius as nat,
        ),
{
    let chars = chars_of(text);
    let lower = chars_of(lowercase(text).as_str());
    let n = chars_of(lowercase(needle).as_str());
    proof {
        if ascii_text(text@) {
            lemma_ascii_excerpt(text@, needle@, radius as nat);
        }
    }
    match find_from(&lower, &n, 0) {
        None => {
            assert(!exists|f: int| first_at_or_after(lower@, n@, 0, f));
            if radius * 2 <= chars.len() {
                text_of(&slice_text(&chars, 0, radius * 2))
            } else {
                text.to_string()
            }
        },
        Some(f0) => {
            proof {
                let c = choose|c: int| first_at_or_after(lower@, n@, 0, c);
                lemma_first_unique(lower@, n@, 0, c, f0 as int);
            }
            let f = if f0 <= chars.len() {
                f0
            } else {
                chars.len()
            };
            let start = if f >= radius + 1 {
                f - radius - 1
            } else {
                0
            };
            let end = if chars.len() - f > radius {
                f + radius
            } else {
                chars.len()
            };
            let part = slice_text(&chars, start, end);
            let pieces = split_words(&part);
            let joined = join_chars(&pieces, ' ');
            assert(Seq::new(pieces@.len(), |i: int| pieces@[i]@) =~= words(part@));
            text_of(&joined)
        },
    }
}

/// A point of a dated series found in a response of the internal interface.
#[derive(Debug, Clone, PartialEq)]
pub struct DailyPoint {
    pub day: String,
    pub value: i64,
}

/// A `YYYY-MM-DD` date opening the text, possibly followed by an hour.
pub open spec fn dated(raw: Seq<char>) -> bool {
    &&& raw.len() >= 10
    &&& raw[4] == '-'
    &&& raw[7] == '-'
    &&& forall|i: int| 0 <= i < 10 && i != 4 && i != 7 ==> is_digit(#[trigger] raw[i])
}

pub fn day_from_text(raw: &str) -> (r: Option<String>)
    ensures
        if dated(raw@) {
            r matches Some(d) && d@ == raw@.take(10)
        } else {
            r is None
        },
{
    let chars = chars_of(raw);
    if chars.len() < 10 || chars[4] != '-' || chars[7] != '-' {
        return None;
    }
    let mut k: usize = 0;
    while k < 10
        invariant
            k <= 10,
            chars@ == raw@,
            chars@.len() >= 10,
            forall|i: int| 0 <= i < k && i != 4 && i != 7 ==> is_digit(#[trigger] chars@[i]),
        decreases 10 - k,
    {
        if k != 4 && k != 7 && !digit(chars[k]) {
            return None;
        }
        k = k + 1;
    }
    Some(text_of(&slice_text(&chars, 0, 10)))
}

/// The day of a Unix time, in seconds or in milliseconds, between 2010 and
/// 2100.
pub open spec fn epoch_day(value: i64) -> Option<Seq<char>> {
    if 1_262_304_000 <= value <= 4_102_444_800 {
        utc_day_text(value)
    } else if 1_262_304_000_000 <= value <= 4_102_444_800_000 {
        utc_day_text((value / 1000) as i64)
    } else {
        None
    }
}

pub fn day_from_epoch(value: i64) -> (r: Option<String>)
    ensures
        match epoch_day(value) {
            Some(t) => r matches Some(x) && x@ == t,
            None => r is None,
        },
{
    let seconds = if 1_262_304_000 <= value && value <= 4_102_444_800 {
        value
    } else if 1_262_304_000_000 <= value && value <= 4_102_444_800_000 {
        value / 1000
    } else {
        return None;
    };
    utc_day(seconds)
}

/// The day that a value of a response writes: a `YYYY-MM-DD` text, or a
/// Unix time in seconds or milliseconds.
pub open spec fn day_of(value: Json) -> Option<Seq<char>> {
    match value {
        Json::Text(t) => if dated(t@) {
            Some(t@.take(10))
        } else {
            None
        },
        Json::Number(Some(n), _) => epoch_day(n),
        _ => None,
    }
}

/// The first member that writes a day.
pub open spec fn first_day(fields: Seq<(String, Json)>) -> Option<Seq<char>>
    decreases fields.len(),
{
    if fields.len() == 0 {
        None
    } else {
        match day_of(fields[0].1) {
            Some(d) => Some(d),
            None => first_day(fields.drop_first()),
        }
    }
}

/// The first member that writes an integer and no day.
pub open spec fn first_count(fields: Seq<(String, Json)>) -> Option<i64>
    decreases fields.len(),
{
    if fields.len() == 0 {
        None
    } else {
        match (fields[0].1, day_of(fields[0].1)) {
            (Json::Number(Some(n), _), None) => Some(n),
            _ => first_count(fields.drop_first()),
        }
    }
}

/// The point that an element of an array writes: an object with a day and,
/// apart from it, an integer.
pub open spec fn point_of(item: Json) -> Option<(Seq<char>, i64)> {
    match item {
        Json::Object(fields) => match (first_day(fields@), first_count(fields@)) {
            (Some(d), Some(v)) => Some((d, v)),
            _ => None,
        },
        _ => None,
    }
}

/// The series that the elements of an array write, in order.
pub open spec fn array_series(items: Seq<Json>) -> Seq<(Seq<char>, i64)>
    decreases items.len(),
{
    if items.len() == 0 {
        seq![]
    } else {
        match point_of(items.last()) {
            Some(p) => array_series(items.drop_last()).push(p),
            None => array_series(items.drop_last()),
        }
    }
}

/// The longest series met so far, once `value` is walked through: each array
/// offers its own series before its elements are visited, in order, and a
/// series replaces the best one only when it is strictly longer.
pub open spec fn best_in(best: Seq<(Seq<char>, i64)>, value: Json) -> Seq<(Seq<char>, i64)>
    decreases value,
{
    match value {
        Json::Array(items) => {
            let own = array_series(items@);
            let start = if own.len() > best.len() {
                own
            } else {
                best
            };
            best_in_items(start, items@)
        },
        Json::Object(fields) => best_in_members(best, fields@),
        _ => best,
    }
}

pub open spec fn best_in_items(best: Seq<(Seq<char>, i64)>, items: Seq<Json>) -> Seq<(Seq<char>, i64)>
    decreases items,
{
    if items.len() == 0 {
        best
    } else {
        best_in(best_in_items(best, items.drop_last()), items.last())
    }
}

pub open spec fn best_in_members(best: Seq<(Seq<char>, i64)>, fields: Seq<(String, Json)>) -> Seq<(Seq<char>, i64)>
    decreases fields,
{
    if fields.len() == 0 {
        best
    } else {
        best_in(best_in_members(best, fields.drop_last()), fields.last().1)
    }
}

pub open spec fn point_view(p: DailyPoint) -> (Seq<char>, i64) {
    (p.day@, p.value)
}

pub open spec fn points_view(s: Seq<DailyPoint>) -> Seq<(Seq<char>, i64)> {
    s.map_values(|p: DailyPoint| point_view(p))
}

/// The longest series of "day, number" pairs in a response, whatever the
/// names of its fields: the CurseForge dashboard has no documented interface,
/// so the shape of a time series is recognised rather than a field name
/// guessed. The first of the longest wins.
pub open spec fn daily_series(value: Json) -> Seq<(Seq<char>, i64)> {
    best_in(seq![], value)
}

/// The day that a value writes.
pub fn day_in(value: &Json) -> (r: Option<String>)
    ensures
        match day_of(*value) {
            Some(d) => r matches Some(x) && x@ == d,
            None => r is None,
        },
{
    match value {
        Json::Text(t) => day_from_text(t.as_str()),
        Json::Number(Some(n), _) => day_from_epoch(*n),
        _ => None,
    }
}

fn first_day_in(fields: &Vec<(String, Json)>) -> (r: Option<String>)
    ensures
        match first_day(fields@) {
            Some(d) => r matches Some(x) && x@ == d,
            None => r is None,
        },
{
    let mut k: usize = 0;
    assert(fields@.skip(0) =~= fields@);
    while k < fields.len()
        invariant
            k <= fields@.len(),
            first_day(fields@) == first_day(fields@.skip(k as int)),
        decreases fields@.len() - k,
    {
        proof {
            assert(fields@.skip(k as int).drop_first() =~= fields@.skip(k + 1));
            assert(fields@.skip(k as int)[0] == fields@[k as int]);
        }
        let d = day_in(&fields[k].1);
        if d.is_some() {
            return d;
        }
        k = k + 1;
    }
    assert(fields@.skip(k as int).len() == 0);
    None
}

/// A member's value is an integer that writes no day.
pub open spec fn plain_integer(value: Json) -> bool {
    integer_value(value) is Some && day_of(value) is None
}

/// The integer that a value writes, when it is a number that writes one.
pub open spec fn integer_value(value: Json) -> Option<i64> {
    match value {
        Json::Number(Some(n), _) => Some(n),
        _ => None,
    }
}

/// The count of a point is the value of the first member, in the order of the
/// object, that is an integer and no day: every member before it is something
/// else. Without such a member there is no count.
pub proof fn the_count_is_the_first_integer_that_is_no_day(fields: Seq<(String, Json)>)
    ensures
        match first_count(fields) {
            Some(v) => exists|i: int|
                0 <= i < fields.len() && #[trigger] plain_integer(fields[i].1)
                    && integer_value(fields[i].1) == Some(v)
                    && forall|k: int| 0 <= k < i ==> !plain_integer(#[trigger] fields[k].1),
            None => forall|k: int| 0 <= k < fields.len() ==> !plain_integer(#[trigger] fields[k].1),
        },
    decreases fields.len(),
{
    if fields.len() > 0 {
        let rest = fields.drop_first();
        the_count_is_the_first_integer_that_is_no_day(rest);
        if !plain_integer(fields[0].1) {
            assert forall|k: int| 0 < k < fields.len() implies fields[k].1 == rest[k - 1].1 by {}
            match first_count(rest) {
                Some(v) => {
                    let i = choose|i: int|
                        0 <= i < rest.len() && #[trigger] plain_integer(rest[i].1)
                            && integer_value(rest[i].1) == Some(v)
                            && forall|k: int| 0 <= k < i ==> !plain_integer(#[trigger] rest[k].1);
                    assert(fields[i + 1].1 == rest[i].1);
                    assert forall|k: int| 0 <= k < i + 1 implies !plain_integer(#[trigger] fields[k].1) by {
                        if k > 0 {
                            assert(fields[k].1 == rest[k - 1].1);
                        }
                    }
                    assert(plain_integer(fields[i + 1].1));
                },
                None => {
                    assert forall|k: int| 0 <= k < fields.len() implies !plain_integer(#[trigger] fields[k].1) by {
                        if k > 0 {
                            assert(fields[k].1 == rest[k - 1].1);
                        }
                    }
                },
            }
        } else {
            assert(plain_integer(fields[0].1));
        }
    }
}

/// The day of a point is the day written by the first member, in the order
/// of the object, that writes one: no member before it writes a day. Without
/// such a member there is no day.
pub proof fn the_day_is_the_first_one_written(fields: Seq<(String, Json)>)
    ensures
        match first_day(fields) {
            Some(d) => exists|i: int|
                0 <= i < fields.len() && #[trigger] day_of(fields[i].1) == Some(d)
                    && forall|k: int| 0 <= k < i ==> (#[trigger] day_of(fields[k].1)) is None,
            None => forall|k: int| 0 <= k < fields.len() ==> (#[trigger] day_of(fields[k].1)) is None,
        },
    decreases fields.len(),
{
    if fields.len() > 0 {
        let rest = fields.drop_first();
        the_day_is_the_first_one_written(rest);
        if day_of(fields[0].1) is None {
            match first_day(rest) {
                Some(d) => {
                    let i = choose|i: int|
                        0 <= i < rest.len() && #[trigger] day_of(rest[i].1) == Some(d)
                            && forall|k: int| 0 <= k < i ==> (#[trigger] day_of(rest[k].1)) is None;
                    assert(fields[i + 1].1 == rest[i].1);
                    assert forall|k: int| 0 <= k < i + 1 implies (#[trigger] day_of(fields[k].1)) is None by {
                        if k > 0 {
                            assert(fields[k].1 == rest[k - 1].1);
                        }
                    }
                    assert(day_of(fields[i + 1].1) == Some(d));
                },
                None => {
                    assert forall|k: int| 0 <= k < fields.len() implies (#[trigger] day_of(fields[k].1)) is None by {
                        if k > 0 {
                            assert(fields[k].1 == rest[k - 1].1);
                        }
                    }
                },
            }
        } else {
            assert(day_of(fields[0].1) == first_day(fields));
        }
    }
}

fn first_count_in(fields: &Vec<(String, Json)>) -> (r: Option<i64>)
    ensures
        r == first_count(fields@),
{
    let mut j: usize = 0;
    assert(fields@.skip(0) =~= fields@);
    while j < fields.len()
        invariant
            j <= fields@.len(),
            first_count(fields@) == first_count(fields@.skip(j as int)),
        decreases fields@.len() - j,
    {
        proof {
            assert(fields@.skip(j as int).drop_first() =~= fields@.skip(j + 1));
            assert(fields@.skip(j as int)[0] == fields@[j as int]);
        }
        if let Json::Number(Some(n), _) = &fields[j].1 {
            if day_in(&fields[j].1).is_none() {
                return Some(*n);
            }
        }
        j = j + 1;
    }
    assert(fields@.skip(j as int).len() == 0);
    None
}

fn point_in(item: &Json) -> (r: Option<DailyPoint>)
    ensures
        match point_of(*item) {
            Some(p) => r matches Some(x) && point_view(x) == p,
            None => r is None,
        },
{
    match item {
        Json::Object(fields) => match (first_day_in(fields), first_count_in(fields)) {
            (Some(day), Some(value)) => Some(DailyPoint { day, value }),
            _ => None,
        },
        _ => None,
    }
}

fn array_points(items: &Vec<Json>) -> (r: Vec<DailyPoint>)
    ensures
        points_view(r@) == array_series(items@),
{
    let mut out: Vec<DailyPoint> = Vec::new();
    let mut k: usize = 0;
    assert(items@.subrange(0, 0) =~= Seq::<Json>::empty());
    while k < items.len()
        invariant
            k <= items@.len(),
            points_view(out@) == array_series(items@.subrange(0, k as int)),
        decreases items@.len() - k,
    {
        proof {
            assert(items@.subrange(0, k + 1).drop_last() =~= items@.subrange(0, k as int));
            assert(items@.subrange(0, k + 1).last() == items@[k as int]);
        }
        match point_in(&items[k]) {
            Some(p) => {
                let ghost before = out@;
                let ghost seen = point_view(p);
                out.push(p);
                proof {
                    assert(points_view(out@) =~= points_view(before).push(seen));
                }
            },
            None => {},
        }
        k = k + 1;
    }
    assert(items@.subrange(0, items@.len() as int) =~= items@);
    out
}

fn collect_series(value: &Json, best: &mut Vec<DailyPoint>)
    ensures
        points_view(final(best)@) == best_in(points_view(old(best)@), *value),
    decreases value,
{
    match value {
        Json::Array(items) => {
            let own = array_points(items);
            if own.len() > best.len() {
                *best = own;
            }
            let ghost start = points_view(best@);
            let mut k: usize = 0;
            assert(items@.subrange(0, 0) =~= Seq::<Json>::empty());
            while k < items.len()
                invariant
                    k <= items@.len(),
                    points_view(best@) == best_in_items(start, items@.subrange(0, k as int)),
                    *value == Json::Array(*items),
                decreases items@.len() - k,
            {
                proof {
                    assert(decreases_to!(*value => (*value)->Array_0));
                    assert(decreases_to!(*items => items@));
                    assert(decreases_to!(items@ => items@[k as int]));
                    assert(decreases_to!(*value => items@[k as int]));
                }
                proof {
                    assert(items@.subrange(0, k + 1).drop_last() =~= items@.subrange(0, k as int));
                    assert(items@.subrange(0, k + 1).last() == items@[k as int]);
                }
                collect_series(&items[k], best);
                k = k + 1;
            }
            assert(items@.subrange(0, items@.len() as int) =~= items@);
        },
        Json::Object(fields) => {
            let ghost start = points_view(best@);
            let mut k: usize = 0;
            assert(fields@.subrange(0, 0) =~= Seq::<(String, Json)>::empty());
            while k < fields.len()
                invariant
                    k <= fields@.len(),
                    points_view(best@) == best_in_members(start, fields@.subrange(0, k as int)),
                    *value == Json::Object(*fields),
                decreases fields@.len() - k,
            {
                proof {
                    assert(decreases_to!(*value => (*value)->Object_0));
                    assert(decreases_to!(*fields => fields@));
                    assert(decreases_to!(fields@ => fields@[k as int]));
                    assert(decreases_to!(fields@[k as int] => fields@[k as int].1));
                    assert(decreases_to!(*value => fields@[k as int].1));
                }
                proof {
                    assert(fields@.subrange(0, k + 1).drop_last() =~= fields@.subrange(0, k as int));
                    assert(fields@.subrange(0, k + 1).last() == fields@[k as int]);
                }
                collect_series(&fields[k].1, best);
                k = k + 1;
            }
            assert(fields@.subrange(0, fields@.len() as int) =~= fields@);
        },
        _ => {},
    }
}

pub fn find_daily_series(value: &Json) -> (r: Vec<DailyPoint>)
    ensures
        points_view(r@) == daily_series(*value),
{
    let mut best: Vec<DailyPoint> = Vec::new();
    assert(points_view(best@) =~= Seq::<(Seq<char>, i64)>::empty());
    collect_series(value, &mut best);
    best
}

pub proof fn lemma_digits_value_grows(d: Seq<char>, j: int)
    requires
        0 <= j <= d.len(),
        forall|i: int| 0 <= i < d.len() ==> is_digit(#[trigger] d[i]),
    ensures
        digits_value(d.subrange(0, j)) <= digits_value(d),
        0 <= digits_value(d.subrange(0, j)),
    decreases d.len() - j,
{
    if j < d.len() {
        lemma_digits_value_grows(d, j + 1);
        let p = d.subrange(0, j + 1);
        assert(p.drop_last() =~= d.subrange(0, j));
        assert(is_digit(p.last()));
        lemma_digits_value_nonneg(d.subrange(0, j));
    } else {
        assert(d.subrange(0, j) =~= d);
        lemma_digits_value_nonneg(d);
    }
}

pub proof fn lemma_digits_value_nonneg(d: Seq<char>)
    requires
        forall|i: int| 0 <= i < d.len() ==> is_digit(#[trigger] d[i]),
    ensures
        0 <= digits_value(d),
    decreases d.len(),
{
    if d.len() > 0 {
        lemma_digits_value_nonneg(d.drop_last());
        assert(is_digit(d[d.len() - 1]));
    }
}

pub open spec fn all_digits(d: Seq<char>) -> bool {
    forall|i: int| 0 <= i < d.len() ==> is_digit(#[trigger] d[i])
}

/// Length of the sign that opens a written integer.
pub open spec fn sign_len(s: Seq<char>) -> int {
    if s.len() > 0 && (s[0] == '-' || s[0] == '+') {
        1
    } else {
        0
    }
}

/// The integer that a text writes as `i64::from_str` reads it: an optional
/// sign, then at least one decimal digit and nothing else, in the range of
/// an `i64`.
pub open spec fn integer_text(s: Seq<char>) -> Option<i64> {
    let digits = s.skip(sign_len(s));
    if digits.len() == 0 || !all_digits(digits) {
        None
    } else {
        let v = if s[0] == '-' {
            -digits_value(digits)
        } else {
            digits_value(digits)
        };
        if i64::MIN <= v <= i64::MAX {
            Some(v as i64)
        } else {
            None
        }
    }
}

pub fn parse_integer(s: &str) -> (r: Option<i64>)
    ensures
        r == integer_text(s@),
{
    let chars = chars_of(s);
    if chars.len() == 0 {
        return None;
    }
    let negative = chars[0] == '-';
    let start: usize = if chars[0] == '-' || chars[0] == '+' {
        1
    } else {
        0
    };
    let ghost digits = chars@.skip(start as int);
    assert(start == sign_len(chars@));
    if start == chars.len() {
        return None;
    }
    let mut k: usize = start;
    let mut value: i128 = 0;
    assert(chars@.subrange(start as int, start as int) =~= Seq::<char>::empty());
    while k < chars.len()
        invariant
            start <= k <= chars@.len(),
            chars@ == s@,
            start == sign_len(s@),
            chars@.len() > 0,
            digits == chars@.skip(start as int),
            forall|i: int| start <= i < k ==> is_digit(#[trigger] chars@[i]),
            value == digits_value(chars@.subrange(start as int, k as int)),
            0 <= value <= 9223372036854775808,
        decreases chars@.len() - k,
    {
        let ghost prefix = chars@.subrange(start as int, k + 1);
        proof {
            assert(prefix.drop_last() =~= chars@.subrange(start as int, k as int));
            assert(digits[k - start] == chars@[k as int]);
        }
        if !digit(chars[k]) {
            assert(!all_digits(digits));
            return None;
        }
        let d = (chars[k] as u32 - 48) as i128;
        value = value * 10 + d;
        if value > 9223372036854775808 {
            proof {
                if all_digits(digits) {
                    assert(digits.subrange(0, k + 1 - start) =~= prefix);
                    lemma_digits_value_grows(digits, k + 1 - start);
                    assert(digits_value(digits) > 9223372036854775808);
                }
            }
            return None;
        }
        k = k + 1;
    }
    proof {
        assert(chars@.subrange(start as int, chars@.len() as int) =~= digits);
        assert forall|i: int| 0 <= i < digits.len() implies is_digit(#[trigger] digits[i]) by {
            assert(digits[i] == chars@[start + i]);
        }
    }
    if negative {
        Some((0 - value) as i64)
    } else if value <= 9223372036854775807 {
        Some(value as i64)
    } else {
        None
    }
}

} // verus!
