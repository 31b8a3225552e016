//! Text primitives shared by the parsers: character classes, searching and
//! the few conversions between `str` and sequences of characters.

use vstd::prelude::*;

verus! {

pub open spec fn is_digit(c: char) -> bool {
    '0' <= c && c <= '9'
}

pub open spec fn is_upper(c: char) -> bool {
    'A' <= c && c <= 'Z'
}

pub open spec fn is_lower(c: char) -> bool {
    'a' <= c && c <= 'z'
}

pub open spec fn is_alnum(c: char) -> bool {
    is_digit(c) || is_upper(c) || is_lower(c)
}

pub open spec fn ascii_upper(c: char) -> char {
    if is_lower(c) {
        ((c as u32) - 32) as char
    } else {
        c
    }
}

/// Every character of the text is ASCII.
pub open spec fn ascii_text(s: Seq<char>) -> bool {
    forall|i: int| 0 <= i < s.len() ==> (#[trigger] s[i] as u32) < 128
}

/// An ASCII text with `A`-`Z` turned into `a`-`z`.
pub open spec fn ascii_lowered(s: Seq<char>) -> Seq<char> {
    s.map_values(|c: char| ascii_lower(c))
}

/// An ASCII text with `a`-`z` turned into `A`-`Z`.
pub open spec fn ascii_uppered(s: Seq<char>) -> Seq<char> {
    s.map_values(|c: char| ascii_upper(c))
}

pub open spec fn ascii_lower(c: char) -> char {
    if is_upper(c) {
        ((c as u32) + 32) as char
    } else {
        c
    }
}

/// The characters that carry the Unicode `White_Space` property, which is
/// what `char::is_whitespace` and `str::trim` go by.
pub open spec fn is_space(c: char) -> bool {
    ||| ('\u{9}' <= c && c <= '\u{d}')
    ||| c == ' '
    ||| c == '\u{85}'
    ||| c == '\u{a0}'
    ||| c == '\u{1680}'
    ||| ('\u{2000}' <= c && c <= '\u{200a}')
    ||| c == '\u{2028}'
    ||| c == '\u{2029}'
    ||| c == '\u{202f}'
    ||| c == '\u{205f}'
    ||| c == '\u{3000}'
}

/// `needle` stands in `hay` from position `i` on.
pub open spec fn occurs_at(hay: Seq<char>, needle: Seq<char>, i: int) -> bool {
    &&& 0 <= i
    &&& i + needle.len() <= hay.len()
    &&& hay.subrange(i, i + needle.len()) == needle
}

pub open spec fn has_text(hay: Seq<char>, needle: Seq<char>) -> bool {
    exists|i: int| occurs_at(hay, needle, i)
}

pub open spec fn starts(s: Seq<char>, prefix: Seq<char>) -> bool {
    occurs_at(s, prefix, 0)
}

pub open spec fn ends(s: Seq<char>, suffix: Seq<char>) -> bool {
    suffix.len() <= s.len() && occurs_at(s, suffix, s.len() - suffix.len())
}

/// Position of the first occurrence of `needle` at or after `from`.
pub open spec fn first_at_or_after(hay: Seq<char>, needle: Seq<char>, from: int, i: int) -> bool {
    &&& from <= i
    &&& occurs_at(hay, needle, i)
    &&& forall|j: int| from <= j < i ==> !occurs_at(hay, needle, j)
}

/// Number of leading characters that are white space.
pub open spec fn leading_space(s: Seq<char>) -> nat
    decreases s.len(),
{
    if s.len() > 0 && is_space(s[0]) {
        1 + leading_space(s.drop_first())
    } else {
        0
    }
}

/// Number of trailing characters that are white space.
pub open spec fn trailing_space(s: Seq<char>) -> nat
    decreases s.len(),
{
    if s.len() > 0 && is_space(s.last()) {
        1 + trailing_space(s.drop_last())
    } else {
        0
    }
}

pub open spec fn trim_end(s: Seq<char>) -> Seq<char> {
    s.subrange(0, s.len() - trailing_space(s))
}

pub open spec fn trim_start(s: Seq<char>) -> Seq<char> {
    s.subrange(leading_space(s) as int, s.len() as int)
}

/// What `str::trim` leaves of `s`.
pub open spec fn trimmed(s: Seq<char>) -> Seq<char> {
    trim_end(trim_start(s))
}

/// The characters of a text as `str::to_lowercase` writes them. Unicode
/// defines the mapping; it is not restated here.
pub uninterp spec fn lowercased(s: Seq<char>) -> Seq<char>;

/// The characters of a text as `str::to_uppercase` writes them.
pub uninterp spec fn uppercased(s: Seq<char>) -> Seq<char>;

pub proof fn lemma_leading_space_bound(s: Seq<char>)
    ensures
        leading_space(s) <= s.len(),
        forall|k: int| 0 <= k < leading_space(s) ==> is_space(#[trigger] s[k]),
        leading_space(s) < s.len() ==> !is_space(s[leading_space(s) as int]),
    decreases s.len(),
{
    if s.len() > 0 && is_space(s[0]) {
        lemma_leading_space_bound(s.drop_first());
        assert forall|k: int| 0 <= k < leading_space(s) implies is_space(#[trigger] s[k]) by {
            if k > 0 {
                assert(s[k] == s.drop_first()[k - 1]);
            }
        }
    }
}

pub proof fn lemma_trailing_space_bound(s: Seq<char>)
    ensures
        trailing_space(s) <= s.len(),
        forall|k: int| s.len() - trailing_space(s) <= k < s.len() ==> is_space(#[trigger] s[k]),
        trailing_space(s) < s.len() ==> !is_space(s[s.len() - trailing_space(s) - 1]),
    decreases s.len(),
{
    if s.len() > 0 && is_space(s.last()) {
        lemma_trailing_space_bound(s.drop_last());
        assert forall|k: int| s.len() - trailing_space(s) <= k < s.len() implies is_space(
            #[trigger] s[k],
        ) by {
            if k < s.len() - 1 {
                assert(s[k] == s.drop_last()[k]);
            }
        }
    }
}

/// The characters of `s`, one by one.
pub(crate) fn chars_of(s: &str) -> (r: Vec<char>)
    ensures
        r@ == s@,
{
    broadcast use vstd::string::axiom_spec_iter;
    let mut out: Vec<char> = Vec::new();
    for c in it: s.chars()
        invariant
            it.seq() == s@,
            out@ == it.seq().take(it.index() as int),
        ensures
            out@ == s@,
    {
        proof {
            assert(it.seq().take(it.index() + 1) =~= it.seq().take(it.index() as int).push(c));
        }
        out.push(c);
    }
    out
}

/// `String::from_iter`: a text made of the given characters.
#[verifier::external_body]
pub(crate) fn text_of(chars: &[char]) -> (r: String)
    ensures
        r@ == chars@,
{
    String::from_iter(chars.iter())
}

/// `str::to_lowercase`: on an ASCII text, as std documents, it turns `A`-`Z`
/// into `a`-`z` and keeps every other character; beyond ASCII the Unicode
/// mapping is named, not restated.
#[verifier::external_body]
pub(crate) fn lowercase(s: &str) -> (r: String)
    ensures
        r@ == lowercased(s@),
        ascii_text(s@) ==> r@ == ascii_lowered(s@),
{
    s.to_lowercase()
}

/// `str::to_uppercase`: on an ASCII text, as std documents, it turns `a`-`z`
/// into `A`-`Z` and keeps every other character.
#[verifier::external_body]
pub(crate) fn uppercase(s: &str) -> (r: String)
    ensures
        r@ == uppercased(s@),
        ascii_text(s@) ==> r@ == ascii_uppered(s@),
{
    s.to_uppercase()
}

pub fn digit(c: char) -> (r: bool)
    ensures
        r == is_digit(c),
{
    '0' <= c && c <= '9'
}

pub fn alnum(c: char) -> (r: bool)
    ensures
        r == is_alnum(c),
{
    ('0' <= c && c <= '9') || ('A' <= c && c <= 'Z') || ('a' <= c && c <= 'z')
}

pub fn space(c: char) -> (r: bool)
    ensures
        r == is_space(c),
{
    ('\u{9}' <= c && c <= '\u{d}') || c == ' ' || c == '\u{85}' || c == '\u{a0}' || c
        == '\u{1680}' || ('\u{2000}' <= c && c <= '\u{200a}') || c == '\u{2028}' || c
        == '\u{2029}' || c == '\u{202f}' || c == '\u{205f}' || c == '\u{3000}'
}

pub fn to_ascii_lower(c: char) -> (r: char)
    ensures
        r == ascii_lower(c),
{
    if 'A' <= c && c <= 'Z' {
        let b = (c as u8) + 32;
        b as char
    } else {
        c
    }
}

/// Whether `needle` stands in `hay` from position `i` on.
pub fn matches_at(hay: &[char], needle: &[char], i: usize) -> (r: bool)
    ensures
        r == occurs_at(hay@, needle@, i as int),
{
    if i > hay.len() || needle.len() > hay.len() - i {
        return false;
    }
    let mut k: usize = 0;
    while k < needle.len()
        invariant
            i + needle@.len() <= hay@.len(),
            hay@.len() == hay.len(),
            k <= needle@.len(),
            forall|j: int| 0 <= j < k ==> hay@[i + j] == needle@[j],
        decreases needle@.len() - k,
    {
        if hay[i + k] != needle[k] {
            assert(hay@.subrange(i as int, i + needle@.len())[k as int] != needle@[k as int]);
            return false;
        }
        k = k + 1;
    }
    assert(hay@.subrange(i as int, i + needle@.len()) =~= needle@);
    true
}

/// First position at or after `from` where `needle` stands in `hay`.
pub fn find_from(hay: &[char], needle: &[char], from: usize) -> (r: Option<usize>)
    ensures
        match r {
            Some(i) => first_at_or_after(hay@, needle@, from as int, i as int),
            None => forall|j: int| from <= j ==> !occurs_at(hay@, needle@, j),
        },
{
    let mut i = from;
    while i <= hay.len()
        invariant
            from <= i,
            forall|j: int| from <= j < i ==> !occurs_at(hay@, needle@, j),
        decreases hay@.len() + 1 - i,
    {
        if matches_at(hay, needle, i) {
            return Some(i);
        }
        if i == hay.len() {
            assert forall|j: int| from <= j implies !occurs_at(hay@, needle@, j) by {
                if j > i {
                }
            }
            return None;
        }
        i = i + 1;
    }
    None
}

pub fn contains(hay: &[char], needle: &[char]) -> (r: bool)
    ensures
        r == has_text(hay@, needle@),
{
    match find_from(hay, needle, 0) {
        Some(i) => true,
        None => {
            assert forall|j: int| !occurs_at(hay@, needle@, j) by {
                if 0 <= j {
                }
            }
            false
        },
    }
}

pub fn starts_with(s: &[char], prefix: &[char]) -> (r: bool)
    ensures
        r == starts(s@, prefix@),
{
    matches_at(s, prefix, 0)
}

pub fn ends_with(s: &[char], suffix: &[char]) -> (r: bool)
    ensures
        r == ends(s@, suffix@),
{
    if suffix.len() > s.len() {
        false
    } else {
        matches_at(s, suffix, s.len() - suffix.len())
    }
}

/// The part of `s` that lies between `from` and `to`.
pub fn slice_text(s: &[char], from: usize, to: usize) -> (r: Vec<char>)
    requires
        from <= to <= s@.len(),
    ensures
        r@ == s@.subrange(from as int, to as int),
{
    let mut out: Vec<char> = Vec::new();
    let mut k = from;
    while k < to
        invariant
            from <= k <= to <= s@.len(),
            out@ == s@.subrange(from as int, k as int),
        decreases to - k,
    {
        out.push(s[k]);
        proof {
            assert(s@.subrange(from as int, k + 1) =~= s@.subrange(from as int, k as int).push(
                s@[k as int],
            ));
        }
        k = k + 1;
    }
    out
}

/// Bounds of `s` once white space is taken off both ends.
pub fn trim_bounds(s: &[char]) -> (r: (usize, usize))
    ensures
        r.0 <= r.1 <= s@.len(),
        s@.subrange(r.0 as int, r.1 as int) == trimmed(s@),
{
    proof {
        lemma_leading_space_bound(s@);
    }
    let mut start: usize = 0;
    while start < s.len() && space(s[start])
        invariant
            start <= s@.len(),
            start <= leading_space(s@),
            forall|k: int| 0 <= k < start ==> is_space(#[trigger] s@[k]),
            leading_space(s@) <= s@.len(),
            forall|k: int| 0 <= k < leading_space(s@) ==> is_space(#[trigger] s@[k]),
            leading_space(s@) < s@.len() ==> !is_space(s@[leading_space(s@) as int]),
        decreases s@.len() - start,
    {
        start = start + 1;
    }
    assert(start == leading_space(s@));
    let ghost rest = trim_start(s@);
    proof {
        lemma_trailing_space_bound(rest);
    }
    let mut end: usize = s.len();
    while end > start && space(s[end - 1])
        invariant
            start <= end <= s@.len(),
            rest == s@.subrange(start as int, s@.len() as int),
            s@.len() - end <= trailing_space(rest),
            trailing_space(rest) <= rest.len(),
            forall|k: int|
                rest.len() - trailing_space(rest) <= k < rest.len() ==> is_space(#[trigger] rest[k]),
            trailing_space(rest) < rest.len() ==> !is_space(
                rest[rest.len() - trailing_space(rest) - 1],
            ),
        decreases end,
    {
        assert(rest[end - 1 - start] == s@[end - 1]);
        end = end - 1;
    }
    proof {
        if end > start {
            assert(rest[end - 1 - start] == s@[end - 1]);
        }
        assert(s@.len() - end == trailing_space(rest));
        assert(s@.subrange(start as int, end as int) =~= trim_end(rest));
    }
    (start, end)
}

/// The decimal digit that stands for `d`, for `d` below ten.
pub open spec fn digit_char(d: int) -> char {
    ((d + 48) as u32) as char
}

/// Decimal writing of a natural number, most significant digit first.
pub open spec fn decimal(n: nat) -> Seq<char>
    decreases n,
{
    if n < 10 {
        seq![digit_char(n as int)]
    } else {
        decimal(n / 10).push(digit_char((n % 10) as int))
    }
}

/// Decimal writing of an integer, with a leading `-` below zero, as
/// `i64::to_string` writes it.
pub open spec fn signed_decimal(v: int) -> Seq<char> {
    if v < 0 {
        seq!['-'] + decimal((-v) as nat)
    } else {
        decimal(v as nat)
    }
}

pub fn digit_of(d: u64) -> (r: char)
    requires
        d < 10,
    ensures
        r == digit_char(d as int),
{
    let b = (d as u8) + 48;
    b as char
}

/// Decimal writing of `n`.
pub fn decimal_text(n: u64) -> (r: Vec<char>)
    ensures
        r@ == decimal(n as nat),
    decreases n,
{
    if n < 10 {
        let mut v = Vec::new();
        v.push(digit_of(n));
        proof {
            assert(v@ =~= decimal(n as nat));
        }
        v
    } else {
        let mut v = decimal_text(n / 10);
        v.push(digit_of(n % 10));
        v
    }
}

/// Decimal writing of `v`, sign included.
pub fn signed_text(v: i64) -> (r: Vec<char>)
    ensures
        r@ == signed_decimal(v as int),
{
    if v < 0 {
        let magnitude: u64 = if v == i64::MIN {
            9223372036854775808u64
        } else {
            (-v) as u64
        };
        let digits = decimal_text(magnitude);
        let mut out = Vec::new();
        out.push('-');
        let mut k: usize = 0;
        while k < digits.len()
            invariant
                k <= digits@.len(),
                out@ == seq!['-'] + digits@.subrange(0, k as int),
            decreases digits@.len() - k,
        {
            out.push(digits[k]);
            proof {
                assert(seq!['-'] + digits@.subrange(0, k + 1) =~= (seq!['-'] + digits@.subrange(
                    0,
                    k as int,
                )).push(digits@[k as int]));
            }
            k = k + 1;
        }
        assert(digits@.subrange(0, digits@.len() as int) =~= digits@);
        out
    } else {
        decimal_text(v as u64)
    }
}

/// Appends the characters of `more` to `out`.
pub fn append_chars(out: &mut Vec<char>, more: &[char])
    ensures
        final(out)@ == old(out)@ + more@,
{
    let mut k: usize = 0;
    while k < more.len()
        invariant
            k <= more@.len(),
            out@ == old(out)@ + more@.subrange(0, k as int),
        decreases more@.len() - k,
    {
        out.push(more[k]);
        proof {
            assert(old(out)@ + more@.subrange(0, k + 1) =~= (old(out)@ + more@.subrange(
                0,
                k as int,
            )).push(more@[k as int]));
        }
        k = k + 1;
    }
    assert(more@.subrange(0, more@.len() as int) =~= more@);
}

/// The pieces of `s` between the occurrences of `sep`, as `str::split`
/// cuts them: always at least one piece, possibly empty.
pub open spec fn split_on(s: Seq<char>, sep: char) -> Seq<Seq<char>>
    decreases s.len(),
{
    if s.len() == 0 {
        seq![seq![]]
    } else {
        let before = split_on(s.drop_last(), sep);
        if s.last() == sep {
            before.push(seq![])
        } else {
            before.update(before.len() - 1, before.last().push(s.last()))
        }
    }
}

pub proof fn lemma_split_nonempty(s: Seq<char>, sep: char)
    ensures
        split_on(s, sep).len() >= 1,
    decreases s.len(),
{
    if s.len() > 0 {
        lemma_split_nonempty(s.drop_last(), sep);
    }
}

/// The pieces joined back with `sep` between them, as `join` writes them.
pub open spec fn join_with(parts: Seq<Seq<char>>, sep: char) -> Seq<char>
    decreases parts.len(),
{
    if parts.len() == 0 {
        seq![]
    } else if parts.len() == 1 {
        parts[0]
    } else {
        join_with(parts.drop_last(), sep).push(sep) + parts.last()
    }
}

/// Cuts `s` at every `sep`.
pub fn split_chars(s: &[char], sep: char) -> (r: Vec<Vec<char>>)
    ensures
        r@.len() >= 1,
        forall|i: int| 0 <= i < r@.len() ==> (#[trigger] r@[i])@ == split_on(s@, sep)[i],
        r@.len() == split_on(s@, sep).len(),
{
    let mut parts: Vec<Vec<char>> = Vec::new();
    parts.push(Vec::new());
    let mut k: usize = 0;
    proof {
        assert(s@.subrange(0, 0) =~= Seq::<char>::empty());
    }
    while k < s.len()
        invariant
            k <= s@.len(),
            parts@.len() == split_on(s@.subrange(0, k as int), sep).len(),
            parts@.len() >= 1,
            forall|i: int|
                0 <= i < parts@.len() ==> (#[trigger] parts@[i])@ == split_on(
                    s@.subrange(0, k as int),
                    sep,
                )[i],
        decreases s@.len() - k,
    {
        let ghost before = split_on(s@.subrange(0, k as int), sep);
        proof {
            assert(s@.subrange(0, k + 1).drop_last() =~= s@.subrange(0, k as int));
        }
        if s[k] == sep {
            parts.push(Vec::new());
        } else {
            let last = parts.len() - 1;
            let mut piece = parts.pop().unwrap();
            piece.push(s[k]);
            parts.push(piece);
            proof {
                let after = split_on(s@.subrange(0, k + 1), sep);
                assert(after == before.update(before.len() - 1, before.last().push(s@[k as int])));
                assert forall|i: int| 0 <= i < parts@.len() implies (#[trigger] parts@[i])@
                    == after[i] by {
                    if i < last {
                    }
                }
            }
        }
        k = k + 1;
    }
    assert(s@.subrange(0, s@.len() as int) =~= s@);
    parts
}

/// Joins the pieces with `sep` between them.
pub fn join_chars(parts: &Vec<Vec<char>>, sep: char) -> (r: Vec<char>)
    ensures
        r@ == join_with(Seq::new(parts@.len(), |i: int| parts@[i]@), sep),
{
    let ghost views = Seq::new(parts@.len(), |i: int| parts@[i]@);
    let mut out: Vec<char> = Vec::new();
    let mut k: usize = 0;
    while k < parts.len()
        invariant
            k <= parts@.len(),
            views == Seq::new(parts@.len(), |i: int| parts@[i]@),
            out@ == join_with(views.subrange(0, k as int), sep),
        decreases parts@.len() - k,
    {
        let ghost prefix = views.subrange(0, k + 1);
        proof {
            assert(prefix.drop_last() =~= views.subrange(0, k as int));
        }
        if k > 0 {
            out.push(sep);
        }
        append_chars(&mut out, &parts[k]);
        proof {
            if k == 0 {
                assert(out@ =~= prefix[0]);
            }
        }
        k = k + 1;
    }
    assert(views.subrange(0, parts@.len() as int) =~= views);
    out
}

/// Every occurrence of `from` in `s`, from left to right and without overlap,
/// replaced with `to`, as `str::replace` does for a non-empty pattern.
pub open spec fn replace_all(s: Seq<char>, from: Seq<char>, to: Seq<char>) -> Seq<char>
    recommends
        from.len() > 0,
    decreases s.len(),
{
    if s.len() == 0 || from.len() == 0 {
        s
    } else if starts(s, from) {
        to + replace_all(s.skip(from.len() as int), from, to)
    } else {
        seq![s[0]] + replace_all(s.skip(1), from, to)
    }
}

/// `s` with every occurrence of the non-empty `from` replaced with `to`.
pub fn replace_chars(s: &[char], from: &[char], to: &[char]) -> (r: Vec<char>)
    requires
        from@.len() > 0,
    ensures
        r@ == replace_all(s@, from@, to@),
{
    let mut out: Vec<char> = Vec::new();
    let mut i: usize = 0;
    assert(s@.skip(0) =~= s@);
    while i < s.len()
        invariant
            i <= s@.len(),
            from@.len() > 0,
            out@ + replace_all(s@.skip(i as int), from@, to@) == replace_all(s@, from@, to@),
        decreases s@.len() - i,
    {
        let ghost rest = s@.skip(i as int);
        if matches_at(s, from, i) {
            proof {
                assert(rest.subrange(0, from@.len() as int) =~= s@.subrange(
                    i as int,
                    i + from@.len(),
                ));
                assert(starts(rest, from@));
                assert(rest.skip(from@.len() as int) =~= s@.skip(i + from@.len()));
                assert(out@ + to@ + replace_all(s@.skip(i + from@.len()), from@, to@) =~= out@
                    + replace_all(rest, from@, to@));
            }
            append_chars(&mut out, to);
            i = i + from.len();
        } else {
            proof {
                if from@.len() <= rest.len() {
                    assert(rest.subrange(0, from@.len() as int) =~= s@.subrange(
                        i as int,
                        i + from@.len(),
                    ));
                }
                assert(!starts(rest, from@));
                assert(rest.skip(1) =~= s@.skip(i + 1));
                assert(rest[0] == s@[i as int]);
                assert(out@.push(s@[i as int]) + replace_all(s@.skip(i + 1), from@, to@) =~= out@
                    + replace_all(rest, from@, to@));
            }
            out.push(s[i]);
            i = i + 1;
        }
    }
    proof {
        assert(s@.skip(i as int).len() == 0);
        assert(out@ =~= out@ + replace_all(s@.skip(i as int), from@, to@));
    }
    out
}

/// Two sequences of characters are the same.
pub fn same_chars(a: &[char], b: &[char]) -> (r: bool)
    ensures
        r == (a@ == b@),
{
    if a.len() != b.len() {
        return false;
    }
    let mut k: usize = 0;
    while k < a.len()
        invariant
            a@.len() == b@.len(),
            k <= a@.len(),
            forall|j: int| 0 <= j < k ==> a@[j] == b@[j],
        decreases a@.len() - k,
    {
        if a[k] != b[k] {
            return false;
        }
        k = k + 1;
    }
    assert(a@ =~= b@);
    true
}

/// `a` comes strictly before `b` in the order of `str` comparison, which
/// is the lexicographic order of the characters.
pub open spec fn text_before(a: Seq<char>, b: Seq<char>) -> bool
    decreases a.len(),
{
    if b.len() == 0 {
        false
    } else if a.len() == 0 {
        true
    } else if a[0] != b[0] {
        (a[0] as u32) < (b[0] as u32)
    } else {
        text_before(a.skip(1), b.skip(1))
    }
}

/// No text sorts before itself.
pub proof fn lemma_text_before_irreflexive(a: Seq<char>)
    ensures
        !text_before(a, a),
    decreases a.len(),
{
    if a.len() > 0 {
        lemma_text_before_irreflexive(a.skip(1));
    }
}

/// Of two different texts, one sorts before the other, and not both ways.
pub proof fn lemma_text_before_total(a: Seq<char>, b: Seq<char>)
    ensures
        a != b ==> (text_before(a, b) || text_before(b, a)),
        !(text_before(a, b) && text_before(b, a)),
    decreases a.len(),
{
    if a.len() > 0 && b.len() > 0 && a[0] == b[0] {
        lemma_text_before_total(a.skip(1), b.skip(1));
        if a != b {
            if a.skip(1) == b.skip(1) {
                assert(a =~= seq![a[0]] + a.skip(1));
                assert(b =~= seq![b[0]] + b.skip(1));
            }
        }
    }
    if a.len() == 0 && b.len() == 0 {
        assert(a =~= b);
    }
    if a.len() > 0 && b.len() > 0 && a[0] != b[0] {
        vstd::utf8::char_u32_cast(a[0], a[0] as u32);
        vstd::utf8::char_u32_cast(b[0], b[0] as u32);
    }
}

/// Sorting before is transitive.
pub proof fn lemma_text_before_transitive(a: Seq<char>, b: Seq<char>, c: Seq<char>)
    requires
        text_before(a, b),
        text_before(b, c),
    ensures
        text_before(a, c),
    decreases a.len(),
{
    if a.len() > 0 && b.len() > 0 && c.len() > 0 && a[0] == b[0] && b[0] == c[0] {
        lemma_text_before_transitive(a.skip(1), b.skip(1), c.skip(1));
    }
}

/// Number of bytes that a character takes in UTF-8.
pub open spec fn utf8_width(c: char) -> nat {
    if (c as u32) < 0x80 {
        1
    } else if (c as u32) < 0x800 {
        2
    } else if (c as u32) < 0x10000 {
        3
    } else {
        4
    }
}

/// Length in bytes of a text, as `str::len` counts it.
pub open spec fn utf8_len(s: Seq<char>) -> nat
    decreases s.len(),
{
    if s.len() == 0 {
        0
    } else {
        utf8_len(s.drop_last()) + utf8_width(s.last())
    }
}

/// Whether `a` sorts strictly before `b`.
pub fn less_text(a: &[char], b: &[char]) -> (r: bool)
    ensures
        r == text_before(a@, b@),
{
    let mut k: usize = 0;
    assert(a@.skip(0) =~= a@);
    assert(b@.skip(0) =~= b@);
    while k < a.len() && k < b.len() && a[k] == b[k]
        invariant
            k <= a@.len(),
            k <= b@.len(),
            text_before(a@, b@) == text_before(a@.skip(k as int), b@.skip(k as int)),
        decreases a@.len() - k,
    {
        proof {
            assert(a@.skip(k as int).skip(1) =~= a@.skip(k + 1));
            assert(b@.skip(k as int).skip(1) =~= b@.skip(k + 1));
        }
        k = k + 1;
    }
    if k == b.len() {
        false
    } else if k == a.len() {
        true
    } else {
        (a[k] as u32) < (b[k] as u32)
    }
}

/// The words of a text, as `str::split_whitespace` cuts them.
pub open spec fn words(s: Seq<char>) -> Seq<Seq<char>>
    decreases s.len(),
{
    if s.len() == 0 {
        seq![]
    } else {
        let before = words(s.drop_last());
        let c = s.last();
        if is_space(c) {
            before
        } else if s.len() >= 2 && !is_space(s[s.len() - 2]) && before.len() > 0 {
            before.update(before.len() - 1, before.last().push(c))
        } else {
            before.push(seq![c])
        }
    }
}

/// Cuts a text into its words.
pub fn split_words(s: &[char]) -> (r: Vec<Vec<char>>)
    ensures
        r@.len() == words(s@).len(),
        forall|i: int| 0 <= i < r@.len() ==> (#[trigger] r@[i])@ == words(s@)[i],
{
    let mut out: Vec<Vec<char>> = Vec::new();
    let mut k: usize = 0;
    assert(s@.subrange(0, 0) =~= Seq::<char>::empty());
    while k < s.len()
        invariant
            k <= s@.len(),
            out@.len() == words(s@.subrange(0, k as int)).len(),
            forall|i: int|
                0 <= i < out@.len() ==> (#[trigger] out@[i])@ == words(s@.subrange(0, k as int))[i],
        decreases s@.len() - k,
    {
        let ghost prefix = s@.subrange(0, k + 1);
        let ghost before = words(s@.subrange(0, k as int));
        proof {
            assert(prefix.drop_last() =~= s@.subrange(0, k as int));
            assert(prefix.last() == s@[k as int]);
            if k >= 1 {
                assert(prefix[prefix.len() - 2] == s@[k - 1]);
            }
        }
        let c = s[k];
        if space(c) {
        } else if k >= 1 && !space(s[k - 1]) && out.len() > 0 {
            let last = out.len() - 1;
            let mut piece = out.pop().unwrap();
            piece.push(c);
            out.push(piece);
            proof {
                let after = words(prefix);
                assert(after == before.update(before.len() - 1, before.last().push(c)));
                assert forall|i: int| 0 <= i < out@.len() implies (#[trigger] out@[i])@ == after[i] by {
                    if i < last {
                    }
                }
            }
        } else {
            let mut piece = Vec::new();
            piece.push(c);
            out.push(piece);
            proof {
                let after = words(prefix);
                assert(after == before.push(seq![c]));
                assert(piece@ =~= seq![c]);
                assert forall|i: int| 0 <= i < out@.len() implies (#[trigger] out@[i])@ == after[i] by {
                }
            }
        }
        k = k + 1;
    }
    assert(s@.subrange(0, s@.len() as int) =~= s@);
    out
}

/// `p` is the position of the first `c` in `s`.
pub open spec fn first_of(s: Seq<char>, c: char, p: int) -> bool {
    &&& 0 <= p < s.len()
    &&& s[p] == c
    &&& forall|j: int| 0 <= j < p ==> s[j] != c
}

/// What `str::split_once(c)` gives.
pub open spec fn split_once_at(s: Seq<char>, c: char) -> Option<(Seq<char>, Seq<char>)> {
    if exists|p: int| first_of(s, c, p) {
        let p = choose|p: int| first_of(s, c, p);
        Some((s.subrange(0, p), s.subrange(p + 1, s.len() as int)))
    } else {
        None
    }
}

/// Cuts a text at the first `c`.
pub fn split_once(s: &[char], c: char) -> (r: Option<(Vec<char>, Vec<char>)>)
    ensures
        match split_once_at(s@, c) {
            Some((a, b)) => r matches Some((x, y)) && x@ == a && y@ == b,
            None => r is None,
        },
{
    let mut p: usize = 0;
    while p < s.len() && s[p] != c
        invariant
            p <= s@.len(),
            forall|j: int| 0 <= j < p ==> s@[j] != c,
        decreases s@.len() - p,
    {
        p = p + 1;
    }
    if p < s.len() {
        assert(first_of(s@, c, p as int));
        proof {
            let q = choose|q: int| first_of(s@, c, q);
            assert(q == p) by {
                if q < p {
                    assert(s@[q] != c);
                }
                if p < q {
                    assert(s@[p as int] != c);
                }
            }
        }
        Some(
            (
                slice_text(s, 0, p),
                slice_text(s, p + 1, s.len()),
            ),
        )
    } else {
        assert(!exists|q: int| first_of(s@, c, q));
        None
    }
}

} // verus!
