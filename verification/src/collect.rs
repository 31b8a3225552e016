//! Automatic collection from the CurseForge author dashboard: recognising the
//! project that a captured response belongs to, and picking the dashboard
//! pages worth a visit.

use crate::text::{chars_of, contains, digit, find_from, has_text, is_digit, lowercase, lowercased, occurs_at, starts, starts_with};
use vstd::prelude::*;

verus! {

/// `needle` stands in `hay` at `i` with no digit glued to either side.
pub open spec fn standalone_at(hay: Seq<char>, needle: Seq<char>, i: int) -> bool {
    &&& occurs_at(hay, needle, i)
    &&& (i == 0 || !is_digit(hay[i - 1]))
    &&& (i + needle.len() >= hay.len() || !is_digit(hay[i + needle.len()]))
}

/// A non-empty `needle` appears in `hay` as a number of its own: `1002185`
/// stands in `/project/1002185/` but not in `31002185`.
pub open spec fn contains_standalone(hay: Seq<char>, needle: Seq<char>) -> bool {
    needle.len() > 0 && exists|i: int| standalone_at(hay, needle, i)
}

/// The url or the body of a response mentions the external identifier.
pub open spec fn mentions(url: Seq<char>, body: Seq<char>, ext_id: Seq<char>) -> bool {
    contains_standalone(url, ext_id) || contains_standalone(body, ext_id)
}

pub fn contains_standalone_number(hay: &[char], needle: &[char]) -> (r: bool)
    ensures
        r == contains_standalone(hay@, needle@),
{
    if needle.len() == 0 {
        return false;
    }
    let mut start: usize = 0;
    loop
        invariant
            needle@.len() > 0,
            start <= hay@.len() + 1,
            forall|j: int| 0 <= j < start ==> !standalone_at(hay@, needle@, j),
        decreases hay@.len() + 1 - start,
    {
        if start > hay.len() {
            assert forall|j: int| !standalone_at(hay@, needle@, j) by {
                if j >= start {
                }
            }
            return false;
        }
        match find_from(hay, needle, start) {
            None => {
                assert forall|j: int| !standalone_at(hay@, needle@, j) by {
                    if j >= start {
                    }
                }
                return false;
            },
            Some(at) => {
                let before_ok = at == 0 || !digit(hay[at - 1]);
                let after = at + needle.len();
                let after_ok = after >= hay.len() || !digit(hay[after]);
                if before_ok && after_ok {
                    assert(standalone_at(hay@, needle@, at as int));
                    return true;
                }
                start = at + 1;
            },
        }
    }
}

/// A number stands in a text where it is written with no digit glued to it:
/// the characters right before and right after it, when there are any, are
/// no `0`-`9`.
pub proof fn a_standalone_number_has_no_digit_on_either_side(hay: Seq<char>, needle: Seq<char>)
    ensures
        contains_standalone(hay, needle) <==> (needle.len() > 0 && exists|i: int|
            0 <= i && i + needle.len() <= hay.len() && #[trigger] hay.subrange(i, i + needle.len()) == needle
                && (i == 0 || !('0' <= hay[i - 1] && hay[i - 1] <= '9'))
                && (i + needle.len() == hay.len() || !('0' <= hay[i + needle.len()] && hay[i + needle.len()] <= '9'))),
{
    if contains_standalone(hay, needle) {
        let i = choose|i: int| standalone_at(hay, needle, i);
        assert(hay.subrange(i, i + needle.len()) == needle);
    }
    if needle.len() > 0 && exists|i: int|
        0 <= i && i + needle.len() <= hay.len() && #[trigger] hay.subrange(i, i + needle.len()) == needle
            && (i == 0 || !('0' <= hay[i - 1] && hay[i - 1] <= '9'))
            && (i + needle.len() == hay.len() || !('0' <= hay[i + needle.len()] && hay[i + needle.len()] <= '9')) {
        let i = choose|i: int|
            0 <= i && i + needle.len() <= hay.len() && #[trigger] hay.subrange(i, i + needle.len()) == needle
                && (i == 0 || !('0' <= hay[i - 1] && hay[i - 1] <= '9'))
                && (i + needle.len() == hay.len() || !('0' <= hay[i + needle.len()] && hay[i + needle.len()] <= '9'));
        assert(standalone_at(hay, needle, i));
    }
}

/// A number never stands inside a longer number: in a text made of digits
/// only and longer than the identifier, the identifier is not found, as
/// `1002185` is not in `10021850`.
pub proof fn a_number_is_not_found_inside_a_longer_one(hay: Seq<char>, needle: Seq<char>)
    requires
        forall|k: int| 0 <= k < hay.len() ==> '0' <= #[trigger] hay[k] && hay[k] <= '9',
        hay.len() > needle.len(),
    ensures
        !contains_standalone(hay, needle),
{
    assert forall|i: int| !standalone_at(hay, needle, i) by {
        if standalone_at(hay, needle, i) {
            if i > 0 {
                assert('0' <= hay[i - 1] && hay[i - 1] <= '9');
            } else {
                assert('0' <= hay[i + needle.len()] && hay[i + needle.len()] <= '9');
            }
        }
    }
}

/// Looks, in the address or the body of a response, for the identifier of
/// one of the known projects, and gives the first known project that is
/// mentioned.
pub fn pick_project_id(url: &str, body: &str, known: &[(i64, String)]) -> (r: Option<i64>)
    ensures
        match r {
            Some(id) => exists|k: int|
                0 <= k < known@.len() && known@[k].0 == id && mentions(
                    url@,
                    body@,
                    known@[k].1@,
                ) && forall|j: int|
                    0 <= j < k ==> !mentions(url@, body@, #[trigger] known@[j].1@),
            None => forall|k: int|
                0 <= k < known@.len() ==> !mentions(url@, body@, #[trigger] known@[k].1@),
        },
{
    let url_chars = chars_of(url);
    let body_chars = chars_of(body);
    let mut k: usize = 0;
    while k < known.len()
        invariant
            k <= known@.len(),
            url_chars@ == url@,
            body_chars@ == body@,
            forall|j: int| 0 <= j < k ==> !mentions(url@, body@, #[trigger] known@[j].1@),
        decreases known@.len() - k,
    {
        let ext = chars_of(known[k].1.as_str());
        if contains_standalone_number(&url_chars, &ext) || contains_standalone_number(
            &body_chars,
            &ext,
        ) {
            return Some(known[k].0);
        }
        k = k + 1;
    }
    None
}

pub open spec fn dashboard_root() -> Seq<char> {
    "https://authors.curseforge.com/"@
}

pub open spec fn interesting_words() -> Seq<Seq<char>> {
    seq!["project"@, "analytic"@, "statistic"@, "dashboard"@, "insight"@]
}

pub open spec fn noisy_words() -> Seq<Seq<char>> {
    seq!["/edit"@, "/files"@, "/upload"@, "/settings"@, "/logout"@]
}

pub open spec fn has_any(hay: Seq<char>, words: Seq<Seq<char>>) -> bool {
    exists|w: int| 0 <= w < words.len() && has_text(hay, #[trigger] words[w])
}

/// A link stays on the dashboard, speaks of projects or statistics, and is
/// not an edition, file or settings page.
pub open spec fn worth_a_visit(link: Seq<char>) -> bool {
    &&& starts(link, dashboard_root())
    &&& has_any(lowercased(link), interesting_words())
    &&& !has_any(lowercased(link), noisy_words())
}

/// The links worth a visit, each once, in the order they first appear.
pub open spec fn visit_list(links: Seq<Seq<char>>) -> Seq<Seq<char>>
    decreases links.len(),
{
    if links.len() == 0 {
        seq![]
    } else {
        let before = visit_list(links.drop_last());
        if worth_a_visit(links.last()) && !before.contains(links.last()) {
            before.push(links.last())
        } else {
            before
        }
    }
}

/// The characters of each word of a list.
pub open spec fn words_of(words: Seq<Vec<char>>) -> Seq<Seq<char>> {
    Seq::new(words.len(), |i: int| words[i]@)
}

fn has_any_word(hay: &[char], words: &Vec<Vec<char>>) -> (r: bool)
    ensures
        r == has_any(hay@, words_of(words@)),
{
    let mut w: usize = 0;
    while w < words.len()
        invariant
            w <= words@.len(),
            forall|j: int| 0 <= j < w ==> !has_text(hay@, #[trigger] words_of(words@)[j]),
        decreases words@.len() - w,
    {
        if contains(hay, &words[w]) {
            assert(has_text(hay@, words_of(words@)[w as int]));
            return true;
        }
        w = w + 1;
    }
    false
}

fn word(s: &str) -> (r: Vec<char>)
    ensures
        r@ == s@,
{
    chars_of(s)
}

fn interesting() -> (r: Vec<Vec<char>>)
    ensures
        words_of(r@) == interesting_words(),
{
    let r = vec![word("project"), word("analytic"), word("statistic"), word("dashboard"), word("insight")];
    assert(words_of(r@) =~= interesting_words());
    r
}

fn noisy() -> (r: Vec<Vec<char>>)
    ensures
        words_of(r@) == noisy_words(),
{
    let r = vec![word("/edit"), word("/files"), word("/upload"), word("/settings"), word("/logout")];
    assert(words_of(r@) =~= noisy_words());
    r
}

fn listed(out: &Vec<String>, link: &String) -> (r: bool)
    ensures
        r == out.deep_view().contains(link@),
{
    let mut k: usize = 0;
    while k < out.len()
        invariant
            k <= out@.len(),
            forall|j: int| 0 <= j < k ==> out.deep_view()[j] != link@,
        decreases out@.len() - k,
    {
        if out[k] == *link {
            assert(out.deep_view()[k as int] == link@);
            return true;
        }
        k = k + 1;
    }
    false
}

/// Keeps the dashboard addresses that deserve a visit, without duplicates.
pub fn worth_visiting(links: &[String]) -> (r: Vec<String>)
    ensures
        r.deep_view() == visit_list(links.deep_view()),
{
    let root = word("https://authors.curseforge.com/");
    let good = interesting();
    let bad = noisy();
    let mut out: Vec<String> = Vec::new();
    let mut k: usize = 0;
    while k < links.len()
        invariant
            k <= links@.len(),
            root@ == dashboard_root(),
            words_of(good@) == interesting_words(),
            words_of(bad@) == noisy_words(),
            out.deep_view() == visit_list(links.deep_view().subrange(0, k as int)),
        decreases links@.len() - k,
    {
        let ghost prefix = links.deep_view().subrange(0, k + 1);
        proof {
            assert(prefix.drop_last() =~= links.deep_view().subrange(0, k as int));
            assert(prefix.last() == links[k as int]@);
        }
        let link = &links[k];
        let chars = chars_of(link.as_str());
        if starts_with(&chars, &root) {
            let lower_text = lowercase(link.as_str());
            let lower = chars_of(lower_text.as_str());
            if has_any_word(&lower, &good) && !has_any_word(&lower, &bad) && !listed(&out, link) {
                out.push(link.clone());
                proof {
                    assert(out.deep_view() =~= visit_list(prefix));
                }
            }
        }
        k = k + 1;
    }
    assert(links.deep_view().subrange(0, links@.len() as int) =~= links.deep_view());
    out
}

} // verus!
