//! Publishing a version on both platforms: the files they accept, the
//! release types they know, and the translation of game versions into the
//! numeric identifiers of the CurseForge catalogue.

use crate::text::{chars_of, lowercase, lowercased, same_chars, trim_bounds, trimmed, slice_text, text_of};
use crate::json::{integer_in, member, member_integer, member_text, text_in, Json};
use vstd::prelude::*;

verus! {

/// Extensions that both platforms accept.
pub open spec fn accepted_extensions() -> Seq<Seq<char>> {
    seq!["jar"@, "zip"@, "mrpack"@, "litemod"@]
}

/// `p` is the position of the last `.` of `s`.
pub open spec fn last_dot(s: Seq<char>, p: int) -> bool {
    &&& 0 <= p < s.len()
    &&& s[p] == '.'
    &&& forall|j: int| p < j < s.len() ==> s[j] != '.'
}

/// The file name has an extension, after its last dot, that both platforms
/// accept whatever its case.
pub open spec fn accepted_name(name: Seq<char>) -> bool {
    exists|p: int|
        last_dot(name, p) && accepted_extensions().contains(
            lowercased(name.subrange(p + 1, name.len() as int)),
        )
}

pub fn accepts_extension(file_name: &str) -> (r: bool)
    ensures
        r == accepted_name(file_name@),
{
    let name = chars_of(file_name);
    let mut p = name.len();
    while p > 0 && name[p - 1] != '.'
        invariant
            p <= name@.len(),
            name@ == file_name@,
            forall|j: int| p <= j < name@.len() ==> name@[j] != '.',
        decreases p,
    {
        p = p - 1;
    }
    if p == 0 {
        assert forall|q: int| !last_dot(file_name@, q) by {
            if 0 <= q < name@.len() && name@[q] == '.' {
            }
        }
        return false;
    }
    let dot = p - 1;
    assert(last_dot(file_name@, dot as int));
    proof {
        assert forall|q: int| #![auto] last_dot(file_name@, q) implies q == dot by {
            if q < dot {
                assert(name@[dot as int] == '.');
            }
        }
    }
    let ext_chars = slice_text(&name, dot + 1, name.len());
    let ext = lowercase(text_of(&ext_chars).as_str());
    let e = chars_of(ext.as_str());
    let found = same_chars(&e, &chars_of("jar")) || same_chars(&e, &chars_of("zip"))
        || same_chars(&e, &chars_of("mrpack")) || same_chars(&e, &chars_of("litemod"));
    proof {
        let l = lowercased(file_name@.subrange(dot + 1, file_name@.len() as int));
        let a = accepted_extensions();
        assert(l == e@);
        if found {
            if e@ == "jar"@ {
                assert(a[0] == l);
            } else if e@ == "zip"@ {
                assert(a[1] == l);
            } else if e@ == "mrpack"@ {
                assert(a[2] == l);
            } else {
                assert(a[3] == l);
            }
        } else {
            assert(!a.contains(l)) by {
                assert forall|i: int| 0 <= i < a.len() implies a[i] != l by {
                }
            }
        }
    }
    found
}

/// `beta` and `alpha` are kept, whatever their case; anything else is a
/// release.
pub open spec fn release_type_of(raw: Seq<char>) -> Seq<char> {
    if lowercased(raw) == "beta"@ {
        "beta"@
    } else if lowercased(raw) == "alpha"@ {
        "alpha"@
    } else {
        "release"@
    }
}

pub fn sane_release_type(raw: &str) -> (r: &'static str)
    ensures
        r@ == release_type_of(raw@),
{
    let lower = lowercase(raw);
    let l = chars_of(lower.as_str());
    if same_chars(&l, &chars_of("beta")) {
        "beta"
    } else if same_chars(&l, &chars_of("alpha")) {
        "alpha"
    } else {
        "release"
    }
}

/// A version ready to go, described once for both platforms.
#[derive(Debug, Clone)]
pub struct Draft {
    /// Modrinth identifier of the project, absent when publishing on
    /// CurseForge alone.
    pub modrinth_project_id: Option<String>,
    /// CurseForge identifier of the project, absent when publishing on
    /// Modrinth alone.
    pub curseforge_project_id: Option<i64>,
    pub name: String,
    pub version_number: String,
    pub changelog: String,
    /// Game versions, in their readable form: `1.21.1`.
    pub game_versions: Vec<String>,
    /// Mod loaders: `fabric`, `neoforge`…
    pub loaders: Vec<String>,
    /// `release`, `beta` or `alpha`.
    pub release_type: String,
    /// Holds the file back on CurseForge instead of publishing it at once.
    pub manual_release: bool,
}

/// An entry of the CurseForge game version catalogue, which lists game
/// versions and mod loaders alike.
#[derive(Debug, Clone, PartialEq)]
pub struct GameVersion {
    pub id: i64,
    pub name: String,
    pub slug: String,
    pub type_id: i64,
}

pub struct GameVersionView {
    pub id: i64,
    pub name: Seq<char>,
    pub slug: Seq<char>,
}

pub open spec fn catalogue_view(catalogue: Seq<GameVersion>) -> Seq<GameVersionView> {
    catalogue.map_values(|g: GameVersion| GameVersionView { id: g.id, name: g.name@, slug: g.slug@ })
}

/// The entry answers to the name, compared without case, by its name or its
/// short name.
pub open spec fn answers_to(entry: GameVersionView, needle: Seq<char>) -> bool {
    lowercased(entry.name) == needle || lowercased(entry.slug) == needle
}

/// The name as it is looked up: trimmed, then lower-cased.
pub open spec fn needle_of(name: Seq<char>) -> Seq<char> {
    lowercased(trimmed(name))
}

/// Position of the first entry that answers to the needle.
pub open spec fn first_answer(catalogue: Seq<GameVersionView>, needle: Seq<char>, k: int) -> bool {
    &&& 0 <= k < catalogue.len()
    &&& answers_to(catalogue[k], needle)
    &&& forall|j: int| 0 <= j < k ==> !answers_to(#[trigger] catalogue[j], needle)
}

/// Identifiers found, each once and in the order first asked for, and the
/// names that have no entry, in the order given.
pub open spec fn resolved(wanted: Seq<Seq<char>>, catalogue: Seq<GameVersionView>) -> (
    Seq<i64>,
    Seq<Seq<char>>,
)
    decreases wanted.len(),
{
    if wanted.len() == 0 {
        (seq![], seq![])
    } else {
        let (ids, missing) = resolved(wanted.drop_last(), catalogue);
        let needle = needle_of(wanted.last());
        if exists|k: int| first_answer(catalogue, needle, k) {
            let k = choose|k: int| first_answer(catalogue, needle, k);
            if ids.contains(catalogue[k].id) {
                (ids, missing)
            } else {
                (ids.push(catalogue[k].id), missing)
            }
        } else {
            (ids, missing.push(wanted.last()))
        }
    }
}

proof fn lemma_first_answer_unique(catalogue: Seq<GameVersionView>, needle: Seq<char>, k: int, m: int)
    requires
        first_answer(catalogue, needle, k),
        first_answer(catalogue, needle, m),
    ensures
        k == m,
{
    if k < m {
        assert(!answers_to(catalogue[k], needle));
    }
    if m < k {
        assert(!answers_to(catalogue[m], needle));
    }
}

fn contains_id(ids: &Vec<i64>, id: i64) -> (r: bool)
    ensures
        r == ids@.contains(id),
{
    let mut k: usize = 0;
    while k < ids.len()
        invariant
            k <= ids@.len(),
            forall|j: int| 0 <= j < k ==> ids@[j] != id,
        decreases ids@.len() - k,
    {
        if ids[k] == id {
            assert(ids@[k as int] == id);
            return true;
        }
        k = k + 1;
    }
    false
}

/// Translates readable names into catalogue identifiers. Names with no entry
/// are given back apart: better to say so than to publish a version tied to
/// the wrong target.
pub fn resolve_game_versions(wanted: &[String], catalogue: &[GameVersion]) -> (r: (
    Vec<i64>,
    Vec<String>,
))
    ensures
        r.0@ == resolved(wanted.deep_view(), catalogue_view(catalogue@)).0,
        r.1.deep_view() == resolved(wanted.deep_view(), catalogue_view(catalogue@)).1,
{
    let ghost cat = catalogue_view(catalogue@);
    let ghost names = wanted.deep_view();
    let mut lowered: Vec<(Vec<char>, Vec<char>)> = Vec::new();
    let mut c: usize = 0;
    while c < catalogue.len()
        invariant
            c <= catalogue@.len(),
            cat == catalogue_view(catalogue@),
            lowered@.len() == c,
            forall|j: int|
                0 <= j < c ==> (#[trigger] lowered@[j]).0@ == lowercased(cat[j].name)
                    && lowered@[j].1@ == lowercased(cat[j].slug),
        decreases catalogue@.len() - c,
    {
        let n = chars_of(lowercase(catalogue[c].name.as_str()).as_str());
        let s = chars_of(lowercase(catalogue[c].slug.as_str()).as_str());
        lowered.push((n, s));
        c = c + 1;
    }
    let mut ids: Vec<i64> = Vec::new();
    let mut missing: Vec<String> = Vec::new();
    let mut w: usize = 0;
    assert(names.subrange(0, 0) =~= Seq::<Seq<char>>::empty());
    while w < wanted.len()
        invariant
            w <= wanted@.len(),
            cat == catalogue_view(catalogue@),
            names == wanted.deep_view(),
            lowered@.len() == catalogue@.len(),
            forall|j: int|
                0 <= j < catalogue@.len() ==> (#[trigger] lowered@[j]).0@ == lowercased(cat[j].name)
                    && lowered@[j].1@ == lowercased(cat[j].slug),
            ids@ == resolved(names.subrange(0, w as int), cat).0,
            missing.deep_view() == resolved(names.subrange(0, w as int), cat).1,
        decreases wanted@.len() - w,
    {
        let ghost prefix = names.subrange(0, w + 1);
        proof {
            assert(prefix.drop_last() =~= names.subrange(0, w as int));
            assert(prefix.last() == wanted@[w as int]@);
        }
        let name = chars_of(wanted[w].as_str());
        let (a, b) = trim_bounds(&name);
        let t = slice_text(&name, a, b);
        let needle = chars_of(lowercase(text_of(&t).as_str()).as_str());
        assert(needle@ == needle_of(wanted@[w as int]@));
        let mut found: Option<usize> = None;
        let mut k: usize = 0;
        while k < catalogue.len() && found.is_none()
            invariant
                k <= catalogue@.len(),
                cat == catalogue_view(catalogue@),
                lowered@.len() == catalogue@.len(),
                forall|j: int|
                    0 <= j < catalogue@.len() ==> (#[trigger] lowered@[j]).0@ == lowercased(
                        cat[j].name,
                    ) && lowered@[j].1@ == lowercased(cat[j].slug),
                found is None ==> forall|j: int| 0 <= j < k ==> !answers_to(#[trigger] cat[j], needle@),
                found matches Some(f) ==> first_answer(cat, needle@, f as int),
            decreases catalogue@.len() - k,
        {
            if same_chars(&lowered[k].0, &needle) || same_chars(&lowered[k].1, &needle) {
                found = Some(k);
            }
            k = k + 1;
        }
        match found {
            Some(k) => {
                assert(first_answer(cat, needle@, k as int));
                proof {
                    let m = choose|m: int| first_answer(cat, needle@, m);
                    lemma_first_answer_unique(cat, needle@, k as int, m);
                }
                let id = catalogue[k].id;
                if !contains_id(&ids, id) {
                    ids.push(id);
                }
            },
            None => {
                proof {
                    assert(!exists|m: int| first_answer(cat, needle@, m));
                }
                let ghost before = missing.deep_view();
                missing.push(wanted[w].clone());
                proof {
                    assert(missing.deep_view() =~= before.push(wanted@[w as int]@));
                }
            },
        }
        w = w + 1;
    }
    assert(names.subrange(0, wanted@.len() as int) =~= names);
    (ids, missing)
}

/// No name is lost: each wanted name either has its entry's identifier among
/// those resolved or stands among the missing ones; and no identifier is
/// given twice.
pub proof fn every_wanted_name_is_accounted_for(
    wanted: Seq<Seq<char>>,
    catalogue: Seq<GameVersionView>,
)
    ensures
        forall|i: int, j: int|
            0 <= i < j < resolved(wanted, catalogue).0.len() ==> resolved(wanted, catalogue).0[i]
                != resolved(wanted, catalogue).0[j],
        forall|w: int|
            0 <= w < wanted.len() ==> {
                let needle = needle_of(#[trigger] wanted[w]);
                if exists|k: int| first_answer(catalogue, needle, k) {
                    resolved(wanted, catalogue).0.contains(
                        catalogue[choose|k: int| first_answer(catalogue, needle, k)].id,
                    )
                } else {
                    resolved(wanted, catalogue).1.contains(wanted[w])
                }
            },
    decreases wanted.len(),
{
    if wanted.len() > 0 {
        let before = wanted.drop_last();
        every_wanted_name_is_accounted_for(before, catalogue);
        let (ids, missing) = resolved(before, catalogue);
        let (ids2, missing2) = resolved(wanted, catalogue);
        assert forall|x: i64| ids.contains(x) implies ids2.contains(x) by {
            let i = choose|i: int| 0 <= i < ids.len() && ids[i] == x;
            assert(ids2[i] == x);
        }
        assert forall|x: Seq<char>| missing.contains(x) implies missing2.contains(x) by {
            let i = choose|i: int| 0 <= i < missing.len() && missing[i] == x;
            assert(missing2[i] == x);
        }
        assert forall|w: int| 0 <= w < wanted.len() implies {
            let needle = needle_of(#[trigger] wanted[w]);
            if exists|k: int| first_answer(catalogue, needle, k) {
                ids2.contains(catalogue[choose|k: int| first_answer(catalogue, needle, k)].id)
            } else {
                missing2.contains(wanted[w])
            }
        } by {
            if w < wanted.len() - 1 {
                assert(wanted[w] == before[w]);
            } else {
                let needle = needle_of(wanted[w]);
                if exists|k: int| first_answer(catalogue, needle, k) {
                    let k = choose|k: int| first_answer(catalogue, needle, k);
                    if !ids.contains(catalogue[k].id) {
                        assert(ids2.last() == catalogue[k].id);
                    }
                } else {
                    assert(missing2.last() == wanted[w]);
                }
            }
        }
    }
}

/// Some entry of the catalogue answers to the name.
pub open spec fn has_answer(catalogue: Seq<GameVersionView>, name: Seq<char>) -> bool {
    exists|k: int| first_answer(catalogue, needle_of(name), k)
}

/// The identifier of the first entry that answers to the name.
pub open spec fn answer_id(catalogue: Seq<GameVersionView>, name: Seq<char>) -> i64 {
    catalogue[choose|k: int| first_answer(catalogue, needle_of(name), k)].id
}

/// The identifiers that the names answer to, in the order of the names,
/// repeats included.
pub open spec fn answered_ids(wanted: Seq<Seq<char>>, catalogue: Seq<GameVersionView>) -> Seq<i64>
    decreases wanted.len(),
{
    if wanted.len() == 0 {
        seq![]
    } else {
        let before = answered_ids(wanted.drop_last(), catalogue);
        if has_answer(catalogue, wanted.last()) {
            before.push(answer_id(catalogue, wanted.last()))
        } else {
            before
        }
    }
}

/// The names that no entry answers to, in the order given.
pub open spec fn unanswered(wanted: Seq<Seq<char>>, catalogue: Seq<GameVersionView>) -> Seq<Seq<char>>
    decreases wanted.len(),
{
    if wanted.len() == 0 {
        seq![]
    } else {
        let before = unanswered(wanted.drop_last(), catalogue);
        if has_answer(catalogue, wanted.last()) {
            before
        } else {
            before.push(wanted.last())
        }
    }
}

/// Each value at its first occurrence only, in order.
pub open spec fn without_repeats(s: Seq<i64>) -> Seq<i64>
    decreases s.len(),
{
    if s.len() == 0 {
        seq![]
    } else {
        let before = without_repeats(s.drop_last());
        if before.contains(s.last()) {
            before
        } else {
            before.push(s.last())
        }
    }
}

/// Resolving gives, in the order the names were first asked for, each
/// identifier their entries answer to, once; and, in the order given, every
/// name that no entry answers to; and nothing else.
pub proof fn resolving_keeps_the_order_of_the_names(wanted: Seq<Seq<char>>, catalogue: Seq<GameVersionView>)
    ensures
        resolved(wanted, catalogue).0 == without_repeats(answered_ids(wanted, catalogue)),
        resolved(wanted, catalogue).1 == unanswered(wanted, catalogue),
    decreases wanted.len(),
{
    if wanted.len() > 0 {
        let before = wanted.drop_last();
        resolving_keeps_the_order_of_the_names(before, catalogue);
        let a = answered_ids(before, catalogue);
        if has_answer(catalogue, wanted.last()) {
            let x = answer_id(catalogue, wanted.last());
            assert(a.push(x).drop_last() =~= a);
            assert(a.push(x).last() == x);
        }
    }
}

/// Identifier of the version that Modrinth created, from its decoded answer.
pub fn modrinth_version_id(response: &Option<Json>) -> (r: Option<String>)
    ensures
        match response {
            Some(v) => match text_in(member(*v, "id"@)) {
                Some(t) => r matches Some(x) && x@ == t,
                None => r is None,
            },
            None => r is None,
        },
{
    match response {
        Some(v) => member_text(v, "id"),
        None => None,
    }
}

/// Identifier of the file that CurseForge accepted, from its decoded answer.
pub fn curseforge_file_id(response: &Option<Json>) -> (r: Option<i64>)
    ensures
        r == match response {
            Some(v) => integer_in(member(*v, "id"@)),
            None => None,
        },
{
    match response {
        Some(v) => member_integer(v, "id"),
        None => None,
    }
}

/// The fields in which the platforms put the explanation of a refusal, in
/// the order in which they are looked at.
pub open spec fn refusal_keys() -> Seq<Seq<char>> {
    seq!["description"@, "errorMessage"@, "message"@, "error"@]
}

pub open spec fn reason_among(value: Json, keys: Seq<Seq<char>>) -> Option<Seq<char>>
    decreases keys.len(),
{
    if keys.len() == 0 {
        None
    } else {
        match text_in(member(value, keys[0])) {
            Some(t) => Some(t),
            None => reason_among(value, keys.drop_first()),
        }
    }
}

/// A readable message drawn from a refused answer, whatever the platform:
/// each puts its explanation in a field of its own.
pub fn refusal_reason(response: &Option<Json>) -> (r: Option<String>)
    ensures
        match response {
            Some(v) => match reason_among(*v, refusal_keys()) {
                Some(t) => r matches Some(x) && x@ == t,
                None => r is None,
            },
            None => r is None,
        },
{
    let v = match response {
        Some(v) => v,
        None => {
            return None;
        },
    };
    let ghost keys = refusal_keys();
    assert(keys.drop_first() =~= seq!["errorMessage"@, "message"@, "error"@]);
    assert(keys.drop_first().drop_first() =~= seq!["message"@, "error"@]);
    assert(keys.drop_first().drop_first().drop_first() =~= seq!["error"@]);
    assert(keys.drop_first().drop_first().drop_first().drop_first() =~= Seq::<Seq<char>>::empty());
    proof {
        reveal_with_fuel(reason_among, 5);
    }
    if let Some(t) = member_text(v, "description") {
        return Some(t);
    }
    if let Some(t) = member_text(v, "errorMessage") {
        return Some(t);
    }
    if let Some(t) = member_text(v, "message") {
        return Some(t);
    }
    member_text(v, "error")
}

} // verus!
