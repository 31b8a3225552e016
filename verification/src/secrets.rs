//! Tokens kept where the system keeps secrets, never in a file.
//!
//! A Modrinth token opens the author's account, and the CurseForge one
//! publishes files on it. The system keyring encrypts them with the
//! credentials of the account. When the keyring does not answer, nothing is
//! written elsewhere as a fallback: the application says what is missing and
//! asks for the token again.
//!
//! Two things stand here: what is made of each answer of the system keyring,
//! and `Shelf`, a keyring held in memory with the same operations, which
//! states the behaviour that every keyring is expected to have.

use crate::error::AppError;
use crate::text::{append_chars, chars_of, text_of};
use vstd::prelude::*;

verus! {

/// Name under which the application presents itself to the keyring: its own
/// identifier, so that the entry is recognisable in the credentials manager.
pub const SERVICE: &'static str = "fr.dreykaoas.chartographer";

/// Personal Modrinth token.
pub const MODRINTH_TOKEN: &'static str = "modrinth-token";

/// CurseForge upload token, read on the author's dashboard.
pub const CURSEFORGE_UPLOAD_TOKEN: &'static str = "curseforge-upload-token";

// ---------------------------------------------------------------------------
// A keyring held in memory.

/// The entries of a shelf, name and value.
pub open spec fn names_apart(s: Seq<(Seq<char>, Seq<char>)>) -> bool {
    forall|i: int, j: int| 0 <= i < j < s.len() ==> #[trigger] s[i].0 != #[trigger] s[j].0
}

pub open spec fn has_name(s: Seq<(Seq<char>, Seq<char>)>, name: Seq<char>) -> bool {
    exists|i: int| 0 <= i < s.len() && #[trigger] s[i].0 == name
}

pub open spec fn index_of_name(s: Seq<(Seq<char>, Seq<char>)>, name: Seq<char>) -> int {
    choose|i: int| 0 <= i < s.len() && #[trigger] s[i].0 == name
}

/// What a list of entries stores: each name with its value.
pub open spec fn stored(s: Seq<(Seq<char>, Seq<char>)>) -> Map<Seq<char>, Seq<char>> {
    Map::new(|name: Seq<char>| has_name(s, name), |name: Seq<char>| s[index_of_name(s, name)].1)
}

pub open spec fn entry_view(p: (String, String)) -> (Seq<char>, Seq<char>) {
    (p.0@, p.1@)
}

/// A keyring held in memory: each name holds at most one token.
pub struct Shelf {
    entries: Vec<(String, String)>,
}

impl View for Shelf {
    type V = Map<Seq<char>, Seq<char>>;

    closed spec fn view(&self) -> Map<Seq<char>, Seq<char>> {
        stored(self.entries@.map_values(|p: (String, String)| entry_view(p)))
    }
}

proof fn lemma_index_of_name(s: Seq<(Seq<char>, Seq<char>)>, i: int)
    requires
        names_apart(s),
        0 <= i < s.len(),
    ensures
        has_name(s, s[i].0),
        index_of_name(s, s[i].0) == i,
        stored(s).contains_key(s[i].0),
        stored(s)[s[i].0] == s[i].1,
{
    assert(has_name(s, s[i].0));
    let j = index_of_name(s, s[i].0);
    if j < i {
        assert(s[j].0 != s[i].0);
    } else if j > i {
        assert(s[i].0 != s[j].0);
    }
}

impl Shelf {
    pub closed spec fn wf(&self) -> bool {
        names_apart(self.entries@.map_values(|p: (String, String)| entry_view(p)))
    }

    closed spec fn pairs(&self) -> Seq<(Seq<char>, Seq<char>)> {
        self.entries@.map_values(|p: (String, String)| entry_view(p))
    }

    /// An empty shelf.
    pub fn new() -> (r: Self)
        ensures
            r.wf(),
            r@ == Map::<Seq<char>, Seq<char>>::empty(),
    {
        let r = Shelf { entries: Vec::new() };
        assert(r@ =~= Map::<Seq<char>, Seq<char>>::empty());
        r
    }

    /// Where the entry of `name` stands, if there is one.
    fn position(&self, name: &str) -> (r: Option<usize>)
        requires
            self.wf(),
        ensures
            match r {
                Some(i) => i < self.entries@.len() && self.pairs()[i as int].0 == name@,
                None => !has_name(self.pairs(), name@),
            },
    {
        let wanted = chars_of(name);
        let mut k: usize = 0;
        while k < self.entries.len()
            invariant
                k <= self.entries@.len(),
                wanted@ == name@,
                forall|j: int| 0 <= j < k ==> #[trigger] self.pairs()[j].0 != name@,
            decreases self.entries@.len() - k,
        {
            if crate::text::same_chars(&chars_of(self.entries[k].0.as_str()), &wanted) {
                return Some(k);
            }
            k = k + 1;
        }
        None
    }
}

/// Stores a token, replacing the one that the name held. The shelf never refuses.
pub fn store(shelf: &mut Shelf, name: &str, value: &str) -> (r: Result<(), AppError>)
    requires
        old(shelf).wf(),
    ensures
        final(shelf).wf(),
        final(shelf)@ == old(shelf)@.insert(name@, value@),
        r is Ok,
{
    let ghost before = shelf.pairs();
    match shelf.position(name) {
        Some(i) => {
            shelf.entries.set(i, (name.to_string(), value.to_string()));
            proof {
                let after = shelf.pairs();
                assert(after =~= before.update(i as int, (name@, value@)));
                assert forall|a: int, b: int| 0 <= a < b < after.len() implies #[trigger] after[a].0
                    != #[trigger] after[b].0 by {
                    assert(after[a].0 == before[a].0);
                    assert(after[b].0 == before[b].0);
                }
                assert forall|k: Seq<char>| #[trigger] stored(after).contains_key(k)
                    == stored(before).insert(name@, value@).contains_key(k) by {
                    if has_name(after, k) {
                        let j = choose|j: int| 0 <= j < after.len() && #[trigger] after[j].0 == k;
                        assert(before[j].0 == k);
                    }
                    if has_name(before, k) {
                        let j = choose|j: int| 0 <= j < before.len() && #[trigger] before[j].0 == k;
                        assert(after[j].0 == k);
                    }
                }
                assert forall|k: Seq<char>| #[trigger] stored(after).contains_key(k) implies stored(
                    after,
                )[k] == stored(before).insert(name@, value@)[k] by {
                    let j = choose|j: int| 0 <= j < after.len() && #[trigger] after[j].0 == k;
                    lemma_index_of_name(after, j);
                    if j != i {
                        lemma_index_of_name(before, j);
                    }
                }
                assert(stored(after) =~= stored(before).insert(name@, value@));
            }
        },
        None => {
            shelf.entries.push((name.to_string(), value.to_string()));
            proof {
                let after = shelf.pairs();
                assert(after =~= before.push((name@, value@)));
                assert forall|a: int, b: int| 0 <= a < b < after.len() implies #[trigger] after[a].0
                    != #[trigger] after[b].0 by {
                    if b == before.len() {
                        assert(after[a].0 == before[a].0);
                        assert(!(before[a].0 == name@));
                    } else {
                        assert(after[a] == before[a]);
                        assert(after[b] == before[b]);
                    }
                }
                assert forall|k: Seq<char>| #[trigger] stored(after).contains_key(k)
                    == stored(before).insert(name@, value@).contains_key(k) by {
                    if has_name(after, k) {
                        let j = choose|j: int| 0 <= j < after.len() && #[trigger] after[j].0 == k;
                        if j < before.len() {
                            assert(before[j].0 == k);
                        }
                    }
                    if has_name(before, k) {
                        let j = choose|j: int| 0 <= j < before.len() && #[trigger] before[j].0 == k;
                        assert(after[j].0 == k);
                    }
                    assert(after[before.len() as int].0 == name@);
                }
                assert forall|k: Seq<char>| #[trigger] stored(after).contains_key(k) implies stored(
                    after,
                )[k] == stored(before).insert(name@, value@)[k] by {
                    let j = choose|j: int| 0 <= j < after.len() && #[trigger] after[j].0 == k;
                    lemma_index_of_name(after, j);
                    if j < before.len() {
                        assert(after[j] == before[j]);
                        lemma_index_of_name(before, j);
                    }
                }
                assert(stored(after) =~= stored(before).insert(name@, value@));
            }
        },
    }
    Ok(())
}

/// Reads a token back: `None` when the name holds none, which is no error but
/// the state of an application that was never linked.
pub fn load(shelf: &Shelf, name: &str) -> (r: Result<Option<String>, AppError>)
    requires
        shelf.wf(),
    ensures
        r matches Ok(found) && if shelf@.contains_key(name@) {
            found matches Some(v) && v@ == shelf@[name@]
        } else {
            found is None
        },
{
    match shelf.position(name) {
        Some(i) => {
            proof {
                lemma_index_of_name(shelf.pairs(), i as int);
            }
            Ok(Some(shelf.entries[i].1.clone()))
        },
        None => Ok(None),
    }
}

/// Forgets a token. Without effect when the name held none: logging out twice
/// in a row does not fail the second time.
pub fn clear(shelf: &mut Shelf, name: &str) -> (r: Result<(), AppError>)
    requires
        old(shelf).wf(),
    ensures
        final(shelf).wf(),
        final(shelf)@ == old(shelf)@.remove(name@),
        r is Ok,
{
    let ghost before = shelf.pairs();
    match shelf.position(name) {
        Some(i) => {
            shelf.entries.remove(i);
            proof {
                let after = shelf.pairs();
                assert(after =~= before.remove(i as int));
                assert forall|a: int, b: int| 0 <= a < b < after.len() implies #[trigger] after[a].0
                    != #[trigger] after[b].0 by {
                    let a0 = if a < i { a } else { a + 1 };
                    let b0 = if b < i { b } else { b + 1 };
                    assert(after[a] == before[a0]);
                    assert(after[b] == before[b0]);
                    assert(before[a0].0 != before[b0].0);
                }
                assert forall|k: Seq<char>| #[trigger] stored(after).contains_key(k)
                    == stored(before).remove(name@).contains_key(k) by {
                    if has_name(after, k) {
                        let j = choose|j: int| 0 <= j < after.len() && #[trigger] after[j].0 == k;
                        let j0 = if j < i { j } else { j + 1 };
                        assert(before[j0].0 == k);
                        assert(before[i as int].0 != before[j0].0);
                    }
                    if has_name(before, k) && k != name@ {
                        let j = choose|j: int| 0 <= j < before.len() && #[trigger] before[j].0 == k;
                        assert(j != i);
                        let j1 = if j < i { j } else { j - 1 };
                        assert(after[j1].0 == k);
                    }
                }
                assert forall|k: Seq<char>| #[trigger] stored(after).contains_key(k) implies stored(
                    after,
                )[k] == stored(before).remove(name@)[k] by {
                    let j = choose|j: int| 0 <= j < after.len() && #[trigger] after[j].0 == k;
                    let j0 = if j < i { j } else { j + 1 };
                    lemma_index_of_name(after, j);
                    lemma_index_of_name(before, j0);
                }
                assert(stored(after) =~= stored(before).remove(name@));
            }
        },
        None => {
            assert(stored(before).remove(name@) =~= stored(before));
        },
    }
    Ok(())
}

/// A token is kept under this name: its presence, without its value, which
/// the interface never has to know.
pub fn present(shelf: &Shelf, name: &str) -> (r: bool)
    requires
        shelf.wf(),
    ensures
        r == shelf@.contains_key(name@),
{
    match load(shelf, name) {
        Ok(Some(_)) => true,
        _ => false,
    }
}

/// What was stored under a name reads back until the name is stored again or
/// forgotten.
pub proof fn token_reads_back(before: Map<Seq<char>, Seq<char>>, name: Seq<char>, value: Seq<char>)
    ensures
        before.insert(name, value).contains_key(name),
        before.insert(name, value)[name] == value,
{
}

/// Nothing reads back after a name is forgotten, and forgetting it a second
/// time changes nothing.
pub proof fn forgetting_is_final(before: Map<Seq<char>, Seq<char>>, name: Seq<char>)
    ensures
        !before.remove(name).contains_key(name),
        before.remove(name).remove(name) == before.remove(name),
{
    assert(before.remove(name).remove(name) =~= before.remove(name));
}

/// Storing again under a name replaces what it held.
pub proof fn storing_again_replaces(before: Map<Seq<char>, Seq<char>>, name: Seq<char>, first: Seq<char>, second: Seq<char>)
    ensures
        before.insert(name, first).insert(name, second) == before.insert(name, second),
{
    assert(before.insert(name, first).insert(name, second) =~= before.insert(name, second));
}

/// Two names stay apart: storing or forgetting one leaves the other as it was.
pub proof fn names_stay_apart(before: Map<Seq<char>, Seq<char>>, one: Seq<char>, other: Seq<char>, value: Seq<char>)
    requires
        one != other,
    ensures
        before.insert(one, value).contains_key(other) == before.contains_key(other),
        before.insert(one, value)[other] == before[other],
        before.remove(one).contains_key(other) == before.contains_key(other),
        before.remove(one)[other] == before[other],
{
}

// ---------------------------------------------------------------------------
// The answers of the system keyring.

/// What the system keyring answered when it failed: whether it only had no
/// entry under the name, and how it described the failure.
#[derive(Debug, Clone)]
pub struct KeyringFault {
    pub no_entry: bool,
    pub detail: String,
}

pub open spec fn unavailable_message(name: Seq<char>, detail: Seq<char>) -> Seq<char> {
    "le trousseau du système n'a pas répondu pour « "@ + name + " » ("@ + detail
        + "). Les jetons n'y sont pas conservés en clair ailleurs : il faudra les redonner une fois le trousseau accessible."@
}

pub open spec fn is_unavailable(e: AppError, name: Seq<char>, detail: Seq<char>) -> bool {
    e matches AppError::Config(m) && m@ == unavailable_message(name, detail)
}

/// The error of a keyring that did not answer for `name`.
pub fn unavailable(name: &str, detail: &str) -> (r: AppError)
    ensures
        is_unavailable(r, name@, detail@),
{
    let mut out: Vec<char> = Vec::new();
    append_chars(&mut out, &chars_of("le trousseau du système n'a pas répondu pour « "));
    append_chars(&mut out, &chars_of(name));
    append_chars(&mut out, &chars_of(" » ("));
    append_chars(&mut out, &chars_of(detail));
    append_chars(
        &mut out,
        &chars_of(
            "). Les jetons n'y sont pas conservés en clair ailleurs : il faudra les redonner une fois le trousseau accessible.",
        ),
    );
    AppError::Config(text_of(&out))
}

/// After a token was handed to the keyring: any failure is the keyring's.
pub fn stored_outcome(name: &str, outcome: Result<(), KeyringFault>) -> (r: Result<(), AppError>)
    ensures
        match outcome {
            Ok(()) => r is Ok,
            Err(f) => r matches Err(e) && is_unavailable(e, name@, f.detail@),
        },
{
    match outcome {
        Ok(()) => Ok(()),
        Err(f) => Err(unavailable(name, f.detail.as_str())),
    }
}

/// After a token was asked of the keyring: an absent entry is no error.
pub fn loaded_outcome(name: &str, outcome: Result<String, KeyringFault>) -> (r: Result<Option<String>, AppError>)
    ensures
        match outcome {
            Ok(v) => r matches Ok(Some(x)) && x@ == v@,
            Err(f) => if f.no_entry {
                r matches Ok(None)
            } else {
                r matches Err(e) && is_unavailable(e, name@, f.detail@)
            },
        },
{
    match outcome {
        Ok(v) => Ok(Some(v)),
        Err(f) => if f.no_entry {
            Ok(None)
        } else {
            Err(unavailable(name, f.detail.as_str()))
        },
    }
}

/// After a token was to be forgotten: forgetting what is not there succeeds.
pub fn cleared_outcome(name: &str, outcome: Result<(), KeyringFault>) -> (r: Result<(), AppError>)
    ensures
        match outcome {
            Ok(()) => r is Ok,
            Err(f) => if f.no_entry {
                r is Ok
            } else {
                r matches Err(e) && is_unavailable(e, name@, f.detail@)
            },
        },
{
    match outcome {
        Ok(()) => Ok(()),
        Err(f) => if f.no_entry {
            Ok(())
        } else {
            Err(unavailable(name, f.detail.as_str()))
        },
    }
}

/// A token is present when the keyring gave one back.
pub fn is_present(loaded: &Result<Option<String>, AppError>) -> (r: bool)
    ensures
        r == (loaded matches Ok(Some(_))),
{
    match loaded {
        Ok(Some(_)) => true,
        _ => false,
    }
}

} // verus!
