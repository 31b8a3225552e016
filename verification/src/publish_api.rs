//! What the publication commands tell of the answers of the platforms:
//! Modrinth takes everything through its public interface, CurseForge only
//! files on an existing project, with an author token.

use crate::error::AppError;
use crate::json::Json;
use crate::publish::{reason_among, refusal_keys, refusal_reason};
use crate::text::{append_chars, chars_of, decimal, decimal_text, text_of, trim_bounds, trimmed};
use vstd::prelude::*;

verus! {

/// What a platform answered, said simply.
#[derive(Debug, Clone)]
pub struct Outcome {
    pub platform: String,
    pub ok: bool,
    /// Identifier of what was just created, when the platform gives one.
    pub id: Option<String>,
    pub detail: String,
}

#[derive(Debug, Clone)]
pub struct PublishReport {
    pub outcomes: Vec<Outcome>,
}

/// Number of characters of an unexplained answer shown to the user.
pub const EXCERPT_CHARS: usize = 180;

/// The hint added to a 401 of Modrinth, which answers so as well for an
/// invalid token as for a token without the right asked for.
pub open spec fn write_scope_hint() -> Seq<char> {
    " · un jeton qui lit ne suffit pas à écrire : régénère-le en cochant PROJECT_CREATE, PROJECT_DELETE, VERSION_CREATE et VERSION_DELETE"@
}

/// Why a platform refused: the explanation of the answer, else its first
/// characters, else the status alone.
pub open spec fn refusal_text(platform: Seq<char>, status: u16, body: Seq<char>, parsed: Option<Json>) -> Seq<char> {
    let excerpt = body.take(if body.len() < EXCERPT_CHARS { body.len() as int } else { EXCERPT_CHARS as int });
    let reason = match parsed {
        Some(v) => match reason_among(v, refusal_keys()) {
            Some(t) => t,
            None => if trimmed(excerpt).len() == 0 {
                "HTTP "@ + decimal(status as nat)
            } else {
                excerpt
            },
        },
        None => if trimmed(excerpt).len() == 0 {
            "HTTP "@ + decimal(status as nat)
        } else {
            excerpt
        },
    };
    let reason = if status == 401 && platform == "modrinth"@ {
        reason + write_scope_hint()
    } else {
        reason
    };
    "refusé ("@ + decimal(status as nat) + ") : "@ + reason
}

pub open spec fn is_success(status: u16) -> bool {
    200 <= status < 300
}

impl Outcome {
    /// A refusal; `parsed` is the body decoded, when it is JSON.
    pub fn refused(platform: &str, status: u16, body: &str, parsed: &Option<Json>) -> (r: Self)
        ensures
            r.platform@ == platform@,
            !r.ok,
            r.id is None,
            r.detail@ == refusal_text(platform@, status, body@, *parsed),
    {
        proof {
            reveal_strlit("HTTP ");
            reveal_strlit("modrinth");
            reveal_strlit("refusé (");
            reveal_strlit(") : ");
        }
        let chars = chars_of(body);
        let n = if chars.len() < EXCERPT_CHARS {
            chars.len()
        } else {
            EXCERPT_CHARS
        };
        let excerpt = crate::text::slice_text(&chars, 0, n);
        assert(excerpt@ =~= body@.take(n as int));
        let mut reason: Vec<char> = match refusal_reason(parsed) {
            Some(t) => chars_of(t.as_str()),
            None => {
                let (a, b) = trim_bounds(&excerpt);
                if a == b {
                    let mut out: Vec<char> = Vec::new();
                    append_chars(&mut out, &chars_of("HTTP "));
                    append_chars(&mut out, &decimal_text(status as u64));
                    out
                } else {
                    excerpt
                }
            },
        };
        if status == 401 && crate::text::same_chars(&chars_of(platform), &chars_of("modrinth")) {
            append_chars(
                &mut reason,
                &chars_of(
                    " · un jeton qui lit ne suffit pas à écrire : régénère-le en cochant PROJECT_CREATE, PROJECT_DELETE, VERSION_CREATE et VERSION_DELETE",
                ),
            );
        }
        let mut detail: Vec<char> = Vec::new();
        append_chars(&mut detail, &chars_of("refusé ("));
        append_chars(&mut detail, &decimal_text(status as u64));
        append_chars(&mut detail, &chars_of(") : "));
        append_chars(&mut detail, &reason);
        Outcome { platform: platform.to_string(), ok: false, id: None, detail: text_of(&detail) }
    }
}

/// The answer of Modrinth to a deletion of `what`.
pub fn deletion_outcome(status: u16, body: &str, parsed: &Option<Json>, what: &str) -> (r: Outcome)
    ensures
        r.platform@ == "modrinth"@,
        r.ok == is_success(status),
        is_success(status) ==> r.id is None && r.detail@ == what@ + " supprimé"@,
        !is_success(status) ==> r.detail@ == refusal_text("modrinth"@, status, body@, *parsed),
{
    if 200 <= status && status < 300 {
        let mut detail: Vec<char> = Vec::new();
        append_chars(&mut detail, &chars_of(what));
        append_chars(&mut detail, &chars_of(" supprimé"));
        Outcome { platform: "modrinth".to_string(), ok: true, id: None, detail: text_of(&detail) }
    } else {
        Outcome::refused("modrinth", status, body, parsed)
    }
}

/// The parts joined by `sep`.
pub open spec fn joined(parts: Seq<Seq<char>>, sep: Seq<char>) -> Seq<char>
    decreases parts.len(),
{
    if parts.len() == 0 {
        seq![]
    } else if parts.len() == 1 {
        parts[0]
    } else {
        joined(parts.drop_last(), sep) + sep + parts.last()
    }
}

pub open spec fn views(v: Seq<String>) -> Seq<Seq<char>> {
    v.map_values(|s: String| s@)
}

pub fn join_texts(parts: &Vec<String>, sep: &str) -> (r: Vec<char>)
    ensures
        r@ == joined(views(parts@), sep@),
{
    let mut out: Vec<char> = Vec::new();
    let sep_chars = chars_of(sep);
    let mut k: usize = 0;
    assert(views(parts@).subrange(0, 0) =~= Seq::<Seq<char>>::empty());
    while k < parts.len()
        invariant
            k <= parts@.len(),
            sep_chars@ == sep@,
            out@ == joined(views(parts@).subrange(0, k as int), sep@),
        decreases parts@.len() - k,
    {
        proof {
            let p = views(parts@).subrange(0, k + 1);
            assert(p.drop_last() =~= views(parts@).subrange(0, k as int));
            assert(p.last() == parts@[k as int]@);
        }
        if k > 0 {
            append_chars(&mut out, &sep_chars);
        }
        append_chars(&mut out, &chars_of(parts[k].as_str()));
        proof {
            if k == 0 {
                assert(out@ =~= joined(views(parts@).subrange(0, 1), sep@));
            }
        }
        k = k + 1;
    }
    assert(views(parts@).subrange(0, parts@.len() as int) =~= views(parts@));
    out
}

/// The error of a publication on CurseForge for which none of the versions
/// asked for is in its catalogue.
pub fn no_version_recognised(wanted: &Vec<String>) -> (r: AppError)
    ensures
        r matches AppError::Config(m) && m@ == "aucune version reconnue par CurseForge parmi : "@
            + joined(views(wanted@), ", "@),
{
    let mut out: Vec<char> = Vec::new();
    append_chars(&mut out, &chars_of("aucune version reconnue par CurseForge parmi : "));
    append_chars(&mut out, &join_texts(wanted, ", "));
    AppError::Config(text_of(&out))
}

/// The error of a publication on CurseForge without an upload token.
pub fn no_upload_token() -> (r: AppError)
    ensures
        r matches AppError::Config(m) && m@
            == "aucun jeton d'envoi CurseForge : l'application doit d'abord le relever"@,
{
    AppError::Config("aucun jeton d'envoi CurseForge : l'application doit d'abord le relever".to_string())
}

/// The error of a file that no platform publishes.
pub fn unpublishable(name: &str) -> (r: AppError)
    ensures
        r matches AppError::Config(m) && m@ == name@
            + " n'est pas une archive publiable : seuls .jar, .zip, .mrpack et .litemod sont acceptés"@,
{
    let mut out: Vec<char> = Vec::new();
    append_chars(&mut out, &chars_of(name));
    append_chars(
        &mut out,
        &chars_of(
            " n'est pas une archive publiable : seuls .jar, .zip, .mrpack et .litemod sont acceptés",
        ),
    );
    AppError::Config(text_of(&out))
}

/// The note on the versions that CurseForge did not recognise.
pub open spec fn missing_note(missing: Seq<Seq<char>>) -> Seq<char> {
    if missing.len() == 0 {
        seq![]
    } else {
        " · non reconnues : "@ + joined(missing, ", "@)
    }
}

/// The answer of CurseForge to a file sent to project `project_id`; `id` is
/// the identifier of the file that its answer gives.
pub fn curseforge_outcome(
    project_id: i64,
    status: u16,
    body: &str,
    parsed: &Option<Json>,
    id: Option<i64>,
    missing: &Vec<String>,
) -> (r: Outcome)
    ensures
        r.platform@ == "curseforge"@,
        r.ok == is_success(status),
        is_success(status) ==> (match id {
            Some(n) => r.id matches Some(x) && x@ == crate::text::signed_decimal(n as int),
            None => r.id is None,
        }) && r.detail@ == "fichier déposé sur le projet "@ + crate::text::signed_decimal(
            project_id as int,
        ) + missing_note(views(missing@)),
        !is_success(status) ==> r.detail@ == refusal_text("curseforge"@, status, body@, *parsed),
{
    if !(200 <= status && status < 300) {
        return Outcome::refused("curseforge", status, body, parsed);
    }
    let mut detail: Vec<char> = Vec::new();
    append_chars(&mut detail, &chars_of("fichier déposé sur le projet "));
    append_chars(&mut detail, &crate::text::signed_text(project_id));
    if missing.len() > 0 {
        append_chars(&mut detail, &chars_of(" · non reconnues : "));
        append_chars(&mut detail, &join_texts(missing, ", "));
    }
    let id_text = match id {
        Some(n) => Some(text_of(&crate::text::signed_text(n))),
        None => None,
    };
    Outcome { platform: "curseforge".to_string(), ok: true, id: id_text, detail: text_of(&detail) }
}

/// The answer of Modrinth to a version sent to project `project_id`; `id` is
/// the identifier of the version that its answer gives.
pub fn modrinth_outcome(project_id: &str, status: u16, body: &str, parsed: &Option<Json>, id: Option<String>) -> (r: Outcome)
    ensures
        r.platform@ == "modrinth"@,
        r.ok == is_success(status),
        is_success(status) ==> r.id == id && r.detail@ == "version déposée sur "@ + project_id@,
        !is_success(status) ==> r.detail@ == refusal_text("modrinth"@, status, body@, *parsed),
{
    if !(200 <= status && status < 300) {
        return Outcome::refused("modrinth", status, body, parsed);
    }
    let mut detail: Vec<char> = Vec::new();
    append_chars(&mut detail, &chars_of("version déposée sur "));
    append_chars(&mut detail, &chars_of(project_id));
    Outcome { platform: "modrinth".to_string(), ok: true, id, detail: text_of(&detail) }
}

/// A request that failed before any answer, reported for its platform.
pub fn failed_outcome(platform: &str, error: &AppError) -> (r: Outcome)
    ensures
        r.platform@ == platform@,
        !r.ok,
        r.id is None,
        r.detail@ == crate::error::message_of(*error),
{
    Outcome { platform: platform.to_string(), ok: false, id: None, detail: error.message() }
}

} // verus!
