//! CurseForge as CFWidget serves it: authors, projects and their owner.

use crate::error::AppError;
use crate::text::{
    append_chars, ascii_lower, chars_of, same_chars, text_of, to_ascii_lower,
};
use vstd::prelude::*;

verus! {

#[derive(Debug, Clone)]
pub struct CfAuthorProject {
    pub id: i64,
    pub name: String,
}

#[derive(Debug, Clone)]
pub struct CfAuthor {
    pub id: i64,
    pub username: String,
    pub projects: Vec<CfAuthorProject>,
}

#[derive(Debug, Clone)]
pub struct CfProject {
    pub id: i64,
    pub title: String,
    pub slug: Option<String>,
    pub project_type: Option<String>,
    pub url: Option<String>,
    pub thumbnail: Option<String>,
    pub created_at: Option<String>,
    pub downloads_total: i64,
    pub downloads_monthly: i64,
}

/// CFWidget answers 202 when a refresh of the project was queued.
#[derive(Debug, Clone)]
pub enum CfFetch {
    Ready(Box<CfProject>),
    Queued,
}

/// The status by which CFWidget says that the project is being refreshed.
pub const QUEUED_STATUS: u16 = 202;

/// The status by which CFWidget says that no author has that name.
pub const UNKNOWN_AUTHOR_STATUS: u16 = 404;

/// What remains once every trailing `/` is taken off.
pub open spec fn without_trailing_slashes(s: Seq<char>) -> Seq<char>
    decreases s.len(),
{
    if s.len() > 0 && s.last() == '/' {
        without_trailing_slashes(s.drop_last())
    } else {
        s
    }
}

/// What follows the last `/`, or the whole text without one.
pub open spec fn last_segment(s: Seq<char>) -> Seq<char>
    decreases s.len(),
{
    if s.len() == 0 {
        s
    } else if s.last() == '/' {
        seq![]
    } else {
        last_segment(s.drop_last()).push(s.last())
    }
}

/// The slug that ends the address of a project page, trailing slashes
/// ignored; nothing when the address ends on nothing or on a scheme.
pub open spec fn slug_of(url: Seq<char>) -> Option<Seq<char>> {
    let last = last_segment(without_trailing_slashes(url));
    if last.len() == 0 || (last.len() >= 4 && last.take(4) == "http"@) {
        None
    } else {
        Some(last)
    }
}

pub fn slug_from_url(url: &str) -> (r: Option<String>)
    ensures
        match slug_of(url@) {
            Some(s) => r matches Some(x) && x@ == s,
            None => r is None,
        },
{
    let chars = chars_of(url);
    let mut end: usize = chars.len();
    assert(chars@.subrange(0, chars@.len() as int) =~= chars@);
    while end > 0 && chars[end - 1] == '/'
        invariant
            end <= chars@.len(),
            without_trailing_slashes(chars@) == without_trailing_slashes(chars@.subrange(0, end as int)),
        decreases end,
    {
        proof {
            assert(chars@.subrange(0, end as int).drop_last() =~= chars@.subrange(0, end - 1));
        }
        end = end - 1;
    }
    let ghost t = chars@.subrange(0, end as int);
    assert(without_trailing_slashes(chars@) == t);
    let mut start: usize = end;
    while start > 0 && chars[start - 1] != '/'
        invariant
            start <= end <= chars@.len(),
            t == chars@.subrange(0, end as int),
            last_segment(t) == last_segment(chars@.subrange(0, start as int)) + chars@.subrange(
                start as int,
                end as int,
            ),
        decreases start,
    {
        proof {
            let p = chars@.subrange(0, start as int);
            assert(p.drop_last() =~= chars@.subrange(0, start - 1));
            assert(chars@.subrange(start - 1, end as int) =~= seq![p.last()] + chars@.subrange(
                start as int,
                end as int,
            ));
            assert(last_segment(chars@.subrange(0, start - 1)).push(p.last()) + chars@.subrange(
                start as int,
                end as int,
            ) =~= last_segment(chars@.subrange(0, start - 1)) + chars@.subrange(
                start - 1,
                end as int,
            ));
        }
        start = start - 1;
    }
    proof {
        assert(last_segment(chars@.subrange(0, start as int)) =~= Seq::<char>::empty());
        assert(last_segment(t) =~= chars@.subrange(start as int, end as int));
    }
    let last = crate::text::slice_text(&chars, start, end);
    let http = chars_of("http");
    proof {
        reveal_strlit("http");
    }
    if last.len() == 0 {
        return None;
    }
    if last.len() >= 4 && same_chars(&crate::text::slice_text(&last, 0, 4), &http) {
        assert(last@.subrange(0, 4) =~= last@.take(4));
        return None;
    }
    proof {
        if last@.len() >= 4 {
            assert(last@.subrange(0, 4) =~= last@.take(4));
        }
    }
    Some(text_of(&last))
}

/// A member of a project team, as CFWidget lists it.
#[derive(Debug, Clone)]
pub struct CfMember {
    pub title: String,
    pub username: String,
}

/// The two texts are equal once ASCII letters are put in lower case.
pub open spec fn same_ignoring_ascii_case(a: Seq<char>, b: Seq<char>) -> bool {
    &&& a.len() == b.len()
    &&& forall|i: int| 0 <= i < a.len() ==> ascii_lower(#[trigger] a[i]) == ascii_lower(b[i])
}

pub open spec fn is_owner(m: CfMember) -> bool {
    same_ignoring_ascii_case(m.title@, "owner"@)
}

/// The first member titled owner, in any case.
pub open spec fn first_owner(members: Seq<CfMember>) -> Option<CfMember>
    decreases members.len(),
{
    if members.len() == 0 {
        None
    } else if is_owner(members[0]) {
        Some(members[0])
    } else {
        first_owner(members.drop_first())
    }
}

/// The name of the owner of a project: the member titled `Owner` first,
/// otherwise the first member.
pub open spec fn owner_name(members: Seq<CfMember>) -> Option<Seq<char>> {
    match first_owner(members) {
        Some(m) => Some(m.username@),
        None => if members.len() > 0 {
            Some(members[0].username@)
        } else {
            None
        },
    }
}

fn same_ascii_case_insensitive(a: &[char], b: &[char]) -> (r: bool)
    ensures
        r == same_ignoring_ascii_case(a@, b@),
{
    if a.len() != b.len() {
        return false;
    }
    let mut k: usize = 0;
    while k < a.len()
        invariant
            a@.len() == b@.len(),
            k <= a@.len(),
            forall|i: int| 0 <= i < k ==> ascii_lower(#[trigger] a@[i]) == ascii_lower(b@[i]),
        decreases a@.len() - k,
    {
        if to_ascii_lower(a[k]) != to_ascii_lower(b[k]) {
            return false;
        }
        k = k + 1;
    }
    true
}

pub fn parse_owner(members: &Vec<CfMember>) -> (r: Option<String>)
    ensures
        match owner_name(members@) {
            Some(n) => r matches Some(x) && x@ == n,
            None => r is None,
        },
{
    let owner = chars_of("owner");
    proof {
        reveal_strlit("owner");
    }
    let mut k: usize = 0;
    assert(members@.skip(0) =~= members@);
    while k < members.len()
        invariant
            k <= members@.len(),
            owner@ == "owner"@,
            first_owner(members@) == first_owner(members@.skip(k as int)),
        decreases members@.len() - k,
    {
        proof {
            assert(members@.skip(k as int).drop_first() =~= members@.skip(k + 1));
            assert(members@.skip(k as int)[0] == members@[k as int]);
        }
        if same_ascii_case_insensitive(&chars_of(members[k].title.as_str()), &owner) {
            return Some(members[k].username.clone());
        }
        k = k + 1;
    }
    assert(members@.skip(k as int).len() == 0);
    if members.len() > 0 {
        Some(members[0].username.clone())
    } else {
        None
    }
}

/// The addresses of a project as CFWidget gives them, absent ones empty.
#[derive(Debug, Clone)]
pub struct CfUrls {
    pub curseforge: String,
    pub project: String,
}

/// The download counts of a project, absent ones at zero.
#[derive(Debug, Clone, Copy)]
pub struct CfDownloads {
    pub total: i64,
    pub monthly: i64,
}

/// A project as CFWidget describes it, before it is read.
#[derive(Debug, Clone)]
pub struct CfRawProject {
    pub id: i64,
    pub title: String,
    pub project_type: Option<String>,
    pub urls: Option<CfUrls>,
    pub downloads: Option<CfDownloads>,
    pub thumbnail: Option<String>,
    pub created_at: Option<String>,
}

/// The address of a project: the CurseForge page, else the project address,
/// and none when both are empty.
pub open spec fn project_address(urls: Option<CfUrls>) -> Option<Seq<char>> {
    match urls {
        Some(u) => {
            let chosen = if u.curseforge@.len() == 0 {
                u.project@
            } else {
                u.curseforge@
            };
            if chosen.len() == 0 {
                None
            } else {
                Some(chosen)
            }
        },
        None => None,
    }
}

pub open spec fn opt_view(o: Option<String>) -> Option<Seq<char>> {
    match o {
        Some(s) => Some(s@),
        None => None,
    }
}

/// A project as the dashboard keeps it: its address, the slug that ends the
/// address, and its downloads (none counted when CFWidget gives none).
pub fn parse_project(raw: CfRawProject) -> (r: CfProject)
    ensures
        r.id == raw.id,
        r.title == raw.title,
        r.project_type == raw.project_type,
        opt_view(r.url) == project_address(raw.urls),
        opt_view(r.slug) == match project_address(raw.urls) {
            Some(a) => slug_of(a),
            None => None,
        },
        r.thumbnail == raw.thumbnail,
        r.created_at == raw.created_at,
        r.downloads_total == match raw.downloads {
            Some(d) => d.total,
            None => 0,
        },
        r.downloads_monthly == match raw.downloads {
            Some(d) => d.monthly,
            None => 0,
        },
{
    let url: Option<String> = match &raw.urls {
        Some(u) => {
            let chosen = if u.curseforge.as_str().is_empty() {
                u.project.clone()
            } else {
                u.curseforge.clone()
            };
            if chosen.as_str().is_empty() {
                None
            } else {
                Some(chosen)
            }
        },
        None => None,
    };
    let slug = match &url {
        Some(u) => slug_from_url(u.as_str()),
        None => None,
    };
    let downloads = match raw.downloads {
        Some(d) => d,
        None => CfDownloads { total: 0, monthly: 0 },
    };
    CfProject {
        id: raw.id,
        title: raw.title,
        slug,
        project_type: raw.project_type,
        url,
        thumbnail: raw.thumbnail,
        created_at: raw.created_at,
        downloads_total: downloads.total,
        downloads_monthly: downloads.monthly,
    }
}

/// The answer of CFWidget for a project: queued, or the project it describes.
pub fn fetch_outcome(status: u16, raw: Option<CfRawProject>) -> (r: Option<CfFetch>)
    ensures
        status == QUEUED_STATUS ==> r matches Some(CfFetch::Queued),
        status != QUEUED_STATUS ==> match raw {
            Some(p) => (r matches Some(CfFetch::Ready(b)) && b.id == p.id && b.title == p.title),
            None => r is None,
        },
{
    if status == QUEUED_STATUS {
        Some(CfFetch::Queued)
    } else {
        match raw {
            Some(p) => Some(CfFetch::Ready(Box::new(parse_project(p)))),
            None => None,
        }
    }
}

pub open spec fn unknown_author_message(username: Seq<char>) -> Seq<char> {
    "pseudo CurseForge introuvable : "@ + username
}

/// The error of an author search that CFWidget answered with 404.
pub fn author_outcome(status: u16, username: &str) -> (r: Option<AppError>)
    ensures
        status == UNKNOWN_AUTHOR_STATUS ==> (r matches Some(AppError::Config(m)) && m@
            == unknown_author_message(username@)),
        status != UNKNOWN_AUTHOR_STATUS ==> r is None,
{
    if status == UNKNOWN_AUTHOR_STATUS {
        let mut out: Vec<char> = Vec::new();
        append_chars(&mut out, &chars_of("pseudo CurseForge introuvable : "));
        append_chars(&mut out, &chars_of(username));
        Some(AppError::Config(text_of(&out)))
    } else {
        None
    }
}

} // verus!
