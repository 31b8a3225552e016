//! The synchronisation cycle: where the analytics window starts, which
//! CurseForge names are tried, and the milestones announced along the way.

use crate::dates::{max_shift, shifted, shift_day};
use crate::config::{require_token, Session, Settings};
use crate::error::{message_of, AppError};
use crate::matching::Candidate;
use crate::models::Platform;
use crate::providers::curseforge::CfProject;
use crate::providers::modrinth::ModrinthProject;
use crate::publish_api::{joined, views};
use crate::store::{DailyRow, ProjectRow, ProjectUpsert};
use crate::dates::utc_day_text;
use crate::text::{append_chars, chars_of, decimal, decimal_text, same_chars, text_of};
use vstd::prelude::*;

verus! {

/// Largest window fetched on the very first refresh.
pub const INITIAL_WINDOW_DAYS: i64 = 365;

#[derive(Debug, Clone)]
pub struct SyncReport {
    pub provider: String,
    pub status: String,
    pub detail: String,
}

/// Milestone of a step of the cycle, set when it opens and when it closes.
#[derive(Debug, Clone)]
pub struct SyncStep {
    pub provider: String,
    /// Report of the step, absent while it runs.
    pub report: Option<SyncReport>,
}

impl SyncStep {
    pub fn opening(provider: &str) -> (r: Self)
        ensures
            r.provider@ == provider@,
            r.report is None,
    {
        SyncStep { provider: provider.to_string(), report: None }
    }

    pub fn closing(report: &SyncReport) -> (r: Self)
        ensures
            r.provider@ == report.provider@,
            r.report matches Some(x) && x.provider@ == report.provider@ && x.status@
                == report.status@ && x.detail@ == report.detail@,
    {
        let copy = SyncReport {
            provider: report.provider.clone(),
            status: report.status.clone(),
            detail: report.detail.clone(),
        };
        SyncStep { provider: report.provider.clone(), report: Some(copy) }
    }
}

/// The first day of analytics to fetch: the last day known, or, on the
/// first run, the day `fallback_days` before today.
pub open spec fn window_start_of(last_known_day: Option<Seq<char>>, today: Seq<char>, fallback_days: i64) -> Seq<char> {
    match last_known_day {
        Some(day) => day,
        None => shifted(today, (-fallback_days) as i64),
    }
}

pub fn window_start(last_known_day: Option<&str>, today: &str, fallback_days: i64) -> (r: String)
    requires
        -max_shift() <= fallback_days <= max_shift(),
    ensures
        r@ == window_start_of(
            match last_known_day {
                Some(d) => Some(d@),
                None => None,
            },
            today@,
            fallback_days,
        ),
{
    match last_known_day {
        Some(day) => day.to_string(),
        None => shift_day(today, -fallback_days),
    }
}

/// The CurseForge names tried for an author known on Modrinth: the same
/// name, then the name followed by `_official`.
pub fn username_candidates(modrinth_username: &str) -> (r: Vec<String>)
    ensures
        r.deep_view() == seq![modrinth_username@, modrinth_username@ + "_official"@],
{
    let mut official = chars_of(modrinth_username);
    append_chars(&mut official, &chars_of("_official"));
    let mut out: Vec<String> = Vec::new();
    out.push(modrinth_username.to_string());
    out.push(text_of(&official));
    assert(out.deep_view() =~= seq![modrinth_username@, modrinth_username@ + "_official"@]);
    out
}

/// One attempt at finding the CurseForge author.
#[derive(Debug, Clone)]
pub enum AuthorAttempt {
    /// The name set by hand: its answer, found or not, is final.
    Named(String),
    /// The owner of the CurseForge mod that has this Modrinth slug.
    OwnerOf(String),
    /// A name derived from the Modrinth one; a miss moves on.
    Guess(String),
}

pub open spec fn attempt_view(a: AuthorAttempt) -> (int, Seq<char>) {
    match a {
        AuthorAttempt::Named(n) => (0, n@),
        AuthorAttempt::OwnerOf(s) => (1, s@),
        AuthorAttempt::Guess(n) => (2, n@),
    }
}

/// The guesses worth making: the derived names that are not empty.
pub open spec fn guesses(names: Seq<Seq<char>>) -> Seq<(int, Seq<char>)>
    decreases names.len(),
{
    if names.len() == 0 {
        Seq::empty()
    } else if names.last().len() == 0 {
        guesses(names.drop_last())
    } else {
        guesses(names.drop_last()).push((2, names.last()))
    }
}

/// The order in which the CurseForge author is looked for, without asking:
/// the name set by hand alone when there is one; else the owners of the mods
/// known by their Modrinth slug, then the names derived from the Modrinth
/// one.
pub open spec fn author_plan_of(manual: Option<Seq<char>>, slugs: Seq<Seq<char>>, username: Seq<char>) -> Seq<(int, Seq<char>)> {
    match manual {
        Some(n) => seq![(0, n)],
        None => slugs.map_values(|s: Seq<char>| (1, s)) + guesses(seq![username, username + "_official"@]),
    }
}

pub fn author_plan(manual: Option<&str>, slugs: &Vec<String>, username: &str) -> (r: Vec<AuthorAttempt>)
    ensures
        r@.map_values(|a: AuthorAttempt| attempt_view(a)) == author_plan_of(
            match manual {
                Some(n) => Some(n@),
                None => None,
            },
            slugs.deep_view(),
            username@,
        ),
{
    let mut out: Vec<AuthorAttempt> = Vec::new();
    if let Some(name) = manual {
        out.push(AuthorAttempt::Named(name.to_string()));
        assert(out@.map_values(|a: AuthorAttempt| attempt_view(a)) =~= seq![(0int, name@)]);
        return out;
    }
    let ghost all = slugs.deep_view();
    let mut k: usize = 0;
    while k < slugs.len()
        invariant
            k <= slugs@.len(),
            all == slugs.deep_view(),
            out@.map_values(|a: AuthorAttempt| attempt_view(a)) == all.take(k as int).map_values(|s: Seq<char>| (1int, s)),
        decreases slugs@.len() - k,
    {
        let ghost before = out@;
        out.push(AuthorAttempt::OwnerOf(slugs[k].clone()));
        proof {
            assert(all.take(k + 1) =~= all.take(k as int).push(all[k as int]));
            assert(all[k as int] == slugs@[k as int]@);
            assert(out@.map_values(|a: AuthorAttempt| attempt_view(a)) =~= before.map_values(|a: AuthorAttempt| attempt_view(a)).push((1int, all[k as int])));
            assert(all.take(k + 1).map_values(|s: Seq<char>| (1int, s)) =~= all.take(k as int).map_values(|s: Seq<char>| (1int, s)).push((1int, all[k as int])));
        }
        k = k + 1;
    }
    assert(all.take(k as int) =~= all);
    let names = username_candidates(username);
    let ghost owners = out@.map_values(|a: AuthorAttempt| attempt_view(a));
    let ghost wanted = names.deep_view();
    let mut j: usize = 0;
    assert(wanted.take(0) =~= Seq::<Seq<char>>::empty());
    assert(owners + guesses(Seq::<Seq<char>>::empty()) =~= owners);
    while j < names.len()
        invariant
            j <= names@.len(),
            wanted == names.deep_view(),
            out@.map_values(|a: AuthorAttempt| attempt_view(a)) == owners + guesses(wanted.take(j as int)),
        decreases names@.len() - j,
    {
        let ghost before = out@;
        proof {
            assert(wanted.take(j + 1).drop_last() =~= wanted.take(j as int));
            assert(wanted.take(j + 1).last() == names@[j as int]@);
        }
        if !names[j].as_str().is_empty() {
            out.push(AuthorAttempt::Guess(names[j].clone()));
            proof {
                assert(out@.map_values(|a: AuthorAttempt| attempt_view(a)) =~= before.map_values(|a: AuthorAttempt| attempt_view(a)).push((2int, names@[j as int]@)));
            }
        }
        j = j + 1;
    }
    assert(wanted.take(j as int) =~= wanted);
    out
}

/// What the synchronisation needs: the session and the settings.
#[derive(Debug, Clone)]
pub struct SyncContext {
    pub session: Session,
    pub settings: Settings,
}

/// The context of a cycle, or the error that says the session is missing.
pub fn context(session: Option<Session>, settings: Settings) -> (r: Result<SyncContext, AppError>)
    ensures
        match session {
            Some(s) => r matches Ok(c) && c.session == s && c.settings == settings,
            None => r matches Err(AppError::Config(m)) && m@ == crate::config::missing_session_message(),
        },
{
    match require_token(session) {
        Ok(s) => Ok(SyncContext { session: s, settings }),
        Err(e) => Err(e),
    }
}

pub open spec fn report_of(provider: Seq<char>, outcome: Result<String, AppError>, r: SyncReport) -> bool {
    &&& r.provider@ == provider
    &&& match outcome {
        Ok(d) => r.status@ == "ok"@ && r.detail@ == d@,
        Err(e) => r.status@ == "failed"@ && r.detail@ == message_of(e),
    }
}

/// The report of a step of the cycle: its detail when it worked, the error
/// when it failed. No failure stops the other steps.
pub fn run_report(provider: &str, outcome: Result<String, AppError>) -> (r: SyncReport)
    ensures
        report_of(provider@, outcome, r),
{
    match outcome {
        Ok(detail) => SyncReport { provider: provider.to_string(), status: "ok".to_string(), detail },
        Err(e) => SyncReport {
            provider: provider.to_string(),
            status: "failed".to_string(),
            detail: e.message(),
        },
    }
}

/// The report of the pairing, and whether it goes into the account of the
/// cycle: only when it failed, since a pairing that worked tells nothing more
/// than the links it wrote.
pub fn matching_report(matched: Result<usize, AppError>) -> (r: (SyncReport, bool))
    ensures
        r.0.provider@ == "matching"@,
        match matched {
            Ok(n) => r.0.status@ == "ok"@ && r.0.detail@ == decimal(n as nat) + " liens automatiques"@
                && !r.1,
            Err(e) => r.0.status@ == "failed"@ && r.0.detail@ == message_of(e) && r.1,
        },
{
    match matched {
        Ok(n) => {
            let mut detail: Vec<char> = Vec::new();
            append_chars(&mut detail, &decimal_text(n as u64));
            append_chars(&mut detail, &chars_of(" liens automatiques"));
            (
                SyncReport {
                    provider: "matching".to_string(),
                    status: "ok".to_string(),
                    detail: text_of(&detail),
                },
                false,
            )
        },
        Err(e) => (
            SyncReport {
                provider: "matching".to_string(),
                status: "failed".to_string(),
                detail: e.message(),
            },
            true,
        ),
    }
}

pub open spec fn modrinth_page(slug: Seq<char>) -> Seq<char> {
    "https://modrinth.com/mod/"@ + slug
}

/// A Modrinth project as the base keeps it: its page, and the followers that
/// Modrinth counts.
pub fn modrinth_upsert(project: &ModrinthProject) -> (r: ProjectUpsert)
    ensures
        r.platform == Platform::Modrinth,
        r.ext_id == project.id,
        r.slug == Some(project.slug),
        r.title == project.title,
        r.project_type == project.project_type,
        r.url matches Some(u) && u@ == modrinth_page(project.slug@),
        r.icon_url == project.icon_url,
        r.created_at == project.published,
        r.total_downloads == project.downloads,
        r.followers == Some(project.followers),
{
    let mut url: Vec<char> = Vec::new();
    append_chars(&mut url, &chars_of("https://modrinth.com/mod/"));
    append_chars(&mut url, &chars_of(project.slug.as_str()));
    ProjectUpsert {
        platform: Platform::Modrinth,
        ext_id: project.id.clone(),
        slug: Some(project.slug.clone()),
        title: project.title.clone(),
        project_type: project.project_type.clone(),
        url: Some(text_of(&url)),
        icon_url: project.icon_url.clone(),
        created_at: project.published.clone(),
        total_downloads: project.downloads,
        followers: Some(project.followers),
    }
}

/// A CurseForge project as the base keeps it. CurseForge counts no
/// followers per project: the count already known is kept.
pub fn curseforge_upsert(ext_id: &str, project: &CfProject) -> (r: ProjectUpsert)
    ensures
        r.platform == Platform::CurseForge,
        r.ext_id@ == ext_id@,
        r.slug == project.slug,
        r.title == project.title,
        r.project_type == project.project_type,
        r.url == project.url,
        r.icon_url == project.thumbnail,
        r.created_at == project.created_at,
        r.total_downloads == project.downloads_total,
        r.followers is None,
{
    ProjectUpsert {
        platform: Platform::CurseForge,
        ext_id: ext_id.to_string(),
        slug: project.slug.clone(),
        title: project.title.clone(),
        project_type: project.project_type.clone(),
        url: project.url.clone(),
        icon_url: project.thumbnail.clone(),
        created_at: project.created_at.clone(),
        total_downloads: project.downloads_total,
        followers: None,
    }
}

pub open spec fn candidate_of(p: ProjectRow) -> (i64, Option<String>, String) {
    (p.id, p.slug, p.title)
}

/// The projects of a platform that are still published, in order.
pub open spec fn live_on(rows: Seq<ProjectRow>, platform: Platform) -> Seq<ProjectRow>
    decreases rows.len(),
{
    if rows.len() == 0 {
        seq![]
    } else if rows.last().platform == platform && rows.last().archived_at is None {
        live_on(rows.drop_last(), platform).push(rows.last())
    } else {
        live_on(rows.drop_last(), platform)
    }
}

pub open spec fn candidate_view(c: Candidate) -> (i64, Option<String>, String) {
    (c.id, c.slug, c.title)
}

/// The candidates of a platform for the automatic pairing: its projects that
/// are not archived.
pub fn candidates_of(rows: &Vec<ProjectRow>, platform: Platform) -> (r: Vec<Candidate>)
    ensures
        r@.map_values(|c: Candidate| candidate_view(c)) == live_on(rows@, platform).map_values(
            |p: ProjectRow| candidate_of(p),
        ),
{
    let mut out: Vec<Candidate> = Vec::new();
    let mut k: usize = 0;
    assert(rows@.subrange(0, 0) =~= Seq::<ProjectRow>::empty());
    while k < rows.len()
        invariant
            k <= rows@.len(),
            out@.map_values(|c: Candidate| candidate_view(c)) == live_on(
                rows@.subrange(0, k as int),
                platform,
            ).map_values(|p: ProjectRow| candidate_of(p)),
        decreases rows@.len() - k,
    {
        proof {
            let p = rows@.subrange(0, k + 1);
            assert(p.drop_last() =~= rows@.subrange(0, k as int));
            assert(p.last() == rows@[k as int]);
        }
        let row = &rows[k];
        let same = match (row.platform, platform) {
            (Platform::Modrinth, Platform::Modrinth) => true,
            (Platform::CurseForge, Platform::CurseForge) => true,
            _ => false,
        };
        if same && row.archived_at.is_none() {
            let ghost before = out@;
            let c = Candidate { id: row.id, slug: row.slug.clone(), title: row.title.clone() };
            let ghost cv = candidate_view(c);
            out.push(c);
            proof {
                let prev = live_on(rows@.subrange(0, k as int), platform);
                assert(live_on(rows@.subrange(0, k + 1), platform) == prev.push(rows@[k as int]));
                assert(prev.push(rows@[k as int]).map_values(|p: ProjectRow| candidate_of(p))
                    =~= prev.map_values(|p: ProjectRow| candidate_of(p)).push(cv));
                assert(out@.map_values(|c: Candidate| candidate_view(c)) =~= before.map_values(
                    |c: Candidate| candidate_view(c),
                ).push(cv));
            }
        }
        k = k + 1;
    }
    assert(rows@.subrange(0, rows@.len() as int) =~= rows@);
    out
}

/// The detail of the discovery of the Modrinth projects; `available` is the
/// payout that can be withdrawn, when the balance was read.
pub fn modrinth_discovery_detail(projects: usize, available: Option<&str>) -> (r: String)
    ensures
        r@ == decimal(projects as nat) + " projets"@ + match available {
            Some(a) => ", "@ + a@ + " $ retirables"@,
            None => Seq::<char>::empty(),
        },
{
    let mut out: Vec<char> = Vec::new();
    append_chars(&mut out, &decimal_text(projects as u64));
    append_chars(&mut out, &chars_of(" projets"));
    if let Some(a) = available {
        append_chars(&mut out, &chars_of(", "));
        append_chars(&mut out, &chars_of(a));
        append_chars(&mut out, &chars_of(" $ retirables"));
    }
    text_of(&out)
}

/// The detail of a step that read projects, some of them queued by CFWidget.
pub fn queued_detail(done: usize, done_word: &str, queued: usize) -> (r: String)
    ensures
        r@ == decimal(done as nat) + " "@ + done_word@ + ", "@ + decimal(queued as nat)
            + " en file d'attente"@,
{
    let mut out: Vec<char> = Vec::new();
    append_chars(&mut out, &decimal_text(done as u64));
    append_chars(&mut out, &chars_of(" "));
    append_chars(&mut out, &chars_of(done_word));
    append_chars(&mut out, &chars_of(", "));
    append_chars(&mut out, &decimal_text(queued as u64));
    append_chars(&mut out, &chars_of(" en file d'attente"));
    text_of(&out)
}

/// The detail of the refresh of the Modrinth analytics.
pub fn refresh_detail(projects: usize, notifications: usize) -> (r: String)
    ensures
        r@ == decimal(projects as nat) + " projets, "@ + decimal(notifications as nat)
            + " notifications"@,
{
    let mut out: Vec<char> = Vec::new();
    append_chars(&mut out, &decimal_text(projects as u64));
    append_chars(&mut out, &chars_of(" projets, "));
    append_chars(&mut out, &decimal_text(notifications as u64));
    append_chars(&mut out, &chars_of(" notifications"));
    text_of(&out)
}

/// The error when no CurseForge author was found, neither through the
/// Modrinth slugs nor among the names tried.
pub fn author_not_found(slugs: usize, tried: &Vec<String>) -> (r: AppError)
    ensures
        r matches AppError::Config(m) && m@ == "auteur CurseForge introuvable : ni via les "@
            + decimal(slugs as nat) + " slugs Modrinth, ni parmi "@ + joined(views(tried@), ", "@),
{
    let mut out: Vec<char> = Vec::new();
    append_chars(&mut out, &chars_of("auteur CurseForge introuvable : ni via les "));
    append_chars(&mut out, &decimal_text(slugs as u64));
    append_chars(&mut out, &chars_of(" slugs Modrinth, ni parmi "));
    append_chars(&mut out, &crate::publish_api::join_texts(tried, ", "));
    AppError::Config(text_of(&out))
}

// The rows that a refresh of the Modrinth analytics writes.

/// A count series of one project as the analytics give it: the project's
/// Modrinth identifier, then each point as (Unix time, value).
#[derive(Debug, Clone)]
pub struct CountSeries {
    pub ext_id: String,
    pub points: Vec<(i64, i64)>,
}

/// The revenue series of one project, amounts as text.
#[derive(Debug, Clone)]
pub struct RevenueSeries {
    pub ext_id: String,
    pub points: Vec<(i64, String)>,
}

/// The downloads of one project by country.
#[derive(Debug, Clone)]
pub struct CountrySeries {
    pub ext_id: String,
    pub countries: Vec<(String, i64)>,
}

/// A line of downloads by country, for one project and one day.
#[derive(Debug, Clone)]
pub struct CountryRow {
    pub project_id: i64,
    pub day: String,
    pub country: String,
    pub downloads: i64,
}

/// The project of the base that a Modrinth identifier names: the last row
/// listed with it, as a map built from the rows keeps it.
pub open spec fn project_of_ext(rows: Seq<ProjectRow>, ext: Seq<char>) -> Option<i64>
    decreases rows.len(),
{
    if rows.len() == 0 {
        None
    } else if rows.last().ext_id@ == ext {
        Some(rows.last().id)
    } else {
        project_of_ext(rows.drop_last(), ext)
    }
}

/// The UTC day of a Unix time.
pub open spec fn day_of_ts(ts: i64) -> Seq<char> {
    match utc_day_text(ts) {
        Some(t) => t,
        None => Seq::empty(),
    }
}

pub open spec fn daily_view(r: DailyRow) -> (i64, Seq<char>, Option<i64>, Option<i64>, Option<Seq<char>>) {
    (r.project_id, r.day@, r.downloads, r.views, match r.revenue {
        Some(t) => Some(t@),
        None => None,
    })
}

pub open spec fn dailies_view(rows: Seq<DailyRow>) -> Seq<(i64, Seq<char>, Option<i64>, Option<i64>, Option<Seq<char>>)> {
    rows.map_values(|r: DailyRow| daily_view(r))
}

/// The row that one point of a count series writes: downloads, or views.
pub open spec fn count_row(pid: i64, p: (i64, i64), views: bool) -> (i64, Seq<char>, Option<i64>, Option<i64>, Option<Seq<char>>) {
    (pid, day_of_ts(p.0), if views { None } else { Some(p.1) }, if views { Some(p.1) } else { None }, None)
}

/// The rows of count series, series after series, point after point; the
/// series of a project that the base does not know write nothing.
pub open spec fn count_rows(projects: Seq<ProjectRow>, series: Seq<CountSeries>, views: bool) -> Seq<(i64, Seq<char>, Option<i64>, Option<i64>, Option<Seq<char>>)>
    decreases series.len(),
{
    if series.len() == 0 {
        Seq::empty()
    } else {
        count_rows(projects, series.drop_last(), views) + match project_of_ext(projects, series.last().ext_id@) {
            Some(pid) => series.last().points@.map_values(|p: (i64, i64)| count_row(pid, p, views)),
            None => Seq::empty(),
        }
    }
}

pub open spec fn revenue_row(pid: i64, p: (i64, String)) -> (i64, Seq<char>, Option<i64>, Option<i64>, Option<Seq<char>>) {
    (pid, day_of_ts(p.0), None, None, Some(p.1@))
}

pub open spec fn revenue_rows(projects: Seq<ProjectRow>, series: Seq<RevenueSeries>) -> Seq<(i64, Seq<char>, Option<i64>, Option<i64>, Option<Seq<char>>)>
    decreases series.len(),
{
    if series.len() == 0 {
        Seq::empty()
    } else {
        revenue_rows(projects, series.drop_last()) + match project_of_ext(projects, series.last().ext_id@) {
            Some(pid) => series.last().points@.map_values(|p: (i64, String)| revenue_row(pid, p)),
            None => Seq::empty(),
        }
    }
}

/// The identifier of the project that a Modrinth identifier names.
pub fn project_id_of(projects: &Vec<ProjectRow>, ext: &str) -> (r: Option<i64>)
    ensures
        r == project_of_ext(projects@, ext@),
{
    let wanted = chars_of(ext);
    let mut found: Option<i64> = None;
    let mut k: usize = 0;
    assert(projects@.subrange(0, 0) =~= Seq::<ProjectRow>::empty());
    while k < projects.len()
        invariant
            k <= projects@.len(),
            wanted@ == ext@,
            found == project_of_ext(projects@.subrange(0, k as int), ext@),
        decreases projects@.len() - k,
    {
        proof {
            assert(projects@.subrange(0, k + 1).drop_last() =~= projects@.subrange(0, k as int));
            assert(projects@.subrange(0, k + 1).last() == projects@[k as int]);
        }
        if same_chars(&chars_of(projects[k].ext_id.as_str()), &wanted) {
            found = Some(projects[k].id);
        }
        k = k + 1;
    }
    assert(projects@.subrange(0, projects@.len() as int) =~= projects@);
    found
}

fn push_count_rows(out: &mut Vec<DailyRow>, projects: &Vec<ProjectRow>, series: &Vec<CountSeries>, views: bool)
    ensures
        dailies_view(final(out)@) == dailies_view(old(out)@) + count_rows(projects@, series@, views),
{
    let ghost start = dailies_view(out@);
    let mut k: usize = 0;
    assert(series@.subrange(0, 0) =~= Seq::<CountSeries>::empty());
    assert(start + Seq::empty() =~= start);
    while k < series.len()
        invariant
            k <= series@.len(),
            dailies_view(out@) == start + count_rows(projects@, series@.subrange(0, k as int), views),
        decreases series@.len() - k,
    {
        proof {
            assert(series@.subrange(0, k + 1).drop_last() =~= series@.subrange(0, k as int));
            assert(series@.subrange(0, k + 1).last() == series@[k as int]);
        }
        let ghost before = dailies_view(out@);
        match project_id_of(projects, series[k].ext_id.as_str()) {
            Some(pid) => {
                let pts = &series[k].points;
                let mut j: usize = 0;
                assert(pts@.take(0).map_values(|p: (i64, i64)| count_row(pid, p, views)) =~= Seq::empty());
                assert(before + Seq::empty() =~= before);
                while j < pts.len()
                    invariant
                        j <= pts@.len(),
                        dailies_view(out@) == before + pts@.take(j as int).map_values(|p: (i64, i64)| count_row(pid, p, views)),
                    decreases pts@.len() - j,
                {
                    let (ts, value) = pts[j];
                    let day = crate::providers::modrinth::timestamp_to_day(ts);
                    let row = DailyRow {
                        project_id: pid,
                        day,
                        downloads: if views { None } else { Some(value) },
                        views: if views { Some(value) } else { None },
                        revenue: None,
                    };
                    let ghost rv = daily_view(row);
                    let ghost prev = out@;
                    out.push(row);
                    proof {
                        assert(rv == count_row(pid, pts@[j as int], views));
                        assert(pts@.take(j + 1) =~= pts@.take(j as int).push(pts@[j as int]));
                        assert(pts@.take(j + 1).map_values(|p: (i64, i64)| count_row(pid, p, views))
                            =~= pts@.take(j as int).map_values(|p: (i64, i64)| count_row(pid, p, views)).push(rv));
                        assert(dailies_view(out@) =~= dailies_view(prev).push(rv));
                    }
                    j = j + 1;
                }
                assert(pts@.take(pts@.len() as int) =~= pts@);
            },
            None => {
                assert(before + Seq::empty() =~= before);
            },
        }
        k = k + 1;
    }
    assert(series@.subrange(0, series@.len() as int) =~= series@);
}

fn push_revenue_rows(out: &mut Vec<DailyRow>, projects: &Vec<ProjectRow>, series: &Vec<RevenueSeries>)
    ensures
        dailies_view(final(out)@) == dailies_view(old(out)@) + revenue_rows(projects@, series@),
{
    let ghost start = dailies_view(out@);
    let mut k: usize = 0;
    assert(series@.subrange(0, 0) =~= Seq::<RevenueSeries>::empty());
    assert(start + Seq::empty() =~= start);
    while k < series.len()
        invariant
            k <= series@.len(),
            dailies_view(out@) == start + revenue_rows(projects@, series@.subrange(0, k as int)),
        decreases series@.len() - k,
    {
        proof {
            assert(series@.subrange(0, k + 1).drop_last() =~= series@.subrange(0, k as int));
            assert(series@.subrange(0, k + 1).last() == series@[k as int]);
        }
        let ghost before = dailies_view(out@);
        match project_id_of(projects, series[k].ext_id.as_str()) {
            Some(pid) => {
                let pts = &series[k].points;
                let mut j: usize = 0;
                assert(pts@.take(0).map_values(|p: (i64, String)| revenue_row(pid, p)) =~= Seq::empty());
                assert(before + Seq::empty() =~= before);
                while j < pts.len()
                    invariant
                        j <= pts@.len(),
                        dailies_view(out@) == before + pts@.take(j as int).map_values(|p: (i64, String)| revenue_row(pid, p)),
                    decreases pts@.len() - j,
                {
                    let ts = pts[j].0;
                    let day = crate::providers::modrinth::timestamp_to_day(ts);
                    let amount = text_of(&chars_of(pts[j].1.as_str()));
                    let row = DailyRow { project_id: pid, day, downloads: None, views: None, revenue: Some(amount) };
                    let ghost rv = daily_view(row);
                    let ghost prev = out@;
                    out.push(row);
                    proof {
                        assert(rv == revenue_row(pid, pts@[j as int]));
                        assert(pts@.take(j + 1) =~= pts@.take(j as int).push(pts@[j as int]));
                        assert(pts@.take(j + 1).map_values(|p: (i64, String)| revenue_row(pid, p))
                            =~= pts@.take(j as int).map_values(|p: (i64, String)| revenue_row(pid, p)).push(rv));
                        assert(dailies_view(out@) =~= dailies_view(prev).push(rv));
                    }
                    j = j + 1;
                }
                assert(pts@.take(pts@.len() as int) =~= pts@);
            },
            None => {
                assert(before + Seq::empty() =~= before);
            },
        }
        k = k + 1;
    }
    assert(series@.subrange(0, series@.len() as int) =~= series@);
}

/// The daily rows that a refresh of the Modrinth analytics writes: the
/// downloads, then the views, then the revenue, each point on the UTC day of
/// its time. A series of a project that the base does not know is skipped.
pub fn analytics_rows(
    projects: &Vec<ProjectRow>,
    downloads: &Vec<CountSeries>,
    views: &Vec<CountSeries>,
    revenue: &Vec<RevenueSeries>,
) -> (r: Vec<DailyRow>)
    ensures
        dailies_view(r@) == count_rows(projects@, downloads@, false) + count_rows(projects@, views@, true)
            + revenue_rows(projects@, revenue@),
{
    let mut out: Vec<DailyRow> = Vec::new();
    assert(dailies_view(out@) =~= Seq::empty());
    push_count_rows(&mut out, projects, downloads, false);
    push_count_rows(&mut out, projects, views, true);
    push_revenue_rows(&mut out, projects, revenue);
    assert(Seq::<(i64, Seq<char>, Option<i64>, Option<i64>, Option<Seq<char>>)>::empty()
        + count_rows(projects@, downloads@, false) =~= count_rows(projects@, downloads@, false));
    out
}

pub open spec fn country_view(r: CountryRow) -> (i64, Seq<char>, Seq<char>, i64) {
    (r.project_id, r.day@, r.country@, r.downloads)
}

/// The rows by country, every one of them on `today`, series after series.
pub open spec fn country_rows_of(projects: Seq<ProjectRow>, series: Seq<CountrySeries>, today: Seq<char>) -> Seq<(i64, Seq<char>, Seq<char>, i64)>
    decreases series.len(),
{
    if series.len() == 0 {
        Seq::empty()
    } else {
        country_rows_of(projects, series.drop_last(), today) + match project_of_ext(projects, series.last().ext_id@) {
            Some(pid) => series.last().countries@.map_values(|c: (String, i64)| (pid, today, c.0@, c.1)),
            None => Seq::empty(),
        }
    }
}

/// The downloads by country that a refresh writes, dated today.
pub fn country_rows(projects: &Vec<ProjectRow>, series: &Vec<CountrySeries>, today: &str) -> (r: Vec<CountryRow>)
    ensures
        r@.map_values(|c: CountryRow| country_view(c)) == country_rows_of(projects@, series@, today@),
{
    let mut out: Vec<CountryRow> = Vec::new();
    let mut k: usize = 0;
    assert(series@.subrange(0, 0) =~= Seq::<CountrySeries>::empty());
    assert(out@.map_values(|c: CountryRow| country_view(c)) =~= Seq::empty());
    while k < series.len()
        invariant
            k <= series@.len(),
            out@.map_values(|c: CountryRow| country_view(c)) == country_rows_of(projects@, series@.subrange(0, k as int), today@),
        decreases series@.len() - k,
    {
        proof {
            assert(series@.subrange(0, k + 1).drop_last() =~= series@.subrange(0, k as int));
            assert(series@.subrange(0, k + 1).last() == series@[k as int]);
        }
        let ghost before = out@.map_values(|c: CountryRow| country_view(c));
        match project_id_of(projects, series[k].ext_id.as_str()) {
            Some(pid) => {
                let cs = &series[k].countries;
                let mut j: usize = 0;
                assert(cs@.take(0).map_values(|c: (String, i64)| (pid, today@, c.0@, c.1)) =~= Seq::empty());
                assert(before + Seq::empty() =~= before);
                while j < cs.len()
                    invariant
                        j <= cs@.len(),
                        out@.map_values(|c: CountryRow| country_view(c)) == before + cs@.take(j as int).map_values(|c: (String, i64)| (pid, today@, c.0@, c.1)),
                    decreases cs@.len() - j,
                {
                    let row = CountryRow {
                        project_id: pid,
                        day: text_of(&chars_of(today)),
                        country: text_of(&chars_of(cs[j].0.as_str())),
                        downloads: cs[j].1,
                    };
                    let ghost cv = country_view(row);
                    let ghost prev = out@;
                    out.push(row);
                    proof {
                        assert(cs@.take(j + 1) =~= cs@.take(j as int).push(cs@[j as int]));
                        assert(cs@.take(j + 1).map_values(|c: (String, i64)| (pid, today@, c.0@, c.1))
                            =~= cs@.take(j as int).map_values(|c: (String, i64)| (pid, today@, c.0@, c.1)).push(cv));
                        assert(out@.map_values(|c: CountryRow| country_view(c)) =~= prev.map_values(|c: CountryRow| country_view(c)).push(cv));
                    }
                    j = j + 1;
                }
                assert(cs@.take(cs@.len() as int) =~= cs@);
            },
            None => {
                assert(before + Seq::empty() =~= before);
            },
        }
        k = k + 1;
    }
    assert(series@.subrange(0, series@.len() as int) =~= series@);
    out
}

/// The first project row with that identifier.
pub open spec fn first_with_id(rows: Seq<ProjectRow>, id: i64) -> Option<ProjectRow>
    decreases rows.len(),
{
    if rows.len() == 0 {
        None
    } else if rows[0].id == id {
        Some(rows[0])
    } else {
        first_with_id(rows.skip(1), id)
    }
}

/// What a Modrinth notification is filed under: the project it names, when
/// the base knows it, and that project's title, else "Modrinth".
pub open spec fn event_subject_of(projects: Seq<ProjectRow>, project_ext_id: Option<String>) -> (Option<i64>, Seq<char>) {
    let pid = match project_ext_id {
        Some(e) => project_of_ext(projects, e@),
        None => None,
    };
    (pid, match pid {
        Some(id) => match first_with_id(projects, id) {
            Some(row) => row.title@,
            None => "Modrinth"@,
        },
        None => "Modrinth"@,
    })
}

pub fn event_subject(projects: &Vec<ProjectRow>, project_ext_id: &Option<String>) -> (r: (Option<i64>, String))
    ensures
        (r.0, r.1@) == event_subject_of(projects@, *project_ext_id),
{
    let pid = match project_ext_id {
        Some(e) => project_id_of(projects, e.as_str()),
        None => None,
    };
    proof {
        reveal_strlit("Modrinth");
    }
    let title = match pid {
        Some(id) => {
            let mut k: usize = 0;
            let mut found: Option<usize> = None;
            assert(projects@.skip(0) =~= projects@);
            while k < projects.len()
                invariant
                    k <= projects@.len(),
                    found is None ==> first_with_id(projects@, id) == first_with_id(projects@.skip(k as int), id),
                    found matches Some(j) ==> j < projects@.len() && first_with_id(projects@, id) == Some(projects@[j as int]),
                decreases projects@.len() - k,
            {
                if found.is_none() {
                    proof {
                        assert(projects@.skip(k as int)[0] == projects@[k as int]);
                        assert(projects@.skip(k as int).skip(1) =~= projects@.skip(k + 1));
                    }
                    if projects[k].id == id {
                        found = Some(k);
                    }
                }
                k = k + 1;
            }
            match found {
                Some(j) => projects[j].title.clone(),
                None => {
                    assert(projects@.skip(k as int) =~= Seq::<ProjectRow>::empty());
                    "Modrinth".to_string()
                },
            }
        },
        None => "Modrinth".to_string(),
    };
    (pid, title)
}

} // verus!
