//! What the commands of the interface decide: the public page of an account,
//! the connection status, the settings as the interface sees and sends them,
//! and what is read on the CurseForge author dashboard.

use crate::config::{clamped, Session, Settings};
use crate::error::AppError;
use crate::json::Json;
use crate::sorting::{sort_by_key_desc, stably_sorted};
use crate::models::{platform_name, Platform};
use crate::store::{Link, ProjectRow};
use crate::scrape::{
    daily_series, digits_value, lemma_digits_value_grows, excerpt_around, excerpt_of, extract_points, find_daily_series,
    points_in, points_view, DailyPoint,
};
use crate::text::{
    utf8_len, alnum, append_chars, chars_of, digit, find_from, first_at_or_after, is_alnum, is_digit,
    lowercase, lowercased, text_of, trim_bounds, trimmed, uppercase, uppercased,
};
use vstd::prelude::*;

verus! {

/// Page where the user creates a personal token, opened for them from the
/// connection screen.
pub const PAT_PAGE: &'static str = "https://modrinth.com/settings/pats";

/// Author dashboard, opened in the user's browser.
pub const CF_AUTHOR_PAGE: &'static str = "https://authors.curseforge.com/";

/// Label of the application window that shows the dashboard.
pub const CF_WINDOW: &'static str = "curseforge";

// ---------------------------------------------------------------------------
// Public page of an account.

/// The characters that a user name keeps in an address.
pub open spec fn name_char(c: char) -> bool {
    is_alnum(c) || c == '_' || c == '-' || c == '.'
}

pub open spec fn name_chars(s: Seq<char>) -> Seq<char>
    decreases s.len(),
{
    if s.len() == 0 {
        seq![]
    } else if name_char(s.last()) {
        name_chars(s.drop_last()).push(s.last())
    } else {
        name_chars(s.drop_last())
    }
}

/// The public address of an account. The name is the only thing that comes
/// from outside, and it only completes a known template: no arbitrary address
/// can be opened.
pub open spec fn account_address(platform: Seq<char>, username: Seq<char>) -> Option<Seq<char>> {
    let encoded = name_chars(trimmed(username));
    if encoded.len() == 0 {
        None
    } else if platform == "modrinth"@ {
        Some("https://modrinth.com/user/"@ + encoded)
    } else if platform == "curseforge"@ {
        Some("https://www.curseforge.com/members/"@ + encoded + "/projects"@)
    } else {
        None
    }
}

fn name_char_exec(c: char) -> (r: bool)
    ensures
        r == name_char(c),
{
    alnum(c) || c == '_' || c == '-' || c == '.'
}

fn keep_name_chars(s: &[char], from: usize, to: usize) -> (r: Vec<char>)
    requires
        from <= to <= s@.len(),
    ensures
        r@ == name_chars(s@.subrange(from as int, to as int)),
{
    let mut out: Vec<char> = Vec::new();
    let mut k: usize = from;
    assert(s@.subrange(from as int, from as int) =~= Seq::<char>::empty());
    while k < to
        invariant
            from <= k <= to <= s@.len(),
            out@ == name_chars(s@.subrange(from as int, k as int)),
        decreases to - k,
    {
        proof {
            assert(s@.subrange(from as int, k + 1).drop_last() =~= s@.subrange(from as int, k as int));
        }
        if name_char_exec(s[k]) {
            out.push(s[k]);
        }
        k = k + 1;
    }
    out
}

pub fn account_page(platform: &str, username: &str) -> (r: Option<String>)
    ensures
        match account_address(platform@, username@) {
            Some(a) => r matches Some(x) && x@ == a,
            None => r is None,
        },
{
    let chars = chars_of(username);
    let (start, end) = trim_bounds(&chars);
    let encoded = keep_name_chars(&chars, start, end);
    if encoded.len() == 0 {
        return None;
    }
    let modrinth = chars_of("modrinth");
    let curseforge = chars_of("curseforge");
    let wanted = chars_of(platform);
    let mut out: Vec<char> = Vec::new();
    if crate::text::same_chars(&wanted, &modrinth) {
        append_chars(&mut out, &chars_of("https://modrinth.com/user/"));
        append_chars(&mut out, &encoded);
        Some(text_of(&out))
    } else if crate::text::same_chars(&wanted, &curseforge) {
        append_chars(&mut out, &chars_of("https://www.curseforge.com/members/"));
        append_chars(&mut out, &encoded);
        append_chars(&mut out, &chars_of("/projects"));
        Some(text_of(&out))
    } else {
        None
    }
}

// ---------------------------------------------------------------------------
// Connection status and settings.

#[derive(Debug, Clone)]
pub struct AuthStatus {
    pub connected: bool,
    pub username: Option<String>,
    pub connected_since: Option<String>,
    /// CurseForge author retained: set by hand, or found at the last cycle.
    pub curseforge_username: Option<String>,
    /// Number of projects read, platform by platform.
    pub modrinth_projects: i64,
    pub curseforge_projects: i64,
}

pub open spec fn first_known(a: Option<String>, b: Option<String>, c: Option<String>) -> Option<String> {
    match a {
        Some(x) => Some(x),
        None => match b {
            Some(y) => Some(y),
            None => c,
        },
    }
}

/// The status that the interface shows. The CurseForge account read on the
/// dashboard names the session really open, and comes before the author
/// deduced from the mods; a name set by hand comes before both.
pub fn status_of(
    session: Option<Session>,
    settings: Settings,
    account: Option<String>,
    author: Option<String>,
    modrinth_projects: i64,
    curseforge_projects: i64,
) -> (r: AuthStatus)
    ensures
        r.connected == session is Some,
        match session {
            Some(s) => r.username == Some(s.username) && r.connected_since == Some(s.obtained_at),
            None => r.username is None && r.connected_since is None,
        },
        r.curseforge_username == first_known(settings.curseforge_username, account, author),
        r.modrinth_projects == modrinth_projects,
        r.curseforge_projects == curseforge_projects,
{
    let curseforge_username = match settings.curseforge_username {
        Some(x) => Some(x),
        None => match account {
            Some(y) => Some(y),
            None => author,
        },
    };
    let connected = session.is_some();
    let (username, connected_since) = match session {
        Some(s) => (Some(s.username), Some(s.obtained_at)),
        None => (None, None),
    };
    AuthStatus {
        connected,
        username,
        connected_since,
        curseforge_username,
        modrinth_projects,
        curseforge_projects,
    }
}

/// The Modrinth token pasted in the connection form, trimmed; an empty one
/// is refused before any call to Modrinth.
pub fn pasted_token(token: &str) -> (r: Result<String, AppError>)
    ensures
        trimmed(token@).len() > 0 ==> (r matches Ok(t) && t@ == trimmed(token@)),
        trimmed(token@).len() == 0 ==> (r matches Err(AppError::Config(d)) && d@ == "colle ton token Modrinth"@),
{
    let chars = chars_of(token);
    let (a, b) = trim_bounds(&chars);
    if a == b {
        proof {
            reveal_strlit("colle ton token Modrinth");
        }
        Err(AppError::Config("colle ton token Modrinth".to_string()))
    } else {
        Ok(text_of(&crate::text::slice_text(&chars, a, b)))
    }
}

/// Settings as the interface sees them: the upload token never leaves, only
/// its presence is told.
#[derive(Debug, Clone)]
pub struct SettingsView {
    pub curseforge_username: Option<String>,
    pub range_days: i64,
    pub currency: String,
    pub curseforge_token_ready: bool,
}

pub fn get_settings(settings: Settings) -> (r: SettingsView)
    ensures
        r.curseforge_username == settings.curseforge_username,
        r.range_days == settings.range_days,
        r.currency == settings.currency,
        r.curseforge_token_ready == settings.curseforge_upload_token is Some,
{
    let ready = settings.curseforge_upload_token.is_some();
    SettingsView {
        curseforge_username: settings.curseforge_username,
        range_days: settings.range_days,
        currency: settings.currency,
        curseforge_token_ready: ready,
    }
}

/// Whether the text takes exactly `n` bytes.
fn utf8_len_is(s: &[char], n: usize) -> (r: bool)
    ensures
        r == (utf8_len(s@) == n),
{
    let mut total: usize = 0;
    let mut k: usize = 0;
    assert(s@.subrange(0, 0) =~= Seq::<char>::empty());
    while k < s.len()
        invariant
            k <= s@.len(),
            total == utf8_len(s@.subrange(0, k as int)),
            total <= n,
        decreases s@.len() - k,
    {
        proof {
            assert(s@.subrange(0, k + 1).drop_last() =~= s@.subrange(0, k as int));
            lemma_utf8_len_grows(s@, (k + 1) as int);
        }
        let c = s[k] as u32;
        let w: usize = if c < 0x80 {
            1
        } else if c < 0x800 {
            2
        } else if c < 0x10000 {
            3
        } else {
            4
        };
        if w > n - total {
            return false;
        }
        total = total + w;
        k = k + 1;
    }
    assert(s@.subrange(0, s@.len() as int) =~= s@);
    total == n
}

/// A prefix takes no more bytes than the whole.
proof fn lemma_utf8_len_grows(s: Seq<char>, j: int)
    requires
        0 <= j <= s.len(),
    ensures
        utf8_len(s.subrange(0, j)) <= utf8_len(s),
    decreases s.len() - j,
{
    if j < s.len() {
        lemma_utf8_len_grows(s, j + 1);
        assert(s.subrange(0, j + 1).drop_last() =~= s.subrange(0, j));
    } else {
        assert(s.subrange(0, j) =~= s);
    }
}

/// The currency sent by the form, once trimmed and in capitals, when it is a
/// three-letter code.
pub open spec fn form_currency(sent: Option<String>, previous: Seq<char>) -> Seq<char> {
    match sent {
        Some(v) => if utf8_len(uppercased(trimmed(v@))) == 3 {
            uppercased(trimmed(v@))
        } else {
            previous
        },
        None => previous,
    }
}

pub open spec fn form_username(sent: Option<String>) -> Option<Seq<char>> {
    match sent {
        Some(v) => if trimmed(v@).len() > 0 {
            Some(trimmed(v@))
        } else {
            None
        },
        None => None,
    }
}

pub open spec fn text_option_view(o: Option<String>) -> Option<Seq<char>> {
    match o {
        Some(s) => Some(s@),
        None => None,
    }
}

fn trimmed_text(s: &str) -> (r: String)
    ensures
        r@ == trimmed(s@),
{
    let chars = chars_of(s);
    let (a, b) = trim_bounds(&chars);
    text_of(&crate::text::slice_text(&chars, a, b))
}

/// The settings that the settings form saves. The upload token is read by
/// the application, never typed: the one already known is kept, like the
/// cadence and the update choice, which the form does not carry.
pub fn settings_from_form(
    previous: Settings,
    curseforge_username: Option<String>,
    range_days: i64,
    currency: Option<String>,
) -> (r: Settings)
    ensures
        text_option_view(r.curseforge_username) == form_username(curseforge_username),
        r.range_days == clamped(range_days as int, 7, 730),
        r.currency@ == form_currency(currency, previous.currency@),
        r.curseforge_upload_token == previous.curseforge_upload_token,
        r.auto_sync_minutes == previous.auto_sync_minutes,
        r.auto_update == previous.auto_update,
{
    let name = match curseforge_username {
        Some(v) => {
            let t = trimmed_text(v.as_str());
            if t.as_str().is_empty() {
                None
            } else {
                Some(t)
            }
        },
        None => None,
    };
    let days = if range_days < 7 {
        7
    } else if range_days > 730 {
        730
    } else {
        range_days
    };
    let code = match currency {
        Some(v) => {
            let t = trimmed_text(v.as_str());
            let up = uppercase(t.as_str());
            if utf8_len_is(&chars_of(up.as_str()), 3) {
                up
            } else {
                previous.currency
            }
        },
        None => previous.currency,
    };
    Settings {
        curseforge_username: name,
        range_days: days,
        currency: code,
        auto_sync_minutes: previous.auto_sync_minutes,
        curseforge_upload_token: previous.curseforge_upload_token,
        auto_update: previous.auto_update,
    }
}

// ---------------------------------------------------------------------------
// The CurseForge author dashboard.

/// A response heard on the dashboard, summed up for the interface.
#[derive(Debug, Clone)]
pub struct CfCapture {
    pub url: String,
    pub days: usize,
    pub from: Option<String>,
    pub to: Option<String>,
    pub total: i64,
}

#[derive(Debug, Clone)]
pub struct CfScrape {
    pub url: String,
    pub title: String,
    pub points: Option<i64>,
    pub excerpt: String,
    pub captures: Vec<CfCapture>,
}

/// Outcome of an automatic collection.
#[derive(Debug, Clone)]
pub struct CfCollect {
    /// True while the user is not logged in: the window stays open.
    pub needs_login: bool,
    pub visited: Vec<String>,
    /// Series retained, project by project.
    pub imported: Vec<CfImported>,
    /// Points balance read on the way.
    pub points: Option<i64>,
    pub detail: String,
}

impl Default for CfCollect {
    fn default() -> (r: Self)
        ensures
            !r.needs_login,
            r.visited@.len() == 0,
            r.imported@.len() == 0,
            r.points is None,
            r.detail@.len() == 0,
    {
        CfCollect {
            needs_login: false,
            visited: Vec::new(),
            imported: Vec::new(),
            points: None,
            detail: String::new(),
        }
    }
}

#[derive(Debug, Clone)]
pub struct CfImported {
    pub title: String,
    pub days: usize,
    pub from: String,
    pub to: String,
}

/// What the application recognised in what the user brought back from the
/// dashboard: nothing is recorded without their approval.
#[derive(Debug, Clone)]
pub struct CfAnalysis {
    /// Points balance found in copied text.
    pub points: Option<i64>,
    /// Number of days of the series found, if there is one.
    pub days: usize,
    pub from: Option<String>,
    pub to: Option<String>,
    pub total: i64,
    /// Excerpt for the user to see what was read.
    pub excerpt: String,
}

/// A collection that needs the user to log in again.
pub fn login_needed(detail: &str) -> (r: CfCollect)
    ensures
        r.needs_login,
        r.detail@ == detail@,
        r.visited@.len() == 0,
        r.imported@.len() == 0,
        r.points is None,
{
    CfCollect {
        needs_login: true,
        visited: Vec::new(),
        imported: Vec::new(),
        points: None,
        detail: detail.to_string(),
    }
}

/// A reading of the dashboard came back empty: neither the downloads nor the
/// revenue answered. It nearly always means the page was not on the dashboard
/// yet when the calls left; the reading is tried once more.
pub fn came_back_empty(downloads: &str, revenue: &str) -> (r: bool)
    ensures
        r == (trimmed(downloads@).len() == 0 && trimmed(revenue@).len() == 0),
{
    let d = chars_of(downloads);
    let (a, b) = trim_bounds(&d);
    let v = chars_of(revenue);
    let (c, e) = trim_bounds(&v);
    a == b && c == e
}

/// The words that announce the balance on the dashboard banner.
pub open spec fn balance_words() -> Seq<char> {
    "my balance"@
}

/// `i` is where the first digit of the text stands.
pub open spec fn first_digit_at(s: Seq<char>, i: int) -> bool {
    &&& 0 <= i < s.len()
    &&& is_digit(s[i])
    &&& forall|j: int| 0 <= j < i ==> !is_digit(s[j])
}

/// The text opens with exactly `n` digits.
pub open spec fn opening_digits(t: Seq<char>, n: int) -> bool {
    &&& 0 < n <= t.len()
    &&& forall|j: int| 0 <= j < n ==> is_digit(#[trigger] t[j])
    &&& (n == t.len() || !is_digit(t[n]))
}

/// The first run of digits of a text.
pub open spec fn digit_run(s: Seq<char>) -> Seq<char> {
    if exists|i: int| first_digit_at(s, i) {
        let i = choose|i: int| first_digit_at(s, i);
        let rest = s.skip(i);
        let n = choose|n: int| opening_digits(rest, n);
        rest.take(n)
    } else {
        seq![]
    }
}

/// The points balance that the banner shows: the number that follows the
/// words "My Balance" (its dollar value comes after it). Positions are taken
/// in the text put in lower case; no balance is read past the end of the text.
pub open spec fn banner_balance(text: Seq<char>) -> Option<i64> {
    let lower = lowercased(text);
    if exists|i: int| first_at_or_after(lower, balance_words(), 0, i) {
        let i = choose|i: int| first_at_or_after(lower, balance_words(), 0, i);
        let start = i + balance_words().len();
        let rest = if start <= text.len() {
            text.skip(start)
        } else {
            seq![]
        };
        let run = digit_run(rest);
        if run.len() > 0 && digits_value(run) <= i64::MAX {
            Some(digits_value(run) as i64)
        } else {
            None
        }
    } else {
        None
    }
}

proof fn lemma_digit_run(s: Seq<char>, i0: int, n0: int)
    requires
        0 <= i0 < s.len(),
        0 < n0 <= s.len() - i0,
        forall|j: int| 0 <= j < i0 ==> !is_digit(s[j]),
        forall|j: int| i0 <= j < i0 + n0 ==> is_digit(#[trigger] s[j]),
        i0 + n0 == s.len() || !is_digit(s[i0 + n0]),
    ensures
        digit_run(s) == s.subrange(i0, i0 + n0),
{
    assert(is_digit(s[i0]));
    assert(first_digit_at(s, i0));
    let ci = choose|ci: int| first_digit_at(s, ci);
    if ci > i0 {
        assert(!is_digit(s[i0]));
    }
    if ci < i0 {
        assert(!is_digit(s[ci]));
    }
    assert(ci == i0);
    let tail = s.skip(i0);
    assert forall|j: int| 0 <= j < n0 implies is_digit(#[trigger] tail[j]) by {
        assert(tail[j] == s[i0 + j]);
    }
    if n0 < tail.len() {
        assert(tail[n0] == s[i0 + n0]);
    }
    assert(opening_digits(tail, n0));
    let n = choose|n: int| opening_digits(tail, n);
    if n < n0 {
        assert(is_digit(tail[n]));
    }
    if n > n0 {
        assert(is_digit(tail[n0]));
    }
    assert(n == n0);
    assert(tail.take(n) =~= s.subrange(i0, i0 + n0));
}

/// The first run of digits from `from` on.
fn first_digit_run(chars: &[char], from: usize) -> (r: Vec<char>)
    requires
        from <= chars@.len(),
    ensures
        r@ == digit_run(chars@.skip(from as int)),
        forall|j: int| 0 <= j < r@.len() ==> is_digit(#[trigger] r@[j]),
{
    let ghost rest = chars@.skip(from as int);
    let mut k: usize = from;
    while k < chars.len() && !digit(chars[k])
        invariant
            from <= k <= chars@.len(),
            forall|j: int| from <= j < k ==> !is_digit(chars@[j]),
        decreases chars@.len() - k,
    {
        k = k + 1;
    }
    if k == chars.len() {
        proof {
            assert forall|i: int| !first_digit_at(rest, i) by {
                if 0 <= i < rest.len() {
                    assert(rest[i] == chars@[from + i]);
                }
            }
        }
        return Vec::new();
    }
    let mut e: usize = k;
    while e < chars.len() && digit(chars[e])
        invariant
            k <= e <= chars@.len(),
            forall|j: int| k <= j < e ==> is_digit(#[trigger] chars@[j]),
        decreases chars@.len() - e,
    {
        e = e + 1;
    }
    let run = crate::text::slice_text(chars, k, e);
    proof {
        let i0 = (k - from) as int;
        let n0 = (e - k) as int;
        assert forall|j: int| 0 <= j < i0 implies !is_digit(rest[j]) by {
            assert(rest[j] == chars@[from + j]);
        }
        assert forall|j: int| i0 <= j < i0 + n0 implies is_digit(#[trigger] rest[j]) by {
            assert(rest[j] == chars@[from + j]);
        }
        if i0 + n0 < rest.len() {
            assert(rest[i0 + n0] == chars@[e as int]);
        }
        lemma_digit_run(rest, i0, n0);
        assert(rest.subrange(i0, i0 + n0) =~= run@);
        assert forall|j: int| 0 <= j < run@.len() implies is_digit(#[trigger] run@[j]) by {
            assert(run@[j] == chars@[k + j]);
        }
    }
    run
}

/// The value of a run of digits, when it fits in an `i64`.
fn run_value(run: &[char]) -> (r: Option<i64>)
    requires
        forall|i: int| 0 <= i < run@.len() ==> is_digit(#[trigger] run@[i]),
    ensures
        match r {
            Some(v) => digits_value(run@) <= i64::MAX && v == digits_value(run@),
            None => digits_value(run@) > i64::MAX,
        },
{
    let mut value: i64 = 0;
    let mut k: usize = 0;
    assert(run@.subrange(0, 0) =~= Seq::<char>::empty());
    while k < run.len()
        invariant
            k <= run@.len(),
            forall|i: int| 0 <= i < run@.len() ==> is_digit(#[trigger] run@[i]),
            value == digits_value(run@.subrange(0, k as int)),
            0 <= value,
        decreases run@.len() - k,
    {
        let ghost prefix = run@.subrange(0, k + 1);
        proof {
            assert(prefix.drop_last() =~= run@.subrange(0, k as int));
            assert(prefix.last() == run@[k as int]);
            assert(is_digit(run@[k as int]));
        }
        let d = (run[k] as u32 - 48) as i64;
        if value > (i64::MAX - d) / 10 {
            proof {
                assert(digits_value(prefix) == value * 10 + d);
                assert(value * 10 + d > i64::MAX) by (nonlinear_arith)
                    requires
                        value > (i64::MAX - d) / 10,
                        0 <= d <= 9,
                ;
                lemma_digits_value_grows(run@, k + 1);
            }
            return None;
        }
        proof {
            assert(value * 10 + d <= i64::MAX) by (nonlinear_arith)
                requires
                    value <= (i64::MAX - d) / 10,
                    0 <= d <= 9,
                    0 <= value,
            ;
        }
        value = value * 10 + d;
        k = k + 1;
    }
    assert(run@.subrange(0, run@.len() as int) =~= run@);
    Some(value)
}

/// Points balance shown by the dashboard banner: "My Balance", the number of
/// points, then their value in dollars. No address serves it: it is read
/// where it is shown.
pub fn balance_from_text(text: &str) -> (r: Option<i64>)
    ensures
        r == banner_balance(text@),
{
    let lower = chars_of(lowercase(text).as_str());
    let words = chars_of("my balance");
    proof {
        reveal_strlit("my balance");
    }
    let found = find_from(&lower, &words, 0);
    let i = match found {
        Some(i) => i,
        None => {
            proof {
                assert(!exists|j: int| first_at_or_after(lower@, balance_words(), 0, j));
            }
            return None;
        },
    };
    proof {
        let j = choose|j: int| first_at_or_after(lower@, balance_words(), 0, j);
        assert(first_at_or_after(lower@, balance_words(), 0, i as int));
        if j < i {
            assert(!crate::text::occurs_at(lower@, balance_words(), j));
        }
        if j > i {
            assert(!crate::text::occurs_at(lower@, balance_words(), i as int));
        }
        assert(j == i);
    }
    let chars = chars_of(text);
    if i > chars.len() || words.len() > chars.len() - i {
        proof {
            assert(banner_balance(text@) == None::<i64>) by {
                assert(digit_run(Seq::<char>::empty()) =~= Seq::<char>::empty());
            }
        }
        return None;
    }
    let start = i + words.len();
    let run = first_digit_run(&chars, start);
    if run.len() == 0 {
        return None;
    }
    run_value(&run)
}

/// The sum of the counts of a series.
pub open spec fn series_total(s: Seq<(Seq<char>, i64)>) -> int
    decreases s.len(),
{
    if s.len() == 0 {
        0
    } else {
        series_total(s.drop_last()) + s.last().1
    }
}

/// Every running sum of the series fits in an `i64`: adding it up does not
/// overflow.
pub open spec fn sums_fit(s: Seq<(Seq<char>, i64)>) -> bool {
    forall|k: int| 0 <= k <= s.len() ==> i64::MIN <= #[trigger] series_total(s.take(k)) <= i64::MAX
}

fn total_of(series: &Vec<DailyPoint>) -> (r: i64)
    requires
        sums_fit(points_view(series@)),
    ensures
        r == series_total(points_view(series@)),
{
    let ghost s = points_view(series@);
    let mut total: i64 = 0;
    let mut k: usize = 0;
    assert(s.take(0) =~= Seq::<(Seq<char>, i64)>::empty());
    while k < series.len()
        invariant
            k <= series@.len(),
            s == points_view(series@),
            sums_fit(s),
            total == series_total(s.take(k as int)),
        decreases series@.len() - k,
    {
        proof {
            assert(s.take(k + 1).drop_last() =~= s.take(k as int));
            assert(s.take(k + 1).last() == s[k as int]);
            assert(i64::MIN <= series_total(s.take(k + 1)) <= i64::MAX);
        }
        total = total + series[k].value;
        k = k + 1;
    }
    assert(s.take(s.len() as int) =~= s);
    total
}

pub open spec fn first_day_of(s: Seq<(Seq<char>, i64)>) -> Option<Seq<char>> {
    if s.len() > 0 {
        Some(s[0].0)
    } else {
        None
    }
}

pub open spec fn last_day_of(s: Seq<(Seq<char>, i64)>) -> Option<Seq<char>> {
    if s.len() > 0 {
        Some(s.last().0)
    } else {
        None
    }
}

pub open spec fn text_opt(o: Option<String>) -> Option<Seq<char>> {
    match o {
        Some(x) => Some(x@),
        None => None,
    }
}

/// A response heard on the dashboard, summed up: nothing when it holds no
/// dated series.
pub fn capture_summary(url: &str, series: &Vec<DailyPoint>) -> (r: Option<CfCapture>)
    requires
        sums_fit(points_view(series@)),
    ensures
        series@.len() == 0 ==> r is None,
        series@.len() > 0 ==> (r matches Some(c) && c.url@ == url@ && c.days == series@.len()
            && text_opt(c.from) == first_day_of(points_view(series@)) && text_opt(c.to)
            == last_day_of(points_view(series@)) && c.total == series_total(points_view(series@))),
{
    if series.len() == 0 {
        return None;
    }
    let total = total_of(series);
    let from = Some(series[0].day.clone());
    let to = Some(series[series.len() - 1].day.clone());
    Some(CfCapture { url: url.to_string(), days: series.len(), from, to, total })
}

pub open spec fn analysis_series(parsed: Option<Json>) -> Seq<(Seq<char>, i64)> {
    match parsed {
        Some(v) => daily_series(v),
        None => seq![],
    }
}

/// Reads what the user brought back from the dashboard: the text of the page,
/// or the answer of one of its internal requests (`parsed` is `text`, trimmed,
/// as decoded from JSON, when it is JSON). The site refuses to show in an
/// embedded window, so the user brings the data from their browser.
pub fn analyze_curseforge_text(text: &str, parsed: Option<Json>) -> (r: CfAnalysis)
    requires
        sums_fit(analysis_series(parsed)),
    ensures
        r.points == points_in(text@),
        r.days == analysis_series(parsed).len(),
        text_opt(r.from) == first_day_of(analysis_series(parsed)),
        text_opt(r.to) == last_day_of(analysis_series(parsed)),
        r.total == series_total(analysis_series(parsed)),
        r.excerpt@ == excerpt_of(text@, "point"@, 90),
{
    let series = match &parsed {
        Some(v) => find_daily_series(v),
        None => Vec::new(),
    };
    assert(points_view(series@) =~= analysis_series(parsed));
    let total = total_of(&series);
    let (from, to) = if series.len() > 0 {
        (Some(series[0].day.clone()), Some(series[series.len() - 1].day.clone()))
    } else {
        (None, None)
    };
    CfAnalysis {
        points: extract_points(text),
        days: series.len(),
        from,
        to,
        total,
        excerpt: excerpt_around(text, "point", 90),
    }
}

// ---------------------------------------------------------------------------
// The pairing screen.

/// A project seen by the pairing screen: its state towards the other
/// platform, paired, waiting, or declared without a twin.
#[derive(Debug, Clone)]
pub struct PairingEntry {
    pub id: i64,
    pub platform: String,
    pub title: String,
    /// Identifier and title of the twin, when the project is paired.
    pub linked_id: Option<i64>,
    pub linked_to: Option<String>,
    /// True when the pairing was set by hand.
    pub manual: bool,
    /// True when the project was declared without a twin on the other platform.
    pub solo: bool,
}

/// The link concerns the project, on the side of its platform.
pub open spec fn link_holds(l: Link, p: ProjectRow) -> bool {
    match p.platform {
        Platform::Modrinth => l.modrinth_project_id == p.id,
        Platform::CurseForge => l.cf_project_id == p.id,
    }
}

/// The first link of the project.
pub open spec fn link_of(links: Seq<Link>, p: ProjectRow) -> Option<Link>
    decreases links.len(),
{
    if links.len() == 0 {
        None
    } else if link_holds(links[0], p) {
        Some(links[0])
    } else {
        link_of(links.drop_first(), p)
    }
}

/// The twin that a link names, seen from the project.
pub open spec fn twin_id(l: Link, p: ProjectRow) -> i64 {
    match p.platform {
        Platform::Modrinth => l.cf_project_id,
        Platform::CurseForge => l.modrinth_project_id,
    }
}

/// The title of the first project with that identifier.
pub open spec fn title_of(projects: Seq<ProjectRow>, id: i64) -> Option<Seq<char>>
    decreases projects.len(),
{
    if projects.len() == 0 {
        None
    } else if projects[0].id == id {
        Some(projects[0].title@)
    } else {
        title_of(projects.drop_first(), id)
    }
}

/// What the pairing screen shows of a project.
pub open spec fn entry_of(p: ProjectRow, projects: Seq<ProjectRow>, links: Seq<Link>, solo: Seq<i64>, e: PairingEntry) -> bool {
    &&& e.id == p.id
    &&& e.platform@ == platform_name(p.platform)
    &&& e.title@ == p.title@
    &&& match link_of(links, p) {
        Some(l) => {
            &&& e.linked_id == Some(twin_id(l, p))
            &&& text_opt(e.linked_to) == title_of(projects, twin_id(l, p))
            &&& e.manual == l.manual
        },
        None => e.linked_id is None && e.linked_to is None && !e.manual,
    }
    &&& e.solo == solo.contains(p.id)
}

fn find_link(links: &Vec<Link>, p: &ProjectRow) -> (r: Option<Link>)
    ensures
        r == link_of(links@, *p),
{
    let mut k: usize = 0;
    assert(links@.skip(0) =~= links@);
    while k < links.len()
        invariant
            k <= links@.len(),
            link_of(links@, *p) == link_of(links@.skip(k as int), *p),
        decreases links@.len() - k,
    {
        proof {
            assert(links@.skip(k as int).drop_first() =~= links@.skip(k + 1));
            assert(links@.skip(k as int)[0] == links@[k as int]);
        }
        let l = links[k];
        let holds = match p.platform {
            Platform::Modrinth => l.modrinth_project_id == p.id,
            Platform::CurseForge => l.cf_project_id == p.id,
        };
        if holds {
            return Some(l);
        }
        k = k + 1;
    }
    assert(links@.skip(k as int).len() == 0);
    None
}

fn find_title(projects: &Vec<ProjectRow>, id: i64) -> (r: Option<String>)
    ensures
        text_opt(r) == title_of(projects@, id),
{
    let mut k: usize = 0;
    assert(projects@.skip(0) =~= projects@);
    while k < projects.len()
        invariant
            k <= projects@.len(),
            title_of(projects@, id) == title_of(projects@.skip(k as int), id),
        decreases projects@.len() - k,
    {
        proof {
            assert(projects@.skip(k as int).drop_first() =~= projects@.skip(k + 1));
            assert(projects@.skip(k as int)[0] == projects@[k as int]);
        }
        if projects[k].id == id {
            return Some(projects[k].title.clone());
        }
        k = k + 1;
    }
    assert(projects@.skip(k as int).len() == 0);
    None
}

fn contains_id(ids: &Vec<i64>, id: i64) -> (r: bool)
    ensures
        r == ids@.contains(id),
{
    let mut k: usize = 0;
    while k < ids.len()
        invariant
            k <= ids@.len(),
            forall|j: int| 0 <= j < k ==> ids@[j] != id,
        decreases ids@.len() - k,
    {
        if ids[k] == id {
            assert(ids@[k as int] == id);
            return true;
        }
        k = k + 1;
    }
    false
}

/// Every project of both platforms with its pairing state. The screen needs
/// the whole list, not only the orphans: without it, a wrong pairing could
/// not be corrected, nor a mod attached to a twin already taken.
pub fn pairing_entries(projects: &Vec<ProjectRow>, links: &Vec<Link>, solo: &Vec<i64>) -> (r: Vec<PairingEntry>)
    ensures
        r@.len() == projects@.len(),
        forall|i: int| 0 <= i < projects@.len() ==> entry_of(projects@[i], projects@, links@, solo@, #[trigger] r@[i]),
{
    let mut out: Vec<PairingEntry> = Vec::new();
    let mut k: usize = 0;
    while k < projects.len()
        invariant
            k <= projects@.len(),
            out@.len() == k,
            forall|i: int| 0 <= i < k ==> entry_of(projects@[i], projects@, links@, solo@, #[trigger] out@[i]),
        decreases projects@.len() - k,
    {
        let p = &projects[k];
        let link = find_link(links, p);
        let (linked_id, linked_to, manual) = match link {
            Some(l) => {
                let twin = match p.platform {
                    Platform::Modrinth => l.cf_project_id,
                    Platform::CurseForge => l.modrinth_project_id,
                };
                (Some(twin), find_title(projects, twin), l.manual)
            },
            None => (None, None, false),
        };
        let entry = PairingEntry {
            id: p.id,
            platform: p.platform.as_str().to_string(),
            title: p.title.clone(),
            linked_id,
            linked_to,
            manual,
            solo: contains_id(solo, p.id),
        };
        out.push(entry);
        k = k + 1;
    }
    out
}

// ---------------------------------------------------------------------------
// Longest series first.

pub open spec fn capture_keyed(s: Seq<CfCapture>) -> Seq<(i128, CfCapture)> {
    s.map_values(|c: CfCapture| (c.days as i128, c))
}

pub open spec fn imported_keyed(s: Seq<CfImported>) -> Seq<(i128, CfImported)> {
    s.map_values(|c: CfImported| (c.days as i128, c))
}

/// The captures, the one with the most days first; equal ones keep their order.
pub fn longest_captures_first(captures: Vec<CfCapture>) -> (r: Vec<CfCapture>)
    ensures
        stably_sorted(capture_keyed(r@), capture_keyed(captures@)),
{
    let ghost input = captures@;
    let mut rest = captures;
    let mut keyed: Vec<(i128, CfCapture)> = Vec::new();
    while rest.len() > 0
        invariant
            capture_keyed(input) == keyed@ + capture_keyed(rest@),
        decreases rest@.len(),
    {
        let ghost r0 = rest@;
        let c = rest.remove(0);
        let ghost k0 = keyed@;
        keyed.push((c.days as i128, c));
        proof {
            assert(capture_keyed(r0) =~= seq![capture_keyed(r0)[0]] + capture_keyed(rest@));
            assert(keyed@ =~= k0.push(capture_keyed(r0)[0]));
            assert(capture_keyed(input) =~= keyed@ + capture_keyed(rest@));
        }
    }
    assert(capture_keyed(rest@) =~= Seq::<(i128, CfCapture)>::empty());
    assert(keyed@ =~= capture_keyed(input));
    let ghost keyed_view = keyed@;
    let mut sorted = sort_by_key_desc(keyed);
    let ghost sorted_view = sorted@;
    proof {
        assert forall|i: int| 0 <= i < sorted_view.len() implies #[trigger] sorted_view[i].0 == sorted_view[i].1.days as i128 by {
            crate::sorting::lemma_sorted_from_input(sorted_view, keyed_view, i);
            let j = choose|j: int| 0 <= j < keyed_view.len() && keyed_view[j] == sorted_view[i];
        }
    }
    let mut out: Vec<CfCapture> = Vec::new();
    while sorted.len() > 0
        invariant
            sorted_view == capture_keyed(out@) + sorted@,
            forall|i: int| 0 <= i < sorted_view.len() ==> #[trigger] sorted_view[i].0 == sorted_view[i].1.days as i128,
        decreases sorted@.len(),
    {
        let ghost s0 = sorted@;
        let ghost o0 = out@;
        let pair = sorted.remove(0);
        proof {
            assert(pair == s0[0]);
            assert(sorted@ =~= s0.skip(1));
            assert(s0[0] == sorted_view[o0.len() as int]);
            assert(pair.0 == pair.1.days as i128);
        }
        let c = pair.1;
        out.push(c);
        proof {
            assert(capture_keyed(out@) =~= capture_keyed(o0).push(pair));
            assert(s0 =~= seq![pair] + sorted@);
            assert(sorted_view =~= capture_keyed(out@) + sorted@);
        }
    }
    assert(sorted_view =~= capture_keyed(out@));
    out
}

/// The imported series, the one with the most days first; equal ones keep
/// their order.
pub fn longest_imports_first(imported: Vec<CfImported>) -> (r: Vec<CfImported>)
    ensures
        stably_sorted(imported_keyed(r@), imported_keyed(imported@)),
{
    let ghost input = imported@;
    let mut rest = imported;
    let mut keyed: Vec<(i128, CfImported)> = Vec::new();
    while rest.len() > 0
        invariant
            imported_keyed(input) == keyed@ + imported_keyed(rest@),
        decreases rest@.len(),
    {
        let ghost r0 = rest@;
        let c = rest.remove(0);
        let ghost k0 = keyed@;
        keyed.push((c.days as i128, c));
        proof {
            assert(imported_keyed(r0) =~= seq![imported_keyed(r0)[0]] + imported_keyed(rest@));
            assert(keyed@ =~= k0.push(imported_keyed(r0)[0]));
            assert(imported_keyed(input) =~= keyed@ + imported_keyed(rest@));
        }
    }
    assert(imported_keyed(rest@) =~= Seq::<(i128, CfImported)>::empty());
    assert(keyed@ =~= imported_keyed(input));
    let ghost keyed_view = keyed@;
    let mut sorted = sort_by_key_desc(keyed);
    let ghost sorted_view = sorted@;
    proof {
        assert forall|i: int| 0 <= i < sorted_view.len() implies #[trigger] sorted_view[i].0 == sorted_view[i].1.days as i128 by {
            crate::sorting::lemma_sorted_from_input(sorted_view, keyed_view, i);
            let j = choose|j: int| 0 <= j < keyed_view.len() && keyed_view[j] == sorted_view[i];
        }
    }
    let mut out: Vec<CfImported> = Vec::new();
    while sorted.len() > 0
        invariant
            sorted_view == imported_keyed(out@) + sorted@,
            forall|i: int| 0 <= i < sorted_view.len() ==> #[trigger] sorted_view[i].0 == sorted_view[i].1.days as i128,
        decreases sorted@.len(),
    {
        let ghost s0 = sorted@;
        let ghost o0 = out@;
        let pair = sorted.remove(0);
        proof {
            assert(pair == s0[0]);
            assert(sorted@ =~= s0.skip(1));
            assert(s0[0] == sorted_view[o0.len() as int]);
            assert(pair.0 == pair.1.days as i128);
        }
        let c = pair.1;
        out.push(c);
        proof {
            assert(imported_keyed(out@) =~= imported_keyed(o0).push(pair));
            assert(s0 =~= seq![pair] + sorted@);
            assert(sorted_view =~= imported_keyed(out@) + sorted@);
        }
    }
    assert(sorted_view =~= imported_keyed(out@));
    out
}

/// What the reading of the dashboard page gives: the points balance and an
/// excerpt read in its text, and the responses heard, longest series first.
pub fn scrape_page(url: String, title: String, text: &str, captures: Vec<CfCapture>) -> (r: CfScrape)
    ensures
        r.url == url,
        r.title == title,
        r.points == points_in(text@),
        r.excerpt@ == excerpt_of(text@, "point"@, 90),
        stably_sorted(capture_keyed(r.captures@), capture_keyed(captures@)),
{
    CfScrape {
        points: extract_points(text),
        excerpt: excerpt_around(text, "point", 90),
        url,
        title,
        captures: longest_captures_first(captures),
    }
}

} // verus!
