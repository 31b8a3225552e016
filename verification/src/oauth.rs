//! Modrinth authorisation: the address the browser is sent to, and the
//! reading of the redirection that comes back.

use crate::text::{
    append_chars, chars_of, digit_char, same_chars, split_chars, split_on, split_once,
    split_once_at, split_words, text_of, words,
};
use crate::error::AppError;
use crate::json::{member, member_text, text_in, Json};
use vstd::prelude::*;
use vstd::utf8::{decode_utf8, encode_utf8, valid_utf8};

verus! {

/// Scope asked for, as sent.
pub const SCOPES: &'static str = "USER_READ PROJECT_READ VERSION_READ NOTIFICATION_READ ANALYTICS PAYOUTS_READ";

/// Delay after which the wait for the redirection is given up.
pub const CALLBACK_TIMEOUT_SECS: u64 = 300;

pub open spec fn authorize_endpoint() -> Seq<char> {
    "https://api.modrinth.com/_internal/oauth/authorize"@
}

/// Scope asked for: reading the profile, projects, versions, notifications,
/// analytics and payouts. The token allows no writing.
pub open spec fn scopes() -> Seq<char> {
    "USER_READ PROJECT_READ VERSION_READ NOTIFICATION_READ ANALYTICS PAYOUTS_READ"@
}

/// Letters, digits and `-_.~` travel as they are.
pub open spec fn unreserved(b: u8) -> bool {
    ||| (65 <= b && b <= 90)
    ||| (97 <= b && b <= 122)
    ||| (48 <= b && b <= 57)
    ||| b == 45
    ||| b == 95
    ||| b == 46
    ||| b == 126
}

/// Upper-case hexadecimal digit of `d`, for `d` below sixteen.
pub open spec fn hex_upper(d: int) -> char {
    if d < 10 {
        digit_char(d)
    } else {
        ((d + 55) as u32) as char
    }
}

/// How one byte is written in an address.
pub open spec fn byte_piece(b: u8) -> Seq<char> {
    if unreserved(b) {
        seq![(b as u32) as char]
    } else {
        seq!['%', hex_upper(b as int / 16), hex_upper(b as int % 16)]
    }
}

/// Percent-encoding of a sequence of bytes.
pub open spec fn url_encoded(bytes: Seq<u8>) -> Seq<char>
    decreases bytes.len(),
{
    if bytes.len() == 0 {
        seq![]
    } else {
        url_encoded(bytes.drop_last()) + byte_piece(bytes.last())
    }
}

/// Value of a hexadecimal digit, either case.
pub open spec fn hex_value(c: u8) -> Option<int> {
    if 48 <= c && c <= 57 {
        Some(c - 48)
    } else if 97 <= c && c <= 102 {
        Some(c - 87)
    } else if 65 <= c && c <= 70 {
        Some(c - 55)
    } else {
        None
    }
}

/// What `u8::from_str_radix` makes of the two bytes after a `%`, a leading
/// `+` sign included.
pub open spec fn escaped_byte(c1: u8, c2: u8) -> Option<u8> {
    if c1 == 43 {
        match hex_value(c2) {
            Some(v) => Some(v as u8),
            None => None,
        }
    } else {
        match (hex_value(c1), hex_value(c2)) {
            (Some(a), Some(b)) => Some((16 * a + b) as u8),
            _ => None,
        }
    }
}

/// Percent-decoding of bytes: `+` is a space, `%XY` the byte it spells, and
/// anything else stays as it is.
pub open spec fn url_decoded(b: Seq<u8>) -> Seq<u8>
    decreases b.len(),
{
    if b.len() == 0 {
        seq![]
    } else if b[0] == 43 {
        seq![32u8] + url_decoded(b.skip(1))
    } else if b[0] == 37 && b.len() >= 3 && escaped_byte(b[1], b[2]) is Some {
        seq![escaped_byte(b[1], b[2])->0] + url_decoded(b.skip(3))
    } else {
        seq![b[0]] + url_decoded(b.skip(1))
    }
}

/// The text that `String::from_utf8_lossy` makes of a sequence of bytes.
pub uninterp spec fn utf8_lossy(bytes: Seq<u8>) -> Seq<char>;

/// `String::from_utf8_lossy`: valid UTF-8 is decoded as it is, and invalid
/// sequences become replacement characters, which are not described here.
#[verifier::external_body]
pub(crate) fn text_from_bytes(bytes: &[u8]) -> (r: String)
    ensures
        r@ == utf8_lossy(bytes@),
        valid_utf8(bytes@) ==> r@ == decode_utf8(bytes@),
{
    String::from_utf8_lossy(bytes).into_owned()
}

/// The text that `urldecode` gives back.
pub open spec fn url_decoded_text(s: Seq<char>) -> Seq<char> {
    utf8_lossy(url_decoded(encode_utf8(s)))
}

fn hex_digit(d: u8) -> (r: char)
    requires
        d < 16,
    ensures
        r == hex_upper(d as int),
{
    if d < 10 {
        ((d + 48) as u8) as char
    } else {
        ((d + 55) as u8) as char
    }
}

fn unreserved_byte(b: u8) -> (r: bool)
    ensures
        r == unreserved(b),
{
    (65 <= b && b <= 90) || (97 <= b && b <= 122) || (48 <= b && b <= 57) || b == 45 || b == 95
        || b == 46 || b == 126
}

/// Percent-encodes a text, byte by byte.
pub fn urlencode(value: &str) -> (r: String)
    ensures
        r@ == url_encoded(encode_utf8(value@)),
{
    let bytes = value.as_bytes();
    let mut out: Vec<char> = Vec::new();
    let mut k: usize = 0;
    assert(bytes@.subrange(0, 0) =~= Seq::<u8>::empty());
    while k < bytes.len()
        invariant
            k <= bytes@.len(),
            out@ == url_encoded(bytes@.subrange(0, k as int)),
        decreases bytes@.len() - k,
    {
        let b = bytes[k];
        proof {
            assert(bytes@.subrange(0, k + 1).drop_last() =~= bytes@.subrange(0, k as int));
        }
        if unreserved_byte(b) {
            out.push(b as char);
        } else {
            out.push('%');
            out.push(hex_digit(b / 16));
            out.push(hex_digit(b % 16));
        }
        proof {
            assert(out@ =~= url_encoded(bytes@.subrange(0, k + 1)));
        }
        k = k + 1;
    }
    assert(bytes@.subrange(0, bytes@.len() as int) =~= bytes@);
    text_of(&out)
}

fn hex_of(c: u8) -> (r: Option<u8>)
    ensures
        match hex_value(c) {
            Some(v) => r == Some(v as u8),
            None => r is None,
        },
{
    if 48 <= c && c <= 57 {
        Some(c - 48)
    } else if 97 <= c && c <= 102 {
        Some(c - 87)
    } else if 65 <= c && c <= 70 {
        Some(c - 55)
    } else {
        None
    }
}

fn escaped(c1: u8, c2: u8) -> (r: Option<u8>)
    ensures
        r == escaped_byte(c1, c2),
{
    if c1 == 43 {
        hex_of(c2)
    } else {
        match (hex_of(c1), hex_of(c2)) {
            (Some(a), Some(b)) => Some(16 * a + b),
            _ => None,
        }
    }
}

/// Percent-decodes a text: `+` becomes a space and `%XY` the byte it spells.
pub fn urldecode(value: &str) -> (r: String)
    ensures
        r@ == url_decoded_text(value@),
        valid_utf8(url_decoded(encode_utf8(value@))) ==> r@ == decode_utf8(
            url_decoded(encode_utf8(value@)),
        ),
{
    let bytes = value.as_bytes();
    let mut out: Vec<u8> = Vec::new();
    let mut i: usize = 0;
    assert(bytes@.skip(0) =~= bytes@);
    while i < bytes.len()
        invariant
            i <= bytes@.len(),
            out@ + url_decoded(bytes@.skip(i as int)) == url_decoded(bytes@),
        decreases bytes@.len() - i,
    {
        let ghost rest = bytes@.skip(i as int);
        if bytes[i] == 43 {
            proof {
                assert(rest.skip(1) =~= bytes@.skip(i + 1));
                assert(out@.push(32u8) + url_decoded(bytes@.skip(i + 1)) =~= out@ + url_decoded(
                    rest,
                ));
            }
            out.push(32);
            i = i + 1;
        } else if bytes[i] == 37 && bytes.len() - i > 2 && escaped(bytes[i + 1], bytes[i + 2]).is_some() {
            let byte = escaped(bytes[i + 1], bytes[i + 2]).unwrap();
            proof {
                assert(rest[1] == bytes@[i + 1]);
                assert(rest[2] == bytes@[i + 2]);
                assert(rest.skip(3) =~= bytes@.skip(i + 3));
                assert(out@.push(byte) + url_decoded(bytes@.skip(i + 3)) =~= out@ + url_decoded(
                    rest,
                ));
            }
            out.push(byte);
            i = i + 3;
        } else {
            proof {
                if bytes@[i as int] == 37 && i + 2 < bytes@.len() {
                    assert(rest[1] == bytes@[i + 1]);
                    assert(rest[2] == bytes@[i + 2]);
                }
                assert(rest.skip(1) =~= bytes@.skip(i + 1));
                assert(out@.push(bytes@[i as int]) + url_decoded(bytes@.skip(i + 1)) =~= out@
                    + url_decoded(rest));
            }
            out.push(bytes[i]);
            i = i + 1;
        }
    }
    proof {
        assert(bytes@.skip(i as int).len() == 0);
        assert(out@ =~= out@ + url_decoded(bytes@.skip(i as int)));
    }
    text_from_bytes(&out)
}

/// The address the browser is sent to for authorisation.
pub open spec fn authorize_address(client_id: Seq<char>, redirect_uri: Seq<char>, state: Seq<char>) -> Seq<
    char,
> {
    authorize_endpoint() + "?client_id="@ + url_encoded(encode_utf8(client_id))
        + "&redirect_uri="@ + url_encoded(encode_utf8(redirect_uri)) + "&scope="@
        + url_encoded(encode_utf8(scopes())) + "&response_type=code&state="@ + url_encoded(
        encode_utf8(state),
    )
}

pub fn authorize_url(client_id: &str, redirect_uri: &str, state: &str) -> (r: String)
    ensures
        r@ == authorize_address(client_id@, redirect_uri@, state@),
{
    let mut out = chars_of("https://api.modrinth.com/_internal/oauth/authorize");
    append_chars(&mut out, &chars_of("?client_id="));
    append_chars(&mut out, &chars_of(urlencode(client_id).as_str()));
    append_chars(&mut out, &chars_of("&redirect_uri="));
    append_chars(&mut out, &chars_of(urlencode(redirect_uri).as_str()));
    append_chars(&mut out, &chars_of("&scope="));
    append_chars(
        &mut out,
        &chars_of(
            urlencode(
                "USER_READ PROJECT_READ VERSION_READ NOTIFICATION_READ ANALYTICS PAYOUTS_READ",
            ).as_str(),
        ),
    );
    append_chars(&mut out, &chars_of("&response_type=code&state="));
    append_chars(&mut out, &chars_of(urlencode(state).as_str()));
    text_of(&out)
}

/// The parameters of a query string, decoded, in the order they come.
pub open spec fn query_pairs(pieces: Seq<Seq<char>>) -> Seq<(Seq<char>, Seq<char>)>
    decreases pieces.len(),
{
    if pieces.len() == 0 {
        seq![]
    } else {
        let before = query_pairs(pieces.drop_last());
        match split_once_at(pieces.last(), '=') {
            Some((k, v)) => before.push((url_decoded_text(k), url_decoded_text(v))),
            None => before,
        }
    }
}

/// The value a key takes in a list of parameters: the last one written wins,
/// as in a map filled from them in order.
pub open spec fn lookup(pairs: Seq<(Seq<char>, Seq<char>)>, key: Seq<char>) -> Option<Seq<char>>
    decreases pairs.len(),
{
    if pairs.len() == 0 {
        None
    } else if pairs.last().0 == key {
        Some(pairs.last().1)
    } else {
        lookup(pairs.drop_last(), key)
    }
}

/// The parameters of the redirection, when the first line of the request
/// targets `/callback`.
pub open spec fn callback_params(line: Seq<char>) -> Option<Seq<(Seq<char>, Seq<char>)>> {
    let w = words(line);
    if w.len() < 2 {
        None
    } else {
        match split_once_at(w[1], '?') {
            Some((path, query)) => if path == "/callback"@ {
                Some(query_pairs(split_on(query, '&')))
            } else {
                None
            },
            None => None,
        }
    }
}

/// Decoded parameters of a query string.
#[derive(Debug, Clone)]
pub struct Query {
    pairs: Vec<(String, String)>,
}

impl View for Query {
    type V = Seq<(Seq<char>, Seq<char>)>;

    closed spec fn view(&self) -> Seq<(Seq<char>, Seq<char>)> {
        self.pairs@.map_values(|p: (String, String)| (p.0@, p.1@))
    }
}

impl Query {
    /// The value of a parameter; the last occurrence of a key wins.
    pub fn get(&self, key: &str) -> (r: Option<&String>)
        ensures
            match lookup(self@, key@) {
                Some(v) => r matches Some(x) && x@ == v,
                None => r is None,
            },
    {
        let wanted = chars_of(key);
        let mut k = self.pairs.len();
        let ghost all = self@;
        assert(all.subrange(0, k as int) =~= all);
        while k > 0
            invariant
                k <= self.pairs@.len(),
                all == self@,
                all.len() == self.pairs@.len(),
                wanted@ == key@,
                lookup(all, key@) == lookup(all.subrange(0, k as int), key@),
            decreases k,
        {
            let ghost prefix = all.subrange(0, k as int);
            proof {
                assert(prefix.drop_last() =~= all.subrange(0, k - 1));
                assert(prefix.last() == all[k - 1]);
            }
            if same_chars(&chars_of(self.pairs[k - 1].0.as_str()), &wanted) {
                return Some(&self.pairs[k - 1].1);
            }
            k = k - 1;
        }
        None
    }

    /// Number of parameters read.
    pub fn len(&self) -> (r: usize)
        ensures
            r == self@.len(),
    {
        self.pairs.len()
    }
}

/// Reads the parameters of the first line of an HTTP request to `/callback`.
pub fn parse_callback(request_line: &str) -> (r: Option<Query>)
    ensures
        match callback_params(request_line@) {
            Some(pairs) => r matches Some(q) && q@ == pairs,
            None => r is None,
        },
{
    let line = chars_of(request_line);
    let w = split_words(&line);
    if w.len() < 2 {
        return None;
    }
    let target = &w[1];
    let (path, query) = match split_once(target, '?') {
        Some(parts) => parts,
        None => return None,
    };
    if !same_chars(&path, &chars_of("/callback")) {
        return None;
    }
    let pieces = split_chars(&query, '&');
    let ghost split = split_on(query@, '&');
    let mut pairs: Vec<(String, String)> = Vec::new();
    let mut k: usize = 0;
    assert(split.subrange(0, 0) =~= Seq::<Seq<char>>::empty());
    while k < pieces.len()
        invariant
            k <= pieces@.len(),
            pieces@.len() == split.len(),
            forall|i: int| 0 <= i < pieces@.len() ==> (#[trigger] pieces@[i])@ == split[i],
            pairs@.map_values(|p: (String, String)| (p.0@, p.1@)) == query_pairs(
                split.subrange(0, k as int),
            ),
        decreases pieces@.len() - k,
    {
        let ghost prefix = split.subrange(0, k + 1);
        proof {
            assert(prefix.drop_last() =~= split.subrange(0, k as int));
            assert(prefix.last() == pieces@[k as int]@);
        }
        match split_once(&pieces[k], '=') {
            Some((key, value)) => {
                let key_text = urldecode(text_of(&key).as_str());
                let value_text = urldecode(text_of(&value).as_str());
                let ghost before = pairs@;
                pairs.push((key_text, value_text));
                proof {
                    assert(pairs@.map_values(|p: (String, String)| (p.0@, p.1@)) =~= before.map_values(
                        |p: (String, String)| (p.0@, p.1@),
                    ).push((key_text@, value_text@)));
                }
            },
            None => {},
        }
        k = k + 1;
    }
    assert(split.subrange(0, pieces@.len() as int) =~= split);
    let q = Query { pairs };
    Some(q)
}

/// The bytes of a text made of ASCII characters.
pub open spec fn ascii_bytes(chars: Seq<char>) -> Seq<u8> {
    Seq::new(chars.len(), |i: int| chars[i] as u8)
}

proof fn lemma_piece_ascii(b: u8)
    ensures
        vstd::utf8::is_ascii_chars(byte_piece(b)),
        ascii_bytes(byte_piece(b)) == if unreserved(b) {
            seq![b]
        } else {
            seq![37u8, (hex_upper(b as int / 16) as u8), (hex_upper(b as int % 16) as u8)]
        },
{
    let p = byte_piece(b);
    if unreserved(b) {
        assert(((b as u32) as char) as u8 == b);
        assert(ascii_bytes(p) =~= seq![b]);
    } else {
        assert(ascii_bytes(p) =~= seq![37u8, (hex_upper(b as int / 16) as u8), (hex_upper(
            b as int % 16,
        ) as u8)]);
    }
}

proof fn lemma_encoded_front(b: Seq<u8>)
    requires
        b.len() > 0,
    ensures
        url_encoded(b) == byte_piece(b[0]) + url_encoded(b.skip(1)),
    decreases b.len(),
{
    if b.len() == 1 {
        assert(b.drop_last() =~= Seq::<u8>::empty());
        assert(b.skip(1) =~= Seq::<u8>::empty());
        assert(url_encoded(b) =~= byte_piece(b[0]) + url_encoded(b.skip(1)));
    } else {
        lemma_encoded_front(b.drop_last());
        assert(b.drop_last().skip(1) =~= b.skip(1).drop_last());
        assert(b.skip(1).last() == b.last());
        assert(url_encoded(b) =~= byte_piece(b[0]) + url_encoded(b.skip(1)));
    }
}

proof fn lemma_encoded_ascii(b: Seq<u8>)
    ensures
        vstd::utf8::is_ascii_chars(url_encoded(b)),
    decreases b.len(),
{
    if b.len() > 0 {
        lemma_encoded_ascii(b.drop_last());
        lemma_piece_ascii(b.last());
        let all = url_encoded(b);
        let front = url_encoded(b.drop_last());
        let p = byte_piece(b.last());
        assert forall|i: int| 0 <= i < all.len() implies '\0' <= #[trigger] all[i] <= '\u{7f}' by {
            if i < front.len() {
                assert(all[i] == front[i]);
            } else {
                assert(all[i] == p[i - front.len()]);
            }
        }
    }
}

proof fn lemma_decode_encoded(b: Seq<u8>)
    ensures
        url_decoded(ascii_bytes(url_encoded(b))) == b,
    decreases b.len(),
{
    if b.len() == 0 {
        assert(ascii_bytes(url_encoded(b)) =~= Seq::<u8>::empty());
    } else {
        lemma_encoded_front(b);
        lemma_piece_ascii(b[0]);
        lemma_decode_encoded(b.skip(1));
        let piece = byte_piece(b[0]);
        let rest = url_encoded(b.skip(1));
        let all = ascii_bytes(piece + rest);
        assert(all =~= ascii_bytes(piece) + ascii_bytes(rest));
        if unreserved(b[0]) {
            assert(all[0] == b[0]);
            assert(all.skip(1) =~= ascii_bytes(rest));
            assert(url_decoded(all) =~= seq![b[0]] + b.skip(1));
        } else {
            let hi = b[0] as int / 16;
            let lo = b[0] as int % 16;
            assert(hex_value(hex_upper(hi) as u8) == Some(hi));
            assert(hex_value(hex_upper(lo) as u8) == Some(lo));
            assert(all[0] == 37u8);
            assert(all[1] == hex_upper(hi) as u8);
            assert(all[2] == hex_upper(lo) as u8);
            assert(escaped_byte(all[1], all[2]) == Some(b[0]));
            assert(all.skip(3) =~= ascii_bytes(rest));
            assert(url_decoded(all) =~= seq![b[0]] + b.skip(1));
        }
        assert(seq![b[0]] + b.skip(1) =~= b);
    }
}

/// Decoding what was encoded gives back the bytes of the text, which are
/// valid UTF-8 and decode to the text itself: `urldecode(urlencode(s))` is `s`.
pub proof fn urldecode_undoes_urlencode(s: Seq<char>)
    ensures
        url_decoded(encode_utf8(url_encoded(encode_utf8(s)))) == encode_utf8(s),
        valid_utf8(encode_utf8(s)),
        decode_utf8(encode_utf8(s)) == s,
{
    let b = encode_utf8(s);
    let e = url_encoded(b);
    lemma_encoded_ascii(b);
    vstd::utf8::is_ascii_chars_encode_utf8(e);
    assert(encode_utf8(e) =~= ascii_bytes(e));
    lemma_decode_encoded(b);
    vstd::utf8::encode_utf8_valid_utf8(s);
    vstd::utf8::encode_utf8_decode_utf8(s);
}

/// A character that an encoded address carries as it is: a letter, a digit
/// or one of `-_.~`.
pub open spec fn plain_char(c: char) -> bool {
    let v = c as u32;
    ||| (65 <= v && v <= 90)
    ||| (97 <= v && v <= 122)
    ||| (48 <= v && v <= 57)
    ||| v == 45
    ||| v == 95
    ||| v == 46
    ||| v == 126
}

/// An upper-case hexadecimal digit.
pub open spec fn upper_hex_char(c: char) -> bool {
    let v = c as u32;
    (48 <= v && v <= 57) || (65 <= v && v <= 70)
}

/// A text made only of plain characters and of `%XX` triples whose two
/// digits are upper-case hexadecimal.
pub open spec fn percent_shaped(s: Seq<char>) -> bool
    decreases s.len(),
{
    if s.len() == 0 {
        true
    } else {
        ||| (plain_char(s.last()) && percent_shaped(s.drop_last()))
        ||| (s.len() >= 3 && s[s.len() - 3] == '%' && upper_hex_char(s[s.len() - 2]) && upper_hex_char(
            s.last(),
        ) && percent_shaped(s.take(s.len() - 3)))
    }
}

proof fn lemma_hex_upper(d: int)
    requires
        0 <= d < 16,
    ensures
        upper_hex_char(hex_upper(d)),
{
}

proof fn lemma_encoded_shape(b: Seq<u8>)
    ensures
        percent_shaped(url_encoded(b)),
    decreases b.len(),
{
    if b.len() > 0 {
        lemma_encoded_shape(b.drop_last());
        let front = url_encoded(b.drop_last());
        let p = byte_piece(b.last());
        let all = url_encoded(b);
        assert(all == front + p);
        if unreserved(b.last()) {
            assert(all.drop_last() =~= front);
            assert(all.last() == p[0]);
            assert(((b.last() as u32) as char) as u32 == b.last() as u32);
        } else {
            assert(all.take(all.len() - 3) =~= front);
            lemma_hex_upper(b.last() as int / 16);
            lemma_hex_upper(b.last() as int % 16);
            assert(all[all.len() - 3] == '%');
            assert(all[all.len() - 2] == hex_upper(b.last() as int / 16));
            assert(all.last() == hex_upper(b.last() as int % 16));
        }
    }
}

/// What `urlencode` writes travels in an address as it is: only letters,
/// digits, `-_.~` and `%XX` triples with upper-case hexadecimal digits.
pub proof fn encoding_keeps_to_the_unreserved_alphabet(s: Seq<char>)
    ensures
        percent_shaped(url_encoded(encode_utf8(s))),
{
    lemma_encoded_shape(encode_utf8(s));
}

/// Name under which the errors of the authorisation are reported.
pub const PROVIDER: &'static str = "modrinth";

pub open spec fn is_auth_error(e: AppError, detail: Seq<char>) -> bool {
    e matches AppError::Auth { provider: p, detail: d } && p@ == "modrinth"@ && d@ == detail
}

/// What the redirection that reaches the local listener answers: nothing when
/// the request is not the redirection (it is answered 404 and the wait goes
/// on), else the code, when the state sent is the state expected.
pub open spec fn callback_answer(params: Option<Seq<(Seq<char>, Seq<char>)>>, expected: Seq<char>, r: Option<Result<String, AppError>>) -> bool {
    match params {
        None => r is None,
        Some(q) => match lookup(q, "error"@) {
            Some(e) => r matches Some(Err(x)) && is_auth_error(x, e),
            None => match (lookup(q, "code"@), lookup(q, "state"@)) {
                (Some(c), Some(s)) => if s == expected {
                    r matches Some(Ok(x)) && x@ == c
                } else {
                    r matches Some(Err(x)) && is_auth_error(x, "paramètre state invalide"@)
                },
                _ => r matches Some(Err(x)) && is_auth_error(x, "réponse d'autorisation incomplète"@),
            },
        },
    }
}

pub open spec fn query_view(q: Option<Query>) -> Option<Seq<(Seq<char>, Seq<char>)>> {
    match q {
        Some(x) => Some(x@),
        None => None,
    }
}

pub fn callback_outcome(params: &Option<Query>, expected_state: &str) -> (r: Option<Result<String, AppError>>)
    ensures
        callback_answer(query_view(*params), expected_state@, r),
{
    proof {
        reveal_strlit("error");
        reveal_strlit("code");
        reveal_strlit("state");
        reveal_strlit("modrinth");
    }
    let q = match params {
        Some(q) => q,
        None => {
            return None;
        },
    };
    if let Some(error) = q.get("error") {
        return Some(Err(AppError::auth(PROVIDER, error.as_str())));
    }
    match (q.get("code"), q.get("state")) {
        (Some(code), Some(state)) => {
            if same_chars(&chars_of(state.as_str()), &chars_of(expected_state)) {
                Some(Ok(code.clone()))
            } else {
                Some(Err(AppError::auth(PROVIDER, "paramètre state invalide")))
            }
        },
        _ => Some(Err(AppError::auth(PROVIDER, "réponse d'autorisation incomplète"))),
    }
}

/// The token that the exchange of the code answers, or the error that the
/// answer explains; `parsed` is the answer decoded, or the decoder's complaint.
pub open spec fn token_answer(parsed: Result<Json, String>, r: Result<String, AppError>) -> bool {
    match parsed {
        Err(d) => r matches Err(AppError::Data(x)) && x@ == d@,
        Ok(v) => match text_in(member(v, "access_token"@)) {
            Some(t) => r matches Ok(x) && x@ == t,
            None => {
                let error = match text_in(member(v, "error"@)) {
                    Some(e) => e,
                    None => "réponse inattendue"@,
                };
                let description = match text_in(member(v, "description"@)) {
                    Some(d) => d,
                    None => Seq::<char>::empty(),
                };
                r matches Err(x) && is_auth_error(x, error + " : "@ + description)
            },
        },
    }
}

pub fn parse_token_response(parsed: Result<Json, String>) -> (r: Result<String, AppError>)
    ensures
        token_answer(parsed, r),
{
    proof {
        reveal_strlit("access_token");
        reveal_strlit("error");
        reveal_strlit("description");
        reveal_strlit(" : ");
        reveal_strlit("réponse inattendue");
        reveal_strlit("modrinth");
    }
    let value = match parsed {
        Err(d) => {
            return Err(AppError::Data(d));
        },
        Ok(v) => v,
    };
    if let Some(token) = member_text(&value, "access_token") {
        return Ok(token);
    }
    let mut out: Vec<char> = Vec::new();
    match member_text(&value, "error") {
        Some(e) => append_chars(&mut out, &chars_of(e.as_str())),
        None => append_chars(&mut out, &chars_of("réponse inattendue")),
    }
    append_chars(&mut out, &chars_of(" : "));
    if let Some(d) = member_text(&value, "description") {
        append_chars(&mut out, &chars_of(d.as_str()));
    }
    let detail = text_of(&out);
    Err(AppError::auth(PROVIDER, detail.as_str()))
}

} // verus!
