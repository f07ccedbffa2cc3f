//! OAuth helpers: URL encoding, the authorization URL, the loopback redirect
//! that carries the authorization code, and the token-refresh decisions.

use vstd::prelude::*;
use vstd::string::StringSliceAdditionalSpecFns;
use vstd::utf8::{
    decode_utf8, encode_utf8, encode_utf8_decode_utf8, encode_utf8_valid_utf8, is_ascii_chars,
    is_ascii_chars_encode_utf8, valid_utf8,
};

use crate::time::Moment;
use crate::text::{
    lemma_first_index_found, lemma_split_on_without_sep, chars_equal, chars_of, find_char, first_index, split_chars, split_on, split_once,
    starts_with, string_from_chars, sub_chars, lemma_first_index_bounds,
};

verus! {

broadcast use vstd::string::group_string_axioms;

// ---------------------------------------------------------------------------
// Percent encoding
// ---------------------------------------------------------------------------

/// Bytes that travel unencoded in a URL component (RFC 3986 "unreserved").
pub open spec fn is_unreserved(b: u8) -> bool {
    ||| 65 <= b <= 90
    ||| 97 <= b <= 122
    ||| 48 <= b <= 57
    ||| b == 45
    ||| b == 95
    ||| b == 46
    ||| b == 126
}

/// Upper-case hexadecimal digit for `d` in `0..16`.
pub open spec fn hex_upper(d: nat) -> char {
    if d < 10 {
        (d + 48) as char
    } else {
        (d + 55) as char
    }
}

/// How one byte is written in an encoded URL component.
pub open spec fn encode_byte(b: u8) -> Seq<char> {
    if is_unreserved(b) {
        seq![b as char]
    } else {
        seq!['%', hex_upper((b / 16) as nat), hex_upper((b % 16) as nat)]
    }
}

/// The percent-encoding of a byte string.
pub open spec fn url_encoded(bytes: Seq<u8>) -> Seq<char>
    decreases bytes.len(),
{
    if bytes.len() == 0 {
        Seq::empty()
    } else {
        url_encoded(bytes.drop_last()) + encode_byte(bytes.last())
    }
}

/// Value of a hexadecimal digit byte (either case), as `char::to_digit(16)` gives it.
pub open spec fn hex_value(b: u8) -> Option<nat> {
    if 48 <= b <= 57 {
        Some((b - 48) as nat)
    } else if 65 <= b <= 70 {
        Some((b - 55) as nat)
    } else if 97 <= b <= 102 {
        Some((b - 87) as nat)
    } else {
        None
    }
}

/// Percent-decoding of a byte string: each `%` followed by two hexadecimal
/// digits becomes the byte they denote; every other byte is kept.
pub open spec fn percent_decoded(bytes: Seq<u8>) -> Seq<u8>
    decreases bytes.len(),
{
    if bytes.len() == 0 {
        Seq::empty()
    } else if bytes[0] == 37 && bytes.len() >= 3 && hex_value(bytes[1]) is Some && hex_value(
        bytes[2],
    ) is Some {
        seq![(hex_value(bytes[1])->0 * 16 + hex_value(bytes[2])->0) as u8] + percent_decoded(
            bytes.skip(3),
        )
    } else {
        seq![bytes[0]] + percent_decoded(bytes.skip(1))
    }
}

/// What `String::from_utf8_lossy` makes of a byte string.
pub uninterp spec fn utf8_lossy(bytes: Seq<u8>) -> Seq<char>;

/// A byte string read as UTF-8: decoded when it is valid UTF-8, otherwise
/// what `String::from_utf8_lossy` makes of it.
pub open spec fn utf8_text(bytes: Seq<u8>) -> Seq<char> {
    if valid_utf8(bytes) {
        decode_utf8(bytes)
    } else {
        utf8_lossy(bytes)
    }
}

/// The text that `percent_decode` gives for the text `s`.
pub open spec fn percent_decoded_text(s: Seq<char>) -> Seq<char> {
    utf8_text(percent_decoded(encode_utf8(s)))
}

/// std's `String::from_utf8_lossy`: the result is the named function of the
/// bytes, and, as std documents, the bytes decoded as UTF-8 when they are
/// valid UTF-8. What it gives for invalid input (U+FFFD replacements) is left
/// to the name.
#[verifier::external_body]
fn string_from_utf8_lossy(bytes: &[u8]) -> (s: String)
    ensures
        s@ == utf8_lossy(bytes@),
        valid_utf8(bytes@) ==> s@ == decode_utf8(bytes@),
{
    String::from_utf8_lossy(bytes).into_owned()
}

/// Upper-case hexadecimal digit.
fn hex_digit_upper(d: u8) -> (c: char)
    requires
        d < 16,
    ensures
        c == hex_upper(d as nat),
{
    if d < 10 {
        (d + 48) as char
    } else {
        (d + 55) as char
    }
}

/// Value of a hexadecimal digit byte.
fn hex_digit_value(b: u8) -> (r: Option<u8>)
    ensures
        r matches Some(v) ==> hex_value(b) == Some(v as nat) && v < 16,
        r is None ==> hex_value(b) is None,
{
    if 48 <= b && b <= 57 {
        Some(b - 48)
    } else if 65 <= b && b <= 70 {
        Some(b - 55)
    } else if 97 <= b && b <= 102 {
        Some(b - 87)
    } else {
        None
    }
}

/// Percent-encodes the UTF-8 bytes of `s`: unreserved bytes stay, every other
/// byte becomes `%` and two upper-case hexadecimal digits.
pub fn urlencode(s: &str) -> (r: String)
    ensures
        r@ == url_encoded(s.spec_bytes()),
{
    let bytes = s.as_bytes();
    let mut out: Vec<char> = Vec::new();
    let mut i: usize = 0;
    while i < bytes.len()
        invariant
            i <= bytes@.len(),
            out@ == url_encoded(bytes@.take(i as int)),
        decreases bytes@.len() - i,
    {
        let b = bytes[i];
        assert(bytes@.take(i + 1).drop_last() =~= bytes@.take(i as int));
        if (65 <= b && b <= 90) || (97 <= b && b <= 122) || (48 <= b && b <= 57) || b == 45
            || b == 95 || b == 46 || b == 126 {
            out.push(b as char);
        } else {
            out.push('%');
            out.push(hex_digit_upper(b / 16));
            out.push(hex_digit_upper(b % 16));
        }
        i = i + 1;
        assert(out@ =~= url_encoded(bytes@.take(i as int)));
    }
    assert(bytes@.take(i as int) =~= bytes@);
    string_from_chars(out.as_slice())
}

/// Decodes `%XX` escapes of the UTF-8 bytes of `s`; the resulting bytes are
/// read back as UTF-8, with invalid sequences replaced.
pub fn percent_decode(s: &str) -> (r: String)
    ensures
        r@ == percent_decoded_text(s@),
{
    let bytes = s.as_bytes();
    let mut out: Vec<u8> = Vec::new();
    let mut i: usize = 0;
    assert(bytes@.skip(0) =~= bytes@);
    while i < bytes.len()
        invariant
            i <= bytes@.len(),
            out@ + percent_decoded(bytes@.skip(i as int)) == percent_decoded(bytes@),
        decreases bytes@.len() - i,
    {
        let ghost rest = bytes@.skip(i as int);
        let mut decoded: Option<u8> = None;
        if bytes[i] == 37 && bytes.len() - i > 2 {
            match (hex_digit_value(bytes[i + 1]), hex_digit_value(bytes[i + 2])) {
                (Some(h), Some(l)) => {
                    decoded = Some(h * 16 + l);
                },
                _ => {},
            }
        }
        match decoded {
            Some(b) => {
                assert(rest.skip(3) =~= bytes@.skip(i + 3));
                out.push(b);
                i = i + 3;
            },
            None => {
                assert(rest.skip(1) =~= bytes@.skip(i + 1));
                out.push(bytes[i]);
                i = i + 1;
            },
        }
        assert(out@ + percent_decoded(bytes@.skip(i as int)) =~= percent_decoded(bytes@));
    }
    assert(bytes@.skip(i as int) =~= Seq::<u8>::empty());
    assert(out@ =~= percent_decoded(bytes@));
    string_from_utf8_lossy(out.as_slice())
}

// ---------------------------------------------------------------------------
// Authorization URL
// ---------------------------------------------------------------------------

/// Read-only access to the calendars.
pub const SCOPE: &'static str = "https://www.googleapis.com/auth/calendar.readonly";

/// The authorization URL: fixed endpoint and parameters, with the client id,
/// the redirect URI, the scope and the PKCE challenge percent-encoded.
pub open spec fn authorization_url(
    client_id: Seq<char>,
    redirect_uri: Seq<char>,
    challenge: Seq<char>,
) -> Seq<char> {
    "https://accounts.google.com/o/oauth2/v2/auth?response_type=code&client_id="@
        + url_encoded(encode_utf8(client_id)) + "&redirect_uri="@ + url_encoded(
        encode_utf8(redirect_uri),
    ) + "&scope="@ + url_encoded(encode_utf8(SCOPE@)) + "&code_challenge="@ + url_encoded(
        encode_utf8(challenge),
    ) + "&code_challenge_method=S256&access_type=offline&prompt=consent"@
}

/// Builds the URL that opens the consent screen (PKCE, offline access).
pub fn auth_url(client_id: &str, redirect_uri: &str, challenge: &str) -> (url: String)
    ensures
        url@ == authorization_url(client_id@, redirect_uri@, challenge@),
{
    let mut url = String::new();
    url.append("https://accounts.google.com/o/oauth2/v2/auth?response_type=code&client_id=");
    url.append(urlencode(client_id).as_str());
    url.append("&redirect_uri=");
    url.append(urlencode(redirect_uri).as_str());
    url.append("&scope=");
    url.append(urlencode(SCOPE).as_str());
    url.append("&code_challenge=");
    url.append(urlencode(challenge).as_str());
    url.append("&code_challenge_method=S256&access_type=offline&prompt=consent");
    assert(url@ =~= authorization_url(client_id@, redirect_uri@, challenge@));
    url
}

// ---------------------------------------------------------------------------
// Loopback redirect
// ---------------------------------------------------------------------------

/// What the query parameters of the redirect say, read from left to right:
/// an `error` parameter ends the reading; otherwise the last `code` wins.
pub enum RedirectScan {
    NoCode,
    Code(Seq<char>),
    Failed(Seq<char>),
}

/// Reads the `key=value` pieces of a query in order.
pub open spec fn scan_pairs(pieces: Seq<Seq<char>>) -> RedirectScan
    decreases pieces.len(),
{
    if pieces.len() == 0 {
        RedirectScan::NoCode
    } else {
        let prev = scan_pairs(pieces.drop_last());
        if prev is Failed {
            prev
        } else {
            match split_once(pieces.last(), '=') {
                Some((k, v)) => if k == "code"@ {
                    RedirectScan::Code(v)
                } else if k == "error"@ {
                    RedirectScan::Failed(v)
                } else {
                    prev
                },
                None => prev,
            }
        }
    }
}

/// The request target of a `GET ` request line: what follows `GET ` up to
/// the next space.
pub open spec fn request_target(line: Seq<char>) -> Option<Seq<char>> {
    if line.len() >= 4 && line.take(4) == "GET "@ {
        let rest = line.skip(4);
        Some(
            match first_index(rest, ' ') {
                Some(i) => rest.take(i),
                None => rest,
            },
        )
    } else {
        None
    }
}

/// The query of a request target: what follows its first `?`, or nothing.
pub open spec fn query_of(target: Seq<char>) -> Seq<char> {
    match split_once(target, '?') {
        Some((_, q)) => q,
        None => Seq::empty(),
    }
}

/// The outcome of reading the redirect request line: the decoded
/// authorization code, or the message of the error.
pub open spec fn redirect_outcome(line: Seq<char>) -> Result<Seq<char>, Seq<char>> {
    match request_target(line) {
        None => Err("requête illisible"@),
        Some(target) => match scan_pairs(split_on(query_of(target), '&')) {
            RedirectScan::NoCode => Err("pas de code dans la redirection"@),
            RedirectScan::Code(v) => Ok(percent_decoded_text(v)),
            RedirectScan::Failed(v) => Err("erreur OAuth : "@ + v),
        },
    }
}

/// Reads the first line of the HTTP request that the browser sends to the
/// loopback redirect URI and extracts the authorization code.
pub fn parse_redirect(request_line: &str) -> (r: Result<String, String>)
    ensures
        match r {
            Ok(code) => redirect_outcome(request_line@) == Ok::<Seq<char>, Seq<char>>(code@),
            Err(msg) => redirect_outcome(request_line@) == Err::<Seq<char>, Seq<char>>(msg@),
        },
{
    let line = chars_of(request_line);
    let get = chars_of("GET ");
    proof {
        reveal_strlit("GET ");
    }
    if !starts_with(line.as_slice(), get.as_slice()) {
        return Err(string_from_chars(chars_of("requête illisible").as_slice()));
    }
    let rest = sub_chars(line.as_slice(), 4, line.len());
    proof {
        lemma_first_index_bounds(rest@, ' ');
    }
    let target = match find_char(rest.as_slice(), ' ') {
        Some(i) => sub_chars(rest.as_slice(), 0, i),
        None => rest,
    };
    assert(request_target(line@) == Some(target@)) by {
        assert(line@.skip(4) =~= rest@);
        assert(line@.take(4) =~= get@);
    }
    proof {
        lemma_first_index_bounds(target@, '?');
    }
    let query = match find_char(target.as_slice(), '?') {
        Some(i) => sub_chars(target.as_slice(), i + 1, target.len()),
        None => Vec::new(),
    };
    proof {
        assert(query_of(target@) =~= query@);
    }
    let pieces = split_chars(query.as_slice(), '&');
    let ghost all = split_on(query@, '&');
    let code_key = chars_of("code");
    let error_key = chars_of("error");
    let mut code: Option<Vec<char>> = None;
    let mut k: usize = 0;
    while k < pieces.len()
        invariant
            k <= pieces@.len(),
            pieces@.len() == all.len(),
            forall|j: int| 0 <= j < pieces@.len() ==> #[trigger] pieces@[j]@ == all[j],
            code_key@ == "code"@,
            error_key@ == "error"@,
            all == split_on(query_of(target@), '&'),
            request_target(line@) == Some(target@),
            line@ == request_line@,
            match code {
                Some(v) => scan_pairs(all.take(k as int)) == RedirectScan::Code(v@),
                None => scan_pairs(all.take(k as int)) == RedirectScan::NoCode,
            },
        decreases pieces@.len() - k,
    {
        let piece = &pieces[k];
        assert(all.take(k + 1).drop_last() =~= all.take(k as int));
        assert(all.take(k + 1).last() == piece@);
        proof {
            lemma_first_index_bounds(piece@, '=');
        }
        match find_char(piece.as_slice(), '=') {
            Some(j) => {
                let plen = piece.len();
                assert(j < plen);
                let key = sub_chars(piece.as_slice(), 0, j);
                let value = sub_chars(piece.as_slice(), j + 1, plen);
                assert(key@ =~= piece@.take(j as int));
                assert(value@ =~= piece@.skip(j + 1));
                if chars_equal(key.as_slice(), code_key.as_slice()) {
                    code = Some(value);
                } else if chars_equal(key.as_slice(), error_key.as_slice()) {
                    let mut msg = String::new();
                    msg.append("erreur OAuth : ");
                    msg.append(string_from_chars(value.as_slice()).as_str());
                    proof {
                        assert(split_once(piece@, '=') == Some((key@, value@)));
                        assert(key@ != "code"@);
                        assert(scan_pairs(all.take(k + 1)) == RedirectScan::Failed(value@));
                        lemma_scan_failed_stays(all, (k + 1) as int);
                        assert(all.take(all.len() as int) =~= all);
                        assert(msg@ =~= "erreur OAuth : "@ + value@);
                    }
                    return Err(msg);
                }
            },
            None => {},
        }
        k = k + 1;
    }
    assert(all.take(k as int) =~= all);
    match code {
        Some(v) => Ok(percent_decode(string_from_chars(v.as_slice()).as_str())),
        None => Err(string_from_chars(chars_of("pas de code dans la redirection").as_slice())),
    }
}

/// Once an `error` piece has been read, later pieces change nothing.
proof fn lemma_scan_failed_stays(pieces: Seq<Seq<char>>, k: int)
    requires
        0 <= k <= pieces.len(),
        scan_pairs(pieces.take(k)) is Failed,
    ensures
        scan_pairs(pieces) == scan_pairs(pieces.take(k)),
    decreases pieces.len() - k,
{
    if k < pieces.len() {
        assert(pieces.take(k + 1).drop_last() =~= pieces.take(k));
        lemma_scan_failed_stays(pieces, k + 1);
    } else {
        assert(pieces.take(k) =~= pieces);
    }
}

// ---------------------------------------------------------------------------
// Access token lifetime
// ---------------------------------------------------------------------------

/// The access token must be refreshed when its expiry is unknown or comes
/// within 60 seconds of `now` (or has passed).
pub fn needs_refresh(expires_at: Option<Moment>, now: Moment) -> (r: bool)
    ensures
        r == match expires_at {
            None => true,
            Some(t) => t.instant() - now.instant() <= 60_000_000_000,
        },
{
    match expires_at {
        None => true,
        Some(t) => {
            let secs: i128 = t.secs as i128 - now.secs as i128;
            let nanos: i128 = t.nanos as i128 - now.nanos as i128;
            secs * 1_000_000_000 + nanos <= 60_000_000_000
        },
    }
}

// ---------------------------------------------------------------------------
// Token endpoint errors
// ---------------------------------------------------------------------------

/// What serde_json reads as the string member `key` of the top-level JSON
/// object in `body` (`None` when `body` is not JSON, not an object, or has no
/// such string member).
pub uninterp spec fn json_string_member(body: Seq<char>, key: Seq<char>) -> Option<Seq<char>>;

/// serde_json reading `body` as a JSON value (`serde_json::from_str::<Value>`)
/// and taking its member `key` as a string (`Value::get`, `Value::as_str`):
/// the result is the named function of the two texts. The JSON grammar is
/// left to the name.
#[verifier::external_body]
pub(crate) fn json_top_level_string(body: &str, key: &str) -> (r: Option<String>)
    ensures
        match r {
            Some(v) => json_string_member(body@, key@) == Some(v@),
            None => json_string_member(body@, key@) is None,
        },
{
    match serde_json::from_str::<serde_json::Value>(body) {
        Ok(value) => match value.get(key) {
            Some(member) => member.as_str().map(String::from),
            None => None,
        },
        Err(_) => None,
    }
}

/// Whether the `error` member that a token endpoint answered is exactly
/// `invalid_grant` (the refresh token was revoked or has expired).
pub fn is_invalid_grant_error(error: Option<&str>) -> (r: bool)
    ensures
        r == (error matches Some(e) && e@ == "invalid_grant"@),
{
    match error {
        Some(e) => chars_equal(chars_of(e).as_slice(), chars_of("invalid_grant").as_slice()),
        None => false,
    }
}

/// Whether a token endpoint answer reports `invalid_grant` in its `error`
/// member; a mere occurrence of the words elsewhere does not count.
pub fn is_invalid_grant(body: &str) -> (r: bool)
    ensures
        r == (json_string_member(body@, "error"@) == Some("invalid_grant"@)),
{
    let field = json_top_level_string(body, "error");
    match field {
        Some(e) => is_invalid_grant_error(Some(e.as_str())),
        None => is_invalid_grant_error(None),
    }
}

// ---------------------------------------------------------------------------
// Laws of percent encoding
// ---------------------------------------------------------------------------

/// Bytes of a text made of ASCII characters, one per character.
pub open spec fn ascii_bytes(cs: Seq<char>) -> Seq<u8> {
    Seq::new(cs.len(), |i: int| cs[i] as u8)
}

proof fn lemma_url_encoded_front(bytes: Seq<u8>)
    requires
        bytes.len() > 0,
    ensures
        url_encoded(bytes) == encode_byte(bytes[0]) + url_encoded(bytes.drop_first()),
    decreases bytes.len(),
{
    if bytes.len() == 1 {
        assert(bytes.drop_last() =~= Seq::<u8>::empty());
        assert(bytes.drop_first() =~= Seq::<u8>::empty());
        assert(url_encoded(bytes.drop_first()) =~= Seq::<char>::empty());
        assert(url_encoded(bytes.drop_last()) =~= Seq::<char>::empty());
        assert(url_encoded(bytes) =~= encode_byte(bytes[0]));
    } else {
        lemma_url_encoded_front(bytes.drop_last());
        assert(bytes.drop_last().drop_first() =~= bytes.drop_first().drop_last());
        assert(bytes.drop_first().last() == bytes.last());
        assert(url_encoded(bytes) =~= encode_byte(bytes[0]) + url_encoded(bytes.drop_first()));
    }
}

/// Every character of an encoded component is ASCII.
pub proof fn lemma_url_encoded_ascii(bytes: Seq<u8>)
    ensures
        is_ascii_chars(url_encoded(bytes)),
    decreases bytes.len(),
{
    if bytes.len() > 0 {
        lemma_url_encoded_ascii(bytes.drop_last());
        let e = encode_byte(bytes.last());
        let p = url_encoded(bytes.drop_last());
        assert forall|i: int| 0 <= i < p.len() + e.len() implies '\0' <= #[trigger] (p + e)[i]
            <= '\u{7f}' by {
            if i >= p.len() {
                assert((p + e)[i] == e[i - p.len()]);
            }
        }
    }
}

/// Every character of an encoded component is an unreserved byte, `%`, or an
/// upper-case hexadecimal digit: none of the separators ` `, `?`, `&`, `=` of a
/// request line occurs in it.
pub proof fn lemma_url_encoded_has_no_separator(bytes: Seq<u8>)
    ensures
        forall|i: int|
            0 <= i < url_encoded(bytes).len() ==> {
                let c = #[trigger] url_encoded(bytes)[i];
                c != ' ' && c != '?' && c != '&' && c != '='
            },
    decreases bytes.len(),
{
    if bytes.len() > 0 {
        lemma_url_encoded_has_no_separator(bytes.drop_last());
        let e = encode_byte(bytes.last());
        let p = url_encoded(bytes.drop_last());
        assert forall|i: int| 0 <= i < (p + e).len() implies {
            let c = #[trigger] (p + e)[i];
            c != ' ' && c != '?' && c != '&' && c != '='
        } by {
            if i >= p.len() {
                assert((p + e)[i] == e[i - p.len()]);
            } else {
                assert((p + e)[i] == p[i]);
            }
        }
    }
}

proof fn lemma_ascii_bytes_concat(a: Seq<char>, b: Seq<char>)
    ensures
        ascii_bytes(a + b) == ascii_bytes(a) + ascii_bytes(b),
{
    assert(ascii_bytes(a + b) =~= ascii_bytes(a) + ascii_bytes(b));
}

proof fn lemma_decode_encoded_bytes(bytes: Seq<u8>)
    ensures
        percent_decoded(ascii_bytes(url_encoded(bytes))) == bytes,
    decreases bytes.len(),
{
    if bytes.len() == 0 {
        assert(ascii_bytes(url_encoded(bytes)) =~= Seq::<u8>::empty());
    } else {
        lemma_url_encoded_front(bytes);
        let b = bytes[0];
        let e = encode_byte(b);
        let r = url_encoded(bytes.drop_first());
        lemma_ascii_bytes_concat(e, r);
        let all = ascii_bytes(e) + ascii_bytes(r);
        lemma_decode_encoded_bytes(bytes.drop_first());
        if is_unreserved(b) {
            assert(all[0] == b);
            assert(all.skip(1) =~= ascii_bytes(r));
            assert(percent_decoded(all) =~= seq![b] + bytes.drop_first());
        } else {
            let hi = (b / 16) as nat;
            let lo = (b % 16) as nat;
            assert(all[0] == 37u8);
            assert(hex_value(all[1]) == Some(hi));
            assert(hex_value(all[2]) == Some(lo));
            assert(hi * 16 + lo == b);
            assert(all.skip(3) =~= ascii_bytes(r));
            assert(percent_decoded(all) =~= seq![b] + bytes.drop_first());
        }
        assert(seq![b] + bytes.drop_first() =~= bytes);
    }
}

/// Decoding undoes encoding: for every text `s`, percent-decoding the
/// percent-encoding of `s` gives back exactly the UTF-8 bytes of `s`, and so
/// `percent_decode(&urlencode(s))` is `s`.
pub proof fn law_percent_decode_undoes_urlencode(s: Seq<char>)
    ensures
        percent_decoded(encode_utf8(url_encoded(encode_utf8(s)))) == encode_utf8(s),
        percent_decoded_text(url_encoded(encode_utf8(s))) == s,
{
    let enc = url_encoded(encode_utf8(s));
    lemma_url_encoded_ascii(encode_utf8(s));
    is_ascii_chars_encode_utf8(enc);
    assert(encode_utf8(enc) =~= ascii_bytes(enc));
    lemma_decode_encoded_bytes(encode_utf8(s));
    encode_utf8_valid_utf8(s);
    encode_utf8_decode_utf8(s);
}

/// The redirect carries the code back: a loopback request whose query is
/// `code=` followed by the percent-encoding of a code yields exactly that code.
pub proof fn law_redirect_yields_encoded_code(code: Seq<char>)
    ensures
        redirect_outcome("GET /?code="@ + url_encoded(encode_utf8(code)) + " HTTP/1.1"@)
            == Ok::<Seq<char>, Seq<char>>(code),
{
    let e = url_encoded(encode_utf8(code));
    reveal_strlit("GET /?code=");
    reveal_strlit(" HTTP/1.1");
    reveal_strlit("GET ");
    reveal_strlit("code");
    reveal_strlit("code=");
    lemma_url_encoded_has_no_separator(encode_utf8(code));
    let line = "GET /?code="@ + e + " HTTP/1.1"@;
    assert(line.take(4) =~= "GET "@);
    let rest = line.skip(4);
    let n: int = 7 + e.len() as int;
    assert(rest[n] == ' ');
    assert forall|j: int| 0 <= j < n implies rest[j] != ' ' by {
        if j >= 7 {
            assert(rest[j] == e[j - 7]);
        }
    }
    lemma_first_index_found(rest, ' ', n);
    let target = rest.take(n);
    assert(request_target(line) == Some(target));
    assert(target[1] == '?');
    assert(target[0] != '?');
    lemma_first_index_found(target, '?', 1);
    let q = target.skip(2);
    assert(q =~= "code="@ + e);
    assert forall|j: int| 0 <= j < q.len() implies q[j] != '&' by {
        if j >= 5 {
            assert(q[j] == e[j - 5]);
        }
    }
    lemma_split_on_without_sep(q, '&');
    assert forall|j: int| 0 <= j < 4 implies q[j] != '=' by {}
    lemma_first_index_found(q, '=', 4);
    assert(q.take(4) =~= "code"@);
    assert(q.skip(5) =~= e);
    assert(seq![q].drop_last() =~= Seq::<Seq<char>>::empty());
    assert(seq![q].last() == q);
    assert(scan_pairs(Seq::<Seq<char>>::empty()) == RedirectScan::NoCode);
    assert(!(scan_pairs(seq![q].drop_last()) is Failed));
    assert(split_once(q, '=') == Some((q.take(4), q.skip(5))));
    assert(scan_pairs(seq![q]) == RedirectScan::Code(e));
    law_percent_decode_undoes_urlencode(code);
}

} // verus!
