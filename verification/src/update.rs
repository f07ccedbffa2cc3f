//! "Check for updates": compares the local version with the latest release
//! tag and decides what to tell the user. There is no automatic update: the
//! user is informed and decides.

use vstd::prelude::*;

use crate::auth::{json_string_member, json_top_level_string};
use crate::text::{
    chars_of, decimal, lemma_split_on_after_sep, lemma_split_on_without_sep, split_chars, split_on,
    string_from_chars, sub_chars,
};

verus! {

broadcast use vstd::string::group_string_axioms;

/// Page of the latest release, opened when a newer version exists.
pub const RELEASES_PAGE: &'static str = "https://github.com/pamasse/avion-messager-rs/releases/latest";

/// API endpoint that describes the latest release.
pub const RELEASES_API: &'static str =
    "https://api.github.com/repos/pamasse/avion-messager-rs/releases/latest";

// ---------------------------------------------------------------------------
// Text primitives of std, as std documents them
// ---------------------------------------------------------------------------

/// Unicode `White_Space` property, which `char::is_whitespace` and
/// `str::trim` follow.
pub open spec fn is_white_space(c: char) -> bool {
    let u = c as u32;
    ||| 0x09 <= u <= 0x0d
    ||| u == 0x20
    ||| u == 0x85
    ||| u == 0xa0
    ||| u == 0x1680
    ||| 0x2000 <= u <= 0x200a
    ||| u == 0x2028
    ||| u == 0x2029
    ||| u == 0x202f
    ||| u == 0x205f
    ||| u == 0x3000
}

fn white_space(c: char) -> (r: bool)
    ensures
        r == is_white_space(c),
{
    let u = c as u32;
    (0x09 <= u && u <= 0x0d) || u == 0x20 || u == 0x85 || u == 0xa0 || u == 0x1680 || (0x2000
        <= u && u <= 0x200a) || u == 0x2028 || u == 0x2029 || u == 0x202f || u == 0x205f || u
        == 0x3000
}

/// `s` without its leading white space.
pub open spec fn trim_start_ws(s: Seq<char>) -> Seq<char>
    decreases s.len(),
{
    if s.len() > 0 && is_white_space(s[0]) {
        trim_start_ws(s.drop_first())
    } else {
        s
    }
}

/// `s` without its trailing white space.
pub open spec fn trim_end_ws(s: Seq<char>) -> Seq<char>
    decreases s.len(),
{
    if s.len() > 0 && is_white_space(s.last()) {
        trim_end_ws(s.drop_last())
    } else {
        s
    }
}

/// `s` without its leading occurrences of `c` (`str::trim_start_matches`).
pub open spec fn strip_leading(s: Seq<char>, c: char) -> Seq<char>
    decreases s.len(),
{
    if s.len() > 0 && s[0] == c {
        strip_leading(s.drop_first(), c)
    } else {
        s
    }
}

/// Value of a string of ASCII decimal digits.
pub open spec fn digits_value(d: Seq<char>) -> nat
    decreases d.len(),
{
    if d.len() == 0 {
        0
    } else {
        digits_value(d.drop_last()) * 10 + ((d.last() as u32) - 48) as nat
    }
}

pub open spec fn is_ascii_digit(c: char) -> bool {
    '0' <= c <= '9'
}

/// Every character is an ASCII digit.
pub open spec fn all_digits(d: Seq<char>) -> bool {
    forall|i: int| 0 <= i < d.len() ==> is_ascii_digit(#[trigger] d[i])
}

/// The text after an optional leading `+`.
pub open spec fn unsigned_digits(s: Seq<char>) -> Seq<char> {
    if s.len() > 0 && s[0] == '+' {
        s.drop_first()
    } else {
        s
    }
}

/// What `u32::from_str` reads: an optional `+` and at least one ASCII
/// digit, whose value fits in a `u32`.
pub open spec fn parse_u32(s: Seq<char>) -> Option<u32> {
    let d = unsigned_digits(s);
    if d.len() > 0 && all_digits(d) && digits_value(d) <= u32::MAX {
        Some(digits_value(d) as u32)
    } else {
        None
    }
}

proof fn lemma_trim_start(s: Seq<char>, i: int)
    requires
        0 <= i <= s.len(),
        forall|j: int| 0 <= j < i ==> is_white_space(#[trigger] s[j]),
        i == s.len() || !is_white_space(s[i]),
    ensures
        trim_start_ws(s) == s.skip(i),
    decreases i,
{
    if i == 0 {
        assert(s.skip(0) =~= s);
    } else {
        lemma_trim_start(s.drop_first(), i - 1);
        assert(s.drop_first().skip(i - 1) =~= s.skip(i));
    }
}

proof fn lemma_trim_end(s: Seq<char>, j: int)
    requires
        0 <= j <= s.len(),
        forall|k: int| j <= k < s.len() ==> is_white_space(#[trigger] s[k]),
        j == 0 || !is_white_space(s[j - 1]),
    ensures
        trim_end_ws(s) == s.take(j),
    decreases s.len() - j,
{
    if j == s.len() {
        assert(s.take(j) =~= s);
    } else {
        lemma_trim_end(s.drop_last(), j);
        assert(s.drop_last().take(j) =~= s.take(j));
    }
}

proof fn lemma_strip_leading(s: Seq<char>, c: char, i: int)
    requires
        0 <= i <= s.len(),
        forall|j: int| 0 <= j < i ==> #[trigger] s[j] == c,
        i == s.len() || s[i] != c,
    ensures
        strip_leading(s, c) == s.skip(i),
    decreases i,
{
    if i == 0 {
        assert(s.skip(0) =~= s);
    } else {
        lemma_strip_leading(s.drop_first(), c, i - 1);
        assert(s.drop_first().skip(i - 1) =~= s.skip(i));
    }
}

proof fn lemma_digits_value_grows(d: Seq<char>, k: int)
    requires
        0 <= k <= d.len(),
        forall|i: int| 0 <= i < d.len() ==> is_ascii_digit(#[trigger] d[i]),
    ensures
        digits_value(d.take(k)) <= digits_value(d),
    decreases d.len() - k,
{
    if k < d.len() {
        assert(d.drop_last().take(k) =~= d.take(k));
        assert forall|i: int| 0 <= i < d.drop_last().len() implies is_ascii_digit(
            #[trigger] d.drop_last()[i],
        ) by {
            assert(d.drop_last()[i] == d[i]);
        }
        lemma_digits_value_grows(d.drop_last(), k);
    } else {
        assert(d.take(k) =~= d);
    }
}

/// `str::trim`: the text without leading and trailing white space.
pub fn trim(s: &[char]) -> (r: Vec<char>)
    ensures
        r@ == trim_end_ws(trim_start_ws(s@)),
{
    let mut i: usize = 0;
    while i < s.len() && white_space(s[i])
        invariant
            i <= s@.len(),
            forall|j: int| 0 <= j < i ==> is_white_space(#[trigger] s@[j]),
        decreases s@.len() - i,
    {
        i = i + 1;
    }
    proof {
        lemma_trim_start(s@, i as int);
    }
    let mut j: usize = s.len();
    while j > i && white_space(s[j - 1])
        invariant
            i <= j <= s@.len(),
            forall|k: int| j <= k < s@.len() ==> is_white_space(#[trigger] s@[k]),
        decreases j,
    {
        j = j - 1;
    }
    let r = sub_chars(s, i, j);
    proof {
        let t = s@.skip(i as int);
        assert forall|k: int| j - i <= k < t.len() implies is_white_space(#[trigger] t[k]) by {
            assert(t[k] == s@[k + i]);
        }
        if j > i {
            assert(t[j - i - 1] == s@[j - 1]);
        }
        lemma_trim_end(t, (j - i) as int);
        assert(t.take((j - i) as int) =~= r@);
    }
    r
}

/// `str::trim_start_matches(c)`: the text without its leading `c`s.
pub fn trim_start_matches(s: &[char], c: char) -> (r: Vec<char>)
    ensures
        r@ == strip_leading(s@, c),
{
    let mut i: usize = 0;
    while i < s.len() && s[i] == c
        invariant
            i <= s@.len(),
            forall|j: int| 0 <= j < i ==> #[trigger] s@[j] == c,
        decreases s@.len() - i,
    {
        i = i + 1;
    }
    proof {
        lemma_strip_leading(s@, c, i as int);
    }
    sub_chars(s, i, s.len())
}

/// `u32::from_str`: an optional `+` and decimal digits that fit in a `u32`.
pub fn parse_u32_text(s: &[char]) -> (r: Option<u32>)
    ensures
        r == parse_u32(s@),
{
    let start: usize = if s.len() > 0 && s[0] == '+' {
        1
    } else {
        0
    };
    let ghost d = unsigned_digits(s@);
    assert(d =~= s@.skip(start as int));
    if start == s.len() {
        return None;
    }
    let mut v: u64 = 0;
    let mut i: usize = start;
    while i < s.len()
        invariant
            start <= i <= s@.len(),
            d =~= s@.skip(start as int),
            d == unsigned_digits(s@),
            d.len() > 0,
            forall|k: int| 0 <= k < i - start ==> is_ascii_digit(#[trigger] d[k]),
            v == digits_value(d.take(i - start)),
            v <= u32::MAX,
        decreases s@.len() - i,
    {
        let c = s[i];
        let ghost k = i - start;
        assert(d[k] == c);
        if !('0' <= c && c <= '9') {
            assert(!is_ascii_digit(d[k]));
            return None;
        }
        let digit = (c as u32 - 48) as u64;
        assert(d.take(k + 1).drop_last() =~= d.take(k));
        assert(d.take(k + 1).last() == c);
        assert(digits_value(d.take(k + 1)) == digits_value(d.take(k)) * 10 + digit);
        v = v * 10 + digit;
        i = i + 1;
        if v > 0xffff_ffff {
            proof {
                if all_digits(d) {
                    lemma_digits_value_grows(d, k + 1);
                    assert(digits_value(d) > u32::MAX);
                }
            }
            return None;
        }
    }
    assert(d.take(i - start) =~= d);
    Some(v as u32)
}

// ---------------------------------------------------------------------------
// Versions
// ---------------------------------------------------------------------------

/// The version that a tag or version text names: white space trimmed, any
/// leading `v` dropped, then the first three `.`-separated numbers.
pub open spec fn parsed_version(s: Seq<char>) -> Option<(u32, u32, u32)> {
    let parts = split_on(strip_leading(trim_end_ws(trim_start_ws(s)), 'v'), '.');
    if parts.len() >= 3 {
        match (parse_u32(parts[0]), parse_u32(parts[1]), parse_u32(parts[2])) {
            (Some(a), Some(b), Some(c)) => Some((a, b, c)),
            _ => None,
        }
    } else {
        None
    }
}

/// Lexicographic order of version triples.
pub open spec fn version_greater(t: (u32, u32, u32), c: (u32, u32, u32)) -> bool {
    ||| t.0 > c.0
    ||| t.0 == c.0 && t.1 > c.1
    ||| t.0 == c.0 && t.1 == c.1 && t.2 > c.2
}

/// `tag` names a version strictly greater than `current`; a text that names
/// no version is never newer, nor older.
pub open spec fn newer(tag: Seq<char>, current: Seq<char>) -> bool {
    match (parsed_version(tag), parsed_version(current)) {
        (Some(t), Some(c)) => version_greater(t, c),
        _ => false,
    }
}

/// Reads a version text such as `v0.1.10` as its three numbers.
pub fn parse_version(s: &str) -> (r: Option<(u32, u32, u32)>)
    ensures
        r == parsed_version(s@),
{
    let cs = chars_of(s);
    let trimmed = trim(cs.as_slice());
    let bare = trim_start_matches(trimmed.as_slice(), 'v');
    let parts = split_chars(bare.as_slice(), '.');
    if parts.len() < 3 {
        return None;
    }
    let a = parse_u32_text(parts[0].as_slice());
    let b = parse_u32_text(parts[1].as_slice());
    let c = parse_u32_text(parts[2].as_slice());
    match (a, b, c) {
        (Some(a), Some(b), Some(c)) => Some((a, b, c)),
        _ => None,
    }
}

/// Whether the release `tag` is newer than the `current` version; numbers
/// compare numerically, and unreadable versions are never newer.
pub fn is_newer(tag: &str, current: &str) -> (r: bool)
    ensures
        r == newer(tag@, current@),
{
    match (parse_version(tag), parse_version(current)) {
        (Some(t), Some(c)) => t.0 > c.0 || (t.0 == c.0 && t.1 > c.1) || (t.0 == c.0 && t.1 == c.1
            && t.2 > c.2),
        _ => false,
    }
}

// ---------------------------------------------------------------------------
// What to tell the user
// ---------------------------------------------------------------------------

/// The tag of the latest release: the string member `tag_name` of the JSON
/// object that describes it.
pub fn release_tag(body: &str) -> (r: Option<String>)
    ensures
        match r {
            Some(t) => json_string_member(body@, "tag_name"@) == Some(t@),
            None => json_string_member(body@, "tag_name"@) is None,
        },
{
    json_top_level_string(body, "tag_name")
}

/// The answer to "check for updates".
pub enum UpdateAction {
    /// A newer release exists: open its page.
    OpenReleasePage,
    /// Tell the user this message.
    Inform(String),
}

/// The message when the running version is the latest.
pub open spec fn up_to_date_message(current: Seq<char>) -> Seq<char> {
    "Avion Messager est à jour (v"@ + current + ")."@
}

/// The message when the latest release could not be fetched.
pub open spec fn check_failed_message() -> Seq<char> {
    "Impossible de vérifier les mises à jour — réessaie plus tard."@
}

/// Decides the answer from the latest release tag (if it could be fetched)
/// and the running version.
pub fn update_action(latest_tag: Option<&str>, current: &str) -> (a: UpdateAction)
    ensures
        match latest_tag {
            Some(t) => if newer(t@, current@) {
                a is OpenReleasePage
            } else {
                a matches UpdateAction::Inform(m) && m@ == up_to_date_message(current@)
            },
            None => a matches UpdateAction::Inform(m) && m@ == check_failed_message(),
        },
{
    match latest_tag {
        Some(t) => {
            if is_newer(t, current) {
                UpdateAction::OpenReleasePage
            } else {
                let mut m = String::new();
                m.append("Avion Messager est à jour (v");
                m.append(current);
                m.append(").");
                UpdateAction::Inform(m)
            }
        },
        None => {
            let m = string_from_chars(
                chars_of("Impossible de vérifier les mises à jour — réessaie plus tard.").as_slice(),
            );
            UpdateAction::Inform(m)
        },
    }
}

// ---------------------------------------------------------------------------
// Laws
// ---------------------------------------------------------------------------

/// "Newer" is a strict order on version texts: no version is newer than
/// itself, of two versions at most one is newer than the other, and it
/// chains.
pub proof fn law_newer_is_strict_order(a: Seq<char>, b: Seq<char>, c: Seq<char>)
    ensures
        !newer(a, a),
        newer(a, b) ==> !newer(b, a),
        newer(a, b) && newer(b, c) ==> newer(a, c),
{
}

/// Versions compare part by part, numerically: a greater major version is
/// newer whatever the minor and patch numbers, with equal majors a greater
/// minor is newer whatever the patch, and with equal majors and minors the
/// patch decides.
pub proof fn law_newer_compares_major_then_minor_then_patch(
    tag: Seq<char>,
    current: Seq<char>,
    t: (u32, u32, u32),
    c: (u32, u32, u32),
)
    requires
        parsed_version(tag) == Some(t),
        parsed_version(current) == Some(c),
    ensures
        t.0 > c.0 ==> newer(tag, current),
        t.0 < c.0 ==> !newer(tag, current),
        t.0 == c.0 && t.1 > c.1 ==> newer(tag, current),
        t.0 == c.0 && t.1 < c.1 ==> !newer(tag, current),
        t.0 == c.0 && t.1 == c.1 ==> (newer(tag, current) <==> t.2 > c.2),
{
}

/// A text that names no version is never newer than another, nor is any
/// version newer than it.
pub proof fn law_unreadable_version_is_never_newer(tag: Seq<char>, current: Seq<char>)
    ensures
        parsed_version(tag) is None ==> !newer(tag, current),
        parsed_version(current) is None ==> !newer(tag, current),
{
}

proof fn lemma_decimal_digits(n: nat)
    ensures
        decimal(n).len() > 0,
        all_digits(decimal(n)),
        digits_value(decimal(n)) == n,
        !is_white_space(decimal(n)[0]) && decimal(n)[0] != '+' && decimal(n)[0] != 'v',
        !is_white_space(decimal(n).last()),
        forall|j: int| 0 <= j < decimal(n).len() ==> #[trigger] decimal(n)[j] != '.',
    decreases n,
{
    let ch = crate::text::digit_char(n % 10);
    assert((ch as u32) == n % 10 + 48);
    if n < 10 {
        let d = decimal(n);
        assert(d.drop_last() =~= Seq::<char>::empty());
        assert(digits_value(d.drop_last()) == 0);
    } else {
        lemma_decimal_digits(n / 10);
        let p = decimal(n / 10);
        let d = decimal(n);
        assert(d == p.push(ch));
        assert(d.drop_last() =~= p);
        assert(digits_value(d) == digits_value(p) * 10 + (n % 10));
        assert forall|j: int| 0 <= j < d.len() implies is_ascii_digit(#[trigger] d[j]) && d[j]
            != '.' by {
            if j < p.len() {
                assert(d[j] == p[j]);
            }
        }
        assert(d[0] == p[0]);
    }
}

proof fn lemma_parse_decimal(n: u32)
    ensures
        parse_u32(decimal(n as nat)) == Some(n),
{
    lemma_decimal_digits(n as nat);
    assert(unsigned_digits(decimal(n as nat)) == decimal(n as nat));
}

/// Versions are read numerically: the text `v<a>.<b>.<c>`, with the three
/// numbers written in decimal, names exactly the version (a, b, c).
pub proof fn law_version_text_names_its_numbers(a: u32, b: u32, c: u32)
    ensures
        parsed_version("v"@ + decimal(a as nat) + "."@ + decimal(b as nat) + "."@ + decimal(
            c as nat,
        )) == Some((a, b, c)),
{
    reveal_strlit("v");
    reveal_strlit(".");
    let da = decimal(a as nat);
    let db = decimal(b as nat);
    let dc = decimal(c as nat);
    lemma_decimal_digits(a as nat);
    lemma_decimal_digits(b as nat);
    lemma_decimal_digits(c as nat);
    lemma_parse_decimal(a);
    lemma_parse_decimal(b);
    lemma_parse_decimal(c);
    let s = "v"@ + da + "."@ + db + "."@ + dc;
    let body = da.push('.') + db;
    let rest = body.push('.') + dc;
    assert(s =~= seq!['v'] + rest);
    assert(s[0] == 'v');
    assert(trim_start_ws(s) == s);
    assert(s.last() == dc.last());
    assert(trim_end_ws(s) == s);
    assert(s.drop_first() =~= rest);
    assert(rest[0] == da[0]);
    assert(strip_leading(rest, 'v') == rest);
    assert(strip_leading(s, 'v') == rest);
    lemma_split_on_without_sep(da, '.');
    lemma_split_on_after_sep(da, '.', db);
    lemma_split_on_after_sep(body, '.', dc);
    assert(split_on(rest, '.') =~= seq![da, db, dc]);
}

} // verus!
