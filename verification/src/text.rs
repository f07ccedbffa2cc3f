//! Character-level helpers shared by the parsers and formatters of the crate.

use vstd::prelude::*;
use vstd::std_specs::iter::IteratorSpec;

verus! {

broadcast use vstd::string::group_string_axioms;

/// Index of the first occurrence of `c` in `s`, if any.
pub open spec fn first_index(s: Seq<char>, c: char) -> Option<int>
    decreases s.len(),
{
    if s.len() == 0 {
        None
    } else if s[0] == c {
        Some(0)
    } else {
        match first_index(s.drop_first(), c) {
            Some(i) => Some(i + 1),
            None => None,
        }
    }
}

/// `s` cut at its first `c`: the part before it and the part after it.
pub open spec fn split_once(s: Seq<char>, c: char) -> Option<(Seq<char>, Seq<char>)> {
    match first_index(s, c) {
        Some(i) => Some((s.take(i), s.skip(i + 1))),
        None => None,
    }
}

/// The pieces of `s` between the occurrences of `sep` (an empty `s` has one empty piece).
pub open spec fn split_on(s: Seq<char>, sep: char) -> Seq<Seq<char>>
    decreases s.len(),
{
    if s.len() == 0 {
        seq![Seq::<char>::empty()]
    } else {
        let p = split_on(s.drop_last(), sep);
        if s.last() == sep {
            p.push(Seq::<char>::empty())
        } else {
            p.update(p.len() - 1, p.last().push(s.last()))
        }
    }
}

/// Decimal digits of `n`, most significant first, without leading zeros.
pub open spec fn decimal(n: nat) -> Seq<char>
    decreases n,
{
    if n < 10 {
        seq![digit_char(n)]
    } else {
        decimal(n / 10).push(digit_char(n % 10))
    }
}

/// The ASCII digit for `d` in `0..10`.
pub open spec fn digit_char(d: nat) -> char {
    ((d + 48) as u32) as char
}

pub proof fn lemma_first_index_found(s: Seq<char>, c: char, i: int)
    requires
        0 <= i < s.len(),
        s[i] == c,
        forall|j: int| 0 <= j < i ==> s[j] != c,
    ensures
        first_index(s, c) == Some(i),
    decreases s.len(),
{
    if i > 0 {
        lemma_first_index_found(s.drop_first(), c, i - 1);
    }
}

pub proof fn lemma_first_index_absent(s: Seq<char>, c: char)
    requires
        forall|j: int| 0 <= j < s.len() ==> s[j] != c,
    ensures
        first_index(s, c) is None,
    decreases s.len(),
{
    if s.len() > 0 {
        lemma_first_index_absent(s.drop_first(), c);
    }
}

pub proof fn lemma_first_index_bounds(s: Seq<char>, c: char)
    ensures
        first_index(s, c) matches Some(i) ==> 0 <= i < s.len() && s[i] == c && forall|j: int|
            0 <= j < i ==> s[j] != c,
        first_index(s, c) is None ==> forall|j: int| 0 <= j < s.len() ==> s[j] != c,
    decreases s.len(),
{
    if s.len() > 0 {
        lemma_first_index_bounds(s.drop_first(), c);
        if s[0] != c {
            assert forall|j: int| 1 <= j < s.len() implies s[j] == s.drop_first()[j - 1] by {}
        }
    }
}

pub proof fn lemma_push_contains<A>(s: Seq<A>, a: A, t: A)
    ensures
        s.push(a).contains(t) <==> (s.contains(t) || t == a),
{
    if s.contains(t) {
        let j = choose|j: int| 0 <= j < s.len() && s[j] == t;
        assert(s.push(a)[j] == t);
    }
    if t == a {
        assert(s.push(a)[s.len() as int] == a);
    }
    if s.push(a).contains(t) {
        let j = choose|j: int| 0 <= j < s.push(a).len() && s.push(a)[j] == t;
        if j < s.len() {
            assert(s[j] == t);
        }
    }
}

pub proof fn lemma_push_no_duplicates<A>(s: Seq<A>, a: A)
    requires
        s.no_duplicates(),
        !s.contains(a),
    ensures
        s.push(a).no_duplicates(),
{
    let t = s.push(a);
    assert forall|i: int, j: int| 0 <= i < t.len() && 0 <= j < t.len() && i != j implies t[i]
        != t[j] by {
        if i < s.len() && j < s.len() {
            assert(t[i] == s[i] && t[j] == s[j]);
        } else if i < s.len() {
            assert(t[i] == s[i]);
        } else {
            assert(t[j] == s[j]);
        }
    }
}

pub proof fn lemma_split_on_without_sep(s: Seq<char>, sep: char)
    requires
        forall|j: int| 0 <= j < s.len() ==> s[j] != sep,
    ensures
        split_on(s, sep) == seq![s],
    decreases s.len(),
{
    if s.len() == 0 {
        assert(s =~= Seq::<char>::empty());
    } else {
        lemma_split_on_without_sep(s.drop_last(), sep);
        assert(s.drop_last().push(s.last()) =~= s);
        assert(split_on(s, sep) =~= seq![s]);
    }
}

/// Splitting after a separator: the pieces of `p`, then the separator-free
/// tail `q` as one more piece.
pub proof fn lemma_split_on_after_sep(p: Seq<char>, sep: char, q: Seq<char>)
    requires
        forall|j: int| 0 <= j < q.len() ==> q[j] != sep,
    ensures
        split_on(p.push(sep) + q, sep) == split_on(p, sep).push(q),
    decreases q.len(),
{
    if q.len() == 0 {
        assert(p.push(sep) + q =~= p.push(sep));
        assert(p.push(sep).drop_last() =~= p);
        assert(q =~= Seq::<char>::empty());
    } else {
        let qd = q.drop_last();
        lemma_split_on_after_sep(p, sep, qd);
        let whole = p.push(sep) + q;
        assert(whole.drop_last() =~= p.push(sep) + qd);
        assert(whole.last() == q.last());
        assert(qd.push(q.last()) =~= q);
        assert(split_on(whole, sep) =~= split_on(p, sep).push(q));
    }
}

pub proof fn lemma_split_on_nonempty(s: Seq<char>, sep: char)
    ensures
        split_on(s, sep).len() >= 1,
    decreases s.len(),
{
    if s.len() > 0 {
        lemma_split_on_nonempty(s.drop_last(), sep);
    }
}

/// The characters of `s`, in order.
pub fn chars_of(s: &str) -> (r: Vec<char>)
    ensures
        r@ == s@,
{
    let mut out: Vec<char> = Vec::new();
    let mut it = s.chars();
    loop
        invariant
            it.obeys_prophetic_iter_laws(),
            it.decrease() is Some,
            out@ + it.remaining() == s@,
        decreases it.decrease()->0,
    {
        match it.next() {
            Some(c) => {
                out.push(c);
                assert(out@ + it.remaining() =~= s@);
            },
            None => {
                assert(out@ =~= s@);
                return out;
            },
        }
    }
}

/// Collects characters into a `String` (std's `FromIterator<char>` for `String`).
#[verifier::external_body]
pub(crate) fn string_from_chars(cs: &[char]) -> (s: String)
    ensures
        s@ == cs@,
{
    cs.iter().collect()
}

/// Whether the two character sequences are equal.
pub fn chars_equal(a: &[char], b: &[char]) -> (r: bool)
    ensures
        r == (a@ == b@),
{
    if a.len() != b.len() {
        return false;
    }
    let mut i: usize = 0;
    while i < a.len()
        invariant
            a.len() == b.len(),
            i <= a.len(),
            forall|j: int| 0 <= j < i ==> a@[j] == b@[j],
        decreases a.len() - i,
    {
        if a[i] != b[i] {
            return false;
        }
        i = i + 1;
    }
    assert(a@ =~= b@);
    true
}

/// Whether the two texts are equal.
pub fn str_equal(a: &str, b: &str) -> (r: bool)
    ensures
        r == (a@ == b@),
{
    let ca = chars_of(a);
    let cb = chars_of(b);
    chars_equal(ca.as_slice(), cb.as_slice())
}

/// Whether `s` begins with `prefix`.
pub fn starts_with(s: &[char], prefix: &[char]) -> (r: bool)
    ensures
        r == (prefix@.len() <= s@.len() && s@.take(prefix@.len() as int) == prefix@),
{
    if prefix.len() > s.len() {
        return false;
    }
    let mut i: usize = 0;
    while i < prefix.len()
        invariant
            prefix.len() <= s.len(),
            i <= prefix.len(),
            forall|j: int| 0 <= j < i ==> s@[j] == prefix@[j],
        decreases prefix.len() - i,
    {
        if s[i] != prefix[i] {
            assert(s@.take(prefix@.len() as int)[i as int] != prefix@[i as int]);
            return false;
        }
        i = i + 1;
    }
    assert(s@.take(prefix@.len() as int) =~= prefix@);
    true
}

/// Position of the first `c` in `s`.
pub fn find_char(s: &[char], c: char) -> (r: Option<usize>)
    ensures
        r matches Some(i) ==> first_index(s@, c) == Some(i as int),
        r is None ==> first_index(s@, c) is None,
{
    let mut i: usize = 0;
    while i < s.len()
        invariant
            i <= s.len(),
            forall|j: int| 0 <= j < i ==> s@[j] != c,
        decreases s.len() - i,
    {
        if s[i] == c {
            proof {
                lemma_first_index_found(s@, c, i as int);
            }
            return Some(i);
        }
        i = i + 1;
    }
    proof {
        lemma_first_index_absent(s@, c);
    }
    None
}

/// The characters of `s` from `from` (included) to `to` (excluded).
pub fn sub_chars(s: &[char], from: usize, to: usize) -> (r: Vec<char>)
    requires
        from <= to <= s@.len(),
    ensures
        r@ == s@.subrange(from as int, to as int),
{
    let mut out: Vec<char> = Vec::new();
    let mut i: usize = from;
    while i < to
        invariant
            from <= i <= to <= s@.len(),
            out@ == s@.subrange(from as int, i as int),
        decreases to - i,
    {
        out.push(s[i]);
        i = i + 1;
        assert(out@ =~= s@.subrange(from as int, i as int));
    }
    out
}

/// The pieces of `s` between the occurrences of `sep`.
pub fn split_chars(s: &[char], sep: char) -> (r: Vec<Vec<char>>)
    ensures
        r@.len() == split_on(s@, sep).len(),
        forall|k: int| 0 <= k < r@.len() ==> #[trigger] r@[k]@ == split_on(s@, sep)[k],
{
    let mut pieces: Vec<Vec<char>> = Vec::new();
    let mut cur: Vec<char> = Vec::new();
    let mut i: usize = 0;
    proof {
        assert(s@.take(0) =~= Seq::<char>::empty());
    }
    while i < s.len()
        invariant
            i <= s@.len(),
            pieces@.len() + 1 == split_on(s@.take(i as int), sep).len(),
            forall|k: int| 0 <= k < pieces@.len() ==> #[trigger] pieces@[k]@ == split_on(
                s@.take(i as int),
                sep,
            )[k],
            cur@ == split_on(s@.take(i as int), sep).last(),
        decreases s@.len() - i,
    {
        let ghost prev = s@.take(i as int);
        let c = s[i];
        assert(s@.take(i + 1).drop_last() =~= prev);
        proof {
            lemma_split_on_nonempty(prev, sep);
        }
        if c == sep {
            pieces.push(cur);
            cur = Vec::new();
        } else {
            cur.push(c);
        }
        i = i + 1;
    }
    assert(s@.take(i as int) =~= s@);
    pieces.push(cur);
    pieces
}

/// Appends the decimal digits of `n` to `out`.
pub fn push_decimal(out: &mut Vec<char>, n: u32)
    ensures
        final(out)@ == old(out)@ + decimal(n as nat),
    decreases n,
{
    if n < 10 {
        out.push(digit_of(n));
    } else {
        push_decimal(out, n / 10);
        out.push(digit_of(n % 10));
    }
    assert(out@ =~= old(out)@ + decimal(n as nat)) by {
        reveal_with_fuel(decimal, 2);
    }
}

/// The ASCII digit for `d`.
pub fn digit_of(d: u32) -> (c: char)
    requires
        d < 10,
    ensures
        c == digit_char(d as nat),
{
    let c = match d {
        0 => '0',
        1 => '1',
        2 => '2',
        3 => '3',
        4 => '4',
        5 => '5',
        6 => '6',
        7 => '7',
        8 => '8',
        _ => '9',
    };
    c
}

} // verus!
