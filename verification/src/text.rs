//! Text building blocks: decimal numerals, strings as characters, and fresh names.
use vstd::prelude::*;

verus! {

broadcast use vstd::string::group_string_axioms;

/// The character of a decimal digit `d < 10`.
pub open spec fn digit_char(d: nat) -> char {
    ((48 + d) as u8) as char
}

/// The decimal numeral of a natural number, without leading zeros.
pub open spec fn decimal_nat(n: nat) -> Seq<char>
    decreases n,
{
    if n < 10 {
        seq![digit_char(n)]
    } else {
        decimal_nat(n / 10).push(digit_char(n % 10))
    }
}

/// The decimal numeral of an integer, with a leading `-` when it is negative.
pub open spec fn decimal(x: int) -> Seq<char> {
    if x < 0 {
        seq!['-'] + decimal_nat((-x) as nat)
    } else {
        decimal_nat(x as nat)
    }
}

/// Append the decimal numeral of `n`.
pub fn push_decimal_nat(n: u64, out: &mut Vec<char>)
    ensures
        final(out)@ == old(out)@ + decimal_nat(n as nat),
    decreases n,
{
    if n >= 10 {
        push_decimal_nat(n / 10, out);
    }
    let d = (n % 10) as u8;
    out.push((48u8 + d) as char);
    assert(final(out)@ =~= old(out)@ + decimal_nat(n as nat));
}

/// Append the decimal numeral of `x`.
pub fn push_decimal(x: i64, out: &mut Vec<char>)
    ensures
        final(out)@ == old(out)@ + decimal(x as int),
{
    if x < 0 {
        out.push('-');
        let m: u64 = (0 - (x as i128)) as u64;
        push_decimal_nat(m, out);
        assert(final(out)@ =~= old(out)@ + decimal(x as int));
    } else {
        push_decimal_nat(x as u64, out);
    }
}

/// The characters of a string.
pub fn chars_of(s: &str) -> (v: Vec<char>)
    ensures
        v@ == s@,
{
    let mut v: Vec<char> = Vec::new();
    for c in it: s.chars()
        invariant
            it.seq() == s@,
            v@ == it.seq().take(it.index() as int),
    {
        v.push(c);
    }
    assert(s@.take(s@.len() as int) =~= s@);
    v
}

/// `String::from_iter`: the string made of the given characters, in order.
#[verifier::external_body]
pub(crate) fn string_from_chars(v: &Vec<char>) -> (s: String)
    ensures
        s@ == v@,
{
    v.iter().collect()
}

/// A fresh name: `base` followed by the next value of `counter`, which counts the names made.
pub fn gensym(base: &str, counter: &mut usize) -> (s: String)
    requires
        *old(counter) < usize::MAX,
    ensures
        *final(counter) == *old(counter) + 1,
        s@ == base@ + decimal_nat(*final(counter) as nat),
{
    *counter = *counter + 1;
    let mut v = chars_of(base);
    push_decimal_nat(*counter as u64, &mut v);
    string_from_chars(&v)
}

// ---------------------------------------------------------------------------------------
// Bytes of UTF-8 text
// ---------------------------------------------------------------------------------------

/// The number of bytes of the UTF-8 encoding of `s`.
pub open spec fn utf8_len(s: Seq<char>) -> nat {
    vstd::utf8::encode_utf8(s).len()
}

/// The number of bytes of the UTF-8 encoding of `c`.
pub open spec fn char_width(c: char) -> nat {
    if (c as u32) <= 0x7f {
        1
    } else if (c as u32) <= 0x7ff {
        2
    } else if (c as u32) <= 0xffff {
        3
    } else {
        4
    }
}

/// Encoding two sequences one after the other encodes each.
proof fn lemma_encode_concat(a: Seq<char>, b: Seq<char>)
    ensures
        vstd::utf8::encode_utf8(a + b) == vstd::utf8::encode_utf8(a) + vstd::utf8::encode_utf8(b),
    decreases a.len(),
{
    if a.len() > 0 {
        assert((a + b).drop_first() =~= a.drop_first() + b);
        assert((a + b)[0] == a[0]);
        lemma_encode_concat(a.drop_first(), b);
        assert(vstd::utf8::encode_utf8(a + b) =~= vstd::utf8::encode_utf8(a) + vstd::utf8::encode_utf8(b));
    } else {
        assert(a + b =~= b);
        assert(vstd::utf8::encode_utf8(a) =~= Seq::<u8>::empty());
        assert(Seq::<u8>::empty() + vstd::utf8::encode_utf8(b) =~= vstd::utf8::encode_utf8(b));
    }
}

/// The encoding of two texts one after the other takes the bytes of both.
pub proof fn lemma_utf8_len_concat(a: Seq<char>, b: Seq<char>)
    ensures
        utf8_len(a + b) == utf8_len(a) + utf8_len(b),
{
    lemma_encode_concat(a, b);
}

/// One more character adds its width.
proof fn lemma_utf8_len_push(s: Seq<char>, c: char)
    ensures
        utf8_len(s.push(c)) == utf8_len(s) + char_width(c),
{
    lemma_encode_concat(s, seq![c]);
    assert(s.push(c) =~= s + seq![c]);
    assert(seq![c].drop_first() =~= Seq::<char>::empty());
    vstd::utf8::char_is_scalar(c);
    let e = vstd::utf8::encode_utf8(seq![c]);
    assert(vstd::utf8::encode_utf8(Seq::<char>::empty()) =~= Seq::<u8>::empty());
    assert(e == vstd::utf8::encode_scalar(c as u32) + vstd::utf8::encode_utf8(Seq::<char>::empty()));
    assert(e.len() == vstd::utf8::encode_scalar(c as u32).len());
    assert(vstd::utf8::encode_scalar(c as u32).len() == char_width(c));
}

/// Mapping after pushing pushes the mapped element.
proof fn lemma_map_push<A, B>(s: Seq<A>, x: A, f: spec_fn(A) -> B)
    ensures
        s.push(x).map_values(f) == s.map_values(f).push(f(x)),
{
    assert(s.push(x).map_values(f) =~= s.map_values(f).push(f(x)));
}

/// Longer prefixes take strictly more bytes.
proof fn lemma_utf8_len_prefix(s: Seq<char>, a: int, b: int)
    requires
        0 <= a < b <= s.len(),
    ensures
        utf8_len(s.take(a)) < utf8_len(s.take(b)),
    decreases b - a,
{
    assert(s.take(b) =~= s.take(b - 1).push(s[b - 1]));
    lemma_utf8_len_push(s.take(b - 1), s[b - 1]);
    if a < b - 1 {
        lemma_utf8_len_prefix(s, a, b - 1);
    }
}

/// The character of `s` whose encoding is the single byte at offset `i` of the encoding of
/// `s`, if there is one: the byte range `i..i + 1` holds a whole character.
pub open spec fn byte_char(s: Seq<char>, i: int) -> Option<char> {
    if exists|k: int| 0 <= k < s.len() && utf8_len(#[trigger] s.take(k)) == i && char_width(s[k]) == 1 {
        Some(s[choose|k: int| 0 <= k < s.len() && utf8_len(#[trigger] s.take(k)) == i && char_width(s[k]) == 1])
    } else {
        None
    }
}

/// The width of a character's encoding.
fn width_of(c: char) -> (w: usize)
    ensures
        w == char_width(c),
{
    let v = c as u32;
    if v <= 0x7f {
        1
    } else if v <= 0x7ff {
        2
    } else if v <= 0xffff {
        3
    } else {
        4
    }
}

/// The one-character string at byte offset `i` of `s`, when the bytes `i..i + 1` hold a
/// whole character (see `byte_char`). Offset -1 is left out: there the end of the range
/// overflows.
pub fn char_at(s: &str, i: i64) -> (r: Option<String>)
    requires
        i != -1,
    ensures
        match byte_char(s@, i as int) {
            Some(c) => r matches Some(t) && t@ == seq![c],
            None => r is None,
        },
{
    let v = chars_of(s);
    if i < 0 {
        return None;
    }
    let target = i as u64;
    let mut off: u64 = 0;
    let mut k: usize = 0;
    assert(v@.take(0) =~= Seq::<char>::empty());
    while k < v.len()
        invariant
            v@ == s@,
            0 <= i,
            target == i,
            k <= v@.len(),
            off == utf8_len(v@.take(k as int)),
            off <= target,
            forall|j: int| 0 <= j < k ==> utf8_len(#[trigger] v@.take(j)) < target,
        decreases v@.len() - k,
    {
        if off == target {
            let w = width_of(v[k]);
            proof {
                assert forall|j: int| 0 <= j < v@.len() && utf8_len(#[trigger] v@.take(j)) == i implies j == k by {
                    if j > k {
                        lemma_utf8_len_prefix(v@, k as int, j);
                    }
                }
            }
            if w == 1 {
                let one = vec![v[k]];
                assert(one@ =~= seq![v@[k as int]]);
                return Some(string_from_chars(&one));
            } else {
                return None;
            }
        }
        let w = width_of(v[k]);
        proof {
            assert(v@.take(k + 1) =~= v@.take(k as int).push(v@[k as int]));
            lemma_utf8_len_push(v@.take(k as int), v@[k as int]);
        }
        off = off + w as u64;
        k += 1;
        if off > target {
            proof {
                assert forall|j: int| 0 <= j < v@.len() implies utf8_len(#[trigger] v@.take(j)) != i by {
                    if j >= k {
                        if j > k {
                            lemma_utf8_len_prefix(v@, k as int, j);
                        }
                    }
                }
            }
            return None;
        }
    }
    None
}

// ---------------------------------------------------------------------------------------
// Splitting at a separator
// ---------------------------------------------------------------------------------------

/// The pieces of `s` between the occurrences of the non-empty `sep`, found from the left
/// without overlap: the current piece starts at `a`, and `p` is the next place to look.
pub open spec fn split_from(s: Seq<char>, sep: Seq<char>, a: int, p: int) -> Seq<Seq<char>>
    decreases s.len() - p,
{
    if sep.len() == 0 || p < 0 || p + sep.len() > s.len() {
        seq![s.subrange(a, s.len() as int)]
    } else if s.subrange(p, p + sep.len()) == sep {
        seq![s.subrange(a, p)] + split_from(s, sep, p + sep.len(), p + sep.len())
    } else {
        split_from(s, sep, a, p + 1)
    }
}

/// The pieces that splitting `s` at `sep` gives: for an empty separator, an empty piece,
/// each character, and an empty piece.
pub open spec fn split_pieces(s: Seq<char>, sep: Seq<char>) -> Seq<Seq<char>> {
    if sep.len() == 0 {
        seq![Seq::<char>::empty()] + s.map_values(|c: char| seq![c]) + seq![Seq::<char>::empty()]
    } else {
        split_from(s, sep, 0, 0)
    }
}

/// Whether `sep` occurs in `s` at `p`.
fn occurs_at(s: &Vec<char>, sep: &Vec<char>, p: usize) -> (b: bool)
    requires
        p + sep@.len() <= s@.len(),
    ensures
        b == (s@.subrange(p as int, p + sep@.len()) == sep@),
{
    let n = s.len();
    let mut j: usize = 0;
    while j < sep.len()
        invariant
            n == s@.len(),
            p + sep@.len() <= s@.len(),
            j <= sep@.len(),
            forall|q: int| 0 <= q < j ==> s@[p + q] == sep@[q],
        decreases sep@.len() - j,
    {
        if s[p + j] != sep[j] {
            assert(s@.subrange(p as int, p + sep@.len())[j as int] != sep@[j as int]);
            return false;
        }
        j += 1;
    }
    assert(s@.subrange(p as int, p + sep@.len()) =~= sep@);
    true
}

/// The characters `v[a..b]` as a string.
fn piece(v: &Vec<char>, a: usize, b: usize) -> (t: String)
    requires
        a <= b <= v@.len(),
    ensures
        t@ == v@.subrange(a as int, b as int),
{
    let mut out: Vec<char> = Vec::new();
    let mut q = a;
    while q < b
        invariant
            a <= q <= b <= v@.len(),
            out@ == v@.subrange(a as int, q as int),
        decreases b - q,
    {
        out.push(v[q]);
        q += 1;
        assert(out@ =~= v@.subrange(a as int, q as int));
    }
    string_from_chars(&out)
}

/// `s` split at each occurrence of `sep` (see `split_pieces`).
pub fn split(s: &str, sep: &str) -> (r: Vec<String>)
    ensures
        r@.map_values(|t: String| t@) == split_pieces(s@, sep@),
{
    let v = chars_of(s);
    let w = chars_of(sep);
    let mut out: Vec<String> = Vec::new();
    if w.len() == 0 {
        out.push(string_from_chars(&Vec::new()));
        let mut k: usize = 0;
        while k < v.len()
            invariant
                v@ == s@,
                k <= v@.len(),
                out@.map_values(|t: String| t@) == seq![Seq::<char>::empty()] + v@.take(k as int).map_values(|c: char| seq![c]),
            decreases v@.len() - k,
        {
            let one = vec![v[k]];
            assert(one@ =~= seq![v@[k as int]]);
            let t = string_from_chars(&one);
            let ghost o0 = out@.map_values(|t: String| t@);
            let ghost ov = out@;
            out.push(t);
            proof {
                assert(v@.take(k + 1) =~= v@.take(k as int).push(v@[k as int]));
                lemma_map_push(ov, t, |t: String| t@);
                lemma_map_push(v@.take(k as int), v@[k as int], |c: char| seq![c]);
                assert(out@.map_values(|t: String| t@) =~= o0.push(seq![v@[k as int]]));
                assert(seq![Seq::<char>::empty()] + v@.take(k + 1).map_values(|c: char| seq![c])
                    =~= o0.push(seq![v@[k as int]]));
            }
            k += 1;
        }
        let ghost o1 = out@.map_values(|t: String| t@);
        let ghost ov1 = out@;
        let e = string_from_chars(&Vec::new());
        out.push(e);
        proof {
            lemma_map_push(ov1, e, |t: String| t@);
        }
        assert(v@.take(k as int) =~= v@);
        assert(out@.map_values(|t: String| t@) =~= o1.push(Seq::<char>::empty()));
        return out;
    }
    let n = v.len();
    let m = w.len();
    let mut a: usize = 0;
    let mut p: usize = 0;
    while m <= n - p
        invariant
            v@ == s@,
            w@ == sep@,
            n == v@.len(),
            m == w@.len(),
            m > 0,
            a <= p <= n,
            out@.map_values(|t: String| t@) + split_from(v@, w@, a as int, p as int) == split_from(v@, w@, 0, 0),
        decreases n - p,
    {
        let ghost o0 = out@.map_values(|t: String| t@);
        let ghost ov = out@;
        if occurs_at(&v, &w, p) {
            let t = piece(&v, a, p);
            out.push(t);
            proof {
                lemma_map_push(ov, t, |t: String| t@);
                assert(out@.map_values(|t: String| t@) =~= o0.push(v@.subrange(a as int, p as int)));
                assert(o0 + split_from(v@, w@, a as int, p as int) =~= out@.map_values(|t: String| t@)
                    + split_from(v@, w@, (p + m) as int, (p + m) as int));
            }
            p = p + m;
            a = p;
        } else {
            p = p + 1;
        }
    }
    let ghost o2 = out@.map_values(|t: String| t@);
    let ghost ov2 = out@;
    let last = piece(&v, a, n);
    out.push(last);
    proof {
        lemma_map_push(ov2, last, |t: String| t@);
        assert(out@.map_values(|t: String| t@) =~= o2.push(v@.subrange(a as int, n as int)));
        assert(o2 + split_from(v@, w@, a as int, p as int) =~= out@.map_values(|t: String| t@));
    }
    out
}

// ---------------------------------------------------------------------------------------
// Laws
// ---------------------------------------------------------------------------------------

/// Every numeral has a digit.
proof fn lemma_decimal_nonempty(n: nat)
    ensures
        decimal_nat(n).len() >= 1,
    decreases n,
{
    if n >= 10 {
        lemma_decimal_nonempty(n / 10);
    }
}

/// The character of a digit is its code point.
proof fn lemma_digit_char(d: nat)
    requires
        d < 10,
    ensures
        digit_char(d) as u32 == 48 + d,
{
    let b = (48 + d) as u8;
    assert(b == 48 + d);
    assert((b as char) as u32 == b);
}

/// Different numbers have different numerals.
proof fn lemma_decimal_injective(n: nat, m: nat)
    requires
        decimal_nat(n) == decimal_nat(m),
    ensures
        n == m,
    decreases n,
{
    if n < 10 && m < 10 {
        assert(decimal_nat(n) == seq![digit_char(n)]);
        assert(decimal_nat(m) == seq![digit_char(m)]);
        assert(seq![digit_char(n)][0] == digit_char(n));
        assert(seq![digit_char(m)][0] == digit_char(m));
        assert(digit_char(n) == digit_char(m));
        lemma_digit_char(n);
        lemma_digit_char(m);
    } else if n < 10 {
        lemma_decimal_nonempty(m / 10);
        assert(decimal_nat(m).len() >= 2);
    } else if m < 10 {
        lemma_decimal_nonempty(n / 10);
        assert(decimal_nat(n).len() >= 2);
    } else {
        let a = decimal_nat(n);
        let b = decimal_nat(m);
        assert(a.last() == b.last());
        assert(digit_char(n % 10) == digit_char(m % 10));
        lemma_digit_char(n % 10);
        lemma_digit_char(m % 10);
        assert(n % 10 == m % 10);
        assert(a.drop_last() =~= decimal_nat(n / 10));
        assert(b.drop_last() =~= decimal_nat(m / 10));
        lemma_decimal_injective(n / 10, m / 10);
        assert(n == 10 * (n / 10) + n % 10);
        assert(m == 10 * (m / 10) + m % 10);
    }
}

/// Fresh names are fresh: names made at different counts differ, so no two calls of
/// `gensym` with the same base give the same name.
pub proof fn law_gensym_fresh(base: Seq<char>, n: nat, m: nat)
    requires
        n != m,
    ensures
        base + decimal_nat(n) != base + decimal_nat(m),
{
    if base + decimal_nat(n) == base + decimal_nat(m) {
        assert((base + decimal_nat(n)).skip(base.len() as int) =~= decimal_nat(n));
        assert((base + decimal_nat(m)).skip(base.len() as int) =~= decimal_nat(m));
        lemma_decimal_injective(n, m);
    }
}

/// Joining a first part before at least one more puts the separator after it.
proof fn lemma_join_prepend(x: Seq<char>, rest: Seq<Seq<char>>, sep: Seq<char>)
    requires
        rest.len() >= 1,
    ensures
        crate::data::join(seq![x] + rest, sep) == x + sep + crate::data::join(rest, sep),
    decreases rest.len(),
{
    let all = seq![x] + rest;
    if rest.len() == 1 {
        assert(all.drop_last() =~= seq![x]);
        assert(all.last() == rest[0]);
        assert(crate::data::join(seq![x], sep) == x);
        assert(crate::data::join(rest, sep) == rest[0]);
        assert(crate::data::join(all, sep) == crate::data::join(all.drop_last(), sep) + sep + all.last());
    } else {
        assert(all.drop_last() =~= seq![x] + rest.drop_last());
        lemma_join_prepend(x, rest.drop_last(), sep);
        assert(all.last() == rest.last());
        let j0 = crate::data::join(rest.drop_last(), sep);
        assert(crate::data::join(all, sep) == crate::data::join(all.drop_last(), sep) + sep + all.last());
        assert(crate::data::join(rest, sep) == j0 + sep + rest.last());
        assert(x + sep + j0 + sep + rest.last() =~= x + sep + (j0 + sep + rest.last()));
    }
}

/// The pieces from `a` on, joined with the separator, give back the text from `a` on.
proof fn lemma_split_from_join(s: Seq<char>, sep: Seq<char>, a: int, p: int)
    requires
        sep.len() > 0,
        0 <= a <= p <= s.len(),
    ensures
        split_from(s, sep, a, p).len() >= 1,
        crate::data::join(split_from(s, sep, a, p), sep) == s.subrange(a, s.len() as int),
    decreases s.len() - p,
{
    if p + sep.len() > s.len() {
    } else if s.subrange(p, p + sep.len()) == sep {
        let rest = split_from(s, sep, p + sep.len(), p + sep.len());
        lemma_split_from_join(s, sep, p + sep.len(), p + sep.len());
        lemma_join_prepend(s.subrange(a, p), rest, sep);
        assert(s.subrange(a, p) + sep + s.subrange(p + sep.len(), s.len() as int) =~= s.subrange(a, s.len() as int));
    } else {
        lemma_split_from_join(s, sep, a, p + 1);
    }
}

/// An empty piece and then the first `k` characters, each a piece, joined with nothing
/// between them, give those characters.
proof fn lemma_join_chars(s: Seq<char>, k: int)
    requires
        0 <= k <= s.len(),
    ensures
        crate::data::join(seq![Seq::<char>::empty()] + s.take(k).map_values(|c: char| seq![c]), Seq::<char>::empty())
            == s.take(k),
    decreases k,
{
    let parts = seq![Seq::<char>::empty()] + s.take(k).map_values(|c: char| seq![c]);
    if k == 0 {
        assert(parts =~= seq![Seq::<char>::empty()]);
        assert(s.take(0) =~= Seq::<char>::empty());
    } else {
        lemma_join_chars(s, k - 1);
        assert(parts.drop_last() =~= seq![Seq::<char>::empty()] + s.take(k - 1).map_values(|c: char| seq![c]));
        assert(parts.last() == seq![s[k - 1]]);
        assert(s.take(k - 1) + Seq::<char>::empty() + seq![s[k - 1]] =~= s.take(k));
    }
}

/// Splitting at a separator and joining the pieces with it gives back the text.
pub proof fn law_split_join(s: Seq<char>, sep: Seq<char>)
    ensures
        crate::data::join(split_pieces(s, sep), sep) == s,
{
    if sep.len() > 0 {
        lemma_split_from_join(s, sep, 0, 0);
        assert(s.subrange(0, s.len() as int) =~= s);
    } else {
        assert(sep =~= Seq::<char>::empty());
        lemma_join_chars(s, s.len() as int);
        assert(s.take(s.len() as int) =~= s);
        let front = seq![Seq::<char>::empty()] + s.map_values(|c: char| seq![c]);
        assert(s.take(s.len() as int).map_values(|c: char| seq![c]) =~= s.map_values(|c: char| seq![c]));
        let all = front + seq![Seq::<char>::empty()];
        assert(all.drop_last() =~= front);
        assert(s + Seq::<char>::empty() + Seq::<char>::empty() =~= s);
    }
}

/// `sep` occurs in `t`.
pub open spec fn occurs_in(t: Seq<char>, sep: Seq<char>) -> bool {
    exists|i: int| 0 <= i && i + sep.len() <= t.len() && #[trigger] t.subrange(i, i + sep.len()) == sep
}

/// The pieces from `a` on hold no occurrence of `sep`, when none starts between `a` and `p`.
proof fn lemma_split_from_clean(s: Seq<char>, sep: Seq<char>, a: int, p: int)
    requires
        sep.len() > 0,
        0 <= a <= p <= s.len(),
        forall|q: int| a <= q < p && q + sep.len() <= s.len() ==> #[trigger] s.subrange(q, q + sep.len()) != sep,
    ensures
        forall|k: int| 0 <= k < split_from(s, sep, a, p).len() ==> !occurs_in(#[trigger] split_from(s, sep, a, p)[k], sep),
    decreases s.len() - p,
{
    let r = split_from(s, sep, a, p);
    let l = sep.len();
    if p + l > s.len() {
        let t = s.subrange(a, s.len() as int);
        assert(r == seq![t]);
        if occurs_in(t, sep) {
            let i = choose|i: int| 0 <= i && i + l <= t.len() && #[trigger] t.subrange(i, i + l) == sep;
            assert(t.subrange(i, i + l) =~= s.subrange(a + i, a + i + l));
            assert(s.subrange(a + i, a + i + l) != sep);
        }
        assert forall|k: int| 0 <= k < r.len() implies !occurs_in(#[trigger] r[k], sep) by {
            assert(r[k] == t);
        }
    } else if s.subrange(p, p + l) == sep {
        lemma_split_from_clean(s, sep, p + l, p + l);
        let t = s.subrange(a, p);
        let rest = split_from(s, sep, p + l, p + l);
        assert(r == seq![t] + rest);
        if occurs_in(t, sep) {
            let i = choose|i: int| 0 <= i && i + l <= t.len() && #[trigger] t.subrange(i, i + l) == sep;
            assert(t.subrange(i, i + l) =~= s.subrange(a + i, a + i + l));
            assert(s.subrange(a + i, a + i + l) != sep);
        }
        assert forall|k: int| 0 <= k < r.len() implies !occurs_in(#[trigger] r[k], sep) by {
            if k == 0 {
                assert(r[0] == t);
            } else {
                assert(r[k] == rest[k - 1]);
            }
        }
    } else {
        lemma_split_from_clean(s, sep, a, p + 1);
        assert(r == split_from(s, sep, a, p + 1));
    }
}

/// Splitting at a non-empty separator splits at every occurrence: no piece holds the
/// separator.
pub proof fn law_split_pieces_clean(s: Seq<char>, sep: Seq<char>)
    requires
        sep.len() > 0,
    ensures
        forall|k: int| 0 <= k < split_pieces(s, sep).len() ==> !occurs_in(#[trigger] split_pieces(s, sep)[k], sep),
{
    lemma_split_from_clean(s, sep, 0, 0);
}

/// A window that starts before `p` in the text from `a` to `p` followed by all but the last
/// character of the occurrence of `sep` at `p` is a window of `s`.
proof fn lemma_window_before(s: Seq<char>, sep: Seq<char>, a: int, p: int, i: int)
    requires
        sep.len() > 0,
        0 <= a <= p,
        p + sep.len() <= s.len(),
        s.subrange(p, p + sep.len()) == sep,
        0 <= i,
        i + sep.len() <= p - a + sep.len() - 1,
    ensures
        (s.subrange(a, p) + sep.take(sep.len() - 1)).subrange(i, i + sep.len()) == s.subrange(
            a + i,
            a + i + sep.len(),
        ),
{
    let l = sep.len();
    let u = s.subrange(a, p) + sep.take(l - 1);
    let w = u.subrange(i, i + l);
    let v = s.subrange(a + i, a + i + l);
    assert forall|j: int| 0 <= j < l implies #[trigger] w[j] == v[j] by {
        if i + j < p - a {
            assert(u[i + j] == s.subrange(a, p)[i + j]);
        } else {
            let m = i + j - (p - a);
            assert(u[i + j] == sep.take(l - 1)[m]);
            assert(sep[m] == s.subrange(p, p + l)[m]);
        }
    }
    assert(w =~= v);
}

/// Where no occurrence of `sep` starts between `a` and `p`, the text from `a` up to the last
/// character of an occurrence at `p` holds none.
proof fn lemma_no_earlier_occurrence(s: Seq<char>, sep: Seq<char>, a: int, p: int)
    requires
        sep.len() > 0,
        0 <= a <= p,
        p + sep.len() <= s.len(),
        s.subrange(p, p + sep.len()) == sep,
        forall|q: int| a <= q < p && q + sep.len() <= s.len() ==> #[trigger] s.subrange(q, q + sep.len()) != sep,
    ensures
        !occurs_in(s.subrange(a, p) + sep.take(sep.len() - 1), sep),
{
    let l = sep.len();
    let u = s.subrange(a, p) + sep.take(l - 1);
    if occurs_in(u, sep) {
        let i = choose|i: int| 0 <= i && i + l <= u.len() && #[trigger] u.subrange(i, i + l) == sep;
        lemma_window_before(s, sep, a, p, i);
        assert(s.subrange(a + i, a + i + l) != sep);
    }
}

/// A piece before `sep` together with all but the last character of `sep` holds no
/// occurrence of it, when none starts between `a` and `p`.
proof fn lemma_split_from_leftmost(s: Seq<char>, sep: Seq<char>, a: int, p: int)
    requires
        sep.len() > 0,
        0 <= a <= p <= s.len(),
        forall|q: int| a <= q < p && q + sep.len() <= s.len() ==> #[trigger] s.subrange(q, q + sep.len()) != sep,
    ensures
        forall|k: int| 0 <= k < split_from(s, sep, a, p).len() - 1 ==> !occurs_in(
            #[trigger] split_from(s, sep, a, p)[k] + sep.take(sep.len() - 1),
            sep,
        ),
    decreases s.len() - p,
{
    let r = split_from(s, sep, a, p);
    let l = sep.len();
    if p + l > s.len() {
        assert(r.len() == 1);
    } else if s.subrange(p, p + l) == sep {
        lemma_split_from_leftmost(s, sep, p + l, p + l);
        let t = s.subrange(a, p);
        let rest = split_from(s, sep, p + l, p + l);
        assert(r == seq![t] + rest);
        lemma_no_earlier_occurrence(s, sep, a, p);
        assert forall|k: int| 0 <= k < r.len() - 1 implies !occurs_in(#[trigger] r[k] + sep.take(l - 1), sep) by {
            if k == 0 {
                assert(r[0] == t);
            } else {
                assert(r[k] == rest[k - 1]);
            }
        }
    } else {
        lemma_split_from_leftmost(s, sep, a, p + 1);
        assert(r == split_from(s, sep, a, p + 1));
    }
}

/// Splitting at a non-empty separator cuts at the leftmost occurrence each time: a piece
/// that a separator follows, taken with all but the last character of the separator, holds
/// no occurrence of it, so no earlier cut was possible.
pub proof fn law_split_leftmost(s: Seq<char>, sep: Seq<char>)
    requires
        sep.len() > 0,
    ensures
        forall|k: int| 0 <= k < split_pieces(s, sep).len() - 1 ==> !occurs_in(
            #[trigger] split_pieces(s, sep)[k] + sep.take(sep.len() - 1),
            sep,
        ),
{
    lemma_split_from_leftmost(s, sep, 0, 0);
}

/// Splitting at the empty separator splits between every two characters and at both ends:
/// an empty first and last piece and, between them, each character alone, in order.
pub proof fn law_split_empty_separator(s: Seq<char>)
    ensures
        split_pieces(s, Seq::<char>::empty()).len() == s.len() + 2,
        split_pieces(s, Seq::<char>::empty())[0].len() == 0,
        split_pieces(s, Seq::<char>::empty())[s.len() as int + 1].len() == 0,
        forall|k: int| 0 <= k < s.len() ==> #[trigger] split_pieces(s, Seq::<char>::empty())[k + 1] == seq![s[k]],
{
    let p = split_pieces(s, Seq::<char>::empty());
    assert forall|k: int| 0 <= k < s.len() implies #[trigger] p[k + 1] == seq![s[k]] by {}
}

} // verus!
