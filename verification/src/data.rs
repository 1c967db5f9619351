//! Values of the language as plain data, and how they are written out.
use vstd::prelude::*;

use crate::text::{decimal, lemma_utf8_len_concat, push_decimal, push_decimal_nat, string_from_chars, utf8_len};

verus! {

broadcast use vstd::string::group_string_axioms;

/// A value of the language as plain data: what the parser builds and what printing reads.
#[derive(Debug, PartialEq)]
pub enum Data {
    Int(i64),
    Str(String),
    /// A collection: the entries under integer indices, in increasing order of index, then the
    /// entries under other keys, in the order of the dictionary that holds them.
    Coll(Vec<(usize, Data)>, Vec<(Data, Data)>),
    /// A function, known by a handle that the holder of the functions gives it; printing shows
    /// no more than that it is one.
    Fn(usize),
}

/// Every integer index in the value, at any depth, is below `usize::MAX`, so one past it is
/// still an index.
pub open spec fn indices_below_max(d: Data) -> bool
    decreases d,
{
    match d {
        Data::Coll(xs, kvs) => {
            &&& forall|a: int| 0 <= a < xs@.len() ==> (#[trigger] xs@[a]).0 < usize::MAX && indices_below_max(xs@[a].1)
            &&& forall|b: int| 0 <= b < kvs@.len() ==> indices_below_max((#[trigger] kvs@[b]).0) && indices_below_max(kvs@[b].1)
        },
        _ => true,
    }
}

/// The characters of a string literal.
pub open spec fn chars(s: &str) -> Seq<char> {
    s@
}

/// `parts` joined with `sep` between each two of them.
pub open spec fn join(parts: Seq<Seq<char>>, sep: Seq<char>) -> Seq<char>
    decreases parts.len(),
{
    if parts.len() == 0 {
        seq![]
    } else if parts.len() == 1 {
        parts[0]
    } else {
        join(parts.drop_last(), sep) + sep + parts.last()
    }
}

/// The index that an entry at position `a` of a sparse listing gets without a label: one past
/// the previous entry's index, and 0 for the first.
pub open spec fn expected_index(xs: Seq<(usize, Data)>, a: int) -> int {
    if a == 0 {
        0
    } else {
        xs[a - 1].0 + 1
    }
}

/// How a value is written: strings in double quotes, integers in decimal, functions as
/// `<Fn>`, and collections as their elements between brackets (when they have integer-indexed
/// entries) or braces (when not), separated by single spaces.
pub open spec fn repr(d: Data) -> Seq<char>
    decreases d,
{
    match d {
        Data::Int(x) => decimal(x as int),
        Data::Str(s) => seq!['"'] + s@ + seq!['"'],
        Data::Fn(_) => seq!['<', 'F', 'n', '>'],
        Data::Coll(xs, kvs) => {
            let body = join(
                sparse_elements(xs@, xs@.len()) + dict_elements(kvs@, kvs@.len()),
                seq![' '],
            );
            if xs@.len() > 0 {
                seq!['['] + body + seq![']']
            } else {
                seq!['{'] + body + seq!['}']
            }
        },
    }
}

/// The written elements of the first `n` integer-indexed entries: each value, preceded by
/// `i:` where its index `i` is not one past the previous entry's.
pub open spec fn sparse_elements(xs: Seq<(usize, Data)>, n: nat) -> Seq<Seq<char>>
    decreases xs, n,
{
    if n == 0 || n > xs.len() {
        seq![]
    } else {
        let a = n - 1;
        sparse_elements(xs, (n - 1) as nat) + (if xs[a].0 != expected_index(xs, a) {
            seq![decimal(xs[a].0 as int) + seq![':']]
        } else {
            seq![]
        }) + seq![repr(xs[a].1)]
    }
}

/// The written elements of the first `n` dictionary entries: the key written bare and
/// followed by `:`, then the value.
pub open spec fn dict_elements(kvs: Seq<(Data, Data)>, n: nat) -> Seq<Seq<char>>
    decreases kvs, n,
{
    if n == 0 || n > kvs.len() {
        seq![]
    } else {
        let a = n - 1;
        let key = match kvs[a].0 {
            Data::Str(s) => s@,
            _ => repr(kvs[a].0),
        };
        dict_elements(kvs, (n - 1) as nat) + seq![key + seq![':'], repr(kvs[a].1)]
    }
}

/// Entries at the indices `0, 1, ...` are written without index labels.
proof fn lemma_dense_elements(xs: Seq<(usize, Data)>, n: nat)
    requires
        n <= xs.len(),
        forall|k: int| 0 <= k < xs.len() ==> (#[trigger] xs[k]).0 == k,
    ensures
        sparse_elements(xs, n) == xs.take(n as int).map_values(|p: (usize, Data)| repr(p.1)),
    decreases n,
{
    if n > 0 {
        let a = n - 1;
        lemma_dense_elements(xs, (n - 1) as nat);
        assert(xs[a as int].0 == a);
        if a > 0 {
            assert(xs[a - 1].0 == a - 1);
        }
        assert(xs.take(n as int).map_values(|p: (usize, Data)| repr(p.1)) =~= xs.take(a as int).map_values(
            |p: (usize, Data)| repr(p.1),
        ).push(repr(xs[a as int].1)));
    } else {
        assert(xs.take(0).map_values(|p: (usize, Data)| repr(p.1)) =~= Seq::<Seq<char>>::empty());
    }
}

/// A list is written as the written forms of its items, separated by spaces, between
/// brackets.
pub proof fn law_list_repr(d: Data, items: Seq<Data>)
    requires
        crate::create::is_list(d, items),
        items.len() > 0,
    ensures
        repr(d) == seq!['['] + join(items.map_values(|x: Data| repr(x)), seq![' ']) + seq![']'],
{
    match d {
        Data::Coll(xs, kvs) => {
            lemma_dense_elements(xs@, xs@.len());
            assert(xs@.take(xs@.len() as int) =~= xs@);
            assert(xs@.map_values(|p: (usize, Data)| repr(p.1)) =~= items.map_values(|x: Data| repr(x)));
            assert(dict_elements(kvs@, kvs@.len()) =~= Seq::<Seq<char>>::empty());
            assert(sparse_elements(xs@, xs@.len()) + dict_elements(kvs@, kvs@.len()) =~= items.map_values(
                |x: Data| repr(x),
            ));
        },
        _ => {},
    }
}

/// How a value is written bare: a string as its characters, anything else as `repr`.
pub open spec fn naked_repr(d: Data) -> Seq<char> {
    match d {
        Data::Str(s) => s@,
        _ => repr(d),
    }
}

/// Append `parts` joined by `sep`.
fn push_join(parts: &Vec<Vec<char>>, sep: char, out: &mut Vec<char>)
    ensures
        final(out)@ == old(out)@ + join(parts@.map_values(|p: Vec<char>| p@), seq![sep]),
{
    let ghost ps = parts@.map_values(|p: Vec<char>| p@);
    let ghost o0 = out@;
    let mut a: usize = 0;
    while a < parts.len()
        invariant
            a <= parts@.len(),
            ps == parts@.map_values(|p: Vec<char>| p@),
            out@ == o0 + join(ps.take(a as int), seq![sep]),
        decreases parts@.len() - a,
    {
        if a > 0 {
            out.push(sep);
        }
        let mut k: usize = 0;
        let ghost o1 = out@;
        while k < parts[a].len()
            invariant
                a < parts@.len(),
                k <= parts@[a as int]@.len(),
                out@ == o1 + parts@[a as int]@.take(k as int),
            decreases parts@[a as int]@.len() - k,
        {
            out.push(parts[a][k]);
            k += 1;
            assert(parts@[a as int]@.take(k as int) =~= parts@[a as int]@.take(k - 1).push(parts@[a as int]@[k - 1]));
        }
        assert(parts@[a as int]@.take(k as int) =~= parts@[a as int]@);
        assert(ps.take(a + 1).drop_last() =~= ps.take(a as int));
        if a == 0 {
            assert(ps.take(1) =~= seq![ps[0]]);
        }
        a += 1;
    }
    assert(ps.take(parts@.len() as int) =~= ps);
}

/// Append the characters of a string.
fn push_str(s: &String, out: &mut Vec<char>)
    ensures
        final(out)@ == old(out)@ + s@,
{
    let v = crate::text::chars_of(s.as_str());
    let ghost o0 = out@;
    let mut k: usize = 0;
    while k < v.len()
        invariant
            k <= v@.len(),
            out@ == o0 + v@.take(k as int),
        decreases v@.len() - k,
    {
        out.push(v[k]);
        k += 1;
        assert(v@.take(k as int) =~= v@.take(k - 1).push(v@[k - 1]));
    }
    assert(v@.take(k as int) =~= v@);
}

impl Data {
    /// The characters of `repr`.
    #[verifier::loop_isolation(false)]
    pub fn repr_chars(&self) -> (r: Vec<char>)
        requires
            indices_below_max(*self),
        ensures
            r@ == repr(*self),
        decreases self,
    {
        match self {
            Data::Int(x) => {
                let mut r: Vec<char> = Vec::new();
                push_decimal(*x, &mut r);
                assert(r@ =~= repr(*self));
                r
            },
            Data::Str(s) => {
                let mut r: Vec<char> = Vec::new();
                r.push('"');
                push_str(s, &mut r);
                r.push('"');
                assert(r@ =~= repr(*self));
                r
            },
            Data::Fn(_) => {
                let r = vec!['<', 'F', 'n', '>'];
                assert(r@ =~= repr(*self));
                r
            },
            Data::Coll(xs, kvs) => {
                let mut elements: Vec<Vec<char>> = Vec::new();
                let mut expected_i: usize = 0;
                let mut a: usize = 0;
                while a < xs.len()
                    invariant
                        a <= xs@.len(),
                        elements@.map_values(|p: Vec<char>| p@) == sparse_elements(xs@, a as nat),
                        expected_i == expected_index(xs@, a as int),
                    decreases xs@.len() - a,
                {
                    let ghost e0 = elements@.map_values(|p: Vec<char>| p@);
                    let i = xs[a].0;
                    let ghost gap: Seq<Seq<char>> = if i != expected_i {
                        seq![decimal(i as int) + seq![':']]
                    } else {
                        seq![]
                    };
                    if i != expected_i {
                        let mut label: Vec<char> = Vec::new();
                        push_decimal_nat(i as u64, &mut label);
                        label.push(':');
                        assert(label@ =~= decimal(i as int) + seq![':']);
                        elements.push(label);
                    }
                    assert(elements@.map_values(|p: Vec<char>| p@) =~= e0 + gap);
                    let v = xs[a].1.repr_chars();
                    elements.push(v);
                    assert(elements@.map_values(|p: Vec<char>| p@) =~= e0 + gap + seq![repr(xs@[a as int].1)]);
                    assert(sparse_elements(xs@, (a + 1) as nat) == e0 + gap + seq![repr(xs@[a as int].1)]);
                    expected_i = i + 1;
                    a += 1;
                }
                let ghost ns = elements@.len();
                let mut b: usize = 0;
                while b < kvs.len()
                    invariant
                        b <= kvs@.len(),
                        elements@.map_values(|p: Vec<char>| p@) == sparse_elements(xs@, xs@.len()) + dict_elements(kvs@, b as nat),
                    decreases kvs@.len() - b,
                {
                    let ghost e00 = elements@.map_values(|p: Vec<char>| p@);
                    let ghost kd = kvs@[b as int].0;
                    let ghost kstr = match kd {
                        Data::Str(s) => s@,
                        _ => repr(kd),
                    };
                    let mut key = match &kvs[b].0 {
                        Data::Str(ks) => {
                            let mut key: Vec<char> = Vec::new();
                            push_str(ks, &mut key);
                            key
                        },
                        other => other.repr_chars(),
                    };
                    key.push(':');
                    assert(key@ =~= kstr + seq![':']);
                    elements.push(key);
                    assert(elements@.map_values(|p: Vec<char>| p@) =~= e00 + seq![kstr + seq![':']]);
                    let ghost e0 = elements@.map_values(|p: Vec<char>| p@);
                    let v = kvs[b].1.repr_chars();
                    elements.push(v);
                    assert(elements@.map_values(|p: Vec<char>| p@) =~= e0 + seq![repr(kvs@[b as int].1)]);
                    assert(dict_elements(kvs@, (b + 1) as nat) == dict_elements(kvs@, b as nat) + seq![kstr + seq![':'], repr(kvs@[b as int].1)]);
                    assert(elements@.map_values(|p: Vec<char>| p@) =~= sparse_elements(xs@, xs@.len()) + dict_elements(kvs@, (b + 1) as nat));
                    b += 1;
                }
                let mut r: Vec<char> = Vec::new();
                if xs.len() > 0 {
                    r.push('[');
                    push_join(&elements, ' ', &mut r);
                    r.push(']');
                } else {
                    r.push('{');
                    push_join(&elements, ' ', &mut r);
                    r.push('}');
                }
                assert(r@ =~= repr(*self));
                r
            },
        }
    }

    /// The characters of `naked_repr`.
    pub fn naked_repr_chars(&self) -> (r: Vec<char>)
        requires
            indices_below_max(*self),
        ensures
            r@ == naked_repr(*self),
    {
        match self {
            Data::Str(s) => {
                let mut r: Vec<char> = Vec::new();
                push_str(s, &mut r);
                assert(r@ =~= naked_repr(*self));
                r
            },
            _ => self.repr_chars(),
        }
    }

    /// How the value is written (see `repr`).
    pub fn repr(&self) -> (s: String)
        requires
            indices_below_max(*self),
        ensures
            s@ == repr(*self),
    {
        string_from_chars(&self.repr_chars())
    }

    /// How the value is written bare (see `naked_repr`).
    pub fn naked_repr(&self) -> (s: String)
        requires
            indices_below_max(*self),
        ensures
            s@ == naked_repr(*self),
    {
        string_from_chars(&self.naked_repr_chars())
    }
}

/// The values that `pretty` can lay out: every collection it reaches has an element, and
/// every integer index is below `usize::MAX`.
pub open spec fn printable(d: Data) -> bool
    decreases d,
{
    match d {
        Data::Coll(xs, kvs) => {
            &&& (xs@.len() > 0 || kvs@.len() > 0)
            &&& forall|a: int| 0 <= a < xs@.len() ==> (#[trigger] xs@[a]).0 < usize::MAX && printable(xs@[a].1)
            &&& forall|b: int| 0 <= b < kvs@.len() ==> indices_below_max((#[trigger] kvs@[b]).0) && printable(kvs@[b].1)
        },
        _ => true,
    }
}

/// The number of bytes that the UTF-8 encoding of `s` takes.
pub open spec fn byte_len(s: Seq<char>) -> nat {
    (vstd::utf8::encode_utf8(s).len() as usize) as nat
}

/// The total number of bytes of the UTF-8 encodings of `parts`.
pub open spec fn total_byte_len(parts: Seq<Seq<char>>) -> nat
    decreases parts.len(),
{
    if parts.len() == 0 {
        0
    } else {
        total_byte_len(parts.drop_last()) + byte_len(parts.last())
    }
}

/// The lines of a collection's layout: `open` before the first, `close` after the last, and a
/// space before each line after the first.
pub open spec fn decorate(els: Seq<Seq<char>>, open: char, close: char) -> Seq<Seq<char>> {
    Seq::new(
        els.len(),
        |i: int|
            (if i == 0 {
                seq![open]
            } else {
                seq![' ']
            }) + els[i] + (if i == els.len() - 1 {
                seq![close]
            } else {
                seq![]
            }),
    )
}

/// How a value is laid out on lines: anything but a collection on one line as `repr`; a
/// collection's elements decorated with its brackets, all on one line when they take fewer
/// than 40 bytes together, else one element per line, a nested collection's lines in its place.
pub open spec fn pretty(d: Data) -> Seq<Seq<char>>
    decreases d,
{
    match d {
        Data::Coll(xs, kvs) => {
            let els = pretty_sparse(xs@, xs@.len()) + pretty_dict(kvs@, kvs@.len());
            let dec = if xs@.len() > 0 {
                decorate(els, '[', ']')
            } else {
                decorate(els, '{', '}')
            };
            if total_byte_len(dec) < 40 {
                seq![join(dec, seq![])]
            } else {
                dec
            }
        },
        _ => seq![repr(d)],
    }
}

/// The laid-out elements of the first `n` integer-indexed entries: each value's lines,
/// preceded by a line `i:` where the index `i` is not one past the previous entry's.
pub open spec fn pretty_sparse(xs: Seq<(usize, Data)>, n: nat) -> Seq<Seq<char>>
    decreases xs, n,
{
    if n == 0 || n > xs.len() {
        seq![]
    } else {
        let a = n - 1;
        pretty_sparse(xs, (n - 1) as nat) + (if xs[a].0 != expected_index(xs, a) {
            seq![decimal(xs[a].0 as int) + seq![':']]
        } else {
            seq![]
        }) + pretty(xs[a].1)
    }
}

/// The laid-out elements of the first `n` dictionary entries: `key: value` on one line when the
/// value takes one line, else a line `key:` followed by the value's lines.
pub open spec fn pretty_dict(kvs: Seq<(Data, Data)>, n: nat) -> Seq<Seq<char>>
    decreases kvs, n,
{
    if n == 0 || n > kvs.len() {
        seq![]
    } else {
        let a = n - 1;
        let key = match kvs[a].0 {
            Data::Str(s) => s@,
            _ => repr(kvs[a].0),
        };
        let vp = pretty(kvs[a].1);
        pretty_dict(kvs, (n - 1) as nat) + if vp.len() == 1 {
            seq![key + seq![':', ' '] + vp[0]]
        } else {
            seq![key + seq![':']] + vp
        }
    }
}

/// How a value is laid out bare: a string as its characters on one line, anything else as
/// `pretty`.
pub open spec fn naked_pretty(d: Data) -> Seq<Seq<char>> {
    match d {
        Data::Str(s) => seq![s@],
        _ => pretty(d),
    }
}

/// A printable value takes at least one line.
pub proof fn lemma_pretty_nonempty(d: Data)
    requires
        printable(d),
    ensures
        pretty(d).len() >= 1,
    decreases d,
{
    match d {
        Data::Coll(xs, kvs) => {
            if xs@.len() > 0 {
                lemma_pretty_nonempty(xs@[xs@.len() - 1].1);
                lemma_pretty_sparse_len(xs@, xs@.len());
            } else {
                lemma_pretty_nonempty(kvs@[kvs@.len() - 1].1);
                assert(pretty_dict(kvs@, kvs@.len()).len() >= 1);
            }
        },
        _ => {},
    }
}

/// Laying out a non-empty prefix of entries gives at least as many lines as the last value.
proof fn lemma_pretty_sparse_len(xs: Seq<(usize, Data)>, n: nat)
    requires
        0 < n <= xs.len(),
    ensures
        pretty_sparse(xs, n).len() >= pretty(xs[n - 1].1).len(),
{
}

/// Append the characters of `s`.
fn push_all(s: &Vec<char>, out: &mut Vec<char>)
    ensures
        final(out)@ == old(out)@ + s@,
{
    let ghost o0 = out@;
    let mut k: usize = 0;
    while k < s.len()
        invariant
            k <= s@.len(),
            out@ == o0 + s@.take(k as int),
        decreases s@.len() - k,
    {
        out.push(s[k]);
        k += 1;
        assert(s@.take(k as int) =~= s@.take(k - 1).push(s@[k - 1]));
    }
    assert(s@.take(k as int) =~= s@);
}

/// Append all of `lines` to `out`, in order.
fn push_lines(lines: Vec<Vec<char>>, out: &mut Vec<Vec<char>>)
    ensures
        final(out)@.map_values(|p: Vec<char>| p@) == old(out)@.map_values(|p: Vec<char>| p@) + lines@.map_values(
            |p: Vec<char>| p@,
        ),
{
    let ghost o0 = out@.map_values(|p: Vec<char>| p@);
    let ghost ls = lines@.map_values(|p: Vec<char>| p@);
    for line in it: lines
        invariant
            it.seq().map_values(|p: Vec<char>| p@) == ls,
            out@.map_values(|p: Vec<char>| p@) == o0 + ls.take(it.index() as int),
    {
        let ghost n = it.index() as int;
        assert(it.seq()[n] == line);
        assert(ls[n] == line@);
        let ghost before = out@;
        assert(before.map_values(|p: Vec<char>| p@) == o0 + ls.take(n));
        out.push(line);
        assert(out@ == before.push(line));
        assert(out@.map_values(|p: Vec<char>| p@) =~= before.map_values(|p: Vec<char>| p@).push(line@));
        assert(ls.take(n + 1) =~= ls.take(n).push(ls[n]));
        assert(out@.map_values(|p: Vec<char>| p@) =~= o0 + ls.take(n + 1));
    }
    assert(ls.take(ls.len() as int) =~= ls);
}

/// The number of bytes of the UTF-8 encoding of the string made of `v`.
fn byte_len_of(v: &Vec<char>) -> (n: usize)
    ensures
        n == byte_len(v@),
{
    let s = string_from_chars(v);
    s.as_str().len()
}

/// The elements joined without separator.
fn concat_lines(parts: &Vec<Vec<char>>) -> (r: Vec<char>)
    ensures
        r@ == join(parts@.map_values(|p: Vec<char>| p@), seq![]),
{
    let mut r: Vec<char> = Vec::new();
    let ghost ps = parts@.map_values(|p: Vec<char>| p@);
    let mut a: usize = 0;
    while a < parts.len()
        invariant
            a <= parts@.len(),
            ps == parts@.map_values(|p: Vec<char>| p@),
            r@ == join(ps.take(a as int), seq![]),
        decreases parts@.len() - a,
    {
        push_all(&parts[a], &mut r);
        assert(ps.take(a + 1).drop_last() =~= ps.take(a as int));
        if a == 0 {
            assert(ps.take(1) =~= seq![ps[0]]);
            assert(r@ =~= ps[0]);
        } else {
            assert(r@ =~= join(ps.take(a as int), seq![]) + seq![] + ps[a as int]);
        }
        a += 1;
    }
    assert(ps.take(parts@.len() as int) =~= ps);
    r
}

/// Lay out decorated elements: with `open` and `close` around them and a space before each
/// element after the first, on one line when they take fewer than 40 bytes together, else
/// one element per line.
fn layout(elements: &Vec<Vec<char>>, open: char, close: char) -> (r: Vec<Vec<char>>)
    ensures
        ({
            let dec = decorate(elements@.map_values(|p: Vec<char>| p@), open, close);
            r@.map_values(|p: Vec<char>| p@) == if total_byte_len(dec) < 40 {
                seq![join(dec, seq![])]
            } else {
                dec
            }
        }),
{
    let ghost els = elements@.map_values(|p: Vec<char>| p@);
    let n = elements.len();
    let ghost dec = decorate(els, open, close);
    let mut lines: Vec<Vec<char>> = Vec::new();
    let mut total: u128 = 0;
    let mut c: usize = 0;
    while c < n
        invariant
            c <= n,
            n == elements@.len(),
            els == elements@.map_values(|p: Vec<char>| p@),
            dec == decorate(els, open, close),
            lines@.map_values(|p: Vec<char>| p@) == dec.take(c as int),
            total == total_byte_len(dec.take(c as int)),
            total <= c * (usize::MAX as u128),
        decreases n - c,
    {
        let mut line: Vec<char> = Vec::new();
        if c == 0 {
            line.push(open);
        } else {
            line.push(' ');
        }
        push_all(&elements[c], &mut line);
        if c == n - 1 {
            line.push(close);
        }
        assert(line@ =~= dec[c as int]);
        let len = byte_len_of(&line);
        assert(total + len <= (c + 1) * (usize::MAX as u128) && (c + 1) * (usize::MAX as u128) <= u128::MAX) by (nonlinear_arith)
            requires
                total <= c * (usize::MAX as u128),
                len <= usize::MAX,
                c < n,
                n <= usize::MAX,
                usize::MAX < 0x1_0000_0000_0000_0000,
        ;
        assert(dec.take(c + 1).drop_last() =~= dec.take(c as int));
        total = total + len as u128;
        lines.push(line);
        assert(lines@.map_values(|p: Vec<char>| p@) =~= dec.take(c + 1));
        c += 1;
    }
    assert(dec.take(n as int) =~= dec);
    if total < 40 {
        let one = concat_lines(&lines);
        let r = vec![one];
        assert(r@.map_values(|p: Vec<char>| p@) =~= seq![join(dec, seq![])]);
        r
    } else {
        lines
    }
}

impl Data {
    /// The lines of `pretty`, as characters.
    pub fn pretty_lines(&self) -> (r: Vec<Vec<char>>)
        requires
            printable(*self),
        ensures
            r@.map_values(|p: Vec<char>| p@) == pretty(*self),
        decreases self,
    {
        match self {
            Data::Coll(xs, kvs) => {
                let mut elements = sparse_lines(xs);
                dict_lines(kvs, &mut elements);
                let r = if xs.len() > 0 {
                    layout(&elements, '[', ']')
                } else {
                    layout(&elements, '{', '}')
                };
                r
            },
            _ => {
                let r = vec![self.repr_chars()];
                assert(r@.map_values(|p: Vec<char>| p@) =~= pretty(*self));
                r
            },
        }
    }
}

/// The laid-out elements of integer-indexed entries.
#[verifier::loop_isolation(false)]
fn sparse_lines(xs: &Vec<(usize, Data)>) -> (r: Vec<Vec<char>>)
    requires
        forall|a: int| 0 <= a < xs@.len() ==> (#[trigger] xs@[a]).0 < usize::MAX && printable(xs@[a].1),
    ensures
        r@.map_values(|p: Vec<char>| p@) == pretty_sparse(xs@, xs@.len()),
    decreases xs,
{
    let mut elements: Vec<Vec<char>> = Vec::new();
    let mut expected_i: usize = 0;
    let mut a: usize = 0;
    while a < xs.len()
        invariant
            a <= xs@.len(),
            elements@.map_values(|p: Vec<char>| p@) == pretty_sparse(xs@, a as nat),
            expected_i == expected_index(xs@, a as int),
        decreases xs@.len() - a,
    {
        let ghost e0 = elements@.map_values(|p: Vec<char>| p@);
        let i = xs[a].0;
        let ghost gap: Seq<Seq<char>> = if i != expected_i {
            seq![decimal(i as int) + seq![':']]
        } else {
            seq![]
        };
        if i != expected_i {
            let mut label: Vec<char> = Vec::new();
            push_decimal_nat(i as u64, &mut label);
            label.push(':');
            assert(label@ =~= decimal(i as int) + seq![':']);
            elements.push(label);
        }
        assert(elements@.map_values(|p: Vec<char>| p@) =~= e0 + gap);
        let vp = xs[a].1.pretty_lines();
        push_lines(vp, &mut elements);
        assert(pretty_sparse(xs@, (a + 1) as nat) == e0 + gap + pretty(xs@[a as int].1));
        expected_i = i + 1;
        a += 1;
    }
    elements
}

/// Append the laid-out elements of dictionary entries.
#[verifier::loop_isolation(false)]
fn dict_lines(kvs: &Vec<(Data, Data)>, elements: &mut Vec<Vec<char>>)
    requires
        forall|b: int| 0 <= b < kvs@.len() ==> indices_below_max((#[trigger] kvs@[b]).0) && printable(kvs@[b].1),
    ensures
        final(elements)@.map_values(|p: Vec<char>| p@) == old(elements)@.map_values(|p: Vec<char>| p@) + pretty_dict(kvs@, kvs@.len()),
    decreases kvs,
{
    let ghost start = elements@.map_values(|p: Vec<char>| p@);
    let mut b: usize = 0;
    while b < kvs.len()
        invariant
            b <= kvs@.len(),
            elements@.map_values(|p: Vec<char>| p@) == start + pretty_dict(kvs@, b as nat),
        decreases kvs@.len() - b,
    {
        let ghost e0 = elements@.map_values(|p: Vec<char>| p@);
        let ghost kd = kvs@[b as int].0;
        let ghost kstr = match kd {
            Data::Str(s) => s@,
            _ => repr(kd),
        };
        let mut key = match &kvs[b].0 {
            Data::Str(ks) => {
                let mut key: Vec<char> = Vec::new();
                push_str(ks, &mut key);
                key
            },
            other => other.repr_chars(),
        };
        assert(key@ =~= kstr);
        let vp = kvs[b].1.pretty_lines();
        let ghost vps = vp@.map_values(|p: Vec<char>| p@);
        if vp.len() == 1 {
            key.push(':');
            key.push(' ');
            push_all(&vp[0], &mut key);
            assert(key@ =~= kstr + seq![':', ' '] + vps[0]);
            elements.push(key);
            assert(elements@.map_values(|p: Vec<char>| p@) =~= e0 + seq![kstr + seq![':', ' '] + vps[0]]);
        } else {
            key.push(':');
            assert(key@ =~= kstr + seq![':']);
            elements.push(key);
            assert(elements@.map_values(|p: Vec<char>| p@) =~= e0 + seq![kstr + seq![':']]);
            push_lines(vp, elements);
            assert(elements@.map_values(|p: Vec<char>| p@) =~= e0 + (seq![kstr + seq![':']] + vps));
        }
        assert(start + pretty_dict(kvs@, (b + 1) as nat) =~= elements@.map_values(|p: Vec<char>| p@));
        b += 1;
    }
}

/// Strings made of the given lines of characters.
fn lines_to_strings(lines: &Vec<Vec<char>>) -> (r: Vec<String>)
    ensures
        r@.map_values(|s: String| s@) == lines@.map_values(|p: Vec<char>| p@),
{
    let mut r: Vec<String> = Vec::new();
    let mut a: usize = 0;
    while a < lines.len()
        invariant
            a <= lines@.len(),
            r@.map_values(|s: String| s@) == lines@.map_values(|p: Vec<char>| p@).take(a as int),
        decreases lines@.len() - a,
    {
        let s = string_from_chars(&lines[a]);
        let ghost r0 = r@;
        r.push(s);
        assert(r@ == r0.push(s));
        assert(r@.map_values(|s: String| s@) =~= r0.map_values(|s: String| s@).push(lines@[a as int]@));
        assert(lines@.map_values(|p: Vec<char>| p@).take(a + 1) =~= lines@.map_values(|p: Vec<char>| p@).take(a as int).push(lines@[a as int]@));
        a += 1;
    }
    assert(lines@.map_values(|p: Vec<char>| p@).take(a as int) =~= lines@.map_values(|p: Vec<char>| p@));
    r
}

impl Data {
    /// How the value is laid out on lines (see `pretty`).
    pub fn pretty(&self) -> (r: Vec<String>)
        requires
            printable(*self),
        ensures
            r@.map_values(|s: String| s@) == pretty(*self),
    {
        lines_to_strings(&self.pretty_lines())
    }

    /// How the value is laid out bare (see `naked_pretty`).
    pub fn naked_pretty(&self) -> (r: Vec<String>)
        requires
            self is Str || printable(*self),
        ensures
            r@.map_values(|s: String| s@) == naked_pretty(*self),
    {
        match self {
            Data::Str(s) => {
                let mut v: Vec<char> = Vec::new();
                push_str(s, &mut v);
                let r = vec![string_from_chars(&v)];
                assert(r@.map_values(|s: String| s@) =~= naked_pretty(*self));
                r
            },
            _ => self.pretty(),
        }
    }
}

// ---------------------------------------------------------------------------------------
// Reading fields and lists
// ---------------------------------------------------------------------------------------

/// `k` is the string `key`.
pub open spec fn key_is(k: Data, key: Seq<char>) -> bool {
    k matches Data::Str(t) && t@ == key
}

/// `a` is the first position of an entry under the string key `key`.
pub open spec fn first_key(kvs: Seq<(Data, Data)>, key: Seq<char>, a: int) -> bool {
    &&& 0 <= a < kvs.len()
    &&& key_is(kvs[a].0, key)
    &&& forall|b: int| 0 <= b < a ==> !key_is(#[trigger] kvs[b].0, key)
}

/// The value under the string key `key` in the entries of a collection: the first entry with
/// that key (a dictionary holds each key once).
pub open spec fn field(d: Data, key: Seq<char>) -> Option<Data> {
    match d {
        Data::Coll(_, kvs) => if exists|a: int| first_key(kvs@, key, a) {
            Some(kvs@[choose|a: int| first_key(kvs@, key, a)].1)
        } else {
            None
        },
        _ => None,
    }
}

/// The items of a list: a collection whose entries sit at the indices `0, 1, ...` with
/// nothing under other keys.
pub open spec fn list_items(d: Data) -> Option<Seq<Data>> {
    match d {
        Data::Coll(ys, zs) => if zs@.len() == 0 && forall|k: int| 0 <= k < ys@.len() ==> (#[trigger] ys@[k]).0 == k {
            Some(ys@.map_values(|p: (usize, Data)| p.1))
        } else {
            None
        },
        _ => None,
    }
}

/// Two first positions of the same key are the same.
proof fn lemma_first_key_unique(kvs: Seq<(Data, Data)>, key: Seq<char>, a: int, b: int)
    requires
        first_key(kvs, key, a),
        first_key(kvs, key, b),
    ensures
        a == b,
{
    if a < b {
        assert(!key_is(kvs[a].0, key));
    } else if b < a {
        assert(!key_is(kvs[b].0, key));
    }
}

/// Whether the string `t` is `lit`.
pub fn string_is(t: &String, lit: &str) -> (b: bool)
    ensures
        b == (t@ == lit@),
{
    *t == lit.to_string()
}

/// The position of the first entry under the string key `key`.
pub fn key_position(kvs: &Vec<(Data, Data)>, key: &str) -> (r: Option<usize>)
    ensures
        match r {
            Some(a) => first_key(kvs@, key@, a as int),
            None => forall|a: int| 0 <= a < kvs@.len() ==> !key_is(#[trigger] kvs@[a].0, key@),
        },
{
    let k = key.to_string();
    let mut a: usize = 0;
    while a < kvs.len()
        invariant
            a <= kvs@.len(),
            k@ == key@,
            forall|b: int| 0 <= b < a ==> !key_is(#[trigger] kvs@[b].0, key@),
        decreases kvs@.len() - a,
    {
        match &kvs[a].0 {
            Data::Str(t) => {
                if *t == k {
                    return Some(a);
                }
            },
            _ => {},
        }
        a += 1;
    }
    None
}

impl Data {
    /// The value under the string key `key`, if the value is a collection that has one.
    pub fn get_str(&self, key: &str) -> (r: Option<&Data>)
        ensures
            match r {
                Some(v) => field(*self, key@) == Some(*v),
                None => field(*self, key@) is None,
            },
    {
        match self {
            Data::Coll(_, kvs) => match key_position(kvs, key) {
                Some(a) => {
                    proof {
                        let c = choose|b: int| first_key(kvs@, key@, b);
                        lemma_first_key_unique(kvs@, key@, a as int, c);
                    }
                    Some(&kvs[a].1)
                },
                None => None,
            },
            _ => None,
        }
    }

    /// The value under the string key `key`, taken out of the value.
    pub fn take_str(self, key: &str) -> (r: Option<Data>)
        ensures
            r == field(self, key@),
    {
        match self {
            Data::Coll(_, kvs) => match key_position(&kvs, key) {
                Some(a) => {
                    proof {
                        let c = choose|b: int| first_key(kvs@, key@, b);
                        lemma_first_key_unique(kvs@, key@, a as int, c);
                    }
                    let mut kvs = kvs;
                    let (_, v) = kvs.swap_remove(a);
                    Some(v)
                },
                None => None,
            },
            _ => None,
        }
    }

    /// The string under the key `key`, if there is one there.
    pub fn get_string(&self, key: &str) -> (r: Option<&String>)
        ensures
            match r {
                Some(t) => field(*self, key@) == Some(Data::Str(*t)),
                None => !(field(*self, key@) matches Some(Data::Str(_))),
            },
    {
        match self.get_str(key) {
            Some(Data::Str(t)) => Some(t),
            _ => None,
        }
    }

    /// The items of the value if it is a list, taken out of it.
    #[verifier::loop_isolation(false)]
    pub fn into_items(self) -> (r: Option<Vec<Data>>)
        ensures
            match r {
                Some(v) => list_items(self) == Some(v@),
                None => list_items(self) is None,
            },
    {
        match self {
            Data::Coll(ys, zs) => {
                if zs.len() != 0 {
                    return None;
                }
                let ghost s = ys@;
                let mut k: usize = 0;
                while k < ys.len()
                    invariant
                        k <= s.len(),
                        s == ys@,
                        forall|b: int| 0 <= b < k ==> (#[trigger] s[b]).0 == b,
                    decreases s.len() - k,
                {
                    if ys[k].0 != k {
                        assert(!((s[k as int]).0 == k));
                        return None;
                    }
                    k += 1;
                }
                let mut out: Vec<Data> = Vec::new();
                for p in it: ys
                    invariant
                        it.seq() == s,
                        out@.len() == it.index(),
                        forall|b: int| 0 <= b < it.index() ==> out@[b] == (#[trigger] s[b]).1,
                {
                    out.push(p.1);
                }
                assert(out@ =~= s.map_values(|p: (usize, Data)| p.1));
                Some(out)
            },
            _ => None,
        }
    }
}

// ---------------------------------------------------------------------------------------
// Text of several values
// ---------------------------------------------------------------------------------------

/// The bare forms of the values, one after another.
pub open spec fn str_text(xs: Seq<Data>) -> Seq<char> {
    join(xs.map_values(|d: Data| naked_repr(d)), seq![])
}

/// The layouts of the values, each with its lines joined by newlines, joined by spaces.
pub open spec fn print_text(xs: Seq<Data>) -> Seq<char> {
    join(xs.map_values(|d: Data| join(naked_pretty(d), seq!['\n'])), seq![' '])
}

/// The text that the `str` built-in makes of its arguments.
pub fn str_of(xs: &Vec<Data>) -> (s: String)
    requires
        forall|k: int| 0 <= k < xs@.len() ==> indices_below_max(#[trigger] xs@[k]),
    ensures
        s@ == str_text(xs@),
{
    let mut parts: Vec<Vec<char>> = Vec::new();
    let mut k: usize = 0;
    while k < xs.len()
        invariant
            k <= xs@.len(),
            forall|j: int| 0 <= j < xs@.len() ==> indices_below_max(#[trigger] xs@[j]),
            parts@.map_values(|p: Vec<char>| p@) == xs@.take(k as int).map_values(|d: Data| naked_repr(d)),
        decreases xs@.len() - k,
    {
        let ghost p0 = parts@;
        let c = xs[k].naked_repr_chars();
        parts.push(c);
        proof {
            let mp = parts@.map_values(|p: Vec<char>| p@);
            let mt = xs@.take(k + 1).map_values(|d: Data| naked_repr(d));
            let m0 = p0.map_values(|p: Vec<char>| p@);
            let mt0 = xs@.take(k as int).map_values(|d: Data| naked_repr(d));
            assert(m0.len() == p0.len());
            assert(mt0.len() == k);
            assert(parts@ == p0.push(parts@[k as int]));
            assert forall|j: int| 0 <= j < k + 1 implies #[trigger] mp[j] == mt[j] by {
                if j < k {
                    assert(parts@[j] == p0[j]);
                    assert(m0[j] == mt0[j]);
                }
            }
            assert(mp =~= mt);
        }
        k += 1;
    }
    assert(xs@.take(k as int) =~= xs@);
    string_from_chars(&concat_lines(&parts))
}

/// The text that printing the values shows: each value laid out, its lines joined by
/// newlines, and the values joined by spaces.
pub fn print_text_of(xs: &Vec<Data>) -> (s: String)
    requires
        forall|k: int| 0 <= k < xs@.len() ==> (#[trigger] xs@[k] is Str || printable(xs@[k])),
    ensures
        s@ == print_text(xs@),
{
    let mut parts: Vec<Vec<char>> = Vec::new();
    let mut k: usize = 0;
    while k < xs.len()
        invariant
            k <= xs@.len(),
            forall|j: int| 0 <= j < xs@.len() ==> (#[trigger] xs@[j] is Str || printable(xs@[j])),
            parts@.map_values(|p: Vec<char>| p@) == xs@.take(k as int).map_values(
                |d: Data| join(naked_pretty(d), seq!['\n']),
            ),
        decreases xs@.len() - k,
    {
        let lines: Vec<Vec<char>> = match &xs[k] {
            Data::Str(t) => {
                let mut v: Vec<char> = Vec::new();
                push_str(t, &mut v);
                let ls = vec![v];
                assert(ls@.map_values(|p: Vec<char>| p@) =~= naked_pretty(xs@[k as int]));
                ls
            },
            d => d.pretty_lines(),
        };
        let mut piece: Vec<char> = Vec::new();
        push_join(&lines, '\n', &mut piece);
        assert(piece@ =~= join(naked_pretty(xs@[k as int]), seq!['\n']));
        let ghost p0 = parts@;
        parts.push(piece);
        proof {
            let mp = parts@.map_values(|p: Vec<char>| p@);
            let mt = xs@.take(k + 1).map_values(|d: Data| join(naked_pretty(d), seq!['\n']));
            let m0 = p0.map_values(|p: Vec<char>| p@);
            let mt0 = xs@.take(k as int).map_values(|d: Data| join(naked_pretty(d), seq!['\n']));
            assert(m0.len() == p0.len());
            assert(mt0.len() == k);
            assert(parts@ == p0.push(parts@[k as int]));
            assert forall|j: int| 0 <= j < k + 1 implies #[trigger] mp[j] == mt[j] by {
                if j < k {
                    assert(parts@[j] == p0[j]);
                    assert(m0[j] == mt0[j]);
                }
            }
            assert(mp =~= mt);
        }
        k += 1;
    }
    assert(xs@.take(k as int) =~= xs@);
    let mut out: Vec<char> = Vec::new();
    push_join(&parts, ' ', &mut out);
    assert(out@ =~= print_text(xs@));
    string_from_chars(&out)
}

// ---------------------------------------------------------------------------------------
// Short values lie on one line
// ---------------------------------------------------------------------------------------

/// One more part: the part alone after none, else after the separator.
proof fn lemma_join_push(parts: Seq<Seq<char>>, x: Seq<char>, sep: Seq<char>)
    ensures
        join(parts.push(x), sep) == (if parts.len() == 0 {
            x
        } else {
            join(parts, sep) + sep + x
        }),
{
    assert(parts.push(x).drop_last() =~= parts);
}

/// Two last parts joined with the separator are one part made of them and the separator.
proof fn lemma_join_pair(parts: Seq<Seq<char>>, x: Seq<char>, y: Seq<char>, sep: Seq<char>)
    ensures
        join(parts.push(x).push(y), sep) == join(parts.push(x + sep + y), sep),
{
    lemma_join_push(parts.push(x), y, sep);
    lemma_join_push(parts, x, sep);
    lemma_join_push(parts, x + sep + y, sep);
    if parts.len() == 0 {
    } else {
        assert(join(parts, sep) + sep + x + sep + y =~= join(parts, sep) + sep + (x + sep + y));
    }
}

/// Parts joined with nothing between them take the bytes of all the parts.
proof fn lemma_join_bytes(parts: Seq<Seq<char>>)
    requires
        utf8_len(join(parts, seq![])) < 40,
    ensures
        total_byte_len(parts) == utf8_len(join(parts, seq![])),
    decreases parts.len(),
{
    if parts.len() == 0 {
        assert(vstd::utf8::encode_utf8(Seq::<char>::empty()) =~= Seq::<u8>::empty());
        assert(join(parts, seq![]) =~= Seq::<char>::empty());
        assert(utf8_len(Seq::<char>::empty()) == 0);
    } else {
        assert(vstd::utf8::encode_utf8(Seq::<char>::empty()) =~= Seq::<u8>::empty());
        let last = parts.last();
        if parts.len() == 1 {
            assert(parts.drop_last() =~= Seq::<Seq<char>>::empty());
            assert(join(parts, seq![]) == last);
        } else {
            let front = join(parts.drop_last(), seq![]);
            lemma_utf8_len_concat(front, seq![]);
            lemma_utf8_len_concat(front + seq![], last);
            assert(join(parts, seq![]) == front + seq![] + last);
            lemma_join_bytes(parts.drop_last());
        }
        let n = utf8_len(last);
        assert(n < 40);
        assert((n as usize) as nat == n);
        assert(byte_len(last) == n);
        assert(total_byte_len(parts) == total_byte_len(parts.drop_last()) + byte_len(last));
        if parts.len() == 1 {
            assert(total_byte_len(parts.drop_last()) == 0);
        }
    }
}

/// Each part takes no more bytes than all of them joined.
proof fn lemma_join_part_bytes(parts: Seq<Seq<char>>, sep: Seq<char>, i: int)
    requires
        0 <= i < parts.len(),
    ensures
        utf8_len(parts[i]) <= utf8_len(join(parts, sep)),
    decreases parts.len(),
{
    if parts.len() > 1 {
        let front = join(parts.drop_last(), sep);
        lemma_utf8_len_concat(front, sep);
        lemma_utf8_len_concat(front + sep, parts.last());
        if i < parts.len() - 1 {
            lemma_join_part_bytes(parts.drop_last(), sep, i);
        }
    }
}

/// A collection's decorated elements joined with nothing between them are its elements
/// joined with spaces, between its brackets.
proof fn lemma_decorate_join(e: Seq<Seq<char>>, o: char, c: char, k: int)
    requires
        1 <= k <= e.len(),
    ensures
        join(decorate(e, o, c).take(k), seq![]) == seq![o] + join(e.take(k), seq![' ']) + (if k == e.len() {
            seq![c]
        } else {
            seq![]
        }),
    decreases k,
{
    let dec = decorate(e, o, c);
    if k == 1 {
        assert(dec.take(1) =~= seq![dec[0]]);
        assert(e.take(1) =~= seq![e[0]]);
        assert(join(e.take(1), seq![' ']) == e[0]);
        assert(join(dec.take(1), seq![]) == dec[0]);
        assert(dec[0] =~= seq![o] + e[0] + (if k == e.len() {
            seq![c]
        } else {
            seq![]
        }));
    } else {
        lemma_decorate_join(e, o, c, k - 1);
        assert(dec.take(k) =~= dec.take(k - 1).push(dec[k - 1]));
        assert(e.take(k) =~= e.take(k - 1).push(e[k - 1]));
        lemma_join_push(dec.take(k - 1), dec[k - 1], seq![]);
        lemma_join_push(e.take(k - 1), e[k - 1], seq![' ']);
        assert(seq![o] + join(e.take(k - 1), seq![' ']) + seq![] + (seq![' '] + e[k - 1] + (if k == e.len() {
            seq![c]
        } else {
            seq![]
        })) =~= seq![o] + (join(e.take(k - 1), seq![' ']) + seq![' '] + e[k - 1]) + (if k == e.len() {
            seq![c]
        } else {
            seq![]
        }));
    }
}

/// Where each value lies on its written line, the integer-indexed entries lay out as they
/// are written.
proof fn lemma_sparse_one_line(xs: Seq<(usize, Data)>, n: nat)
    requires
        n <= xs.len(),
        forall|a: int| 0 <= a < xs.len() ==> pretty(#[trigger] xs[a].1) == seq![repr(xs[a].1)],
    ensures
        pretty_sparse(xs, n) == sparse_elements(xs, n),
    decreases n,
{
    if n > 0 {
        lemma_sparse_one_line(xs, (n - 1) as nat);
        assert(pretty(xs[n - 1].1) == seq![repr(xs[n - 1].1)]);
    }
}

/// Where each value lies on its written line, the dictionary entries, each `key: value` on
/// one line, join with spaces as the written key and value do.
proof fn lemma_dict_one_line(front: Seq<Seq<char>>, kvs: Seq<(Data, Data)>, n: nat)
    requires
        n <= kvs.len(),
        forall|b: int| 0 <= b < kvs.len() ==> pretty(#[trigger] kvs[b].1) == seq![repr(kvs[b].1)],
    ensures
        join(front + pretty_dict(kvs, n), seq![' ']) == join(front + dict_elements(kvs, n), seq![' ']),
        pretty_dict(kvs, n).len() == n,
        dict_elements(kvs, n).len() == 2 * n,
    decreases n,
{
    if n == 0 {
        assert(front + pretty_dict(kvs, n) =~= front);
        assert(front + dict_elements(kvs, n) =~= front);
    } else {
        let a = n - 1;
        lemma_dict_one_line(front, kvs, (n - 1) as nat);
        let key = match kvs[a].0 {
            Data::Str(s) => s@,
            _ => repr(kvs[a].0),
        };
        let v = repr(kvs[a].1);
        assert(pretty(kvs[a].1) == seq![v]);
        let q1 = front + pretty_dict(kvs, (n - 1) as nat);
        let q2 = front + dict_elements(kvs, (n - 1) as nat);
        let line = key + seq![':', ' '] + v;
        assert(line =~= (key + seq![':']) + seq![' '] + v);
        assert(front + pretty_dict(kvs, n) =~= q1.push(line));
        assert(front + dict_elements(kvs, n) =~= q2.push(key + seq![':']).push(v));
        lemma_join_pair(q2, key + seq![':'], v, seq![' ']);
        lemma_join_push(q1, line, seq![' ']);
        lemma_join_push(q2, line, seq![' ']);
    }
}

/// Each value of the first `n` integer-indexed entries is one of their written elements.
proof fn lemma_sparse_has(xs: Seq<(usize, Data)>, n: nat, a: int)
    requires
        n <= xs.len(),
        0 <= a < n,
    ensures
        sparse_elements(xs, n).contains(repr(xs[a].1)),
    decreases n,
{
    let e = sparse_elements(xs, n);
    if a == n - 1 {
        assert(e[e.len() - 1] == repr(xs[a].1));
    } else {
        lemma_sparse_has(xs, (n - 1) as nat, a);
        let p = sparse_elements(xs, (n - 1) as nat);
        let i = choose|i: int| 0 <= i < p.len() && p[i] == repr(xs[a].1);
        assert(e[i] == p[i]);
    }
}

/// Each value of the first `n` dictionary entries is one of their written elements.
proof fn lemma_dict_has(kvs: Seq<(Data, Data)>, n: nat, b: int)
    requires
        n <= kvs.len(),
        0 <= b < n,
    ensures
        dict_elements(kvs, n).contains(repr(kvs[b].1)),
    decreases n,
{
    let e = dict_elements(kvs, n);
    if b == n - 1 {
        assert(e[e.len() - 1] == repr(kvs[b].1));
    } else {
        lemma_dict_has(kvs, (n - 1) as nat, b);
        let p = dict_elements(kvs, (n - 1) as nat);
        let i = choose|i: int| 0 <= i < p.len() && p[i] == repr(kvs[b].1);
        assert(e[i] == p[i]);
    }
}

/// A written element of a collection takes no more bytes than the collection written.
proof fn lemma_element_bytes(els: Seq<Seq<char>>, o: char, c: char, x: Seq<char>)
    requires
        els.contains(x),
    ensures
        utf8_len(x) <= utf8_len(seq![o] + join(els, seq![' ']) + seq![c]),
{
    let i = choose|i: int| 0 <= i < els.len() && els[i] == x;
    lemma_join_part_bytes(els, seq![' '], i);
    lemma_utf8_len_concat(seq![o], join(els, seq![' ']));
    lemma_utf8_len_concat(seq![o] + join(els, seq![' ']), seq![c]);
}

/// A printable value whose written form takes fewer than 40 bytes is laid out on one line,
/// as it is written.
pub proof fn law_pretty_short(d: Data)
    requires
        printable(d),
        utf8_len(repr(d)) < 40,
    ensures
        pretty(d) == seq![repr(d)],
    decreases d,
{
    match d {
        Data::Coll(xs, kvs) => {
            let (o, c) = if xs@.len() > 0 {
                ('[', ']')
            } else {
                ('{', '}')
            };
            let sp = sparse_elements(xs@, xs@.len());
            let de = dict_elements(kvs@, kvs@.len());
            let er = sp + de;
            assert(repr(d) == seq![o] + join(er, seq![' ']) + seq![c]);
            assert forall|a: int| 0 <= a < xs@.len() implies pretty(#[trigger] xs@[a].1) == seq![repr(xs@[a].1)] by {
                lemma_sparse_has(xs@, xs@.len(), a);
                let i = choose|i: int| 0 <= i < sp.len() && sp[i] == repr(xs@[a].1);
                assert(er[i] == sp[i]);
                lemma_element_bytes(er, o, c, repr(xs@[a].1));
                law_pretty_short(xs@[a].1);
            }
            assert forall|b: int| 0 <= b < kvs@.len() implies pretty(#[trigger] kvs@[b].1) == seq![repr(kvs@[b].1)] by {
                lemma_dict_has(kvs@, kvs@.len(), b);
                let i = choose|i: int| 0 <= i < de.len() && de[i] == repr(kvs@[b].1);
                assert(er[sp.len() + i] == de[i]);
                lemma_element_bytes(er, o, c, repr(kvs@[b].1));
                law_pretty_short(kvs@[b].1);
            }
            lemma_sparse_one_line(xs@, xs@.len());
            lemma_dict_one_line(sp, kvs@, kvs@.len());
            let els = pretty_sparse(xs@, xs@.len()) + pretty_dict(kvs@, kvs@.len());
            assert(els == sp + pretty_dict(kvs@, kvs@.len()));
            assert(join(els, seq![' ']) == join(er, seq![' ']));
            lemma_pretty_nonempty(d);
            if xs@.len() > 0 {
                lemma_pretty_sparse_len(xs@, xs@.len());
                lemma_pretty_nonempty(xs@[xs@.len() - 1].1);
            }
            assert(els.len() > 0);
            let dec = decorate(els, o, c);
            lemma_decorate_join(els, o, c, els.len() as int);
            assert(els.take(els.len() as int) =~= els);
            assert(dec.take(dec.len() as int) =~= dec);
            assert(join(dec, seq![]) == repr(d));
            lemma_join_bytes(dec);
        },
        _ => {},
    }
}

// ---------------------------------------------------------------------------------------
// Laws of the texts of several values
// ---------------------------------------------------------------------------------------

/// `str` of nothing is empty, and each further argument adds its bare form at the end: every
/// argument contributes, in order.
pub proof fn law_str_push(xs: Seq<Data>, x: Data)
    ensures
        str_text(Seq::<Data>::empty()) == Seq::<char>::empty(),
        str_text(xs.push(x)) == str_text(xs) + naked_repr(x),
{
    assert(Seq::<Data>::empty().map_values(|d: Data| naked_repr(d)) =~= Seq::<Seq<char>>::empty());
    let m = xs.map_values(|d: Data| naked_repr(d));
    assert(xs.push(x).map_values(|d: Data| naked_repr(d)) =~= m.push(naked_repr(x)));
    lemma_join_push(m, naked_repr(x), seq![]);
    if xs.len() == 0 {
        assert(m =~= Seq::<Seq<char>>::empty());
        assert(Seq::<char>::empty() + naked_repr(x) =~= naked_repr(x));
    } else {
        assert(join(m, seq![]) + seq![] + naked_repr(x) =~= join(m, seq![]) + naked_repr(x));
    }
}

/// Printing one value shows every line of its layout, joined by newlines; each further value
/// comes after a space, with all of its lines.
pub proof fn law_print_push(xs: Seq<Data>, x: Data)
    ensures
        print_text(seq![x]) == join(naked_pretty(x), seq!['\n']),
        xs.len() > 0 ==> print_text(xs.push(x)) == print_text(xs) + seq![' '] + join(naked_pretty(x), seq!['\n']),
{
    let f = |d: Data| join(naked_pretty(d), seq!['\n']);
    assert(seq![x].map_values(f) =~= seq![f(x)]);
    let m = xs.map_values(f);
    assert(xs.push(x).map_values(f) =~= m.push(f(x)));
    lemma_join_push(m, f(x), seq![' ']);
}

} // verus!
