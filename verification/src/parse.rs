//! The grammar of the language and its parser.
//!
//! A program is a sequence of instructions separated by white space and comments. An
//! instruction is a literal (a decimal integer or a double-quoted string), a symbol, a call
//! `(f a b ...)`, a list `[a b ...]` or a braced instruction `{op a b ...}`; it may be followed
//! by `: body`, which binds it to `body`, or by one or more `.x` accessors. A comment is `#`
//! followed by one instruction, which it hides.
use vstd::prelude::*;

use crate::create::{inst as make_inst, lit, deref, str_data, is_inst, record};
use crate::data::Data;

verus! {

broadcast use vstd::string::group_string_axioms;

// ---------------------------------------------------------------------------------------
// The grammar as spec functions
// ---------------------------------------------------------------------------------------

/// A literal of the language.
pub enum Literal {
    Int(i64),
    Str(Seq<char>),
}

/// A parsed form: a literal, a reference to a name, or an instruction with an operator and
/// arguments.
pub enum Form {
    Lit(Literal),
    Deref(Seq<char>),
    Inst(Seq<char>, Seq<Form>),
}

/// What a parser does at a position: it produces a value and the position after it, fails
/// recoverably (`Error`, so that an alternative may be tried), fails for good (`Failure`, after
/// a committed prefix), or meets a numeral too large for an `i64`.
pub enum Outcome<T> {
    Done(T, nat),
    Error,
    Failure,
    Overflow,
}

/// ASCII letter.
pub open spec fn is_alpha(c: char) -> bool {
    ('a' <= c && c <= 'z') || ('A' <= c && c <= 'Z')
}

/// ASCII decimal digit.
pub open spec fn is_digit(c: char) -> bool {
    '0' <= c && c <= '9'
}

/// One of the punctuation characters allowed in symbols.
pub open spec fn is_sym_char(c: char) -> bool {
    c == '=' || c == '<' || c == '>' || c == '_' || c == '+' || c == '-' || c == '/' || c == '!'
}

/// A character that may continue a symbol.
pub open spec fn is_sym_rest(c: char) -> bool {
    is_alpha(c) || is_digit(c) || is_sym_char(c)
}

/// White space: space, tab, carriage return or line feed.
pub open spec fn is_ws(c: char) -> bool {
    c == ' ' || c == '\t' || c == '\r' || c == '\n'
}

/// The end of the longest run of digits from `i`.
pub open spec fn digits_end(s: Seq<char>, i: nat) -> nat
    decreases s.len() - i,
{
    if i < s.len() && is_digit(s[i as int]) {
        digits_end(s, i + 1)
    } else {
        i
    }
}

/// The end of the longest run of symbol characters from `i`.
pub open spec fn sym_end(s: Seq<char>, i: nat) -> nat
    decreases s.len() - i,
{
    if i < s.len() && is_sym_rest(s[i as int]) {
        sym_end(s, i + 1)
    } else {
        i
    }
}

/// The end of the longest run of white space from `i`.
pub open spec fn ws_end(s: Seq<char>, i: nat) -> nat
    decreases s.len() - i,
{
    if i < s.len() && is_ws(s[i as int]) {
        ws_end(s, i + 1)
    } else {
        i
    }
}

/// The value of a non-empty sequence of decimal digits.
pub open spec fn digits_value(d: Seq<char>) -> nat
    decreases d.len(),
{
    if d.len() == 0 {
        0
    } else {
        10 * digits_value(d.drop_last()) + ((d.last() as int - '0' as int) as nat)
    }
}

/// The characters of a string literal's body with each backslash-`n` pair read as a line feed.
pub open spec fn unescape(t: Seq<char>) -> Seq<char>
    decreases t.len(),
{
    if t.len() >= 2 && t[0] == '\\' && t[1] == 'n' {
        seq!['\n'] + unescape(t.skip(2))
    } else if t.len() >= 1 {
        seq![t[0]] + unescape(t.skip(1))
    } else {
        seq![]
    }
}

/// The first position at or after `i` that holds a double quote, or the end.
pub open spec fn quote_at_or_after(s: Seq<char>, i: nat) -> nat
    decreases s.len() - i,
{
    if i < s.len() && s[i as int] != '"' {
        quote_at_or_after(s, i + 1)
    } else {
        i
    }
}

/// A decimal integer literal: an optional `-` and one or more digits. A value outside the
/// range of `i64` is an overflow.
pub open spec fn sp_numlit(s: Seq<char>, i: nat) -> Outcome<Form> {
    let neg = i < s.len() && s[i as int] == '-';
    let start = if neg { i + 1 } else { i };
    let end = digits_end(s, start);
    if start >= s.len() || end == start {
        Outcome::Error
    } else {
        let v = digits_value(s.subrange(start as int, end as int));
        if neg {
            if v > 0x8000_0000_0000_0000 {
                Outcome::Overflow
            } else {
                Outcome::Done(Form::Lit(Literal::Int((-v) as i64)), end)
            }
        } else {
            if v > 0x7fff_ffff_ffff_ffff {
                Outcome::Overflow
            } else {
                Outcome::Done(Form::Lit(Literal::Int(v as i64)), end)
            }
        }
    }
}

/// A string literal: `"`, any characters but `"`, then `"`. Once the opening quote is read, a
/// missing closing quote is a failure.
pub open spec fn sp_strlit(s: Seq<char>, i: nat) -> Outcome<Form> {
    if i < s.len() && s[i as int] == '"' {
        let q = quote_at_or_after(s, i + 1);
        if q < s.len() {
            Outcome::Done(Form::Lit(Literal::Str(unescape(s.subrange((i + 1) as int, q as int)))), q + 1)
        } else {
            Outcome::Failure
        }
    } else {
        Outcome::Error
    }
}

/// A symbol: a letter or punctuation character, then letters, digits and punctuation.
pub open spec fn sp_sym(s: Seq<char>, i: nat) -> Outcome<Seq<char>> {
    if i < s.len() && (is_alpha(s[i as int]) || is_sym_char(s[i as int])) {
        let end = sym_end(s, i + 1);
        Outcome::Done(s.subrange(i as int, end as int), end)
    } else {
        Outcome::Error
    }
}

/// White space and comments, as many as there are.
pub open spec fn sp_space(s: Seq<char>, i: nat) -> Outcome<()>
    decreases s.len() - i, 2nat,
{
    if i > s.len() {
        Outcome::Error
    } else {
        match sp_comment(s, i) {
            Outcome::Done(_, j) => if i < j <= s.len() {
                sp_space(s, j)
            } else {
                Outcome::Error
            },
            Outcome::Failure => Outcome::Failure,
            Outcome::Overflow => Outcome::Overflow,
            Outcome::Error => if i < s.len() && is_ws(s[i as int]) {
                let j = ws_end(s, i);
                if i < j <= s.len() {
                    sp_space(s, j)
                } else {
                    Outcome::Error
                }
            } else {
                Outcome::Done((), i)
            },
        }
    }
}

/// A comment: `#`, white space, and the instruction that it hides.
pub open spec fn sp_comment(s: Seq<char>, i: nat) -> Outcome<()>
    decreases s.len() - i, 1nat,
{
    if i < s.len() && s[i as int] == '#' {
        match sp_space(s, i + 1) {
            Outcome::Done(_, j) => if i < j <= s.len() {
                match sp_inst(s, j) {
                    Outcome::Done(_, k) => Outcome::Done((), k),
                    Outcome::Error => Outcome::Error,
                    Outcome::Failure => Outcome::Failure,
                    Outcome::Overflow => Outcome::Overflow,
                }
            } else {
                Outcome::Error
            },
            Outcome::Error => Outcome::Error,
            Outcome::Failure => Outcome::Failure,
            Outcome::Overflow => Outcome::Overflow,
        }
    } else {
        Outcome::Error
    }
}

/// An instruction: a basic instruction, then a binding `: body` or accessors `.x ...` if they
/// parse, else the basic instruction alone.
pub open spec fn sp_inst(s: Seq<char>, i: nat) -> Outcome<Form>
    decreases s.len() - i, 5nat,
{
    if i > s.len() {
        Outcome::Error
    } else {
        match sp_pinst(s, i) {
            Outcome::Done(f, j) => if i < j <= s.len() {
                match sp_bind(s, j, f) {
                    Outcome::Done(g, k) => Outcome::Done(g, k),
                    Outcome::Overflow => Outcome::Overflow,
                    Outcome::Failure => Outcome::Done(f, j),
                    Outcome::Error => match sp_dots1(s, j, f) {
                        Outcome::Done(g, k) => Outcome::Done(g, k),
                        Outcome::Overflow => Outcome::Overflow,
                        _ => Outcome::Done(f, j),
                    },
                }
            } else {
                Outcome::Error
            },
            Outcome::Error => Outcome::Error,
            Outcome::Failure => Outcome::Failure,
            Outcome::Overflow => Outcome::Overflow,
        }
    }
}

/// A basic instruction: the first of a literal, a call, a list, a braced instruction and a
/// symbol that does not fail recoverably.
pub open spec fn sp_pinst(s: Seq<char>, i: nat) -> Outcome<Form>
    decreases s.len() - i, 4nat,
{
    match sp_numlit(s, i) {
        Outcome::Error => match sp_strlit(s, i) {
            Outcome::Error => match sp_call(s, i) {
                Outcome::Error => match sp_list(s, i) {
                    Outcome::Error => match sp_brace(s, i) {
                        Outcome::Error => match sp_sym(s, i) {
                            Outcome::Done(name, j) => Outcome::Done(Form::Deref(name), j),
                            _ => Outcome::Error,
                        },
                        r => r,
                    },
                    r => r,
                },
                r => r,
            },
            r => r,
        },
        r => r,
    }
}

/// A call `(f a ...)`: the instruction `call` with `f` and the list of arguments.
pub open spec fn sp_call(s: Seq<char>, i: nat) -> Outcome<Form>
    decreases s.len() - i, 3nat,
{
    if i < s.len() && s[i as int] == '(' {
        match sp_inst(s, i + 1) {
            Outcome::Done(f, j) => if i < j <= s.len() {
                match sp_insts(s, j) {
                    Outcome::Done(args, k) => if k < s.len() && s[k as int] == ')' {
                        Outcome::Done(
                            Form::Inst("call"@, seq![f, Form::Inst("list"@, args)]),
                            k + 1,
                        )
                    } else {
                        Outcome::Error
                    },
                    Outcome::Error => Outcome::Error,
                    Outcome::Failure => Outcome::Failure,
                    Outcome::Overflow => Outcome::Overflow,
                }
            } else {
                Outcome::Error
            },
            Outcome::Error => Outcome::Error,
            Outcome::Failure => Outcome::Failure,
            Outcome::Overflow => Outcome::Overflow,
        }
    } else {
        Outcome::Error
    }
}

/// A list `[a ...]`: the instruction `list` with the entries.
pub open spec fn sp_list(s: Seq<char>, i: nat) -> Outcome<Form>
    decreases s.len() - i, 3nat,
{
    if i < s.len() && s[i as int] == '[' {
        match sp_insts(s, i + 1) {
            Outcome::Done(args, k) => if k < s.len() && s[k as int] == ']' {
                Outcome::Done(Form::Inst("list"@, args), k + 1)
            } else {
                Outcome::Error
            },
            Outcome::Error => Outcome::Error,
            Outcome::Failure => Outcome::Failure,
            Outcome::Overflow => Outcome::Overflow,
        }
    } else {
        Outcome::Error
    }
}

/// A braced instruction `{op a ...}`: the instruction `op` with the arguments. Once the
/// operator is read, a missing closing brace is a failure.
pub open spec fn sp_brace(s: Seq<char>, i: nat) -> Outcome<Form>
    decreases s.len() - i, 3nat,
{
    if i < s.len() && s[i as int] == '{' {
        match sp_sym(s, i + 1) {
            Outcome::Done(op, j) => if i < j <= s.len() {
                match sp_insts(s, j) {
                    Outcome::Done(args, k) => if k < s.len() && s[k as int] == '}' {
                        Outcome::Done(Form::Inst(op, args), k + 1)
                    } else {
                        Outcome::Failure
                    },
                    Outcome::Error => Outcome::Error,
                    Outcome::Failure => Outcome::Failure,
                    Outcome::Overflow => Outcome::Overflow,
                }
            } else {
                Outcome::Error
            },
            _ => Outcome::Error,
        }
    } else {
        Outcome::Error
    }
}

/// A binding of `name`: `:`, white space, and the body, which must then parse.
pub open spec fn sp_bind(s: Seq<char>, j: nat, name: Form) -> Outcome<Form>
    decreases s.len() - j, 3nat,
{
    if j < s.len() && s[j as int] == ':' {
        match sp_space(s, j + 1) {
            Outcome::Done(_, k) => if j < k <= s.len() {
                match sp_inst(s, k) {
                    Outcome::Done(body, m) => Outcome::Done(Form::Inst("bind"@, seq![name, body]), m),
                    Outcome::Error => Outcome::Failure,
                    Outcome::Failure => Outcome::Failure,
                    Outcome::Overflow => Outcome::Overflow,
                }
            } else {
                Outcome::Error
            },
            Outcome::Error => Outcome::Error,
            Outcome::Failure => Outcome::Failure,
            Outcome::Overflow => Outcome::Overflow,
        }
    } else {
        Outcome::Error
    }
}

/// Accessors on `f`: one or more of `.`, white space and a basic instruction, which must then
/// parse; the instruction `dot` with `f` and the accessors.
pub open spec fn sp_dots1(s: Seq<char>, j: nat, f: Form) -> Outcome<Form>
    decreases s.len() - j, 4nat,
{
    if j < s.len() && s[j as int] == '.' {
        match sp_dots(s, j) {
            Outcome::Done(args, k) => Outcome::Done(Form::Inst("dot"@, seq![f] + args), k),
            Outcome::Error => Outcome::Error,
            Outcome::Failure => Outcome::Failure,
            Outcome::Overflow => Outcome::Overflow,
        }
    } else {
        Outcome::Error
    }
}

/// Zero or more accessors `. x`, each of which must parse once its dot is read.
pub open spec fn sp_dots(s: Seq<char>, j: nat) -> Outcome<Seq<Form>>
    decreases s.len() - j, 3nat,
{
    if j < s.len() && s[j as int] == '.' {
        match sp_space(s, j + 1) {
            Outcome::Done(_, k) => if j < k <= s.len() {
                match sp_pinst(s, k) {
                    Outcome::Done(a, m) => if j < m <= s.len() {
                        match sp_dots(s, m) {
                            Outcome::Done(rest, n) => Outcome::Done(seq![a] + rest, n),
                            Outcome::Error => Outcome::Error,
                            Outcome::Failure => Outcome::Failure,
                            Outcome::Overflow => Outcome::Overflow,
                        }
                    } else {
                        Outcome::Error
                    },
                    Outcome::Error => Outcome::Failure,
                    Outcome::Failure => Outcome::Failure,
                    Outcome::Overflow => Outcome::Overflow,
                }
            } else {
                Outcome::Error
            },
            Outcome::Error => Outcome::Error,
            Outcome::Failure => Outcome::Failure,
            Outcome::Overflow => Outcome::Overflow,
        }
    } else {
        Outcome::Done(seq![], j)
    }
}

/// Instructions, each after white space, as many as parse; then white space.
pub open spec fn sp_insts(s: Seq<char>, i: nat) -> Outcome<Seq<Form>>
    decreases s.len() - i, 7nat,
{
    match sp_insts_loop(s, i) {
        Outcome::Done(fs, j) => if i <= j <= s.len() {
            match sp_space(s, j) {
                Outcome::Done(_, k) => Outcome::Done(fs, k),
                Outcome::Error => Outcome::Error,
                Outcome::Failure => Outcome::Failure,
                Outcome::Overflow => Outcome::Overflow,
            }
        } else {
            Outcome::Error
        },
        Outcome::Error => Outcome::Error,
        Outcome::Failure => Outcome::Failure,
        Outcome::Overflow => Outcome::Overflow,
    }
}

/// Instructions, each after white space, as many as parse; the position after the last one.
pub open spec fn sp_insts_loop(s: Seq<char>, i: nat) -> Outcome<Seq<Form>>
    decreases s.len() - i, 6nat,
{
    if i > s.len() {
        Outcome::Error
    } else {
        match sp_space(s, i) {
            Outcome::Done(_, j) => if i <= j <= s.len() {
                match sp_inst(s, j) {
                    Outcome::Done(f, k) => if i < k <= s.len() {
                        match sp_insts_loop(s, k) {
                            Outcome::Done(fs, m) => Outcome::Done(seq![f] + fs, m),
                            Outcome::Error => Outcome::Error,
                            Outcome::Failure => Outcome::Failure,
                            Outcome::Overflow => Outcome::Overflow,
                        }
                    } else {
                        Outcome::Error
                    },
                    Outcome::Error => Outcome::Done(seq![], i),
                    Outcome::Failure => Outcome::Failure,
                    Outcome::Overflow => Outcome::Overflow,
                }
            } else {
                Outcome::Error
            },
            Outcome::Error => Outcome::Done(seq![], i),
            Outcome::Failure => Outcome::Failure,
            Outcome::Overflow => Outcome::Overflow,
        }
    }
}

/// A whole program: instructions that take up all of the input, as the instruction `module`.
pub open spec fn sp_module(s: Seq<char>) -> Outcome<Form> {
    match sp_insts(s, 0) {
        Outcome::Done(fs, j) => if j == s.len() {
            Outcome::Done(Form::Inst("module"@, fs), j)
        } else {
            Outcome::Error
        },
        Outcome::Error => Outcome::Error,
        Outcome::Failure => Outcome::Failure,
        Outcome::Overflow => Outcome::Overflow,
    }
}

// ---------------------------------------------------------------------------------------
// Laws of the grammar
// ---------------------------------------------------------------------------------------

/// A character that may begin a name: a letter or one of `= < > _ + - / !`.
pub open spec fn name_start(c: char) -> bool {
    ||| ('a' <= c && c <= 'z')
    ||| ('A' <= c && c <= 'Z')
    ||| c == '=' || c == '<' || c == '>' || c == '_' || c == '+' || c == '-' || c == '/' || c == '!'
}

/// A run of name characters reaches the end of the text.
proof fn lemma_sym_end_all(t: Seq<char>, i: nat)
    requires
        1 <= i <= t.len(),
        forall|k: int| 1 <= k < t.len() ==> name_start(#[trigger] t[k]) || ('0' <= t[k] && t[k] <= '9'),
    ensures
        sym_end(t, i) == t.len(),
    decreases t.len() - i,
{
    if i < t.len() {
        lemma_sym_end_all(t, i + 1);
    }
}

/// A name is read as a reference to itself: a text that starts with a letter or one of
/// `= < > _ + - / !`, continues with letters, digits and those characters, and is not a
/// numeral (a `-` directly followed by a digit), parses as one instruction reading the name
/// that is the whole text, with nothing left over.
pub proof fn law_name_parses(t: Seq<char>)
    requires
        t.len() > 0,
        name_start(t[0]),
        forall|k: int| 1 <= k < t.len() ==> name_start(#[trigger] t[k]) || ('0' <= t[k] && t[k] <= '9'),
        !(t[0] == '-' && t.len() > 1 && '0' <= t[1] && t[1] <= '9'),
    ensures
        sp_inst(t, 0) == Outcome::Done(Form::Deref(t), t.len()),
{
    lemma_sym_end_all(t, 1);
    if t[0] == '-' && t.len() > 1 {
        assert(digits_end(t, 1) == 1);
    }
    if t[0] != '-' {
        assert(digits_end(t, 0) == 0);
    }
    assert(sp_numlit(t, 0) is Error);
    assert(sp_strlit(t, 0) is Error);
    assert(sp_call(t, 0) is Error);
    assert(sp_list(t, 0) is Error);
    assert(sp_brace(t, 0) is Error);
    assert(t.subrange(0, t.len() as int) =~= t);
    assert(sp_sym(t, 0) == Outcome::Done(t, t.len()));
    assert(sp_pinst(t, 0) == Outcome::Done(Form::Deref(t), t.len()));
    assert(sp_bind(t, t.len(), Form::Deref(t)) is Error);
    assert(sp_dots1(t, t.len(), Form::Deref(t)) is Error);
}

// ---------------------------------------------------------------------------------------
// How forms are written as data
// ---------------------------------------------------------------------------------------

/// `d` is a dictionary of two entries, `k0: v0` with a string value and then one under `k1`.
pub open spec fn record_shape(d: Data, k0: Seq<char>, v0: Seq<char>, k1: Seq<char>) -> bool {
    &&& d matches Data::Coll(xs, kvs)
    &&& xs@.len() == 0
    &&& kvs@.len() == 2
    &&& str_data(kvs@[0].0, k0)
    &&& str_data(kvs@[0].1, v0)
    &&& str_data(kvs@[1].0, k1)
}

/// The value of the second entry of a two-entry dictionary.
pub open spec fn second(d: Data) -> Data {
    match d {
        Data::Coll(_, kvs) => kvs@[1].1,
        _ => d,
    }
}

/// `d` writes the form `f`: literals as `{op: "lit", val: v}`, symbols as
/// `{op: "deref", name: "s"}`, and instructions as `{op: "op", args: [...]}`.
pub open spec fn encodes(d: Data, f: Form) -> bool
    decreases f,
{
    match f {
        Form::Lit(Literal::Int(n)) => record(d, "op"@, "lit"@, "val"@, Data::Int(n)),
        Form::Lit(Literal::Str(t)) => record_shape(d, "op"@, "lit"@, "val"@) && str_data(second(d), t),
        Form::Deref(name) => record_shape(d, "op"@, "deref"@, "name"@) && str_data(second(d), name),
        Form::Inst(op, args) => {
            &&& record_shape(d, "op"@, op, "args"@)
            &&& second(d) matches Data::Coll(ys, zs)
            &&& zs@.len() == 0
            &&& ys@.len() == args.len()
            &&& forall|i: int| 0 <= i < args.len() ==> (#[trigger] ys@[i]).0 == i && encodes(ys@[i].1, args[i])
        },
    }
}

/// Each of `ds` writes the form at the same position of `fs`.
pub open spec fn encodes_all(ds: Seq<Data>, fs: Seq<Form>) -> bool {
    ds.len() == fs.len() && forall|i: int| 0 <= i < ds.len() ==> encodes(#[trigger] ds[i], fs[i])
}

/// An instruction built from data that write the arguments writes the instruction form.
proof fn lemma_inst_encodes(d: Data, op: Seq<char>, ds: Seq<Data>, fs: Seq<Form>)
    requires
        is_inst(d, op, ds),
        encodes_all(ds, fs),
    ensures
        encodes(d, Form::Inst(op, fs)),
{
    match d {
        Data::Coll(_, kvs) => {
            match kvs@[1].1 {
                Data::Coll(ys, _) => {
                    assert forall|i: int| 0 <= i < fs.len() implies (#[trigger] ys@[i]).0 == i && encodes(ys@[i].1, fs[i]) by {
                        assert(encodes(ds[i], fs[i]));
                    }
                },
                _ => {},
            }
        },
        _ => {},
    }
}

/// What a parser returns: a value and the position after it, a recoverable or final failure,
/// or a numeral too large for an `i64`.
pub enum Parsed<T> {
    Done(T, usize),
    Error,
    Failure,
    Overflow,
}

/// Why an optional suffix did not parse.
enum Miss {
    Error,
    Failure,
    Overflow,
}

/// The reason agrees with the grammar's outcome.
spec fn miss_agrees(m: Miss, o: Outcome<Form>) -> bool {
    match m {
        Miss::Error => o is Error,
        Miss::Failure => o is Failure,
        Miss::Overflow => o is Overflow,
    }
}

/// The parser's result agrees with the grammar: the same position and a written form of the
/// same form, or the same kind of failure.
pub open spec fn agrees(r: Parsed<Data>, o: Outcome<Form>) -> bool {
    match r {
        Parsed::Done(d, j) => o matches Outcome::Done(f, k) && j == k && encodes(d, f),
        Parsed::Error => o is Error,
        Parsed::Failure => o is Failure,
        Parsed::Overflow => o is Overflow,
    }
}

/// The same for a sequence of forms.
pub open spec fn agrees_all(r: Parsed<Vec<Data>>, o: Outcome<Seq<Form>>) -> bool {
    match r {
        Parsed::Done(ds, j) => o matches Outcome::Done(fs, k) && j == k && encodes_all(ds@, fs),
        Parsed::Error => o is Error,
        Parsed::Failure => o is Failure,
        Parsed::Overflow => o is Overflow,
    }
}

/// The same for a parser that produces nothing but a position.
pub open spec fn agrees_unit(r: Parsed<()>, o: Outcome<()>) -> bool {
    match r {
        Parsed::Done(_, j) => o matches Outcome::Done(_, k) && j == k,
        Parsed::Error => o is Error,
        Parsed::Failure => o is Failure,
        Parsed::Overflow => o is Overflow,
    }
}

fn is_alpha_char(c: char) -> (b: bool)
    ensures
        b == is_alpha(c),
{
    ('a' <= c && c <= 'z') || ('A' <= c && c <= 'Z')
}

fn is_digit_char(c: char) -> (b: bool)
    ensures
        b == is_digit(c),
{
    '0' <= c && c <= '9'
}

fn is_sym_char_char(c: char) -> (b: bool)
    ensures
        b == is_sym_char(c),
{
    c == '=' || c == '<' || c == '>' || c == '_' || c == '+' || c == '-' || c == '/' || c == '!'
}

fn is_ws_char(c: char) -> (b: bool)
    ensures
        b == is_ws(c),
{
    c == ' ' || c == '\t' || c == '\r' || c == '\n'
}

/// The end of the run of digits from `i`.
fn scan_digits(s: &Vec<char>, i: usize) -> (j: usize)
    requires
        i <= s@.len(),
    ensures
        j == digits_end(s@, i as nat),
        i <= j <= s@.len(),
    decreases s@.len() - i,
{
    if i < s.len() && is_digit_char(s[i]) {
        scan_digits(s, i + 1)
    } else {
        i
    }
}

/// The end of the run of symbol characters from `i`.
fn scan_sym(s: &Vec<char>, i: usize) -> (j: usize)
    requires
        i <= s@.len(),
    ensures
        j == sym_end(s@, i as nat),
        i <= j <= s@.len(),
    decreases s@.len() - i,
{
    if i < s.len() && (is_alpha_char(s[i]) || is_digit_char(s[i]) || is_sym_char_char(s[i])) {
        scan_sym(s, i + 1)
    } else {
        i
    }
}

/// The end of the run of white space from `i`.
fn scan_ws(s: &Vec<char>, i: usize) -> (j: usize)
    requires
        i <= s@.len(),
    ensures
        j == ws_end(s@, i as nat),
        i <= j <= s@.len(),
        (i < s@.len() && is_ws(s@[i as int])) ==> i < j,
    decreases s@.len() - i,
{
    if i < s.len() && is_ws_char(s[i]) {
        scan_ws(s, i + 1)
    } else {
        i
    }
}

/// The position of the first double quote at or after `i`, or the end.
fn scan_quote(s: &Vec<char>, i: usize) -> (j: usize)
    requires
        i <= s@.len(),
    ensures
        j == quote_at_or_after(s@, i as nat),
        i <= j <= s@.len(),
    decreases s@.len() - i,
{
    if i < s.len() && s[i] != '"' {
        scan_quote(s, i + 1)
    } else {
        i
    }
}

/// The characters `s[a..b]` as a string.
fn substring(s: &Vec<char>, a: usize, b: usize) -> (r: String)
    requires
        a <= b <= s@.len(),
    ensures
        r@ == s@.subrange(a as int, b as int),
{
    let mut v: Vec<char> = Vec::new();
    let mut p = a;
    while p < b
        invariant
            a <= p <= b <= s@.len(),
            v@ == s@.subrange(a as int, p as int),
        decreases b - p,
    {
        v.push(s[p]);
        p += 1;
        assert(v@ =~= s@.subrange(a as int, p as int));
    }
    crate::text::string_from_chars(&v)
}

/// A prefix of a digit sequence has no larger value than the sequence.
proof fn lemma_digits_value_prefix(d: Seq<char>, k: int)
    requires
        0 <= k <= d.len(),
        forall|a: int| 0 <= a < d.len() ==> is_digit(#[trigger] d[a]),
    ensures
        digits_value(d.take(k)) <= digits_value(d),
    decreases d.len() - k,
{
    if k < d.len() {
        lemma_digits_value_prefix(d, k + 1);
        assert(d.take(k + 1).drop_last() =~= d.take(k));
    } else {
        assert(d.take(k) =~= d);
    }
}

/// Every position before the end of a run of digits holds a digit.
proof fn lemma_digits_end(s: Seq<char>, i: nat)
    requires
        i <= s.len(),
    ensures
        i <= digits_end(s, i) <= s.len(),
        forall|a: int| i <= a < digits_end(s, i) ==> is_digit(#[trigger] s[a]),
    decreases s.len() - i,
{
    if i < s.len() && is_digit(s[i as int]) {
        lemma_digits_end(s, i + 1);
    }
}

/// A decimal integer literal.
fn p_numlit(s: &Vec<char>, i: usize) -> (r: Parsed<Data>)
    requires
        i <= s@.len(),
    ensures
        agrees(r, sp_numlit(s@, i as nat)),
        r matches Parsed::Done(_, j) ==> i < j <= s@.len(),
{
    let neg = i < s.len() && s[i] == '-';
    let start = if neg { i + 1 } else { i };
    let end = scan_digits(s, start);
    if start >= s.len() || end == start {
        return Parsed::Error;
    }
    let ghost digits = s@.subrange(start as int, end as int);
    proof {
        lemma_digits_end(s@, start as nat);
    }
    let ghost total = digits_value(digits);
    let limit: u64 = if neg { 0x8000_0000_0000_0000 } else { 0x7fff_ffff_ffff_ffff };
    proof {
        assert forall|a: int| 0 <= a < digits.len() implies is_digit(#[trigger] digits[a]) by {
            assert(digits[a] == s@[start + a]);
        }
    }
    let mut v: u64 = 0;
    let mut p = start;
    while p < end
        invariant
            start <= p <= end <= s@.len(),
            neg == (i < s@.len() && s@[i as int] == '-'),
            start == (if neg { i + 1 } else { i as int }),
            start < s@.len(),
            end != start,
            end == digits_end(s@, start as nat),
            digits == s@.subrange(start as int, end as int),
            forall|a: int| 0 <= a < digits.len() ==> is_digit(#[trigger] digits[a]),
            forall|a: int| start <= a < end ==> is_digit(#[trigger] s@[a]),
            total == digits_value(digits),
            limit == (if neg { 0x8000_0000_0000_0000u64 } else { 0x7fff_ffff_ffff_ffffu64 }),
            v <= limit,
            v == digits_value(s@.subrange(start as int, p as int)),
        decreases end - p,
    {
        let ghost next = s@.subrange(start as int, (p + 1) as int);
        assert(next.drop_last() =~= s@.subrange(start as int, p as int));
        assert(next =~= digits.take(p + 1 - start));
        proof {
            lemma_digits_value_prefix(digits, p + 1 - start);
        }
        assert(is_digit(s@[p as int]));
        let d = (s[p] as u32 - '0' as u32) as u64;
        assert(d <= 9);
        if v > (limit - d) / 10 {
            assert(v * 10 + d > limit) by (nonlinear_arith)
                requires
                    v > (limit - d) / 10,
                    d <= 9,
                    d <= limit,
            ;
            assert(digits_value(next) == v * 10 + d);
            assert(total > limit);
            return Parsed::Overflow;
        }
        assert(v * 10 + d <= limit) by (nonlinear_arith)
            requires
                v <= (limit - d) / 10,
                d <= 9,
                d <= limit,
        ;
        v = v * 10 + d;
        p += 1;
    }
    assert(s@.subrange(start as int, p as int) =~= digits);
    let n: i64 = if neg {
        if v == 0x8000_0000_0000_0000 {
            i64::MIN
        } else {
            -(v as i64)
        }
    } else {
        v as i64
    };
    Parsed::Done(lit(Data::Int(n)), end)
}

/// Append the unescaped characters of `s[a..b]`.
fn unescape_into(s: &Vec<char>, a: usize, b: usize) -> (r: Vec<char>)
    requires
        a <= b <= s@.len(),
    ensures
        r@ == unescape(s@.subrange(a as int, b as int)),
{
    let mut out: Vec<char> = Vec::new();
    let mut p = a;
    while p < b
        invariant
            a <= p <= b <= s@.len(),
            out@ + unescape(s@.subrange(p as int, b as int)) == unescape(s@.subrange(a as int, b as int)),
        decreases b - p,
    {
        let ghost t = s@.subrange(p as int, b as int);
        let ghost o0 = out@;
        if p + 1 < b && s[p] == '\\' && s[p + 1] == 'n' {
            out.push('\n');
            assert(t.skip(2) =~= s@.subrange(p + 2, b as int));
            assert(o0 + unescape(t) =~= out@ + unescape(t.skip(2)));
            p += 2;
        } else {
            out.push(s[p]);
            assert(t.skip(1) =~= s@.subrange(p + 1, b as int));
            assert(o0 + unescape(t) =~= out@ + unescape(t.skip(1)));
            p += 1;
        }
    }
    assert(s@.subrange(b as int, b as int) =~= Seq::<char>::empty());
    assert(out@ + unescape(Seq::<char>::empty()) =~= out@);
    out
}

/// A string literal.
fn p_strlit(s: &Vec<char>, i: usize) -> (r: Parsed<Data>)
    requires
        i <= s@.len(),
    ensures
        agrees(r, sp_strlit(s@, i as nat)),
        r matches Parsed::Done(_, j) ==> i < j <= s@.len(),
{
    if i < s.len() && s[i] == '"' {
        let q = scan_quote(s, i + 1);
        if q < s.len() {
            let body = unescape_into(s, i + 1, q);
            let text = crate::text::string_from_chars(&body);
            Parsed::Done(lit(Data::Str(text)), q + 1)
        } else {
            Parsed::Failure
        }
    } else {
        Parsed::Error
    }
}

/// A symbol, as its characters.
fn p_sym(s: &Vec<char>, i: usize) -> (r: Parsed<String>)
    requires
        i <= s@.len(),
    ensures
        match r {
            Parsed::Done(t, j) => sp_sym(s@, i as nat) matches Outcome::Done(name, k) && j == k && t@ == name && i < j <= s@.len(),
            Parsed::Error => sp_sym(s@, i as nat) is Error,
            Parsed::Failure => false,
            Parsed::Overflow => false,
        },
{
    if i < s.len() && (is_alpha_char(s[i]) || is_sym_char_char(s[i])) {
        let end = scan_sym(s, i + 1);
        Parsed::Done(substring(s, i, end), end)
    } else {
        Parsed::Error
    }
}

/// `acc` followed by what `o` produced, where it produced something.
pub open spec fn prepend(acc: Seq<Form>, o: Outcome<Seq<Form>>) -> Outcome<Seq<Form>> {
    match o {
        Outcome::Done(fs, n) => Outcome::Done(acc + fs, n),
        Outcome::Error => Outcome::Error,
        Outcome::Failure => Outcome::Failure,
        Outcome::Overflow => Outcome::Overflow,
    }
}

/// White space and comments.
fn p_space(s: &Vec<char>, i: usize) -> (r: Parsed<()>)
    requires
        i <= s@.len(),
    ensures
        agrees_unit(r, sp_space(s@, i as nat)),
        r matches Parsed::Done(_, j) ==> i <= j <= s@.len(),
    decreases s@.len() - i, 2nat,
{
    let mut p = i;
    loop
        invariant
            i <= p <= s@.len(),
            sp_space(s@, p as nat) == sp_space(s@, i as nat),
        decreases s@.len() - p,
    {
        match p_comment(s, p) {
            Parsed::Done(_, j) => {
                p = j;
            },
            Parsed::Failure => {
                return Parsed::Failure;
            },
            Parsed::Overflow => {
                return Parsed::Overflow;
            },
            Parsed::Error => {
                if p < s.len() && is_ws_char(s[p]) {
                    p = scan_ws(s, p);
                } else {
                    return Parsed::Done((), p);
                }
            },
        }
    }
}

/// A comment and the instruction it hides.
fn p_comment(s: &Vec<char>, i: usize) -> (r: Parsed<()>)
    requires
        i <= s@.len(),
    ensures
        agrees_unit(r, sp_comment(s@, i as nat)),
        r matches Parsed::Done(_, j) ==> i < j <= s@.len(),
    decreases s@.len() - i, 1nat,
{
    if i < s.len() && s[i] == '#' {
        match p_space(s, i + 1) {
            Parsed::Done(_, j) => match p_inst(s, j) {
                Parsed::Done(_, k) => Parsed::Done((), k),
                Parsed::Error => Parsed::Error,
                Parsed::Failure => Parsed::Failure,
                Parsed::Overflow => Parsed::Overflow,
            },
            Parsed::Error => Parsed::Error,
            Parsed::Failure => Parsed::Failure,
                Parsed::Overflow => Parsed::Overflow,
        }
    } else {
        Parsed::Error
    }
}

/// An instruction, with a binding or accessors where they parse.
fn p_inst(s: &Vec<char>, i: usize) -> (r: Parsed<Data>)
    requires
        i <= s@.len(),
    ensures
        agrees(r, sp_inst(s@, i as nat)),
        r matches Parsed::Done(_, j) ==> i < j <= s@.len(),
    decreases s@.len() - i, 5nat,
{
    match p_pinst(s, i) {
        Parsed::Done(fd, j) => {
            let ghost f = sp_pinst(s@, i as nat)->Done_0;
            match p_bind(s, j, fd, Ghost(f)) {
                Ok((g, k)) => Parsed::Done(g, k),
                Err((_, Miss::Overflow)) => Parsed::Overflow,
                Err((fd, Miss::Failure)) => Parsed::Done(fd, j),
                Err((fd, Miss::Error)) => match p_dots1(s, j, fd, Ghost(f)) {
                    Ok((g, k)) => Parsed::Done(g, k),
                    Err((_, Miss::Overflow)) => Parsed::Overflow,
                    Err((fd, _)) => Parsed::Done(fd, j),
                },
            }
        },
        Parsed::Error => Parsed::Error,
        Parsed::Failure => Parsed::Failure,
        Parsed::Overflow => Parsed::Overflow,
    }
}

/// A basic instruction.
fn p_pinst(s: &Vec<char>, i: usize) -> (r: Parsed<Data>)
    requires
        i <= s@.len(),
    ensures
        agrees(r, sp_pinst(s@, i as nat)),
        r matches Parsed::Done(_, j) ==> i < j <= s@.len(),
    decreases s@.len() - i, 4nat,
{
    match p_numlit(s, i) {
        Parsed::Error => {},
        r => {
            return r;
        },
    }
    match p_strlit(s, i) {
        Parsed::Error => {},
        r => {
            return r;
        },
    }
    match p_call(s, i) {
        Parsed::Error => {},
        r => {
            return r;
        },
    }
    match p_list(s, i) {
        Parsed::Error => {},
        r => {
            return r;
        },
    }
    match p_brace(s, i) {
        Parsed::Error => {},
        r => {
            return r;
        },
    }
    match p_sym(s, i) {
        Parsed::Done(name, j) => Parsed::Done(deref(Data::Str(name)), j),
        _ => Parsed::Error,
    }
}

/// The call of `fd` on `args`, written as data.
fn call_data(fd: Data, args: Vec<Data>, Ghost(f): Ghost<Form>, Ghost(fs): Ghost<Seq<Form>>) -> (d: Data)
    requires
        encodes(fd, f),
        encodes_all(args@, fs),
    ensures
        encodes(d, Form::Inst("call"@, seq![f, Form::Inst("list"@, fs)])),
{
    let ghost ads = args@;
    let l = make_inst("list", args);
    proof {
        lemma_inst_encodes(l, "list"@, ads, fs);
    }
    let ghost ld = l;
    let ghost fdd = fd;
    let d = make_inst("call", vec![fd, l]);
    proof {
        assert(encodes_all(seq![fdd, ld], seq![f, Form::Inst("list"@, fs)])) by {
            assert(seq![fdd, ld][0] == fdd);
            assert(seq![fdd, ld][1] == ld);
        }
        lemma_inst_encodes(d, "call"@, seq![fdd, ld], seq![f, Form::Inst("list"@, fs)]);
    }
    d
}

/// A call.
fn p_call(s: &Vec<char>, i: usize) -> (r: Parsed<Data>)
    requires
        i <= s@.len(),
    ensures
        agrees(r, sp_call(s@, i as nat)),
        r matches Parsed::Done(_, j) ==> i < j <= s@.len(),
    decreases s@.len() - i, 3nat,
{
    if i < s.len() && s[i] == '(' {
        match p_inst(s, i + 1) {
            Parsed::Done(fd, j) => {
                let ghost f = sp_inst(s@, (i + 1) as nat)->Done_0;
                match p_insts(s, j) {
                    Parsed::Done(args, k) => {
                        if k < s.len() && s[k] == ')' {
                            let ghost fs = sp_insts(s@, j as nat)->Done_0;
                            let d = call_data(fd, args, Ghost(f), Ghost(fs));
                            Parsed::Done(d, k + 1)
                        } else {
                            Parsed::Error
                        }
                    },
                    Parsed::Error => Parsed::Error,
                    Parsed::Failure => Parsed::Failure,
                Parsed::Overflow => Parsed::Overflow,
                }
            },
            Parsed::Error => Parsed::Error,
            Parsed::Failure => Parsed::Failure,
                Parsed::Overflow => Parsed::Overflow,
        }
    } else {
        Parsed::Error
    }
}

/// A list.
fn p_list(s: &Vec<char>, i: usize) -> (r: Parsed<Data>)
    requires
        i <= s@.len(),
    ensures
        agrees(r, sp_list(s@, i as nat)),
        r matches Parsed::Done(_, j) ==> i < j <= s@.len(),
    decreases s@.len() - i, 3nat,
{
    if i < s.len() && s[i] == '[' {
        match p_insts(s, i + 1) {
            Parsed::Done(args, k) => {
                if k < s.len() && s[k] == ']' {
                    let ghost fs = sp_insts(s@, (i + 1) as nat)->Done_0;
                    let ghost ads = args@;
                    let d = make_inst("list", args);
                    proof {
                        lemma_inst_encodes(d, "list"@, ads, fs);
                    }
                    Parsed::Done(d, k + 1)
                } else {
                    Parsed::Error
                }
            },
            Parsed::Error => Parsed::Error,
            Parsed::Failure => Parsed::Failure,
                Parsed::Overflow => Parsed::Overflow,
        }
    } else {
        Parsed::Error
    }
}

/// A braced instruction.
fn p_brace(s: &Vec<char>, i: usize) -> (r: Parsed<Data>)
    requires
        i <= s@.len(),
    ensures
        agrees(r, sp_brace(s@, i as nat)),
        r matches Parsed::Done(_, j) ==> i < j <= s@.len(),
    decreases s@.len() - i, 3nat,
{
    if i < s.len() && s[i] == '{' {
        match p_sym(s, i + 1) {
            Parsed::Done(op, j) => match p_insts(s, j) {
                Parsed::Done(args, k) => {
                    if k < s.len() && s[k] == '}' {
                        let ghost fs = sp_insts(s@, j as nat)->Done_0;
                        let ghost ads = args@;
                        let d = make_inst(op.as_str(), args);
                        proof {
                            lemma_inst_encodes(d, op@, ads, fs);
                        }
                        Parsed::Done(d, k + 1)
                    } else {
                        Parsed::Failure
                    }
                },
                Parsed::Error => Parsed::Error,
                Parsed::Failure => Parsed::Failure,
                Parsed::Overflow => Parsed::Overflow,
            },
            _ => Parsed::Error,
        }
    } else {
        Parsed::Error
    }
}

/// A binding of `name`, which is returned as it came, with the reason, when there is none.
fn p_bind(s: &Vec<char>, j: usize, name: Data, Ghost(f): Ghost<Form>) -> (r: Result<(Data, usize), (Data, Miss)>)
    requires
        j <= s@.len(),
        encodes(name, f),
    ensures
        match r {
            Ok((d, k)) => sp_bind(s@, j as nat, f) matches Outcome::Done(g, m) && k == m && encodes(d, g) && j < k <= s@.len(),
            Err((d, m)) => d == name && miss_agrees(m, sp_bind(s@, j as nat, f)),
        },
    decreases s@.len() - j, 3nat,
{
    if j < s.len() && s[j] == ':' {
        match p_space(s, j + 1) {
            Parsed::Done(_, k) => match p_inst(s, k) {
                Parsed::Done(body, m) => {
                    let ghost g = sp_inst(s@, k as nat)->Done_0;
                    let ghost nd = name;
                    let ghost bd = body;
                    let d = make_inst("bind", vec![name, body]);
                    proof {
                        assert(encodes_all(seq![nd, bd], seq![f, g])) by {
                            assert(seq![nd, bd][0] == nd);
                            assert(seq![nd, bd][1] == bd);
                        }
                        lemma_inst_encodes(d, "bind"@, seq![nd, bd], seq![f, g]);
                    }
                    Ok((d, m))
                },
                Parsed::Error => Err((name, Miss::Failure)),
                Parsed::Failure => Err((name, Miss::Failure)),
                Parsed::Overflow => Err((name, Miss::Overflow)),
            },
            Parsed::Error => Err((name, Miss::Error)),
            Parsed::Failure => Err((name, Miss::Failure)),
            Parsed::Overflow => Err((name, Miss::Overflow)),
        }
    } else {
        Err((name, Miss::Error))
    }
}

/// Accessors on `f`, which is returned as it came, with the reason, when there are none.
fn p_dots1(s: &Vec<char>, j: usize, fd: Data, Ghost(f): Ghost<Form>) -> (r: Result<(Data, usize), (Data, Miss)>)
    requires
        j <= s@.len(),
        encodes(fd, f),
    ensures
        match r {
            Ok((d, k)) => sp_dots1(s@, j as nat, f) matches Outcome::Done(g, m) && k == m && encodes(d, g) && j < k <= s@.len(),
            Err((d, m)) => d == fd && miss_agrees(m, sp_dots1(s@, j as nat, f)),
        },
    decreases s@.len() - j, 4nat,
{
    if j < s.len() && s[j] == '.' {
        match p_dots(s, j) {
            Parsed::Done(args, k) => {
                let ghost fs = sp_dots(s@, j as nat)->Done_0;
                let ghost ads = args@;
                let ghost fdd = fd;
                let mut all = vec![fd];
                let mut args = args;
                all.append(&mut args);
                let ghost alls = all@;
                assert(alls =~= seq![fdd] + ads);
                let d = make_inst("dot", all);
                proof {
                    assert(encodes_all(alls, seq![f] + fs)) by {
                        assert forall|a: int| 0 <= a < alls.len() implies encodes(#[trigger] alls[a], (seq![f] + fs)[a]) by {
                            if a > 0 {
                                assert(alls[a] == ads[a - 1]);
                            }
                        }
                    }
                    lemma_inst_encodes(d, "dot"@, alls, seq![f] + fs);
                }
                assert(j < k);
                Ok((d, k))
            },
            Parsed::Error => Err((fd, Miss::Error)),
            Parsed::Failure => Err((fd, Miss::Failure)),
            Parsed::Overflow => Err((fd, Miss::Overflow)),
        }
    } else {
        Err((fd, Miss::Error))
    }
}

/// Accessors `. x`, as many as there are.
fn p_dots(s: &Vec<char>, j: usize) -> (r: Parsed<Vec<Data>>)
    requires
        j <= s@.len(),
    ensures
        agrees_all(r, sp_dots(s@, j as nat)),
        r matches Parsed::Done(_, k) ==> j <= k <= s@.len(),
        r matches Parsed::Done(ds, k) ==> (j < s@.len() && s@[j as int] == '.' ==> j < k),
    decreases s@.len() - j, 3nat,
{
    let mut acc: Vec<Data> = Vec::new();
    let ghost mut accf: Seq<Form> = seq![];
    let mut p = j;
    loop
        invariant
            j <= p <= s@.len(),
            sp_dots(s@, j as nat) == prepend(accf, sp_dots(s@, p as nat)),
            encodes_all(acc@, accf),
            (j < s@.len() && s@[j as int] == '.' && p == j) ==> accf.len() == 0,
            p > j || (p == j && accf.len() == 0),
        decreases s@.len() - p,
    {
        if p < s.len() && s[p] == '.' {
            match p_space(s, p + 1) {
                Parsed::Done(_, k) => match p_pinst(s, k) {
                    Parsed::Done(a, m) => {
                        let ghost af = sp_pinst(s@, k as nat)->Done_0;
                        proof {
                            assert(sp_dots(s@, p as nat) == prepend(seq![af], sp_dots(s@, m as nat)));
                            assert(accf + seq![af] + Seq::<Form>::empty() =~= accf + seq![af]);
                            assert forall|fs: Seq<Form>| #![auto] accf + (seq![af] + fs) =~= (accf + seq![af]) + fs by {}
                        }
                        let ghost a0 = acc@;
                        acc.push(a);
                        proof {
                            accf = accf + seq![af];
                            assert(acc@ =~= a0.push(a));
                            assert forall|x: int| 0 <= x < acc@.len() implies encodes(#[trigger] acc@[x], accf[x]) by {
                                if x < a0.len() {
                                    assert(acc@[x] == a0[x]);
                                }
                            }
                        }
                        p = m;
                    },
                    Parsed::Error => {
                        return Parsed::Failure;
                    },
                    Parsed::Failure => {
                        return Parsed::Failure;
                    },
                    Parsed::Overflow => {
                        return Parsed::Overflow;
                    },
                },
                Parsed::Error => {
                    return Parsed::Error;
                },
                Parsed::Failure => {
                    return Parsed::Failure;
                },
                Parsed::Overflow => {
                    return Parsed::Overflow;
                },
            }
        } else {
            assert(accf + Seq::<Form>::empty() =~= accf);
            return Parsed::Done(acc, p);
        }
    }
}

/// Instructions separated by white space, then white space.
fn p_insts(s: &Vec<char>, i: usize) -> (r: Parsed<Vec<Data>>)
    requires
        i <= s@.len(),
    ensures
        agrees_all(r, sp_insts(s@, i as nat)),
        r matches Parsed::Done(_, k) ==> i <= k <= s@.len(),
    decreases s@.len() - i, 7nat,
{
    match p_insts_loop(s, i) {
        Parsed::Done(ds, j) => match p_space(s, j) {
            Parsed::Done(_, k) => Parsed::Done(ds, k),
            Parsed::Error => Parsed::Error,
            Parsed::Failure => Parsed::Failure,
                Parsed::Overflow => Parsed::Overflow,
        },
        Parsed::Error => Parsed::Error,
        Parsed::Failure => Parsed::Failure,
                Parsed::Overflow => Parsed::Overflow,
    }
}

/// Instructions, each after white space, as many as parse.
fn p_insts_loop(s: &Vec<char>, i: usize) -> (r: Parsed<Vec<Data>>)
    requires
        i <= s@.len(),
    ensures
        agrees_all(r, sp_insts_loop(s@, i as nat)),
        r matches Parsed::Done(_, k) ==> i <= k <= s@.len(),
    decreases s@.len() - i, 6nat,
{
    let mut acc: Vec<Data> = Vec::new();
    let ghost mut accf: Seq<Form> = seq![];
    let mut p = i;
    loop
        invariant
            i <= p <= s@.len(),
            sp_insts_loop(s@, i as nat) == prepend(accf, sp_insts_loop(s@, p as nat)),
            encodes_all(acc@, accf),
        decreases s@.len() - p,
    {
        match p_space(s, p) {
            Parsed::Done(_, j) => match p_inst(s, j) {
                Parsed::Done(a, k) => {
                    let ghost af = sp_inst(s@, j as nat)->Done_0;
                    proof {
                        assert(sp_insts_loop(s@, p as nat) == prepend(seq![af], sp_insts_loop(s@, k as nat)));
                        assert forall|fs: Seq<Form>| #![auto] accf + (seq![af] + fs) =~= (accf + seq![af]) + fs by {}
                    }
                    let ghost a0 = acc@;
                    acc.push(a);
                    proof {
                        accf = accf + seq![af];
                        assert forall|x: int| 0 <= x < acc@.len() implies encodes(#[trigger] acc@[x], accf[x]) by {
                            if x < a0.len() {
                                assert(acc@[x] == a0[x]);
                            }
                        }
                    }
                    assert(p <= j && j < k);
                    p = k;
                },
                Parsed::Error => {
                    assert(accf + Seq::<Form>::empty() =~= accf);
                    return Parsed::Done(acc, p);
                },
                Parsed::Failure => {
                    return Parsed::Failure;
                },
                Parsed::Overflow => {
                    return Parsed::Overflow;
                },
            },
            Parsed::Error => {
                assert(accf + Seq::<Form>::empty() =~= accf);
                return Parsed::Done(acc, p);
            },
            Parsed::Failure => {
                return Parsed::Failure;
            },
            Parsed::Overflow => {
                return Parsed::Overflow;
            },
        }
    }
}

// ---------------------------------------------------------------------------------------
// Entry points
// ---------------------------------------------------------------------------------------

/// Why the input did not parse.
#[derive(Debug, Clone, Copy, PartialEq, Eq)]
pub enum ParseError {
    /// No instruction starts here.
    Error,
    /// An instruction started and then broke off: an unclosed string or brace, or a binding
    /// or accessor without its instruction.
    Failure,
    /// A numeral does not fit in an `i64`.
    Overflow,
}

/// The error agrees with the grammar's outcome.
pub open spec fn error_agrees<T>(e: ParseError, o: Outcome<T>) -> bool {
    match e {
        ParseError::Error => o is Error,
        ParseError::Failure => o is Failure,
        ParseError::Overflow => o is Overflow,
    }
}

/// What a parse of `inp` by the grammar `o` gives: the rest of the input and the data that
/// writes the form, or the error of the same kind.
pub open spec fn parse_agrees(inp: Seq<char>, r: Result<(String, Data), ParseError>, o: Outcome<Form>) -> bool {
    match r {
        Ok((rest, d)) => o matches Outcome::Done(f, k) && k <= inp.len() && rest@ == inp.skip(k as int)
            && encodes(d, f),
        Err(e) => error_agrees(e, o),
    }
}

/// Parses one instruction at the start of `inp` (no white space before it), with its binding
/// or accessors; returns the rest of the input and the instruction.
pub fn inst(inp: &str) -> (r: Result<(String, Data), ParseError>)
    ensures
        parse_agrees(inp@, r, sp_inst(inp@, 0)),
{
    let s = crate::text::chars_of(inp);
    match p_inst(&s, 0) {
        Parsed::Done(d, j) => {
            let rest = substring(&s, j, s.len());
            assert(rest@ =~= inp@.skip(j as int));
            Ok((rest, d))
        },
        Parsed::Error => Err(ParseError::Error),
        Parsed::Failure => Err(ParseError::Failure),
        Parsed::Overflow => Err(ParseError::Overflow),
    }
}

/// Parses a whole program: instructions separated by white space and comments, which must
/// take up all of `inp`; returns the empty rest and the instruction `module` with them.
pub fn module(inp: &str) -> (r: Result<(String, Data), ParseError>)
    ensures
        parse_agrees(inp@, r, sp_module(inp@)),
{
    let s = crate::text::chars_of(inp);
    match p_insts(&s, 0) {
        Parsed::Done(ds, j) => {
            if j == s.len() {
                let ghost fs = sp_insts(s@, 0)->Done_0;
                let ghost dss = ds@;
                let d = make_inst("module", ds);
                proof {
                    lemma_inst_encodes(d, "module"@, dss, fs);
                }
                let rest = substring(&s, j, s.len());
                assert(rest@ =~= inp@.skip(j as int));
                Ok((rest, d))
            } else {
                Err(ParseError::Error)
            }
        },
        Parsed::Error => Err(ParseError::Error),
        Parsed::Failure => Err(ParseError::Failure),
        Parsed::Overflow => Err(ParseError::Overflow),
    }
}

} // verus!
