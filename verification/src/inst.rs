//! Instructions: the evaluable form of the dictionaries that the parser and the macros build.
use vstd::prelude::*;

use crate::create::{is_inst, record};
use crate::data::{Data, field, first_key, list_items, string_is};

verus! {

broadcast use vstd::string::group_string_axioms;

/// An instruction ready for evaluation.
#[derive(Debug, PartialEq)]
pub enum Inst {
    /// A constant value.
    Lit(Data),
    /// The value bound to a name.
    Deref(String),
    /// Binds the value of the first instruction (a name) to that of the second.
    Bind(Box<Inst>, Box<Inst>),
    /// The list of the values of the instructions.
    List(Vec<Inst>),
    /// The dictionary of the bindings.
    Dict(Vec<Inst>),
    /// Calls the value of the first instruction on the value of the second.
    Call(Box<Inst>, Box<Inst>),
    /// The outcome of an instruction, success or failure, as a value.
    AsResult(Box<Inst>),
    /// The second instruction if the first succeeds, else the third.
    If(Box<Inst>, Box<Inst>, Box<Inst>),
    /// A function of one parameter, with a body and a final instruction.
    Fn(String, Vec<Inst>, Box<Inst>),
    /// A module: instructions to be expanded and run one after the other.
    Module(Vec<Data>),
    /// A form to be quoted, with its unquoted parts evaluated.
    Quasiquote(Data),
}

/// The operator under which an instruction is written.
pub open spec fn op_name(i: Inst) -> Seq<char> {
    match i {
        Inst::Lit(_) => "lit"@,
        Inst::Deref(_) => "deref"@,
        Inst::Bind(_, _) => "bind"@,
        Inst::List(_) => "list"@,
        Inst::Dict(_) => "dict"@,
        Inst::Call(_, _) => "call"@,
        Inst::AsResult(_) => "as-result"@,
        Inst::If(_, _, _) => "if"@,
        Inst::Fn(_, _, _) => "fn"@,
        Inst::Module(_) => "module"@,
        Inst::Quasiquote(_) => "qq"@,
    }
}

/// The form's operator, under `op`, is the string `op`.
pub open spec fn op_is(d: Data, op: Seq<char>) -> bool {
    field(d, "op"@) matches Some(Data::Str(s)) && s@ == op
}

/// The form's arguments: the items of the list under `args`.
pub open spec fn args_of(d: Data) -> Option<Seq<Data>> {
    match field(d, "args"@) {
        Some(a) => list_items(a),
        None => None,
    }
}

/// The form reads the binding of the string `name`.
pub open spec fn deref_named(d: Data, name: Seq<char>) -> bool {
    &&& op_is(d, "deref"@)
    &&& field(d, "name"@) matches Some(Data::Str(s)) && s@ == name
}

/// The form `d` is written for the instruction `i`: its operator names the kind of `i`, and
/// its fields and arguments are written for the parts of `i`. Arguments beyond those that
/// an operator reads are allowed and ignored. A binding whose target reads a name binds
/// that name itself; the parameter of a function is the name that its first argument reads.
pub open spec fn decodes(d: Data, i: Inst) -> bool
    decreases i,
{
    &&& op_is(d, op_name(i))
    &&& match i {
        Inst::Lit(v) => field(d, "val"@) == Some(v),
        Inst::Deref(name) => field(d, "name"@) matches Some(Data::Str(s)) && s@ == name@,
        Inst::Bind(a, b) => args_of(d) matches Some(xs) && xs.len() >= 2 && decodes(xs[1], *b) && (
        if op_is(xs[0], "deref"@) {
            (*a matches Inst::Lit(v) && field(xs[0], "name"@) == Some(v))
        } else {
            decodes(xs[0], *a)
        }),
        Inst::List(ys) => args_of(d) matches Some(xs) && xs.len() == ys@.len() && forall|k: int|
            0 <= k < xs.len() ==> decodes(xs[k], #[trigger] ys@[k]),
        Inst::Dict(ys) => args_of(d) matches Some(xs) && xs.len() == ys@.len() && forall|k: int|
            0 <= k < xs.len() ==> decodes(xs[k], #[trigger] ys@[k]),
        Inst::Call(f, a) => args_of(d) matches Some(xs) && xs.len() >= 2 && decodes(xs[0], *f)
            && decodes(xs[1], *a),
        Inst::AsResult(c) => args_of(d) matches Some(xs) && xs.len() >= 1 && decodes(xs[0], *c),
        Inst::If(c, t, e) => args_of(d) matches Some(xs) && xs.len() >= 3 && decodes(xs[0], *c)
            && decodes(xs[1], *t) && decodes(xs[2], *e),
        Inst::Fn(par, body, tail) => args_of(d) matches Some(xs) && xs.len() >= 2 && deref_named(
            xs[0],
            par@,
        ) && body@.len() == xs.len() - 2 && (forall|k: int|
            0 <= k < body@.len() ==> decodes(xs[k + 1], #[trigger] body@[k])) && decodes(
            xs[xs.len() - 1],
            *tail,
        ),
        Inst::Module(ys) => args_of(d) == Some(ys@),
        Inst::Quasiquote(v) => args_of(d) matches Some(xs) && xs.len() >= 1 && v == xs[0],
    }
}

/// The key strings of instruction forms, letter by letter.
pub proof fn lemma_key_strings()
    ensures
        "op"@ =~= seq!['o', 'p'],
        "args"@ =~= seq!['a', 'r', 'g', 's'],
        "val"@ =~= seq!['v', 'a', 'l'],
        "name"@ =~= seq!['n', 'a', 'm', 'e'],
        "bind"@ =~= seq!['b', 'i', 'n', 'd'],
        "ops"@ =~= seq!['o', 'p', 's'],
        "deref"@ =~= seq!['d', 'e', 'r', 'e', 'f'],
        "lit"@ =~= seq!['l', 'i', 't'],
{
    reveal_strlit("bind");
    reveal_strlit("ops");
    reveal_strlit("deref");
    reveal_strlit("lit");
    reveal_strlit("op");
    reveal_strlit("args");
    reveal_strlit("val");
    reveal_strlit("name");
}

/// The first key of a two-entry record is found at its first entry, and the second, which
/// differs from it, at its second.
pub proof fn lemma_record_fields(d: Data, k0: Seq<char>, v0: Seq<char>, k1: Seq<char>, v1: Data)
    requires
        record(d, k0, v0, k1, v1),
        k0 != k1,
    ensures
        field(d, k0) matches Some(Data::Str(s)) && s@ == v0,
        field(d, k1) == Some(v1),
{
    match d {
        Data::Coll(_, kvs) => {
            assert(first_key(kvs@, k0, 0));
            let c0 = choose|b: int| first_key(kvs@, k0, b);
            if c0 != 0 {
                assert(!crate::data::key_is(kvs@[0].0, k0));
            }
            assert(first_key(kvs@, k1, 1));
            let c1 = choose|b: int| first_key(kvs@, k1, b);
            if c1 != 1 {
                if c1 == 0 {
                    assert(crate::data::key_is(kvs@[0].0, k1));
                } else {
                    assert(!crate::data::key_is(kvs@[1].0, k1));
                }
            }
        },
        _ => {},
    }
}

/// An instruction form reads back as its operator and arguments.
pub proof fn lemma_inst_fields(d: Data, op: Seq<char>, args: Seq<Data>)
    requires
        is_inst(d, op, args),
    ensures
        op_is(d, op),
        args_of(d) == Some(args),
{
    lemma_key_strings();
    match d {
        Data::Coll(_, kvs) => {
            lemma_record_fields(d, "op"@, op, "args"@, kvs@[1].1);
            match kvs@[1].1 {
                Data::Coll(ys, _) => {
                    assert(ys@.map_values(|p: (usize, Data)| p.1) =~= args);
                },
                _ => {},
            }
        },
        _ => {},
    }
}

/// The operator strings are distinct.
proof fn lemma_op_strings()
    ensures
        "lit"@ =~= seq!['l', 'i', 't'],
        "deref"@ =~= seq!['d', 'e', 'r', 'e', 'f'],
        "bind"@ =~= seq!['b', 'i', 'n', 'd'],
        "list"@ =~= seq!['l', 'i', 's', 't'],
        "dict"@ =~= seq!['d', 'i', 'c', 't'],
        "call"@ =~= seq!['c', 'a', 'l', 'l'],
        "as-result"@ =~= seq!['a', 's', '-', 'r', 'e', 's', 'u', 'l', 't'],
        "if"@ =~= seq!['i', 'f'],
        "fn"@ =~= seq!['f', 'n'],
        "module"@ =~= seq!['m', 'o', 'd', 'u', 'l', 'e'],
        "qq"@ =~= seq!['q', 'q'],
{
    reveal_strlit("lit");
    reveal_strlit("deref");
    reveal_strlit("bind");
    reveal_strlit("list");
    reveal_strlit("dict");
    reveal_strlit("call");
    reveal_strlit("as-result");
    reveal_strlit("if");
    reveal_strlit("fn");
    reveal_strlit("module");
    reveal_strlit("qq");
}

/// The items of the form's argument list, taken out of the form.
fn take_args(d: Data) -> (r: Option<Vec<Data>>)
    ensures
        match r {
            Some(v) => args_of(d) == Some(v@),
            None => args_of(d) is None,
        },
{
    match d.take_str("args") {
        Some(a) => a.into_items(),
        None => None,
    }
}

/// The form's arguments are parts of it.
proof fn lemma_args_smaller(d: Data, xs: Seq<Data>)
    requires
        args_of(d) == Some(xs),
    ensures
        forall|k: int| 0 <= k < xs.len() ==> decreases_to!(d => #[trigger] xs[k]),
{
    match d {
        Data::Coll(ys, kvs) => {
            let a = choose|b: int| crate::data::first_key(kvs@, "args"@, b);
            let arg = kvs@[a].1;
            match arg {
                Data::Coll(zs, ws) => {
                    assert forall|k: int| 0 <= k < xs.len() implies decreases_to!(d => #[trigger] xs[k]) by {
                        assert(xs[k] == zs@[k].1);
                        assert(decreases_to!(d => kvs));
                        assert(decreases_to!(kvs => kvs@[a]));
                        assert(decreases_to!(kvs@[a] => arg));
                        assert(decreases_to!(arg => zs));
                        assert(decreases_to!(zs => zs@[k]));
                        assert(decreases_to!(zs@[k] => zs@[k].1));
                    }
                },
                _ => {},
            }
        },
        _ => {},
    }
}

/// The instructions of forms that are all parts of `parent`.
fn decode_items(items: Vec<Data>, Ghost(parent): Ghost<Data>) -> (r: Result<Vec<Inst>, Ghost<int>>)
    requires
        forall|k: int| 0 <= k < items@.len() ==> decreases_to!(parent => #[trigger] items@[k]),
    ensures
        match r {
            Ok(v) => v@.len() == items@.len() && forall|k: int|
                0 <= k < items@.len() ==> decodes(items@[k], #[trigger] v@[k]),
            Err(k) => 0 <= k@ < items@.len() && forall|i: Inst| !decodes(items@[k@], i),
        },
    decreases parent, 1nat,
{
    let ghost s = items@;
    let mut out: Vec<Inst> = Vec::new();
    for x in it: items
        invariant
            it.seq() == s,
            forall|k: int| 0 <= k < s.len() ==> decreases_to!(parent => #[trigger] s[k]),
            out@.len() == it.index(),
            forall|k: int| 0 <= k < it.index() ==> decodes(s[k], #[trigger] out@[k]),
    {
        let ghost k = it.index();
        assert(x == s[k]);
        match to_inst(x) {
            Some(i) => {
                out.push(i);
            },
            None => {
                return Err(Ghost(k));
            },
        }
    }
    Ok(out)
}

/// The two first arguments of a list of at least two, in order.
fn first_two(xs: Vec<Data>) -> (r: (Data, Data))
    requires
        xs@.len() >= 2,
    ensures
        r.0 == xs@[0],
        r.1 == xs@[1],
{
    let mut xs = xs;
    xs.truncate(2);
    let b = xs.pop().unwrap();
    let a = xs.pop().unwrap();
    (a, b)
}

/// The first argument of a non-empty list.
fn first_one(xs: Vec<Data>) -> (r: Data)
    requires
        xs@.len() >= 1,
    ensures
        r == xs@[0],
{
    let mut xs = xs;
    xs.truncate(1);
    xs.pop().unwrap()
}

/// The instruction that a form is written for, if it is written for one.
pub fn to_inst(d: Data) -> (r: Option<Inst>)
    ensures
        match r {
            Some(i) => decodes(d, i),
            None => forall|i: Inst| !decodes(d, i),
        },
    decreases d, 2nat,
{
    proof {
        lemma_op_strings();
    }
    let ghost d0 = d;
    let op: String = match d.get_string("op") {
        Some(t) => t.clone(),
        None => {
            return None;
        },
    };
    assert(op_is(d, op@));
    if string_is(&op, "lit") {
        match d.take_str("val") {
            Some(v) => Some(Inst::Lit(v)),
            None => None,
        }
    } else if string_is(&op, "deref") {
        match d.take_str("name") {
            Some(Data::Str(t)) => Some(Inst::Deref(t)),
            _ => None,
        }
    } else if string_is(&op, "module") {
        match take_args(d) {
            Some(xs) => Some(Inst::Module(xs)),
            None => None,
        }
    } else if string_is(&op, "qq") {
        match take_args(d) {
            Some(xs) => {
                if xs.len() >= 1 {
                    Some(Inst::Quasiquote(first_one(xs)))
                } else {
                    None
                }
            },
            None => None,
        }
    } else if string_is(&op, "list") || string_is(&op, "dict") {
        let list = string_is(&op, "list");
        match take_args(d) {
            Some(xs) => {
                let ghost xss = xs@;
                proof {
                    lemma_args_smaller(d0, xss);
                }
                match decode_items(xs, Ghost(d0)) {
                    Ok(v) => {
                        if list {
                            Some(Inst::List(v))
                        } else {
                            Some(Inst::Dict(v))
                        }
                    },
                    Err(gk) => {
                        proof {
                            let k = gk@;
                            assert forall|i: Inst| !decodes(d0, i) by {
                                if decodes(d0, i) {
                                    match i {
                                        Inst::List(ys) => {
                                            assert(args_of(d0) == Some(xss));
                                            assert(xss.len() == ys@.len());
                                            assert(decodes(xss[k], ys@[k]));
                                        },
                                        Inst::Dict(ys) => {
                                            assert(decodes(xss[k], ys@[k]));
                                        },
                                        _ => {},
                                    }
                                }
                            }
                        }
                        None
                    },
                }
            },
            None => None,
        }
    } else if string_is(&op, "call") || string_is(&op, "as-result") || string_is(&op, "if") {
        let call = string_is(&op, "call");
        let cond = string_is(&op, "as-result");
        match take_args(d) {
            Some(xs) => {
                let ghost xss = xs@;
                proof {
                    lemma_args_smaller(d0, xss);
                }
                if call {
                    if xs.len() < 2 {
                        return None;
                    }
                    let (a, b) = first_two(xs);
                    let fa = match to_inst(a) {
                        Some(i) => i,
                        None => {
                            proof {
                                assert forall|i: Inst| !decodes(d0, i) by {
                                    if decodes(d0, i) {
                                        match i {
                                            Inst::Call(f, _) => {
                                                assert(decodes(xss[0], *f));
                                            },
                                            _ => {},
                                        }
                                    }
                                }
                            }
                            return None;
                        },
                    };
                    let fb = match to_inst(b) {
                        Some(i) => i,
                        None => {
                            proof {
                                assert forall|i: Inst| !decodes(d0, i) by {
                                    if decodes(d0, i) {
                                        match i {
                                            Inst::Call(_, g) => {
                                                assert(decodes(xss[1], *g));
                                            },
                                            _ => {},
                                        }
                                    }
                                }
                            }
                            return None;
                        },
                    };
                    Some(Inst::Call(Box::new(fa), Box::new(fb)))
                } else if cond {
                    if xs.len() < 1 {
                        return None;
                    }
                    let a = first_one(xs);
                    match to_inst(a) {
                        Some(i) => Some(Inst::AsResult(Box::new(i))),
                        None => {
                            proof {
                                assert forall|i: Inst| !decodes(d0, i) by {
                                    if decodes(d0, i) {
                                        match i {
                                            Inst::AsResult(c) => {
                                                assert(decodes(xss[0], *c));
                                            },
                                            _ => {},
                                        }
                                    }
                                }
                            }
                            None
                        },
                    }
                } else {
                    if xs.len() < 3 {
                        return None;
                    }
                    let mut xs = xs;
                    xs.truncate(3);
                    let e = xs.pop().unwrap();
                    let (c, t) = first_two(xs);
                    let fc = match to_inst(c) {
                        Some(i) => i,
                        None => {
                            proof {
                                assert forall|i: Inst| !decodes(d0, i) by {
                                    if decodes(d0, i) {
                                        match i {
                                            Inst::If(c, _, _) => {
                                                assert(decodes(xss[0], *c));
                                            },
                                            _ => {},
                                        }
                                    }
                                }
                            }
                            return None;
                        },
                    };
                    let ft = match to_inst(t) {
                        Some(i) => i,
                        None => {
                            proof {
                                assert forall|i: Inst| !decodes(d0, i) by {
                                    if decodes(d0, i) {
                                        match i {
                                            Inst::If(_, c, _) => {
                                                assert(decodes(xss[1], *c));
                                            },
                                            _ => {},
                                        }
                                    }
                                }
                            }
                            return None;
                        },
                    };
                    let fe = match to_inst(e) {
                        Some(i) => i,
                        None => {
                            proof {
                                assert forall|i: Inst| !decodes(d0, i) by {
                                    if decodes(d0, i) {
                                        match i {
                                            Inst::If(_, _, c) => {
                                                assert(decodes(xss[2], *c));
                                            },
                                            _ => {},
                                        }
                                    }
                                }
                            }
                            return None;
                        },
                    };
                    Some(Inst::If(Box::new(fc), Box::new(ft), Box::new(fe)))
                }
            },
            None => None,
        }
    } else if string_is(&op, "bind") {
        match take_args(d) {
            Some(xs) => {
                let ghost xss = xs@;
                proof {
                    lemma_args_smaller(d0, xss);
                }
                if xs.len() < 2 {
                    return None;
                }
                let (a, b) = first_two(xs);
                let target_is_name = match a.get_string("op") {
                    Some(t) => string_is(t, "deref"),
                    None => false,
                };
                let fa = if target_is_name {
                    match a.take_str("name") {
                        Some(v) => Inst::Lit(v),
                        None => {
                            proof {
                                assert forall|i: Inst| !decodes(d0, i) by {
                                    if decodes(d0, i) {
                                        match i {
                                            Inst::Bind(_, _) => {
                                                assert(op_is(xss[0], "deref"@));
                                            },
                                            _ => {},
                                        }
                                    }
                                }
                            }
                            return None;
                        },
                    }
                } else {
                    match to_inst(a) {
                        Some(i) => i,
                        None => {
                            proof {
                                assert forall|i: Inst| !decodes(d0, i) by {
                                    if decodes(d0, i) {
                                        match i {
                                            Inst::Bind(f, _) => {
                                                assert(decodes(xss[0], *f));
                                            },
                                            _ => {},
                                        }
                                    }
                                }
                            }
                            return None;
                        },
                    }
                };
                let fb = match to_inst(b) {
                    Some(i) => i,
                    None => {
                        proof {
                            assert forall|i: Inst| !decodes(d0, i) by {
                                if decodes(d0, i) {
                                    match i {
                                        Inst::Bind(_, g) => {
                                            assert(decodes(xss[1], *g));
                                        },
                                        _ => {},
                                    }
                                }
                            }
                        }
                        return None;
                    },
                };
                Some(Inst::Bind(Box::new(fa), Box::new(fb)))
            },
            None => None,
        }
    } else if string_is(&op, "fn") {
        match take_args(d) {
            Some(xs) => {
                let ghost xss = xs@;
                proof {
                    lemma_args_smaller(d0, xss);
                }
                let n = xs.len();
                match decode_items(xs, Ghost(d0)) {
                    Ok(v) => {
                        if n < 2 {
                            return None;
                        }
                        let mut v = v;
                        let ghost vs = v@;
                        let tail = v.pop().unwrap();
                        let par = v.remove(0);
                        let ghost par0 = par;
                        assert(decodes(xss[0], par0));
                        match par {
                            Inst::Deref(name) => {
                                proof {
                                    assert forall|k: int| 0 <= k < v@.len() implies decodes(xss[k + 1], #[trigger] v@[k]) by {
                                        assert(v@[k] == vs[k + 1]);
                                    }
                                }
                                Some(Inst::Fn(name, v, Box::new(tail)))
                            },
                            _ => {
                                proof {
                                    assert(op_is(xss[0], op_name(par0)));
                                    assert forall|i: Inst| !decodes(d0, i) by {
                                        if decodes(d0, i) {
                                            match i {
                                                Inst::Fn(p, _, _) => {
                                                    assert(deref_named(xss[0], p@));
                                                    assert(op_is(xss[0], "deref"@));
                                                },
                                                _ => {},
                                            }
                                        }
                                    }
                                }
                                None
                            },
                        }
                    },
                    Err(gk) => {
                        proof {
                            let k = gk@;
                            assert forall|i: Inst| !decodes(d0, i) by {
                                if decodes(d0, i) {
                                    match i {
                                        Inst::Fn(p, body, tail) => {
                                            if k == 0 {
                                                assert(decodes(xss[0], Inst::Deref(p)));
                                            } else if k < xss.len() - 1 {
                                                assert(decodes(xss[k], body@[k - 1]));
                                            } else {
                                                assert(decodes(xss[xss.len() - 1], *tail));
                                            }
                                        },
                                        _ => {},
                                    }
                                }
                            }
                        }
                        None
                    },
                }
            },
            None => None,
        }
    } else {
        None
    }
}

/// `j` is the literal of the value of the form `x`.
pub open spec fn is_lit_of(j: Inst, x: Data) -> bool {
    field(x, "val"@) matches Some(v) && j == Inst::Lit(v)
}

/// `j` reads the name that the form `x` gives.
pub open spec fn is_name_of(j: Inst, x: Data) -> bool {
    &&& field(x, "name"@) matches Some(Data::Str(n))
    &&& j matches Inst::Deref(m) && m@ == n@
}

/// The instruction that a literal form decodes to is the literal of its value.
pub proof fn law_decode_literal(d: Data, i: Inst)
    requires
        op_is(d, "lit"@),
        decodes(d, i),
    ensures
        field(d, "val"@) matches Some(v) && i == Inst::Lit(v),
{
    lemma_op_strings();
    assert(op_is(d, op_name(i)));
}

/// Decoding keeps positions: a list form whose arguments are literal forms decodes to the
/// list whose item `k` is the literal of the value of argument `k`, for every `k`.
pub proof fn law_list_positions(d: Data, xs: Seq<Data>, i: Inst)
    requires
        op_is(d, "list"@),
        args_of(d) == Some(xs),
        forall|k: int| 0 <= k < xs.len() ==> op_is(#[trigger] xs[k], "lit"@),
        decodes(d, i),
    ensures
        i matches Inst::List(ys) && ys@.len() == xs.len() && forall|k: int|
            0 <= k < xs.len() ==> is_lit_of(#[trigger] ys@[k], xs[k]),
{
    lemma_op_strings();
    assert(op_is(d, op_name(i)));
    match i {
        Inst::List(ys) => {
            assert forall|k: int| 0 <= k < xs.len() implies is_lit_of(#[trigger] ys@[k], xs[k]) by {
                assert(decodes(xs[k], ys@[k]));
                law_decode_literal(xs[k], ys@[k]);
            }
        },
        _ => {},
    }
}

/// The instruction that a form reading a name decodes to reads that same name.
pub proof fn law_decode_name(d: Data, i: Inst)
    requires
        op_is(d, "deref"@),
        decodes(d, i),
    ensures
        is_name_of(i, d),
{
    lemma_op_strings();
    assert(op_is(d, op_name(i)));
}

/// Decoding keeps positions in a dictionary too: a dictionary form whose arguments are
/// literal forms decodes to the dictionary whose item `k` is the literal of the value of
/// argument `k`, for every `k`.
pub proof fn law_dict_positions(d: Data, xs: Seq<Data>, i: Inst)
    requires
        op_is(d, "dict"@),
        args_of(d) == Some(xs),
        forall|k: int| 0 <= k < xs.len() ==> op_is(#[trigger] xs[k], "lit"@),
        decodes(d, i),
    ensures
        i matches Inst::Dict(ys) && ys@.len() == xs.len() && forall|k: int|
            0 <= k < xs.len() ==> is_lit_of(#[trigger] ys@[k], xs[k]),
{
    lemma_op_strings();
    assert(op_is(d, op_name(i)));
    match i {
        Inst::Dict(ys) => {
            assert forall|k: int| 0 <= k < xs.len() implies is_lit_of(#[trigger] ys@[k], xs[k]) by {
                assert(decodes(xs[k], ys@[k]));
                law_decode_literal(xs[k], ys@[k]);
            }
        },
        _ => {},
    }
}

/// Decoding a call keeps its parts apart: a call form whose first argument reads the name
/// `n` and whose second is a list form of literals decodes to the call of that name on the
/// list of those literals, in order.
pub proof fn law_call_positions(d: Data, f: Data, l: Data, xs: Seq<Data>, i: Inst)
    requires
        op_is(d, "call"@),
        args_of(d) == Some(seq![f, l]),
        op_is(f, "deref"@),
        op_is(l, "list"@),
        args_of(l) == Some(xs),
        forall|k: int| 0 <= k < xs.len() ==> op_is(#[trigger] xs[k], "lit"@),
        decodes(d, i),
    ensures
        i matches Inst::Call(g, a) && is_name_of(*g, f) && (*a matches Inst::List(ys) && ys@.len() == xs.len()
            && forall|k: int| 0 <= k < xs.len() ==> is_lit_of(#[trigger] ys@[k], xs[k])),
{
    lemma_op_strings();
    assert(op_is(d, op_name(i)));
    match i {
        Inst::Call(g, a) => {
            assert(seq![f, l][0] == f && seq![f, l][1] == l);
            assert(decodes(f, *g));
            assert(op_is(f, op_name(*g)));
            assert(decodes(l, *a));
            law_list_positions(l, xs, *a);
        },
        _ => {},
    }
}

/// Decoding a conditional keeps its parts in place: with literal forms as its first three
/// arguments, the condition, the branch taken on success and the branch taken on failure are
/// the literals of the first, second and third.
pub proof fn law_if_positions(d: Data, xs: Seq<Data>, i: Inst)
    requires
        op_is(d, "if"@),
        args_of(d) == Some(xs),
        xs.len() >= 3,
        op_is(xs[0], "lit"@),
        op_is(xs[1], "lit"@),
        op_is(xs[2], "lit"@),
        decodes(d, i),
    ensures
        i matches Inst::If(c, t, e) && is_lit_of(*c, xs[0]) && is_lit_of(*t, xs[1]) && is_lit_of(*e, xs[2]),
{
    lemma_op_strings();
    assert(op_is(d, op_name(i)));
    match i {
        Inst::If(c, t, e) => {
            law_decode_literal(xs[0], *c);
            law_decode_literal(xs[1], *t);
            law_decode_literal(xs[2], *e);
        },
        _ => {},
    }
}

/// Decoding a binding of a name binds that name: with a form reading a name as its target
/// and a literal form as its value, the binding binds the literal name to the literal.
pub proof fn law_bind_positions(d: Data, xs: Seq<Data>, i: Inst)
    requires
        op_is(d, "bind"@),
        args_of(d) == Some(xs),
        xs.len() >= 2,
        op_is(xs[0], "deref"@),
        op_is(xs[1], "lit"@),
        decodes(d, i),
    ensures
        i matches Inst::Bind(a, b) && (field(xs[0], "name"@) matches Some(n) && *a == Inst::Lit(n)) && is_lit_of(*b, xs[1]),
{
    lemma_op_strings();
    assert(op_is(d, op_name(i)));
    match i {
        Inst::Bind(a, b) => {
            law_decode_literal(xs[1], *b);
        },
        _ => {},
    }
}

/// Decoding a function keeps its parts in place: its parameter is the name that the first
/// argument reads, its body the literals of the arguments between, in order, and its final
/// instruction the literal of the last.
pub proof fn law_fn_positions(d: Data, xs: Seq<Data>, i: Inst)
    requires
        op_is(d, "fn"@),
        args_of(d) == Some(xs),
        xs.len() >= 2,
        forall|k: int| 1 <= k < xs.len() ==> op_is(#[trigger] xs[k], "lit"@),
        decodes(d, i),
    ensures
        i matches Inst::Fn(par, body, tail) && deref_named(xs[0], par@) && body@.len() == xs.len() - 2 && (forall|k: int|
            0 <= k < body@.len() ==> is_lit_of(#[trigger] body@[k], xs[k + 1])) && is_lit_of(*tail, xs[xs.len() - 1]),
{
    lemma_op_strings();
    assert(op_is(d, op_name(i)));
    match i {
        Inst::Fn(par, body, tail) => {
            assert forall|k: int| 0 <= k < body@.len() implies is_lit_of(#[trigger] body@[k], xs[k + 1]) by {
                assert(decodes(xs[k + 1], body@[k]));
                law_decode_literal(xs[k + 1], body@[k]);
            }
            law_decode_literal(xs[xs.len() - 1], *tail);
        },
        _ => {},
    }
}

} // verus!
