//! The built-in macros: rewrites of instruction forms into other instruction forms.
use vstd::prelude::*;

use crate::create::{deref, inst, is_inst, lit, record};
use crate::data::{Data, field, list_items, string_is};
use crate::inst::{args_of, lemma_inst_fields, lemma_key_strings, lemma_record_fields, op_is};
use crate::text::{decimal_nat, gensym};

verus! {

broadcast use vstd::string::group_string_axioms;

/// The form has a string operator, and if it reads a name, it has that name.
pub open spec fn renamable(form: Data) -> bool {
    &&& field(form, "op"@) matches Some(Data::Str(_))
    &&& op_is(form, "deref"@) ==> field(form, "name"@) is Some
}

/// `x` is the form with a read of a name turned into the literal name: `{op: "lit", val:
/// name}` for `{op: "deref", name: name}`, and any other form as it is.
pub open spec fn renamed(form: Data, x: Data) -> bool {
    if op_is(form, "deref"@) {
        field(form, "name"@) matches Some(v) && record(x, "op"@, "lit"@, "val"@, v)
    } else {
        x == form
    }
}

/// A read of a name becomes the literal name; any other form stays as it is. `None` when the
/// form has no string operator, or reads a name without giving one.
pub fn name_to_lit(form: Data) -> (r: Option<Data>)
    ensures
        r is Some <==> renamable(form),
        r matches Some(x) ==> renamed(form, x),
{
    let is_deref = match form.get_string("op") {
        Some(t) => string_is(t, "deref"),
        None => {
            return None;
        },
    };
    if is_deref {
        match form.take_str("name") {
            Some(v) => Some(lit(v)),
            None => None,
        }
    } else {
        Some(form)
    }
}

/// Renaming what renaming produced changes nothing: a literal name reads no name, and any
/// other form was left as it was.
pub proof fn law_rename_idempotent(form: Data, x: Data)
    requires
        renamable(form),
        renamed(form, x),
    ensures
        renamable(x),
        renamed(x, x),
{
    lemma_key_strings();
    if op_is(form, "deref"@) {
        let v = field(form, "name"@)->Some_0;
        lemma_record_fields(x, "op"@, "lit"@, "val"@, v);
    }
}

/// `d` applies `base` to the names in turn: `base` when there are none, else the call of the
/// chain on all but the last with the list of the last, renamed.
pub open spec fn dot_chain(d: Data, base: Data, names: Seq<Data>) -> bool
    decreases names.len(),
{
    if names.len() == 0 {
        d == base
    } else {
        &&& args_of(d) matches Some(ys)
        &&& ys.len() == 2
        &&& is_inst(d, "call"@, ys)
        &&& dot_chain(ys[0], base, names.drop_last())
        &&& args_of(ys[1]) matches Some(zs)
        &&& zs.len() == 1
        &&& is_inst(ys[1], "list"@, zs)
        &&& renamed(names.last(), zs[0])
    }
}

/// The call of `f` on the list `args`, as a form.
fn call_form(f: Data, args: Vec<Data>) -> (d: Data)
    ensures
        args_of(d) matches Some(ys) && ys.len() == 2 && is_inst(d, "call"@, ys) && ys[0] == f
            && is_inst(ys[1], "list"@, args@),
{
    let ghost a = args@;
    let l = inst("list", args);
    let ghost lv = l;
    let d = inst("call", vec![f, l]);
    proof {
        assert(seq![f, lv] =~= seq![f, lv]);
        lemma_inst_fields(d, "call"@, seq![f, lv]);
    }
    d
}

/// The macro for `a.b.c`: the call of `a` on the name `b`, that of the result on `c`, and
/// so on, where a name that is read is taken as the literal name. `None` when there is no
/// first form or a later one cannot be renamed.
#[verifier::loop_isolation(false)]
pub fn op_dot(xs: Vec<Data>) -> (r: Option<Data>)
    ensures
        r is Some <==> xs@.len() > 0 && forall|k: int| 1 <= k < xs@.len() ==> renamable(#[trigger] xs@[k]),
        r matches Some(d) ==> dot_chain(d, xs@[0], xs@.drop_first()),
{
    let ghost s = xs@;
    if xs.len() == 0 {
        return None;
    }
    let mut xs = xs;
    let mut rest = xs.split_off(1);
    let mut res = xs.pop().unwrap();
    assert(rest@ == s.drop_first());
    let ghost names = rest@;
    let mut k: usize = 0;
    while rest.len() > 0
        invariant
            s.len() > 0,
            s.len() <= usize::MAX,
            names == s.drop_first(),
            k <= names.len(),
            rest@ == names.skip(k as int),
            forall|b: int| 0 <= b < k ==> renamable(#[trigger] names[b]),
            dot_chain(res, s[0], names.take(k as int)),
        decreases rest@.len(),
    {
        assert(rest@.len() == names.len() - k);
        assert(k < names.len());
        let foo = rest.remove(0);
        assert(foo == names[k as int]);
        match name_to_lit(foo) {
            Some(name) => {
                let ghost nv = name;
                let one = vec![name];
                assert(one@ =~= seq![nv]);
                res = call_form(res, one);
                proof {
                    let t = names.take(k + 1);
                    assert(t.drop_last() =~= names.take(k as int));
                    assert(t.last() == names[k as int]);
                    let ys = args_of(res)->Some_0;
                    lemma_inst_fields(ys[1], "list"@, seq![nv]);
                    assert(rest@ =~= names.skip(k + 1));
                }
                k = k + 1;
            },
            None => {
                assert(names[k as int] == s[k + 1]);
                assert(!renamable(s[k + 1]));
                return None;
            },
        }
    }
    assert(k == names.len());
    assert(names.take(k as int) =~= names);
    assert forall|b: int| 1 <= b < s.len() implies renamable(#[trigger] s[b]) by {
        assert(s[b] == names[b - 1]);
    }
    Some(res)
}

/// The macro for `(f a b ...)` on a collection: the call of the first form on the list of
/// the others. `None` when there are no forms.
pub fn op_call_coll(xs: Vec<Data>) -> (r: Option<Data>)
    ensures
        r is Some <==> xs@.len() > 0,
        r matches Some(d) ==> args_of(d) matches Some(ys) && ys.len() == 2 && is_inst(d, "call"@, ys)
            && ys[0] == xs@[0] && is_inst(ys[1], "list"@, xs@.drop_first()),
{
    if xs.len() == 0 {
        return None;
    }
    let ghost s = xs@;
    let mut xs = xs;
    let rest = xs.split_off(1);
    let f = xs.pop().unwrap();
    assert(rest@ =~= s.drop_first());
    Some(call_form(f, rest))
}

/// The macro for `{op ...}` where the first form gives the operator: a read of a name `n`
/// becomes the instruction `n` with the other forms as its arguments, and a binding becomes
/// the instruction `dict` with all the forms. `None` for any other first form, and when
/// there is none.
pub fn op_op(xs: Vec<Data>) -> (r: Option<Data>)
    ensures
        r is Some <==> xs@.len() > 0 && ((op_is(xs@[0], "deref"@) && field(xs@[0], "name"@) matches Some(
            Data::Str(_),
        )) || op_is(xs@[0], "bind"@)),
        r matches Some(d) ==> (if op_is(xs@[0], "deref"@) {
            field(xs@[0], "name"@) matches Some(Data::Str(n)) && is_inst(d, n@, xs@.drop_first())
        } else {
            is_inst(d, "dict"@, xs@)
        }),
{
    proof {
        lemma_key_strings();
    }
    if xs.len() == 0 {
        return None;
    }
    let ghost s = xs@;
    let (is_deref, is_bind) = match xs[0].get_string("op") {
        Some(t) => (string_is(t, "deref"), string_is(t, "bind")),
        None => (false, false),
    };
    if is_deref {
        let name = match xs[0].get_string("name") {
            Some(n) => n.clone(),
            None => {
                return None;
            },
        };
        let mut xs = xs;
        let rest = xs.split_off(1);
        assert(rest@ =~= s.drop_first());
        Some(inst(name.as_str(), rest))
    } else if is_bind {
        Some(inst("dict", xs))
    } else {
        None
    }
}

/// The binding operator for list patterns `[a b ...]`: a fresh name `listN` for the whole
/// value and, for each pattern, the binding of the pattern to the entry at its position.
/// Each call takes the next number from `counter`.
pub fn bind_op_list(args: Vec<Data>, counter: &mut usize) -> (r: Data)
    requires
        *old(counter) < usize::MAX,
    ensures
        *final(counter) == *old(counter) + 1,
        list_binding(r, args@, "list"@ + decimal_nat(*final(counter) as nat)),
{
    let ghost a = args@;
    let name = gensym("list", counter);
    let ghost nm = name@;
    let mut ops: Vec<Data> = Vec::new();
    let mut i: usize = 0;
    for arg in it: args
        invariant
            it.seq() == a,
            i == it.index(),
            i <= a.len(),
            name@ == nm,
            ops@.len() == i,
            forall|b: int| 0 <= b < i ==> bind_entry(#[trigger] ops@[b], a[b], nm, b),
    {
        let dr = deref(Data::Str(name.clone()));
        let ghost drv = dr;
        let n: i64 = #[verifier::truncate] (i as i64);
        let lt = lit(Data::Int(n));
        let ghost ltv = lt;
        let two = vec![dr, lt];
        assert(two@ =~= seq![drv, ltv]);
        let at = inst("call-coll", two);
        let ghost atv = at;
        proof {
            lemma_key_strings();
            lemma_record_fields(drv, "op"@, "deref"@, "name"@, drv->Coll_1@[1].1);
            lemma_inst_fields(atv, "call-coll"@, seq![drv, ltv]);
        }
        let ghost argv = arg;
        let pair = vec![arg, at];
        assert(pair@ =~= seq![argv, atv]);
        let b = inst("bind", pair);
        proof {
            lemma_inst_fields(b, "bind"@, seq![argv, atv]);
        }
        ops.push(b);
        i = ops.len();
    }
    let l = crate::create::list(ops);
    let ghost lv = l;
    let r = Data::Coll(Vec::new(), vec![(crate::create::text("bind"), Data::Str(name)), (crate::create::text("ops"), l)]);
    proof {
        lemma_key_strings();
        lemma_record_fields(r, "bind"@, nm, "ops"@, lv);
        assert(list_items(lv) matches Some(x) && x =~= ops@);
    }
    r
}

/// `r` binds the fresh name `name` and lists, as its operations, the bindings of the
/// patterns to the entries of the list so named.
pub open spec fn list_binding(r: Data, pats: Seq<Data>, name: Seq<char>) -> bool {
    &&& field(r, "ops"@) matches Some(l)
    &&& record(r, "bind"@, name, "ops"@, l)
    &&& list_items(l) matches Some(ops)
    &&& ops.len() == pats.len()
    &&& forall|i: int| 0 <= i < ops.len() ==> bind_entry(#[trigger] ops[i], pats[i], name, i)
}

/// The binding that a list pattern makes for its entry at position `i`: the pattern, bound
/// to the call of the list named `name` on the literal `i`.
pub open spec fn bind_entry(op: Data, pattern: Data, name: Seq<char>, i: int) -> bool {
    &&& args_of(op) matches Some(ys)
    &&& ys.len() == 2
    &&& is_inst(op, "bind"@, ys)
    &&& ys[0] == pattern
    &&& args_of(ys[1]) matches Some(zs)
    &&& zs.len() == 2
    &&& is_inst(ys[1], "call-coll"@, zs)
    &&& field(zs[0], "name"@) matches Some(v) && record(zs[0], "op"@, "deref"@, "name"@, v)
    &&& field(zs[0], "name"@) matches Some(Data::Str(t)) && t@ == name
    &&& record(zs[1], "op"@, "lit"@, "val"@, Data::Int(i as i64))
}

} // verus!
