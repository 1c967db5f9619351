//! Builders of instruction forms: the dictionaries that the parser and the macros produce.
use vstd::prelude::*;

use crate::data::Data;

verus! {

broadcast use vstd::string::group_string_axioms;

/// `d` is the string `s`.
pub open spec fn str_data(d: Data, s: Seq<char>) -> bool {
    d matches Data::Str(t) && t@ == s
}

/// `d` is a dictionary of two entries, `k0: v0` with a string value and then `k1: v1`.
pub open spec fn record(d: Data, k0: Seq<char>, v0: Seq<char>, k1: Seq<char>, v1: Data) -> bool {
    &&& d matches Data::Coll(xs, kvs)
    &&& xs@.len() == 0
    &&& kvs@.len() == 2
    &&& str_data(kvs@[0].0, k0)
    &&& str_data(kvs@[0].1, v0)
    &&& str_data(kvs@[1].0, k1)
    &&& kvs@[1].1 == v1
}

/// `d` is the list of `items`: the collection holding them at indices `0, 1, ...` and nothing else.
pub open spec fn is_list(d: Data, items: Seq<Data>) -> bool {
    &&& d matches Data::Coll(ys, zs)
    &&& zs@.len() == 0
    &&& ys@.len() == items.len()
    &&& forall|i: int| 0 <= i < items.len() ==> (#[trigger] ys@[i]).0 == i && ys@[i].1 == items[i]
}

/// `d` is the instruction `{op: op, args: [...]}` with the given arguments.
pub open spec fn is_inst(d: Data, op: Seq<char>, args: Seq<Data>) -> bool {
    &&& d matches Data::Coll(xs, kvs)
    &&& xs@.len() == 0
    &&& kvs@.len() == 2
    &&& str_data(kvs@[0].0, "op"@)
    &&& str_data(kvs@[0].1, op)
    &&& str_data(kvs@[1].0, "args"@)
    &&& is_list(kvs@[1].1, args)
}

/// A string value holding `s`.
pub fn text(s: &str) -> (d: Data)
    ensures
        str_data(d, s@),
{
    Data::Str(s.to_string())
}

/// The list of `items`.
pub fn list(items: Vec<Data>) -> (d: Data)
    ensures
        is_list(d, items@),
{
    let ghost s = items@;
    let mut ys: Vec<(usize, Data)> = Vec::new();
    let mut i: usize = 0;
    for x in it: items
        invariant
            it.seq() == s,
            i == it.index(),
            ys@.len() == i,
            forall|a: int| 0 <= a < i ==> (#[trigger] ys@[a]).0 == a && ys@[a].1 == s[a],
    {
        ys.push((i, x));
        i = ys.len();
    }
    Data::Coll(ys, Vec::new())
}

/// The literal instruction `{op: "lit", val: v}`.
pub fn lit(v: Data) -> (d: Data)
    ensures
        record(d, "op"@, "lit"@, "val"@, v),
{
    Data::Coll(Vec::new(), vec![(text("op"), text("lit")), (text("val"), v)])
}

/// The instruction `{op: "deref", name: name}` that reads the binding `name`.
pub fn deref(name: Data) -> (d: Data)
    ensures
        record(d, "op"@, "deref"@, "name"@, name),
{
    Data::Coll(Vec::new(), vec![(text("op"), text("deref")), (text("name"), name)])
}

/// The instruction `{op: op, args: [...]}`.
pub fn inst(op: &str, args: Vec<Data>) -> (d: Data)
    ensures
        is_inst(d, op@, args@),
{
    Data::Coll(Vec::new(), vec![(text("op"), text(op)), (text("args"), list(args))])
}

} // verus!
