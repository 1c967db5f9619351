use brlang::data::Data;
use brlang::macros::{bind_op_list, name_to_lit, op_call_coll, op_dot, op_op};

fn s(t: &str) -> Data {
    Data::Str(t.to_string())
}

fn record(k0: &str, v0: &str, k1: &str, v1: Data) -> Data {
    Data::Coll(vec![], vec![(s(k0), s(v0)), (s(k1), v1)])
}

fn list(items: Vec<Data>) -> Data {
    Data::Coll(items.into_iter().enumerate().collect(), vec![])
}

fn lit(v: Data) -> Data {
    record("op", "lit", "val", v)
}

fn dref(name: &str) -> Data {
    record("op", "deref", "name", s(name))
}

fn op(o: &str, args: Vec<Data>) -> Data {
    record("op", o, "args", list(args))
}

fn call(f: Data, args: Vec<Data>) -> Data {
    op("call", vec![f, op("list", args)])
}

#[test]
fn name_to_lit_turns_names_into_literals() {
    assert_eq!(name_to_lit(dref("b")), Some(lit(s("b"))));
    assert_eq!(name_to_lit(lit(Data::Int(1))), Some(lit(Data::Int(1))));
    assert_eq!(name_to_lit(Data::Int(1)), None);
    assert_eq!(name_to_lit(Data::Coll(vec![], vec![(s("op"), s("deref"))])), None);
}

#[test]
fn renaming_twice_changes_nothing_more() {
    let once = name_to_lit(dref("b")).unwrap();
    let twice = name_to_lit(name_to_lit(dref("b")).unwrap()).unwrap();
    assert_eq!(once, twice);
}

#[test]
fn op_dot_chains_calls() {
    let got = op_dot(vec![dref("a"), dref("b"), dref("c")]).unwrap();
    let expected = call(call(dref("a"), vec![lit(s("b"))]), vec![lit(s("c"))]);
    assert_eq!(got, expected);
    assert_eq!(op_dot(vec![dref("a")]), Some(dref("a")));
    assert_eq!(op_dot(vec![]), None);
    assert_eq!(op_dot(vec![dref("a"), Data::Int(3)]), None);
}

#[test]
fn op_dot_keeps_other_forms() {
    let got = op_dot(vec![dref("xs"), lit(Data::Int(0))]).unwrap();
    assert_eq!(got, call(dref("xs"), vec![lit(Data::Int(0))]));
}

#[test]
fn op_call_coll_calls_first_on_rest() {
    let got = op_call_coll(vec![dref("f"), lit(Data::Int(1)), lit(Data::Int(2))]).unwrap();
    assert_eq!(got, call(dref("f"), vec![lit(Data::Int(1)), lit(Data::Int(2))]));
    assert_eq!(op_call_coll(vec![]), None);
}

#[test]
fn op_op_on_a_name() {
    let got = op_op(vec![dref("if"), lit(Data::Int(1)), lit(Data::Int(2))]).unwrap();
    assert_eq!(got, op("if", vec![lit(Data::Int(1)), lit(Data::Int(2))]));
}

#[test]
fn op_op_on_a_binding() {
    let b = op("bind", vec![dref("a"), lit(Data::Int(4))]);
    let c = op("bind", vec![dref("b"), lit(Data::Int(5))]);
    let got = op_op(vec![op("bind", vec![dref("a"), lit(Data::Int(4))]), c]).unwrap();
    let c2 = op("bind", vec![dref("b"), lit(Data::Int(5))]);
    assert_eq!(got, op("dict", vec![b, c2]));
}

#[test]
fn op_op_refuses_other_forms() {
    assert_eq!(op_op(vec![]), None);
    assert_eq!(op_op(vec![lit(Data::Int(1))]), None);
    assert_eq!(op_op(vec![Data::Coll(vec![], vec![(s("op"), s("deref"))])]), None);
}

#[test]
fn bind_op_list_binds_each_position() {
    let mut counter = 4usize;
    let got = bind_op_list(vec![dref("a"), dref("b")], &mut counter);
    assert_eq!(counter, 5);
    let at = |i: i64| op("call-coll", vec![dref("list5"), lit(Data::Int(i))]);
    let expected = Data::Coll(
        vec![],
        vec![
            (s("bind"), s("list5")),
            (s("ops"), list(vec![op("bind", vec![dref("a"), at(0)]), op("bind", vec![dref("b"), at(1)])])),
        ],
    );
    assert_eq!(got, expected);
}

#[test]
fn bind_op_list_names_are_fresh() {
    let mut counter = 0usize;
    let first = bind_op_list(vec![], &mut counter);
    let second = bind_op_list(vec![], &mut counter);
    assert_eq!(first.get_str("bind"), Some(&s("list1")));
    assert_eq!(second.get_str("bind"), Some(&s("list2")));
}
