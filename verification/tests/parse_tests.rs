use brlang::data::Data;
use brlang::parse::{inst, module, ParseError};

fn s(t: &str) -> Data {
    Data::Str(t.to_string())
}

fn record(k0: &str, v0: &str, k1: &str, v1: Data) -> Data {
    Data::Coll(vec![], vec![(s(k0), s(v0)), (s(k1), v1)])
}

fn list(items: Vec<Data>) -> Data {
    Data::Coll(items.into_iter().enumerate().collect(), vec![])
}

fn lit(v: Data) -> Data {
    record("op", "lit", "val", v)
}

fn dref(name: &str) -> Data {
    record("op", "deref", "name", s(name))
}

fn op(o: &str, args: Vec<Data>) -> Data {
    record("op", o, "args", list(args))
}

fn call(f: Data, args: Vec<Data>) -> Data {
    op("call", vec![f, op("list", args)])
}

fn parsed(text: &str) -> Data {
    let (rest, d) = inst(text).unwrap();
    assert_eq!(rest, "");
    d
}

#[test]
fn integer_literal() {
    assert_eq!(parsed("42"), lit(Data::Int(42)));
    assert_eq!(parsed("-7"), lit(Data::Int(-7)));
    assert_eq!(parsed("007"), lit(Data::Int(7)));
}

#[test]
fn integer_limits() {
    assert_eq!(parsed("9223372036854775807"), lit(Data::Int(i64::MAX)));
    assert_eq!(parsed("-9223372036854775808"), lit(Data::Int(i64::MIN)));
    assert_eq!(inst("9223372036854775808"), Err(ParseError::Overflow));
    assert_eq!(inst("-9223372036854775809"), Err(ParseError::Overflow));
}

#[test]
fn string_literal_with_newline_escape() {
    assert_eq!(parsed("\"a\\nb\""), lit(s("a\nb")));
    assert_eq!(
        parsed("\"this is a string inside of a string\""),
        lit(s("this is a string inside of a string"))
    );
}

#[test]
fn unclosed_string_fails() {
    assert_eq!(inst("\"abc"), Err(ParseError::Failure));
}

#[test]
fn symbol_reads_a_name() {
    assert_eq!(parsed("fibonacci"), dref("fibonacci"));
    assert_eq!(parsed("++"), dref("++"));
    assert_eq!(parsed("a-b2"), dref("a-b2"));
}

#[test]
fn call_with_arguments() {
    assert_eq!(
        parsed("(+ 1 8)"),
        call(dref("+"), vec![lit(Data::Int(1)), lit(Data::Int(8))])
    );
    assert_eq!(parsed("(fibonacci 6)"), call(dref("fibonacci"), vec![lit(Data::Int(6))]));
}

#[test]
fn list_and_braces() {
    assert_eq!(parsed("[1 2]"), op("list", vec![lit(Data::Int(1)), lit(Data::Int(2))]));
    assert_eq!(parsed("{do 0}"), op("do", vec![lit(Data::Int(0))]));
    assert_eq!(parsed("[]"), op("list", vec![]));
}

#[test]
fn nested_if_program() {
    let d = parsed("{if (< 4 3) {do 0} (+ 90 9)}");
    let expected = op(
        "if",
        vec![
            call(dref("<"), vec![lit(Data::Int(4)), lit(Data::Int(3))]),
            op("do", vec![lit(Data::Int(0))]),
            call(dref("+"), vec![lit(Data::Int(90)), lit(Data::Int(9))]),
        ],
    );
    assert_eq!(d, expected);
}

#[test]
fn braces_need_an_operator_name_first() {
    // After `{` comes the operator's name; `a: 4` does not continue it, so the brace is
    // left unclosed.
    assert_eq!(inst("({a: 4 b: 5} \"c\")"), Err(ParseError::Failure));
    assert_eq!(inst("{dict a: 4 b: 5}"), Ok((String::new(), op("dict", vec![
        op("bind", vec![dref("a"), lit(Data::Int(4))]),
        op("bind", vec![dref("b"), lit(Data::Int(5))]),
    ]))));
}

#[test]
fn binding_after_instruction() {
    assert_eq!(parsed("x: 5"), op("bind", vec![dref("x"), lit(Data::Int(5))]));
    assert_eq!(parsed("x:5"), op("bind", vec![dref("x"), lit(Data::Int(5))]));
}

#[test]
fn binding_without_body_is_left_alone() {
    let (rest, d) = inst("x: )").unwrap();
    assert_eq!(d, dref("x"));
    assert_eq!(rest, ": )");
}

#[test]
fn dots_access() {
    assert_eq!(parsed("a.b"), op("dot", vec![dref("a"), dref("b")]));
    assert_eq!(parsed("a.b.c"), op("dot", vec![dref("a"), dref("b"), dref("c")]));
    assert_eq!(parsed("a. 1"), op("dot", vec![dref("a"), lit(Data::Int(1))]));
}

#[test]
fn rest_of_input_is_returned() {
    let (rest, d) = inst("(f) tail").unwrap();
    assert_eq!(d, call(dref("f"), vec![]));
    assert_eq!(rest, " tail");
}

#[test]
fn no_instruction_is_an_error() {
    assert_eq!(inst(""), Err(ParseError::Error));
    assert_eq!(inst(" 1"), Err(ParseError::Error));
    assert_eq!(inst(")"), Err(ParseError::Error));
}

#[test]
fn unclosed_brace_fails() {
    assert_eq!(inst("{do 1"), Err(ParseError::Failure));
}

#[test]
fn module_of_instructions() {
    let (rest, d) = module(" x: 1\n# (a comment)\n(f x) ").unwrap();
    assert_eq!(rest, "");
    assert_eq!(
        d,
        op(
            "module",
            vec![op("bind", vec![dref("x"), lit(Data::Int(1))]), call(dref("f"), vec![dref("x")])]
        )
    );
}

#[test]
fn empty_module() {
    let (rest, d) = module("").unwrap();
    assert_eq!(rest, "");
    assert_eq!(d, op("module", vec![]));
}

#[test]
fn module_must_take_all_input() {
    assert_eq!(module("1 )"), Err(ParseError::Error));
    assert_eq!(module("(1"), Err(ParseError::Error));
}

#[test]
fn module_reports_overflow() {
    assert_eq!(module("1 99999999999999999999"), Err(ParseError::Overflow));
}

#[test]
fn fn_literal_program() {
    let d = parsed("({fn [a b] (+ a b)} 1 8)");
    let f = op(
        "fn",
        vec![
            op("list", vec![dref("a"), dref("b")]),
            call(dref("+"), vec![dref("a"), dref("b")]),
        ],
    );
    assert_eq!(d, call(f, vec![lit(Data::Int(1)), lit(Data::Int(8))]));
}
