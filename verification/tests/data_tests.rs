use brlang::data::{print_text_of, str_of, Data};
use brlang::inst::{to_inst, Inst};
use brlang::parse::inst as parse_inst;

fn s(t: &str) -> Data {
    Data::Str(t.to_string())
}

fn list(items: Vec<Data>) -> Data {
    Data::Coll(items.into_iter().enumerate().collect(), vec![])
}

fn dict(pairs: Vec<(&str, Data)>) -> Data {
    Data::Coll(vec![], pairs.into_iter().map(|(k, v)| (s(k), v)).collect())
}

fn form(text: &str) -> Data {
    parse_inst(text).unwrap().1
}

#[test]
fn repr_of_scalars() {
    assert_eq!(Data::Int(5).repr(), "5");
    assert_eq!(Data::Int(-12).repr(), "-12");
    assert_eq!(s("a b").repr(), "\"a b\"");
    assert_eq!(Data::Fn(3).repr(), "<Fn>");
}

#[test]
fn repr_of_lists_marks_gaps() {
    assert_eq!(list(vec![Data::Int(1), Data::Int(2)]).repr(), "[1 2]");
    let gappy = Data::Coll(vec![(0, Data::Int(1)), (2, Data::Int(3)), (3, Data::Int(4))], vec![]);
    assert_eq!(gappy.repr(), "[1 2: 3 4]");
    let late = Data::Coll(vec![(5, Data::Int(1))], vec![]);
    assert_eq!(late.repr(), "[5: 1]");
}

#[test]
fn repr_of_dicts() {
    assert_eq!(dict(vec![("a", Data::Int(1)), ("b", s("x"))]).repr(), "{a: 1 b: \"x\"}");
    assert_eq!(dict(vec![]).repr(), "{}");
    let both = Data::Coll(vec![(0, Data::Int(1))], vec![(s("k"), Data::Int(2))]);
    assert_eq!(both.repr(), "[1 k: 2]");
}

#[test]
fn naked_forms() {
    assert_eq!(s("plain").naked_repr(), "plain");
    assert_eq!(Data::Int(7).naked_repr(), "7");
    assert_eq!(s("plain").naked_pretty(), vec!["plain".to_string()]);
}

#[test]
fn pretty_short_is_one_line() {
    let d = list(vec![Data::Int(1), Data::Int(2), Data::Int(3)]);
    assert_eq!(d.pretty(), vec!["[1 2 3]".to_string()]);
    assert_eq!(dict(vec![("a", Data::Int(1))]).pretty(), vec!["{a: 1}".to_string()]);
}

#[test]
fn pretty_long_breaks_lines() {
    let word = "aaaaaaaaaa";
    let d = list(vec![s(word), s(word), s(word), s(word), s(word)]);
    let q = format!("\"{}\"", word);
    assert_eq!(
        d.pretty(),
        vec![
            format!("[{}", q),
            format!(" {}", q),
            format!(" {}", q),
            format!(" {}", q),
            format!(" {}]", q),
        ]
    );
}

#[test]
fn pretty_dict_with_long_value() {
    let word = "bbbbbbbbbbbbbbbbbbbb";
    let inner = list(vec![s(word), s(word)]);
    let d = dict(vec![("k", inner)]);
    let q = format!("\"{}\"", word);
    assert_eq!(d.pretty(), vec!["{k:".to_string(), format!(" [{}", q), format!("  {}]}}", q)]);
}

#[test]
fn str_joins_bare_forms() {
    let xs = vec![s("a"), Data::Int(1), list(vec![Data::Int(2), s("b")])];
    assert_eq!(str_of(&xs), "a1[2 \"b\"]");
    assert_eq!(str_of(&vec![]), "");
}

#[test]
fn print_text_joins_with_spaces() {
    let xs = vec![s("hi"), Data::Int(3), list(vec![Data::Int(1)])];
    assert_eq!(print_text_of(&xs), "hi 3 [1]");
}

#[test]
fn fields_and_items() {
    let d = dict(vec![("op", s("lit")), ("val", Data::Int(3))]);
    assert_eq!(d.get_str("val"), Some(&Data::Int(3)));
    assert_eq!(d.get_str("nothing"), None);
    assert_eq!(d.get_string("op"), Some(&"lit".to_string()));
    assert_eq!(d.get_string("val"), None);
    assert_eq!(d.take_str("val"), Some(Data::Int(3)));
    assert_eq!(list(vec![Data::Int(1), Data::Int(2)]).into_items(), Some(vec![Data::Int(1), Data::Int(2)]));
    let gappy = Data::Coll(vec![(1, Data::Int(1))], vec![]);
    assert_eq!(gappy.into_items(), None);
    assert_eq!(Data::Int(1).into_items(), None);
}

#[test]
fn decode_literal_and_name() {
    assert_eq!(to_inst(form("5")), Some(Inst::Lit(Data::Int(5))));
    assert_eq!(to_inst(form("x")), Some(Inst::Deref("x".to_string())));
}

#[test]
fn decode_call() {
    assert_eq!(
        to_inst(form("(f 1)")),
        Some(Inst::Call(
            Box::new(Inst::Deref("f".to_string())),
            Box::new(Inst::List(vec![Inst::Lit(Data::Int(1))]))
        ))
    );
}

#[test]
fn decode_binding_of_a_name() {
    assert_eq!(
        to_inst(form("x: 1")),
        Some(Inst::Bind(Box::new(Inst::Lit(s("x"))), Box::new(Inst::Lit(Data::Int(1)))))
    );
}

#[test]
fn decode_function() {
    let got = to_inst(form("{fn x (g x) (h x)}"));
    assert_eq!(
        got,
        Some(Inst::Fn(
            "x".to_string(),
            vec![Inst::Call(
                Box::new(Inst::Deref("g".to_string())),
                Box::new(Inst::List(vec![Inst::Deref("x".to_string())]))
            )],
            Box::new(Inst::Call(
                Box::new(Inst::Deref("h".to_string())),
                Box::new(Inst::List(vec![Inst::Deref("x".to_string())]))
            ))
        ))
    );
}

#[test]
fn decode_function_needs_a_name_parameter() {
    assert_eq!(to_inst(form("{fn [a b] 1}")), None);
    assert_eq!(to_inst(form("{fn x}")), None);
}

#[test]
fn decode_if_and_as_result() {
    assert_eq!(
        to_inst(form("{if 1 2 3}")),
        Some(Inst::If(
            Box::new(Inst::Lit(Data::Int(1))),
            Box::new(Inst::Lit(Data::Int(2))),
            Box::new(Inst::Lit(Data::Int(3)))
        ))
    );
    assert_eq!(to_inst(form("{if 1 2}")), None);
    assert_eq!(to_inst(form("{as-result 1}")), Some(Inst::AsResult(Box::new(Inst::Lit(Data::Int(1))))));
}

#[test]
fn decode_module_and_quote() {
    let got = to_inst(form("{module 1 x}"));
    match got {
        Some(Inst::Module(args)) => assert_eq!(args.len(), 2),
        other => panic!("{:?}", other),
    }
    match to_inst(form("{qq (f x)}")) {
        Some(Inst::Quasiquote(d)) => assert_eq!(d, form("(f x)")),
        other => panic!("{:?}", other),
    }
}

#[test]
fn decode_dict() {
    assert_eq!(
        to_inst(form("{dict a: 1}")),
        Some(Inst::Dict(vec![Inst::Bind(Box::new(Inst::Lit(s("a"))), Box::new(Inst::Lit(Data::Int(1))))]))
    );
}

#[test]
fn decode_failures() {
    assert_eq!(to_inst(Data::Int(1)), None);
    assert_eq!(to_inst(dict(vec![("op", Data::Int(1))])), None);
    assert_eq!(to_inst(form("{unknown 1}")), None);
    assert_eq!(to_inst(dict(vec![("op", s("call")), ("args", list(vec![form("f")]))])), None);
    assert_eq!(to_inst(dict(vec![("op", s("lit"))])), None);
}

#[test]
fn list_written_as_items_in_brackets() {
    let inner = list(vec![s("x"), Data::Int(2)]);
    let d = list(vec![Data::Int(1), inner, dict(vec![("k", Data::Int(3))])]);
    assert_eq!(d.repr(), "[1 [\"x\" 2] {k: 3}]");
}

#[test]
fn short_values_lie_on_their_written_line() {
    let d = Data::Coll(
        vec![(0, Data::Int(1)), (3, list(vec![s("x")]))],
        vec![(s("k"), dict(vec![("a", Data::Int(2))]))],
    );
    assert_eq!(d.pretty(), vec![d.repr()]);
    assert_eq!(d.repr(), "[1 3: [\"x\"] k: {a: 2}]");
}
