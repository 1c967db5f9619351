use brlang::arith::{div, lt, minus, plus, times};
use brlang::data::Data;
use brlang::text::{char_at, chars_of, gensym, split};

#[test]
fn lt_answers_with_first() {
    assert_eq!(lt(3, 4), Ok(3));
    assert_eq!(lt(4, 3), Err(4));
    assert_eq!(lt(4, 4), Err(4));
}

#[test]
fn plus_sums() {
    assert_eq!(plus(&vec![90, 9]), Some(99));
    assert_eq!(plus(&vec![]), Some(0));
    assert_eq!(plus(&vec![1, 8, -4]), Some(5));
}

#[test]
fn plus_overflow_is_refused() {
    assert_eq!(plus(&vec![i64::MAX, 1]), None);
    assert_eq!(plus(&vec![i64::MAX, 1, -1]), None);
    assert_eq!(plus(&vec![i64::MAX, -1, 1]), Some(i64::MAX));
}

#[test]
fn minus_subtracts_sum() {
    assert_eq!(minus(10, &vec![1, 2, 3]), Some(4));
    assert_eq!(minus(10, &vec![]), Some(10));
    assert_eq!(minus(i64::MIN, &vec![1]), None);
    assert_eq!(minus(0, &vec![i64::MAX, 1]), None);
}

#[test]
fn div_rounds_toward_zero() {
    assert_eq!(div(7, &vec![2]), Some(3));
    assert_eq!(div(-7, &vec![2]), Some(-3));
    assert_eq!(div(7, &vec![-2]), Some(-3));
    assert_eq!(div(-7, &vec![-2]), Some(3));
    assert_eq!(div(100, &vec![2, 5]), Some(10));
    assert_eq!(div(5, &vec![]), Some(5));
}

#[test]
fn div_refusals() {
    assert_eq!(div(1, &vec![0]), None);
    assert_eq!(div(i64::MIN, &vec![-1]), None);
    assert_eq!(div(1, &vec![i64::MAX, 2]), None);
    assert_eq!(times(&vec![3, 4]), Some(12));
}

#[test]
fn gensym_counts() {
    let mut c = 0usize;
    assert_eq!(gensym("list", &mut c), "list1");
    assert_eq!(gensym("list", &mut c), "list2");
    assert_eq!(c, 2);
    let mut d = 9usize;
    assert_eq!(gensym("x", &mut d), "x10");
}

#[test]
fn gensym_names_are_fresh() {
    let mut c = 0usize;
    let names: Vec<String> = (0..30).map(|_| gensym("g", &mut c)).collect();
    for a in 0..names.len() {
        for b in 0..a {
            assert_ne!(names[a], names[b]);
        }
    }
}

#[test]
fn decimal_numerals() {
    assert_eq!(Data::Int(0).repr(), "0");
    assert_eq!(Data::Int(-45).repr(), "-45");
    assert_eq!(Data::Int(i64::MIN).repr(), "-9223372036854775808");
    assert_eq!(Data::Int(i64::MAX).repr(), "9223372036854775807");
}

#[test]
fn chars_of_string() {
    assert_eq!(chars_of("aé"), vec!['a', 'é']);
}

#[test]
fn split_at_separator() {
    assert_eq!(split("a,b,,c", ","), vec!["a", "b", "", "c"]);
    assert_eq!(split("", ","), vec![""]);
    assert_eq!(split("abc", "bc"), vec!["a", ""]);
    assert_eq!(split("aaa", "aa"), vec!["", "a"]);
    assert_eq!(split("no sep", ";"), vec!["no sep"]);
}

#[test]
fn split_at_empty_separator() {
    assert_eq!(split("abc", ""), vec!["", "a", "b", "c", ""]);
    assert_eq!(split("", ""), vec!["", ""]);
}

#[test]
fn split_then_join_gives_back() {
    for (text, sep) in [("a--b--", "--"), ("x", "x"), ("", "ab"), ("1 2 3", " "), ("abc", "")] {
        assert_eq!(split(text, sep).join(sep), text);
        let std_pieces: Vec<String> = text.split(sep).map(|p| p.to_string()).collect();
        assert_eq!(split(text, sep), std_pieces);
    }
}

#[test]
fn char_at_byte_offsets() {
    assert_eq!(char_at("abc", 0), Some("a".to_string()));
    assert_eq!(char_at("abc", 2), Some("c".to_string()));
    assert_eq!(char_at("abc", 3), None);
    assert_eq!(char_at("abc", -2), None);
    assert_eq!(char_at("éa", 0), None);
    assert_eq!(char_at("éa", 1), None);
    assert_eq!(char_at("éa", 2), Some("a".to_string()));
}
