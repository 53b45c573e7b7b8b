use mal_reader::env::Env;
use mal_reader::eval::eval_ast;
use mal_reader::mal_error::{ErrorKind, MalError};
use mal_reader::read;
use mal_reader::eval;
use mal_reader::types::{MalList, MalMap, MalType};

#[test]
fn read_delegates_to_read_str() {
    let expected = MalType::List(MalList::new(vec![MalType::Int(7)]));
    assert_eq!(read("(7)").unwrap(), Some(expected));
    assert_eq!(read("   ").unwrap(), None);
    assert_eq!(read("(").unwrap_err().kind, ErrorKind::UnbalancedList);
}

#[test]
fn eval_passes_no_form_through() {
    assert_eq!(eval(None), None);
}

#[test]
fn eval_keeps_the_tree_value() {
    // Evaluation denotes the identity at this stage: reading the same text
    // again gives the expected result.
    let ast = read("(1 \"two\" (3 4))").unwrap();
    let again = read("(1 \"two\" (3 4))").unwrap();
    assert_eq!(eval(ast), again);
}

#[test]
fn eval_ast_keeps_ints_and_strings() {
    let mut env = Env::new();
    assert_eq!(eval_ast(MalType::Int(5), &mut env), MalType::Int(5));
    assert_eq!(
        eval_ast(MalType::Str("abc".to_string()), &mut env),
        MalType::Str("abc".to_string())
    );
}

#[test]
fn eval_ast_rebuilds_maps() {
    let mut env = Env::new();
    let map = MalType::Dict(MalMap::new(vec![
        ("k".to_string(), MalType::Int(1)),
        ("l".to_string(), MalType::Int(2)),
    ]));
    let expected = MalType::Dict(MalMap::new(vec![
        ("k".to_string(), MalType::Int(1)),
        ("l".to_string(), MalType::Int(2)),
    ]));
    assert_eq!(eval_ast(map, &mut env), expected);
}

#[test]
fn mal_error_keeps_kind_and_message() {
    let e = MalError::new(ErrorKind::UnbalancedMap, "oh no".to_string());
    assert_eq!(e.kind, ErrorKind::UnbalancedMap);
    assert_eq!(e.message, "oh no");
}

#[test]
fn map_new_applies_last_write_wins() {
    let a = MalMap::new(vec![
        ("a".to_string(), MalType::Int(1)),
        ("a".to_string(), MalType::Int(2)),
    ]);
    let b = MalMap::new(vec![("a".to_string(), MalType::Int(2))]);
    assert_eq!(a, b);
}

#[test]
fn list_new_keeps_elements() {
    let l = MalList::new(vec![MalType::Int(1), MalType::Nil]);
    assert_eq!(l.elements, vec![MalType::Int(1), MalType::Nil]);
}
