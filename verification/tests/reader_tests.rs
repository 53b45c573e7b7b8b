use mal_reader::mal_error::ErrorKind;
use mal_reader::reader::{read_str, MAX_DEPTH};
use mal_reader::types::{MalList, MalMap, MalType};

fn int_list(values: &[i64]) -> MalType {
    let mut elements = Vec::new();
    for v in values {
        elements.push(MalType::Int(*v));
    }
    MalType::List(MalList::new(elements))
}

fn err_kind(input: &str) -> ErrorKind {
    match read_str(input) {
        Err(e) => e.kind,
        other => panic!("expected an error for {:?}, got {:?}", input, other),
    }
}

#[test]
fn reads_a_list_of_ints() {
    assert_eq!(read_str("(1 2 3)").unwrap(), Some(int_list(&[1, 2, 3])));
}

#[test]
fn unclosed_list_is_unbalanced() {
    assert_eq!(err_kind("(1 2 3"), ErrorKind::UnbalancedList);
}

#[test]
fn unclosed_list_with_commas_is_unbalanced() {
    assert_eq!(err_kind("(1, 2, 3, 4"), ErrorKind::UnbalancedList);
}

#[test]
fn reads_a_map_with_string_key() {
    let expected = MalType::Dict(MalMap::new(vec![("a".to_string(), MalType::Int(1))]));
    assert_eq!(read_str("{\"a\" 1}").unwrap(), Some(expected));
}

#[test]
fn unclosed_map_is_unbalanced() {
    assert_eq!(err_kind("{\"a\" 1"), ErrorKind::UnbalancedMap);
}

#[test]
fn comment_only_input_is_no_form() {
    assert_eq!(read_str("; just a comment").unwrap(), None);
}

#[test]
fn reads_the_literals() {
    let expected = MalType::List(MalList::new(vec![
        MalType::Nil,
        MalType::True,
        MalType::False,
    ]));
    assert_eq!(read_str("(nil true false)").unwrap(), Some(expected));
}

#[test]
fn separators_and_comments_are_insignificant() {
    let a = read_str("(1 2 3)").unwrap();
    let b = read_str("(1, 2, 3)").unwrap();
    let c = read_str("(1 2 3 ; trailing\n)").unwrap();
    assert_eq!(a, Some(int_list(&[1, 2, 3])));
    assert_eq!(a, b);
    assert_eq!(a, c);
}

#[test]
fn blank_inputs_are_no_form() {
    assert_eq!(read_str("").unwrap(), None);
    assert_eq!(read_str("   \t\n").unwrap(), None);
    assert_eq!(read_str(",,,").unwrap(), None);
    assert_eq!(read_str(";;; nothing here").unwrap(), None);
    assert_eq!(read_str("  ; note\n  ; more\n").unwrap(), None);
}

#[test]
fn only_the_first_form_is_read() {
    assert_eq!(read_str("1, 2, 3, 4)").unwrap(), Some(MalType::Int(1)));
}

#[test]
fn stray_closing_delimiter_is_unsupported() {
    assert_eq!(err_kind(")"), ErrorKind::UnsupportedToken);
    assert_eq!(err_kind("}"), ErrorKind::UnsupportedToken);
}

#[test]
fn quoting_tokens_are_unsupported_forms() {
    assert_eq!(err_kind("'"), ErrorKind::UnsupportedToken);
    assert_eq!(err_kind("(1 ~@ 2)"), ErrorKind::UnsupportedToken);
    assert_eq!(err_kind("["), ErrorKind::UnsupportedToken);
}

#[test]
fn unterminated_string_reports_lexical_error() {
    assert_eq!(err_kind("\"This string is lopsided."), ErrorKind::UnterminatedString);
    assert_eq!(err_kind("(1 \"open"), ErrorKind::UnterminatedString);
}

#[test]
fn non_key_in_map_key_position_is_invalid() {
    assert_eq!(err_kind("{1 2}"), ErrorKind::InvalidMapKey);
    assert_eq!(err_kind("{(1) 2}"), ErrorKind::InvalidMapKey);
}

#[test]
fn odd_map_is_unbalanced() {
    assert_eq!(err_kind("{\"a\"}"), ErrorKind::UnbalancedMap);
    assert_eq!(err_kind("{\"a\" 1 \"b\"}"), ErrorKind::UnbalancedMap);
}

#[test]
fn symbol_keys_work_and_later_duplicate_wins() {
    let expected = MalType::Dict(MalMap::new(vec![("a".to_string(), MalType::Int(2))]));
    assert_eq!(read_str("{a 1 a 2}").unwrap(), Some(expected));
}

#[test]
fn nested_forms_keep_structure_and_order() {
    let inner1 = int_list(&[1, 2]);
    let inner2 = int_list(&[3]);
    let expected = MalType::List(MalList::new(vec![
        inner1,
        MalType::Symbol("x".to_string()),
        inner2,
    ]));
    assert_eq!(read_str("((1 2) x (3))").unwrap(), Some(expected));
}

#[test]
fn map_inside_list_closes_cleanly() {
    let map = MalType::Dict(MalMap::new(vec![("a".to_string(), MalType::Int(1))]));
    let expected = MalType::List(MalList::new(vec![
        map,
        MalType::Int(2),
        MalType::Int(3),
        MalType::Int(4),
    ]));
    assert_eq!(read_str("( {\"a\" 1} 2 3 4)").unwrap(), Some(expected));
}

#[test]
fn string_payload_strips_quotes_and_keeps_escapes() {
    assert_eq!(
        read_str("\"hello\"").unwrap(),
        Some(MalType::Str("hello".to_string()))
    );
    assert_eq!(
        read_str("\"a\\\"b\"").unwrap(),
        Some(MalType::Str("a\\\"b".to_string()))
    );
    assert_eq!(read_str("\"\"").unwrap(), Some(MalType::Str("".to_string())));
}

#[test]
fn integer_classification_covers_signs_and_range() {
    assert_eq!(read_str("1234").unwrap(), Some(MalType::Int(1234)));
    assert_eq!(read_str("-123").unwrap(), Some(MalType::Int(-123)));
    assert_eq!(read_str("+5").unwrap(), Some(MalType::Int(5)));
    assert_eq!(
        read_str("9223372036854775807").unwrap(),
        Some(MalType::Int(i64::MAX))
    );
    assert_eq!(
        read_str("-9223372036854775808").unwrap(),
        Some(MalType::Int(i64::MIN))
    );
}

#[test]
fn out_of_range_or_mixed_digits_are_symbols() {
    assert_eq!(
        read_str("9223372036854775808").unwrap(),
        Some(MalType::Symbol("9223372036854775808".to_string()))
    );
    assert_eq!(
        read_str("12ab").unwrap(),
        Some(MalType::Symbol("12ab".to_string()))
    );
    assert_eq!(read_str("-").unwrap(), Some(MalType::Symbol("-".to_string())));
    assert_eq!(read_str("+").unwrap(), Some(MalType::Symbol("+".to_string())));
}

#[test]
fn nesting_past_the_bound_is_reported_not_a_crash() {
    let opens = "(".repeat(MAX_DEPTH as usize + 10);
    assert_eq!(err_kind(&opens), ErrorKind::NestingTooDeep);
    let mut balanced = "(".repeat(MAX_DEPTH as usize + 10);
    balanced.push_str(&")".repeat(MAX_DEPTH as usize + 10));
    assert_eq!(err_kind(&balanced), ErrorKind::NestingTooDeep);
}

#[test]
fn nesting_within_the_bound_succeeds() {
    let depth = 40usize;
    let mut text = "(".repeat(depth);
    text.push_str(&")".repeat(depth));
    let mut expected = MalType::List(MalList::new(Vec::new()));
    for _ in 0..depth - 1 {
        expected = MalType::List(MalList::new(vec![expected]));
    }
    assert_eq!(read_str(&text).unwrap(), Some(expected));
}

#[test]
fn empty_list_and_empty_map_read_back() {
    assert_eq!(
        read_str("()").unwrap(),
        Some(MalType::List(MalList::new(Vec::new())))
    );
    assert_eq!(
        read_str("{}").unwrap(),
        Some(MalType::Dict(MalMap::new(Vec::new())))
    );
}
