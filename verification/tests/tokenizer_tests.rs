use mal_reader::mal_error::ErrorKind;
use mal_reader::tokenizer::{Token, Tokenizer};

#[test]
fn ignores_whitespace() {
    let mut t = Tokenizer::new(" \t\n");
    assert!(matches!(t.next(), Ok(None)));
    assert!(matches!(t.next(), Ok(None)));
    assert!(matches!(t.next(), Ok(None)));
}

#[test]
fn ignores_comma() {
    let mut t = Tokenizer::new(",");
    assert!(matches!(t.next(), Ok(None)));
    assert!(matches!(t.next(), Ok(None)));
}

#[test]
fn brace_like_things() {
    let mut t = Tokenizer::new("[]{}()");
    assert!(matches!(t.next(), Ok(Some(Token::LBrace))));
    assert!(matches!(t.next(), Ok(Some(Token::RBrace))));
    assert!(matches!(t.next(), Ok(Some(Token::LCurly))));
    assert!(matches!(t.next(), Ok(Some(Token::RCurly))));
    assert!(matches!(t.next(), Ok(Some(Token::LParen))));
    assert!(matches!(t.next(), Ok(Some(Token::RParen))));
    assert!(matches!(t.next(), Ok(None)));
}

#[test]
fn special_chars() {
    let mut t = Tokenizer::new("~@@~\'`");
    assert!(matches!(t.next(), Ok(Some(Token::SpliceUnquote))));
    assert!(matches!(t.next(), Ok(Some(Token::At))));
    assert!(matches!(t.next(), Ok(Some(Token::Tilde))));
    assert!(matches!(t.next(), Ok(Some(Token::Quote))));
    assert!(matches!(t.next(), Ok(Some(Token::Quasiquote))));
    assert!(matches!(t.next(), Ok(None)));
}

#[test]
fn ignores_comments() {
    let mut t = Tokenizer::new("; This is a comment");
    assert!(matches!(t.next(), Ok(None)));
}

#[test]
fn balanced_string() {
    let input = "\"VEEERY BALANCED DOUBLE QUOTES\"";
    let mut t = Tokenizer::new(&input);

    if let Ok(Some(Token::Str(data))) = t.next() {
        assert_eq!(input, data);
    } else {
        panic!();
    }
}

#[test]
fn non_special() {
    let input = "true,false,nil variable_name\ta 1234 -123";
    let mut t = Tokenizer::new(&input);

    let expected = ["true", "false", "nil", "variable_name", "a", "1234", "-123"];
    for e in expected {
        let nxt = t.next();
        if let Ok(Some(Token::NonSpecial(data))) = nxt {
            assert_eq!(e, data);
        } else {
            panic!("Next token {:?} did not match expected form.", nxt);
        }
    }
}

#[test]
fn list() {
    let input = "(hello world this is a list)";
    let mut t = Tokenizer::new(&input);

    assert!(matches!(t.next(), Ok(Some(Token::LParen))));
    let expected = ["hello", "world", "this", "is", "a", "list"];
    for e in expected {
        let nxt = t.next();
        if let Ok(Some(Token::NonSpecial(data))) = nxt {
            assert_eq!(e, data);
        } else {
            panic!("Next token {:?} did not match expected form.", nxt);
        }
    }
    assert!(matches!(t.next(), Ok(Some(Token::RParen))));
    assert!(matches!(t.next(), Ok(None)));
}

#[test]
fn commas_as_whitespace() {
    let input = "(1 2, 3,,,,),,";
    let mut t = Tokenizer::new(&input);
    assert!(matches!(t.next(), Ok(Some(Token::LParen))));
    let expected = ["1", "2", "3"];
    for e in expected {
        let nxt = t.next();
        if let Ok(Some(Token::NonSpecial(data))) = nxt {
            assert_eq!(e, data);
        } else {
            panic!("Next token {:?} did not match expected form.", nxt);
        }
    }
    assert!(matches!(t.next(), Ok(Some(Token::RParen))));
    assert!(matches!(t.next(), Ok(None)));
}

#[test]
fn hash_maps() {
    let input = "{ \"a\" 1 }";
    let mut t = Tokenizer::new(&input);
    assert!(matches!(t.next(), Ok(Some(Token::LCurly))));
    assert!(matches!(t.next(), Ok(Some(Token::Str(_)))));
    assert!(matches!(t.next(), Ok(Some(Token::NonSpecial(_)))));
    assert!(matches!(t.next(), Ok(Some(Token::RCurly))));
    assert!(matches!(t.next(), Ok(None)));
}

#[test]
fn unterminated_string_is_a_lexical_error() {
    let mut t = Tokenizer::new("\"This string is lopsided.");
    match t.next() {
        Err(e) => assert_eq!(e.kind, ErrorKind::UnterminatedString),
        other => panic!("expected a lexical error, got {:?}", other),
    }
}

#[test]
fn splice_unquote_is_one_token() {
    let mut t = Tokenizer::new("~@");
    assert!(matches!(t.next(), Ok(Some(Token::SpliceUnquote))));
    assert!(matches!(t.next(), Ok(None)));
}

#[test]
fn tilde_then_word_are_two_tokens() {
    let mut t = Tokenizer::new("~x");
    assert!(matches!(t.next(), Ok(Some(Token::Tilde))));
    match t.next() {
        Ok(Some(Token::NonSpecial(data))) => assert_eq!(data, "x"),
        other => panic!("expected a non-special token, got {:?}", other),
    }
    assert!(matches!(t.next(), Ok(None)));
}

#[test]
fn string_token_keeps_raw_escapes() {
    let mut t = Tokenizer::new("\"a\\\"b\"");
    match t.next() {
        Ok(Some(Token::Str(data))) => assert_eq!(data, "\"a\\\"b\""),
        other => panic!("expected a string token, got {:?}", other),
    }
    assert!(matches!(t.next(), Ok(None)));
}
