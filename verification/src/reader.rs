//! The reader: pulls tokens through a forward-only cursor and assembles one
//! syntax-tree node per call, recursively for lists and maps.
//!
//! The overloaded "no form" signal of a naive reader is split into three
//! explicit outcomes: [`ReadOutcome::FormRead`] (a node was built),
//! [`ReadOutcome::DelimiterReached`] (the lookahead is a closing delimiter,
//! not consumed — only a list or map being closed may accept it), and
//! [`ReadOutcome::EndOfInput`]. Recursion depth is bounded by [`MAX_DEPTH`];
//! deeper nesting is the reported error `NestingTooDeep`, not a crash.
//!
//! The spec-level parser [`parse_form`] says exactly which node (or which
//! error) each token sequence denotes; the executable reader is proved to
//! follow it.

use vstd::prelude::*;
use vstd::string::StrSliceExecFns;
use vstd::pervasive::unreached;

use crate::mal_error::{ErrorKind, MalError};
use crate::tokenizer::{lemma_scan_advances, scan, tokens_spec, ScanStep, Tok, Token, Tokenizer};
use crate::types::{seq_models, seq_wf, MalList, MalMap, MalType, Val};

verus! {

/// The reader refuses to open a list or map nested deeper than this.
pub const MAX_DEPTH: u32 = 256;

/// The outcome of asking for one form.
#[derive(Debug)]
pub enum ReadOutcome {
    /// One complete form was read.
    FormRead(MalType),
    /// The lookahead token is a closing delimiter; it was not consumed.
    /// Valid only where a list or map is being closed.
    DelimiterReached,
    /// No tokens remain.
    EndOfInput,
}

// ---------------------------------------------------------------------------
// Classification of non-special tokens: integer literal, named literal, or
// symbol.
// ---------------------------------------------------------------------------

pub open spec fn is_digit(c: char) -> bool {
    48 <= c as int && c as int <= 57
}

pub open spec fn digit_val(c: char) -> int {
    c as int - 48
}

pub open spec fn all_digits(s: Seq<char>) -> bool {
    forall|k: int| 0 <= k < s.len() ==> is_digit(s[k])
}

/// The number denoted by a run of decimal digits.
pub open spec fn digits_val(s: Seq<char>) -> int
    decreases s.len(),
{
    if s.len() == 0 {
        0
    } else {
        digits_val(s.drop_last()) * 10 + digit_val(s.last())
    }
}

/// The digit run of an integer literal: the text with a leading sign removed.
pub open spec fn int_body(text: Seq<char>) -> Seq<char> {
    if text.len() > 0 && (text[0] == '-' || text[0] == '+') {
        text.skip(1)
    } else {
        text
    }
}

pub open spec fn int_sign(text: Seq<char>) -> int {
    if text.len() > 0 && text[0] == '-' {
        -1
    } else {
        1
    }
}

/// The signed value denoted by an integer literal.
pub open spec fn int_val(text: Seq<char>) -> int {
    int_sign(text) * digits_val(int_body(text))
}

/// Whether the text is an integer literal: an optional sign, at least one
/// digit, and a value that fits a 64-bit signed integer.
pub open spec fn is_int_literal(text: Seq<char>) -> bool {
    int_body(text).len() > 0 && all_digits(int_body(text)) && i64::MIN <= int_val(text)
        && int_val(text) <= i64::MAX
}

/// What a non-special token denotes: an integer if it parses as one, a
/// literal if it is exactly `nil`/`true`/`false`, else a symbol of that text.
pub open spec fn classify(text: Seq<char>) -> Val {
    if is_int_literal(text) {
        Val::Int(int_val(text))
    } else if text == "nil"@ {
        Val::Nil
    } else if text == "true"@ {
        Val::True
    } else if text == "false"@ {
        Val::False
    } else {
        Val::Symbol(text)
    }
}

/// The payload of a string token: the characters strictly between the quotes.
pub open spec fn strip_quotes(raw: Seq<char>) -> Seq<char> {
    if raw.len() >= 2 {
        raw.subrange(1, raw.len() - 1)
    } else {
        Seq::empty()
    }
}

/// The key text of a map key that resolved to a symbol or string.
pub open spec fn key_text(v: Val) -> Seq<char> {
    match v {
        Val::Symbol(s) => s,
        Val::Str(s) => s,
        _ => Seq::empty(),
    }
}

// ---------------------------------------------------------------------------
// The spec-level parser.
// ---------------------------------------------------------------------------

/// What parsing one form from a token sequence yields: a node and the
/// remaining tokens, a closing delimiter left in place, clean end of input,
/// or a typed failure.
pub enum ParseStep {
    Form(Val, Seq<Tok>),
    Delim,
    End,
    Fail(ErrorKind),
}

/// Parses one form from the front of `ts`, with `depth` nesting levels left.
pub open spec fn parse_form(ts: Seq<Tok>, depth: nat) -> ParseStep
    decreases ts.len(), 0int,
{
    if ts.len() == 0 {
        ParseStep::End
    } else {
        match ts[0] {
            Tok::LParen => if depth == 0 {
                ParseStep::Fail(ErrorKind::NestingTooDeep)
            } else {
                parse_list(ts.skip(1), (depth - 1) as nat, Seq::empty())
            },
            Tok::LCurly => if depth == 0 {
                ParseStep::Fail(ErrorKind::NestingTooDeep)
            } else {
                parse_map(ts.skip(1), (depth - 1) as nat, Map::empty())
            },
            Tok::RParen => ParseStep::Delim,
            Tok::RCurly => ParseStep::Delim,
            Tok::NonSpecial(text) => ParseStep::Form(classify(text), ts.skip(1)),
            Tok::Str(raw) => ParseStep::Form(Val::Str(strip_quotes(raw)), ts.skip(1)),
            _ => ParseStep::Fail(ErrorKind::UnsupportedToken),
        }
    }
}

/// Parses list elements (the opening parenthesis already consumed) until the
/// matching `)`. End of input first is `UnbalancedList`; a stray `}` is
/// `UnsupportedToken`.
pub open spec fn parse_list(ts: Seq<Tok>, depth: nat, acc: Seq<Val>) -> ParseStep
    decreases ts.len(), 1int,
{
    match parse_form(ts, depth) {
        ParseStep::Form(v, rest) => if rest.len() < ts.len() {
            parse_list(rest, depth, acc.push(v))
        } else {
            ParseStep::Fail(ErrorKind::UnbalancedList)
        },
        ParseStep::Delim => if ts[0] == Tok::RParen {
            ParseStep::Form(Val::List(acc), ts.skip(1))
        } else {
            ParseStep::Fail(ErrorKind::UnsupportedToken)
        },
        ParseStep::End => ParseStep::Fail(ErrorKind::UnbalancedList),
        ParseStep::Fail(k) => ParseStep::Fail(k),
    }
}

/// Parses map entries (the opening brace already consumed) until the matching
/// `}`. A key must resolve to a symbol or string (`InvalidMapKey` otherwise);
/// a key with no paired value, or end of input, is `UnbalancedMap`; a later
/// entry with the same key overwrites the earlier one.
pub open spec fn parse_map(ts: Seq<Tok>, depth: nat, acc: Map<Seq<char>, Val>) -> ParseStep
    decreases ts.len(), 1int,
{
    match parse_form(ts, depth) {
        ParseStep::Delim => if ts[0] == Tok::RCurly {
            ParseStep::Form(Val::Dict(acc), ts.skip(1))
        } else {
            ParseStep::Fail(ErrorKind::UnsupportedToken)
        },
        ParseStep::End => ParseStep::Fail(ErrorKind::UnbalancedMap),
        ParseStep::Fail(k) => ParseStep::Fail(k),
        ParseStep::Form(k, rest1) => if !(k is Symbol || k is Str) {
            ParseStep::Fail(ErrorKind::InvalidMapKey)
        } else if rest1.len() >= ts.len() {
            ParseStep::Fail(ErrorKind::UnbalancedMap)
        } else {
            match parse_form(rest1, depth) {
                ParseStep::Form(v, rest2) => if rest2.len() < rest1.len() {
                    parse_map(rest2, depth, acc.insert(key_text(k), v))
                } else {
                    ParseStep::Fail(ErrorKind::UnbalancedMap)
                },
                ParseStep::Delim => if rest1[0] == Tok::RCurly {
                    ParseStep::Fail(ErrorKind::UnbalancedMap)
                } else {
                    ParseStep::Fail(ErrorKind::UnsupportedToken)
                },
                ParseStep::End => ParseStep::Fail(ErrorKind::UnbalancedMap),
                ParseStep::Fail(k2) => ParseStep::Fail(k2),
            }
        },
    }
}

/// Structural facts about the parser: a parsed form consumes at least one
/// token; `End` happens exactly on empty input; `Delim` leaves the closing
/// delimiter in place; list and map parsing yield a form or a failure.
pub proof fn lemma_parse_form_props(ts: Seq<Tok>, depth: nat)
    ensures
        parse_form(ts, depth) matches ParseStep::Form(v, rest) ==> rest.len() < ts.len(),
        parse_form(ts, depth) is End <==> ts.len() == 0,
        parse_form(ts, depth) is Delim ==> ts.len() > 0 && (ts[0] == Tok::RParen || ts[0]
            == Tok::RCurly),
    decreases ts.len(), 0int,
{
    if ts.len() > 0 {
        match ts[0] {
            Tok::LParen => {
                if depth > 0 {
                    lemma_parse_list_props(ts.skip(1), (depth - 1) as nat, Seq::empty());
                }
            },
            Tok::LCurly => {
                if depth > 0 {
                    lemma_parse_map_props(ts.skip(1), (depth - 1) as nat, Map::empty());
                }
            },
            _ => {},
        }
    }
}

/// See [`lemma_parse_form_props`].
pub proof fn lemma_parse_list_props(ts: Seq<Tok>, depth: nat, acc: Seq<Val>)
    ensures
        parse_list(ts, depth, acc) is Form || parse_list(ts, depth, acc) is Fail,
        parse_list(ts, depth, acc) matches ParseStep::Form(v, rest) ==> rest.len() <= ts.len()
            && v is List,
    decreases ts.len(), 1int,
{
    lemma_parse_form_props(ts, depth);
    match parse_form(ts, depth) {
        ParseStep::Form(v, rest) => {
            lemma_parse_list_props(rest, depth, acc.push(v));
        },
        _ => {},
    }
}

/// See [`lemma_parse_form_props`].
pub proof fn lemma_parse_map_props(ts: Seq<Tok>, depth: nat, acc: Map<Seq<char>, Val>)
    ensures
        parse_map(ts, depth, acc) is Form || parse_map(ts, depth, acc) is Fail,
        parse_map(ts, depth, acc) matches ParseStep::Form(v, rest) ==> rest.len() <= ts.len()
            && v is Dict,
    decreases ts.len(), 1int,
{
    lemma_parse_form_props(ts, depth);
    match parse_form(ts, depth) {
        ParseStep::Form(k, rest1) => {
            if (k is Symbol || k is Str) && rest1.len() < ts.len() {
                lemma_parse_form_props(rest1, depth);
                match parse_form(rest1, depth) {
                    ParseStep::Form(v, rest2) => {
                        if rest2.len() < rest1.len() {
                            lemma_parse_map_props(rest2, depth, acc.insert(key_text(k), v));
                        }
                    },
                    _ => {},
                }
            }
        },
        _ => {},
    }
}

// ---------------------------------------------------------------------------
// The executable reader.
// ---------------------------------------------------------------------------

/// The models of a token sequence.
pub open spec fn toks_of(tokens: Seq<Token>) -> Seq<Tok> {
    tokens.map_values(|t: Token| t@)
}

/// The reader's cursor: the tokens not yet consumed, in order. This is the
/// explicit, owned lookahead buffer that nested readers share; a consumed
/// token cannot be re-observed.
pub struct Reader {
    tokens: Vec<Token>,
}

/// What the first remaining token is, for dispatch.
enum PeekKind {
    OpenParen,
    OpenBrace,
    CloseParen,
    CloseBrace,
    Word,
    StrLit,
    EndOfTokens,
    Unsupported,
}

impl Reader {
    /// The tokens not yet consumed.
    pub closed spec fn remaining(self) -> Seq<Tok> {
        toks_of(self.tokens@)
    }

    pub fn new(tokens: Vec<Token>) -> (r: Reader)
        ensures
            r.remaining() == toks_of(tokens@),
    {
        Reader { tokens }
    }

    /// Consumes and returns the next token, if any.
    fn next_token(&mut self) -> (t: Option<Token>)
        ensures
            old(self).remaining().len() == 0 ==> t is None && *final(self) == *old(self),
            old(self).remaining().len() > 0 ==> (t matches Some(tk) && tk@ == old(
                self,
            ).remaining()[0] && final(self).remaining() == old(self).remaining().skip(1)),
    {
        if self.tokens.len() == 0 {
            None
        } else {
            let tk = self.tokens.remove(0);
            proof {
                assert(toks_of(self.tokens@) =~= toks_of(old(self).tokens@).skip(1));
            }
            Some(tk)
        }
    }

    /// Looks at the next token without consuming it.
    fn peek_kind(&self) -> (k: PeekKind)
        ensures
            match k {
                PeekKind::EndOfTokens => self.remaining().len() == 0,
                PeekKind::OpenParen => self.remaining().len() > 0 && self.remaining()[0]
                    == Tok::LParen,
                PeekKind::OpenBrace => self.remaining().len() > 0 && self.remaining()[0]
                    == Tok::LCurly,
                PeekKind::CloseParen => self.remaining().len() > 0 && self.remaining()[0]
                    == Tok::RParen,
                PeekKind::CloseBrace => self.remaining().len() > 0 && self.remaining()[0]
                    == Tok::RCurly,
                PeekKind::Word => self.remaining().len() > 0 && self.remaining()[0] is NonSpecial,
                PeekKind::StrLit => self.remaining().len() > 0 && self.remaining()[0] is Str,
                PeekKind::Unsupported => self.remaining().len() > 0 && !(self.remaining()[0]
                    is LParen || self.remaining()[0] is LCurly || self.remaining()[0] is RParen
                    || self.remaining()[0] is RCurly || self.remaining()[0] is NonSpecial
                    || self.remaining()[0] is Str),
            },
    {
        if self.tokens.len() == 0 {
            PeekKind::EndOfTokens
        } else {
            match &self.tokens[0] {
                Token::LParen => PeekKind::OpenParen,
                Token::LCurly => PeekKind::OpenBrace,
                Token::RParen => PeekKind::CloseParen,
                Token::RCurly => PeekKind::CloseBrace,
                Token::NonSpecial(_) => PeekKind::Word,
                Token::Str(_) => PeekKind::StrLit,
                _ => PeekKind::Unsupported,
            }
        }
    }
}

/// How a call of the reader relates to the spec-level parser: the outcome,
/// the error kind, and the new cursor, for each possible parse.
pub open spec fn read_form_post(
    before: Reader,
    after: Reader,
    depth: nat,
    res: Result<ReadOutcome, MalError>,
) -> bool {
    match parse_form(before.remaining(), depth) {
        ParseStep::Form(v, rest) => (res matches Ok(ReadOutcome::FormRead(m)) && m.model() == v
            && m.wf() && after.remaining() == rest && after.remaining().len()
            < before.remaining().len()),
        ParseStep::Delim => res matches Ok(ReadOutcome::DelimiterReached) && after == before,
        ParseStep::End => res matches Ok(ReadOutcome::EndOfInput) && after == before,
        ParseStep::Fail(k) => (res matches Err(e) && e.kind == k),
    }
}

/// Reads one form through the cursor, with at most `MAX_DEPTH` levels of
/// nesting; follows [`parse_form`].
pub fn read_form(r: &mut Reader) -> (res: Result<ReadOutcome, MalError>)
    ensures
        read_form_post(*old(r), *final(r), MAX_DEPTH as nat, res),
{
    read_form_at(r, MAX_DEPTH)
}

/// As [`read_form`], with `depth` nesting levels left.
fn read_form_at(r: &mut Reader, depth: u32) -> (res: Result<ReadOutcome, MalError>)
    ensures
        read_form_post(*old(r), *final(r), depth as nat, res),
    decreases r.remaining().len(), 1int,
{
    proof {
        lemma_parse_form_props(r.remaining(), depth as nat);
    }
    match r.peek_kind() {
        PeekKind::EndOfTokens => Ok(ReadOutcome::EndOfInput),
        PeekKind::CloseParen => Ok(ReadOutcome::DelimiterReached),
        PeekKind::CloseBrace => Ok(ReadOutcome::DelimiterReached),
        PeekKind::OpenParen => {
            if depth == 0 {
                Err(MalError::new(ErrorKind::NestingTooDeep, "form nested too deeply".to_owned()))
            } else {
                match read_list(r, depth) {
                    Ok(l) => Ok(ReadOutcome::FormRead(MalType::List(l))),
                    Err(e) => Err(e),
                }
            }
        },
        PeekKind::OpenBrace => {
            if depth == 0 {
                Err(MalError::new(ErrorKind::NestingTooDeep, "form nested too deeply".to_owned()))
            } else {
                match read_map(r, depth) {
                    Ok(m) => Ok(ReadOutcome::FormRead(MalType::Dict(m))),
                    Err(e) => Err(e),
                }
            }
        },
        PeekKind::Word => {
            match r.next_token() {
                Some(Token::NonSpecial(text)) => Ok(ReadOutcome::FormRead(classify_token(text))),
                _ => unreached(),
            }
        },
        PeekKind::StrLit => {
            match r.next_token() {
                Some(Token::Str(raw)) => {
                    let n = raw.as_str().unicode_len();
                    let payload = if n >= 2 {
                        raw.as_str().substring_char(1, n - 1).to_owned()
                    } else {
                        String::new()
                    };
                    Ok(ReadOutcome::FormRead(MalType::Str(payload)))
                },
                _ => unreached(),
            }
        },
        PeekKind::Unsupported => {
            Err(
                MalError::new(
                    ErrorKind::UnsupportedToken,
                    "token cannot begin a form".to_owned(),
                ),
            )
        },
    }
}

/// Reads the elements of a list whose `(` is the next token, through the
/// matching `)`; follows [`parse_list`]. Elements keep input order.
fn read_list(r: &mut Reader, depth: u32) -> (res: Result<MalList, MalError>)
    requires
        depth >= 1,
        old(r).remaining().len() > 0,
        old(r).remaining()[0] == Tok::LParen,
    ensures
        match parse_list(old(r).remaining().skip(1), (depth - 1) as nat, Seq::empty()) {
            ParseStep::Form(v, rest) => (res matches Ok(l) && Val::List(l.models()) == v && l.wf()
                && final(r).remaining() == rest),
            ParseStep::Fail(k) => (res matches Err(e) && e.kind == k),
            _ => false,
        },
    decreases r.remaining().len(), 0int,
{
    let ghost ts0 = r.remaining().skip(1);
    let ghost d = (depth - 1) as nat;
    let _ = r.next_token();
    let mut elements: Vec<MalType> = Vec::new();
    loop
        invariant
            depth >= 1,
            d == (depth - 1) as nat,
            ts0 == old(r).remaining().skip(1),
            old(r).remaining().len() == ts0.len() + 1,
            r.remaining().len() <= ts0.len(),
            seq_wf(elements@),
            parse_list(ts0, d, Seq::empty()) == parse_list(r.remaining(), d, seq_models(elements@)),
        decreases r.remaining().len(),
    {
        let ghost cur = r.remaining();
        match read_form_at(r, depth - 1) {
            Err(e) => {
                return Err(e);
            },
            Ok(ReadOutcome::FormRead(m)) => {
                proof {
                    lemma_parse_form_props(cur, d);
                    lemma_seq_models_push(elements@, m);
                }
                elements.push(m);
            },
            Ok(ReadOutcome::DelimiterReached) => {
                match r.peek_kind() {
                    PeekKind::CloseParen => {
                        let _ = r.next_token();
                        return Ok(MalList::new(elements));
                    },
                    _ => {
                        return Err(
                            MalError::new(
                                ErrorKind::UnsupportedToken,
                                "stray closing delimiter in list".to_owned(),
                            ),
                        );
                    },
                }
            },
            Ok(ReadOutcome::EndOfInput) => {
                return Err(
                    MalError::new(
                        ErrorKind::UnbalancedList,
                        "missing closing parenthesis for list".to_owned(),
                    ),
                );
            },
        }
    }
}

/// Reads the entries of a map whose `{` is the next token, through the
/// matching `}`; follows [`parse_map`]. A later duplicate key overwrites.
fn read_map(r: &mut Reader, depth: u32) -> (res: Result<MalMap, MalError>)
    requires
        depth >= 1,
        old(r).remaining().len() > 0,
        old(r).remaining()[0] == Tok::LCurly,
    ensures
        match parse_map(old(r).remaining().skip(1), (depth - 1) as nat, Map::empty()) {
            ParseStep::Form(v, rest) => (res matches Ok(m) && Val::Dict(m.model()) == v && m.wf()
                && final(r).remaining() == rest),
            ParseStep::Fail(k) => (res matches Err(e) && e.kind == k),
            _ => false,
        },
    decreases r.remaining().len(), 0int,
{
    let ghost ts0 = r.remaining().skip(1);
    let ghost d = (depth - 1) as nat;
    let _ = r.next_token();
    let mut map = MalMap::empty();
    loop
        invariant
            depth >= 1,
            d == (depth - 1) as nat,
            ts0 == old(r).remaining().skip(1),
            old(r).remaining().len() == ts0.len() + 1,
            r.remaining().len() <= ts0.len(),
            map.wf(),
            parse_map(ts0, d, Map::empty()) == parse_map(r.remaining(), d, map.model()),
        decreases r.remaining().len(),
    {
        let ghost cur = r.remaining();
        match read_form_at(r, depth - 1) {
            Err(e) => {
                return Err(e);
            },
            Ok(ReadOutcome::DelimiterReached) => {
                match r.peek_kind() {
                    PeekKind::CloseBrace => {
                        let _ = r.next_token();
                        return Ok(map);
                    },
                    _ => {
                        return Err(
                            MalError::new(
                                ErrorKind::UnsupportedToken,
                                "stray closing delimiter in map".to_owned(),
                            ),
                        );
                    },
                }
            },
            Ok(ReadOutcome::EndOfInput) => {
                return Err(
                    MalError::new(
                        ErrorKind::UnbalancedMap,
                        "missing closing brace for map".to_owned(),
                    ),
                );
            },
            Ok(ReadOutcome::FormRead(kform)) => {
                proof {
                    lemma_parse_form_props(cur, d);
                }
                let keystr: String = match kform {
                    MalType::Symbol(s1) => s1,
                    MalType::Str(s1) => s1,
                    _ => {
                        return Err(
                            MalError::new(
                                ErrorKind::InvalidMapKey,
                                "map key must be a symbol or string".to_owned(),
                            ),
                        );
                    },
                };
                let ghost rest1 = r.remaining();
                match read_form_at(r, depth - 1) {
                    Err(e) => {
                        return Err(e);
                    },
                    Ok(ReadOutcome::FormRead(vform)) => {
                        proof {
                            lemma_parse_form_props(rest1, d);
                        }
                        map.insert(keystr, vform);
                    },
                    Ok(ReadOutcome::DelimiterReached) => {
                        match r.peek_kind() {
                            PeekKind::CloseBrace => {
                                return Err(
                                    MalError::new(
                                        ErrorKind::UnbalancedMap,
                                        "map key with no paired value".to_owned(),
                                    ),
                                );
                            },
                            _ => {
                                return Err(
                                    MalError::new(
                                        ErrorKind::UnsupportedToken,
                                        "stray closing delimiter in map".to_owned(),
                                    ),
                                );
                            },
                        }
                    },
                    Ok(ReadOutcome::EndOfInput) => {
                        return Err(
                            MalError::new(
                                ErrorKind::UnbalancedMap,
                                "map key with no paired value".to_owned(),
                            ),
                        );
                    },
                }
            },
        }
    }
}

/// Pushing a node onto a sequence extends its models and well-formedness.
proof fn lemma_seq_models_push(s: Seq<MalType>, m: MalType)
    ensures
        seq_models(s.push(m)) == seq_models(s).push(m.model()),
        seq_wf(s.push(m)) == (seq_wf(s) && m.wf()),
{
    assert(s.push(m).drop_last() =~= s);
    assert(s.push(m).last() == m);
}

/// Classifies a non-special token's text; follows [`classify`].
fn classify_token(text: String) -> (v: MalType)
    ensures
        v.model() == classify(text@),
        v.wf(),
{
    match parse_int_text(text.as_str()) {
        Some(n) => MalType::Int(n),
        None => {
            if text == "nil".to_owned() {
                MalType::Nil
            } else if text == "true".to_owned() {
                MalType::True
            } else if text == "false".to_owned() {
                MalType::False
            } else {
                MalType::Symbol(text)
            }
        },
    }
}

/// Parses the text as a 64-bit signed integer literal, or reports that it is
/// not one (wrong shape, or out of range).
fn parse_int_text(text: &str) -> (r: Option<i64>)
    ensures
        r is Some <==> is_int_literal(text@),
        r matches Some(n) ==> n as int == int_val(text@),
{
    let n = text.unicode_len();
    if n == 0 {
        return None;
    }
    let c0 = text.get_char(0);
    let neg = c0 == '-';
    let start: usize = if c0 == '-' || c0 == '+' {
        1
    } else {
        0
    };
    let ghost b = int_body(text@);
    proof {
        assert(b =~= text@.skip(start as int));
    }
    if start == n {
        return None;
    }
    let mut acc: i64 = 0;
    let mut k = start;
    while k < n
        invariant
            n == text@.len(),
            start <= k <= n,
            start == 1 || start == 0,
            (start == 1) == (text@[0] == '-' || text@[0] == '+'),
            neg == (text@[0] == '-'),
            b == int_body(text@),
            b =~= text@.skip(start as int),
            b.len() == n - start,
            all_digits(b.take(k - start)),
            acc <= 0,
            acc as int == -digits_val(b.take(k - start)),
        decreases n - k,
    {
        let ghost m = k - start;
        let c = text.get_char(k);
        proof {
            assert(b[m as int] == text@[k as int]);
        }
        let cu = c as u32;
        if cu < 48 || cu > 57 {
            proof {
                assert(!is_digit(b[m as int]));
                assert(!all_digits(b));
            }
            return None;
        }
        let dv = cu - 48;
        proof {
            lemma_digits_take_step(b, m as int);
        }
        if acc < -922337203685477580i64 || (acc == -922337203685477580i64 && dv > 8) {
            proof {
                if all_digits(b) {
                    lemma_digits_prefix(b, m as int + 1);
                    assert(digits_val(b.take(m as int + 1)) == (-(acc as int)) * 10 + dv as int);
                    assert(digits_val(b) > 9223372036854775808int);
                }
            }
            return None;
        }
        acc = acc * 10 - (dv as i64);
        k = k + 1;
    }
    proof {
        assert(b.take(n - start) =~= b);
    }
    if neg {
        Some(acc)
    } else if acc == i64::MIN {
        proof {
            assert(int_val(text@) == 9223372036854775808int);
        }
        None
    } else {
        Some(-acc)
    }
}

/// One more digit multiplies the run's value by ten and adds the digit.
proof fn lemma_digits_take_step(b: Seq<char>, m: int)
    requires
        0 <= m < b.len(),
    ensures
        digits_val(b.take(m + 1)) == digits_val(b.take(m)) * 10 + digit_val(b[m]),
        all_digits(b.take(m)) && is_digit(b[m]) ==> all_digits(b.take(m + 1)),
{
    assert(b.take(m + 1).drop_last() =~= b.take(m));
    assert(b.take(m + 1).last() == b[m]);
    if all_digits(b.take(m)) && is_digit(b[m]) {
        assert forall|j: int| 0 <= j < m + 1 implies is_digit(#[trigger] b.take(m + 1)[j]) by {
            if j < m {
                assert(b.take(m)[j] == b.take(m + 1)[j]);
            }
        }
    }
}

/// A digit run's value is nonnegative.
proof fn lemma_digits_nonneg(b: Seq<char>)
    requires
        all_digits(b),
    ensures
        digits_val(b) >= 0,
    decreases b.len(),
{
    if b.len() > 0 {
        assert forall|j: int| 0 <= j < b.len() - 1 implies is_digit(#[trigger] b.drop_last()[j]) by {
            assert(b.drop_last()[j] == b[j]);
        }
        lemma_digits_nonneg(b.drop_last());
    }
}

/// A digit run's value only grows as more digits are taken.
proof fn lemma_digits_prefix(b: Seq<char>, m: int)
    requires
        all_digits(b),
        0 <= m <= b.len(),
    ensures
        digits_val(b.take(m)) <= digits_val(b),
        digits_val(b.take(m)) >= 0,
    decreases b.len() - m,
{
    assert forall|j: int| 0 <= j < m implies is_digit(#[trigger] b.take(m)[j]) by {
        assert(b.take(m)[j] == b[j]);
    }
    lemma_digits_nonneg(b.take(m));
    if m == b.len() {
        assert(b.take(m) =~= b);
    } else {
        lemma_digits_take_step(b, m);
        lemma_digits_prefix(b, m + 1);
    }
}

/// Prepends tokens to an optional token sequence.
pub open spec fn opt_prepend(pre: Seq<Tok>, o: Option<Seq<Tok>>) -> Option<Seq<Tok>> {
    match o {
        Some(rest) => Some(pre + rest),
        None => None,
    }
}

/// The top-level entry: tokenizes the whole input, then reads exactly one
/// form. Blank input (only whitespace, commas, and comments) is the explicit
/// "no form" outcome `Ok(None)`, not an error; a stray closing delimiter at
/// top level is `UnsupportedToken`; every other malformed input yields its
/// error from [`tokens_spec`] and [`parse_form`]. No half-built node is ever
/// returned beside an error.
pub fn read_str(input: &str) -> (res: Result<Option<MalType>, MalError>)
    ensures
        match tokens_spec(input@, 0) {
            Option::None => (res matches Err(e) && e.kind == ErrorKind::UnterminatedString),
            Option::Some(ts) => match parse_form(ts, MAX_DEPTH as nat) {
                ParseStep::Form(v, rest) => (res matches Ok(o) && o matches Some(m) && m.model()
                    == v && m.wf()),
                ParseStep::End => res matches Ok(o) && o is None,
                ParseStep::Delim => (res matches Err(e) && e.kind == ErrorKind::UnsupportedToken),
                ParseStep::Fail(k) => (res matches Err(e) && e.kind == k),
            },
        },
{
    let ghost s = input@;
    let mut tk = Tokenizer::new(input);
    let mut tokens: Vec<Token> = Vec::new();
    loop
        invariant
            tk.wf(),
            tk.text() == s,
            s == input@,
            0 <= tk.at() <= s.len(),
            tokens_spec(s, 0) == opt_prepend(toks_of(tokens@), tokens_spec(s, tk.at())),
        ensures
            tokens_spec(s, 0) == Some(toks_of(tokens@)),
        decreases s.len() - tk.at(),
    {
        let ghost ipre = tk.at();
        match tk.next() {
            Err(e) => {
                return Err(e);
            },
            Ok(Option::None) => {
                proof {
                    assert(toks_of(tokens@) + Seq::<Tok>::empty() =~= toks_of(tokens@));
                }
                break;
            },
            Ok(Option::Some(t)) => {
                proof {
                    lemma_scan_advances(s, ipre);
                    let step = scan(s, ipre);
                    let nx = step->next;
                    assert(toks_of(tokens@.push(t)) =~= toks_of(tokens@) + seq![t@]);
                    match tokens_spec(s, nx) {
                        Option::Some(rest2) => {
                            assert((toks_of(tokens@) + seq![t@]) + rest2 =~= toks_of(tokens@) + (
                            seq![t@] + rest2));
                        },
                        Option::None => {},
                    }
                }
                tokens.push(t);
            },
        }
    }
    let mut rd = Reader::new(tokens);
    match read_form(&mut rd) {
        Err(e) => Err(e),
        Ok(ReadOutcome::FormRead(m)) => Ok(Some(m)),
        Ok(ReadOutcome::EndOfInput) => Ok(None),
        Ok(ReadOutcome::DelimiterReached) => Err(
            MalError::new(
                ErrorKind::UnsupportedToken,
                "closing delimiter with no open form".to_owned(),
            ),
        ),
    }
}

} // verus!
