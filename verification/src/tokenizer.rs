//! The tokenizer: scans raw text into a finite stream of lexical tokens, one
//! token per call, with one character of lookahead and no backtracking.
//!
//! Whitespace (space, tab, newline) and commas are insignificant separators;
//! `;` starts a line comment discarded up to the next newline; `~` is
//! disambiguated against `~@` by a single character of lookahead; a double
//! quote starts a string literal that runs to the first unescaped closing
//! quote (an unclosed literal is the lexical error `UnterminatedString`); any
//! other character starts a non-special run ended by the next delimiter.
//!
//! The spec-level scanner [`scan`] says exactly which token starts at each
//! position of the text; [`Tokenizer::next`] is proved to follow it.

use vstd::prelude::*;
use vstd::string::StrSliceExecFns;

use crate::mal_error::{ErrorKind, MalError};

verus! {

/// A lexical token. String payloads are carried raw: a `Str` token holds the
/// characters of the literal including both quotes, exactly as written.
#[derive(Debug, PartialEq)]
pub enum Token {
    At,
    Carat,
    LBrace,
    LCurly,
    LParen,
    NonSpecial(String),
    Quasiquote,
    Quote,
    RBrace,
    RCurly,
    RParen,
    SpliceUnquote,
    Str(String),
    Tilde,
}

/// The mathematical model of a token: payloads as character sequences.
pub enum Tok {
    At,
    Carat,
    LBrace,
    LCurly,
    LParen,
    NonSpecial(Seq<char>),
    Quasiquote,
    Quote,
    RBrace,
    RCurly,
    RParen,
    SpliceUnquote,
    Str(Seq<char>),
    Tilde,
}

impl View for Token {
    type V = Tok;

    open spec fn view(&self) -> Tok {
        match self {
            Token::At => Tok::At,
            Token::Carat => Tok::Carat,
            Token::LBrace => Tok::LBrace,
            Token::LCurly => Tok::LCurly,
            Token::LParen => Tok::LParen,
            Token::NonSpecial(s) => Tok::NonSpecial(s@),
            Token::Quasiquote => Tok::Quasiquote,
            Token::Quote => Tok::Quote,
            Token::RBrace => Tok::RBrace,
            Token::RCurly => Tok::RCurly,
            Token::RParen => Tok::RParen,
            Token::SpliceUnquote => Tok::SpliceUnquote,
            Token::Str(s) => Tok::Str(s@),
            Token::Tilde => Tok::Tilde,
        }
    }
}

/// What one scanning step finds at position `i`: a token and the position
/// after it, clean end of input, or an unterminated string literal.
pub enum ScanStep {
    Emit { t: Tok, next: int },
    End,
    Unterminated,
}

/// Whitespace and commas: insignificant separators.
pub open spec fn is_ws(c: char) -> bool {
    c == ' ' || c == '\n' || c == '\t' || c == ','
}

/// The characters that end a non-special run (without being consumed by it).
pub open spec fn is_nonspecial_end(c: char) -> bool {
    is_ws(c) || c == '[' || c == ']' || c == '{' || c == '}' || c == '(' || c == ')' || c == '\''
        || c == '"' || c == '`' || c == ';'
}

/// Position of the first unescaped closing quote at or after `i`, where
/// "unescaped" means the character immediately before it is not a backslash.
/// `None` if the input ends first.
pub open spec fn scan_string(s: Seq<char>, i: int) -> Option<int>
    decreases s.len() - i,
{
    if i < 0 || i >= s.len() {
        None
    } else if s[i] == '"' && s[i - 1] != '\\' {
        Some(i)
    } else {
        scan_string(s, i + 1)
    }
}

/// Position of the first character at or after `i` that ends a non-special
/// run, or the input's length if none does.
pub open spec fn scan_nonspecial(s: Seq<char>, i: int) -> int
    decreases s.len() - i,
{
    if i < 0 || i >= s.len() {
        s.len() as int
    } else if is_nonspecial_end(s[i]) {
        i
    } else {
        scan_nonspecial(s, i + 1)
    }
}

/// The token that starts at position `i` of `s`, skipping separators and
/// comments first.
pub open spec fn scan(s: Seq<char>, i: int) -> ScanStep
    decreases s.len() - i, 0int,
{
    if i < 0 || i >= s.len() {
        ScanStep::End
    } else {
        let c = s[i];
        if is_ws(c) {
            scan(s, i + 1)
        } else if c == ';' {
            scan_comment(s, i + 1)
        } else if c == '~' {
            if i + 1 < s.len() && s[i + 1] == '@' {
                ScanStep::Emit { t: Tok::SpliceUnquote, next: i + 2 }
            } else {
                ScanStep::Emit { t: Tok::Tilde, next: i + 1 }
            }
        } else if c == '[' {
            ScanStep::Emit { t: Tok::LBrace, next: i + 1 }
        } else if c == ']' {
            ScanStep::Emit { t: Tok::RBrace, next: i + 1 }
        } else if c == '{' {
            ScanStep::Emit { t: Tok::LCurly, next: i + 1 }
        } else if c == '}' {
            ScanStep::Emit { t: Tok::RCurly, next: i + 1 }
        } else if c == '(' {
            ScanStep::Emit { t: Tok::LParen, next: i + 1 }
        } else if c == ')' {
            ScanStep::Emit { t: Tok::RParen, next: i + 1 }
        } else if c == '`' {
            ScanStep::Emit { t: Tok::Quasiquote, next: i + 1 }
        } else if c == '\'' {
            ScanStep::Emit { t: Tok::Quote, next: i + 1 }
        } else if c == '^' {
            ScanStep::Emit { t: Tok::Carat, next: i + 1 }
        } else if c == '@' {
            ScanStep::Emit { t: Tok::At, next: i + 1 }
        } else if c == '"' {
            match scan_string(s, i + 1) {
                Some(j) => ScanStep::Emit { t: Tok::Str(s.subrange(i, j + 1)), next: j + 1 },
                None => ScanStep::Unterminated,
            }
        } else {
            let j = scan_nonspecial(s, i + 1);
            ScanStep::Emit { t: Tok::NonSpecial(s.subrange(i, j)), next: j }
        }
    }
}

/// Scanning inside a line comment: everything up to the next newline is
/// discarded, then scanning resumes.
pub open spec fn scan_comment(s: Seq<char>, i: int) -> ScanStep
    decreases s.len() - i, 1int,
{
    if i < 0 || i >= s.len() {
        ScanStep::End
    } else if s[i] == '\n' {
        scan(s, i + 1)
    } else {
        scan_comment(s, i + 1)
    }
}

/// The whole token sequence from position `i` on, or `None` on an
/// unterminated string literal.
pub open spec fn tokens_spec(s: Seq<char>, i: int) -> Option<Seq<Tok>>
    decreases s.len() - i,
{
    match scan(s, i) {
        ScanStep::End => Some(Seq::empty()),
        ScanStep::Unterminated => None,
        ScanStep::Emit { t, next } => if i < next <= s.len() {
            match tokens_spec(s, next) {
                Some(rest) => Some(seq![t] + rest),
                None => None,
            }
        } else {
            None
        },
    }
}

/// A found closing quote lies within the input, at or after `i`.
pub proof fn lemma_scan_string_bounds(s: Seq<char>, i: int)
    ensures
        scan_string(s, i) matches Some(j) ==> i <= j < s.len(),
    decreases s.len() - i,
{
    if 0 <= i < s.len() {
        if !(s[i] == '"' && s[i - 1] != '\\') {
            lemma_scan_string_bounds(s, i + 1);
        }
    }
}

/// The end of a non-special run lies between `i` and the input's end.
pub proof fn lemma_scan_nonspecial_bounds(s: Seq<char>, i: int)
    requires
        0 <= i <= s.len(),
    ensures
        i <= scan_nonspecial(s, i) <= s.len(),
    decreases s.len() - i,
{
    if i < s.len() && !is_nonspecial_end(s[i]) {
        lemma_scan_nonspecial_bounds(s, i + 1);
    }
}

/// An emitted token consumes at least one character and stays in bounds.
pub proof fn lemma_scan_advances(s: Seq<char>, i: int)
    requires
        0 <= i <= s.len(),
    ensures
        scan(s, i) matches ScanStep::Emit { t, next } ==> i < next <= s.len(),
    decreases s.len() - i, 0int,
{
    if i < s.len() {
        let c = s[i];
        if is_ws(c) {
            lemma_scan_advances(s, i + 1);
        } else if c == ';' {
            lemma_scan_comment_advances(s, i + 1);
        } else if c == '"' {
            lemma_scan_string_bounds(s, i + 1);
        } else if !(c == '~' || c == '[' || c == ']' || c == '{' || c == '}' || c == '(' || c
            == ')' || c == '`' || c == '\'' || c == '^' || c == '@') {
            lemma_scan_nonspecial_bounds(s, i + 1);
        }
    }
}

/// As [`lemma_scan_advances`], inside a comment.
pub proof fn lemma_scan_comment_advances(s: Seq<char>, i: int)
    requires
        0 <= i <= s.len(),
    ensures
        scan_comment(s, i) matches ScanStep::Emit { t, next } ==> i < next <= s.len(),
    decreases s.len() - i, 1int,
{
    if i < s.len() {
        if s[i] == '\n' {
            lemma_scan_advances(s, i + 1);
        } else {
            lemma_scan_comment_advances(s, i + 1);
        }
    }
}

/// The tokenizer: a forward-only cursor over the text. Tokens are produced
/// once and consumed once; the stream is finite and not restartable.
pub struct Tokenizer<'a> {
    input: &'a str,
    len: usize,
    pos: usize,
}

impl<'a> Tokenizer<'a> {
    /// The text being scanned.
    pub closed spec fn text(self) -> Seq<char> {
        self.input@
    }

    /// The current scanning position, in characters.
    pub closed spec fn at(self) -> int {
        self.pos as int
    }

    pub closed spec fn wf(self) -> bool {
        self.pos <= self.input@.len() && self.len == self.input@.len()
    }

    pub fn new(input: &'a str) -> (t: Tokenizer<'a>)
        ensures
            t.wf(),
            t.text() == input@,
            t.at() == 0,
    {
        let len = input.unicode_len();
        Tokenizer { input, len, pos: 0 }
    }

    /// Produces the next token, or `None` at the end of input, or the
    /// lexical error for a string literal left open; follows [`scan`].
    pub fn next(&mut self) -> (r: Result<Option<Token>, MalError>)
        requires
            old(self).wf(),
        ensures
            final(self).wf(),
            final(self).text() == old(self).text(),
            match scan(old(self).text(), old(self).at()) {
                ScanStep::Emit { t, next } => (r matches Ok(Some(tok)) && tok@ == t
                    && final(self).at() == next),
                ScanStep::End => (r matches Ok(None)
                    && final(self).at() == old(self).text().len()),
                ScanStep::Unterminated => (r matches Err(e) && e.kind
                    == ErrorKind::UnterminatedString),
            },
    {
        let ghost s = self.input@;
        let ghost i0 = self.pos as int;
        loop
            invariant
                self.wf(),
                self.input@ == s,
                s == old(self).text(),
                i0 == old(self).at(),
                scan(s, self.pos as int) == scan(s, i0),
            decreases s.len() - self.pos,
        {
            if self.pos == self.len {
                return Ok(None);
            }
            let ghost pstart = self.pos as int;
            let c = self.input.get_char(self.pos);
            if c == ' ' || c == '\n' || c == '\t' || c == ',' {
                self.pos = self.pos + 1;
            } else if c == ';' {
                self.pos = self.pos + 1;
                while self.pos < self.len && self.input.get_char(self.pos) != '\n'
                    invariant
                        self.wf(),
                        self.input@ == s,
                        s == old(self).text(),
                        i0 == old(self).at(),
                        self.pos > pstart,
                        scan_comment(s, self.pos as int) == scan(s, i0),
                    decreases s.len() - self.pos,
                {
                    self.pos = self.pos + 1;
                }
            } else if c == '~' {
                if self.pos + 1 < self.len {
                    if self.input.get_char(self.pos + 1) == '@' {
                        self.pos = self.pos + 2;
                        return Ok(Some(Token::SpliceUnquote));
                    }
                }
                self.pos = self.pos + 1;
                return Ok(Some(Token::Tilde));
            } else if c == '[' {
                self.pos = self.pos + 1;
                return Ok(Some(Token::LBrace));
            } else if c == ']' {
                self.pos = self.pos + 1;
                return Ok(Some(Token::RBrace));
            } else if c == '{' {
                self.pos = self.pos + 1;
                return Ok(Some(Token::LCurly));
            } else if c == '}' {
                self.pos = self.pos + 1;
                return Ok(Some(Token::RCurly));
            } else if c == '(' {
                self.pos = self.pos + 1;
                return Ok(Some(Token::LParen));
            } else if c == ')' {
                self.pos = self.pos + 1;
                return Ok(Some(Token::RParen));
            } else if c == '`' {
                self.pos = self.pos + 1;
                return Ok(Some(Token::Quasiquote));
            } else if c == '\'' {
                self.pos = self.pos + 1;
                return Ok(Some(Token::Quote));
            } else if c == '^' {
                self.pos = self.pos + 1;
                return Ok(Some(Token::Carat));
            } else if c == '@' {
                self.pos = self.pos + 1;
                return Ok(Some(Token::At));
            } else if c == '"' {
                let start = self.pos;
                let mut j = self.pos + 1;
                loop
                    invariant
                        self.wf(),
                        self.input@ == s,
                        s == old(self).text(),
                        i0 == old(self).at(),
                        self.pos == start,
                        scan(s, start as int) == scan(s, i0),
                        s[start as int] == '"',
                        start as int + 1 <= j as int <= s.len(),
                        scan_string(s, start as int + 1) == scan_string(s, j as int),
                    decreases s.len() - j,
                {
                    if j == self.len {
                        return Err(
                            MalError::new(
                                ErrorKind::UnterminatedString,
                                "unterminated string literal".to_owned(),
                            ),
                        );
                    }
                    let cj = self.input.get_char(j);
                    if cj == '"' {
                        if self.input.get_char(j - 1) != '\\' {
                            let raw = self.input.substring_char(start, j + 1);
                            self.pos = j + 1;
                            return Ok(Some(Token::Str(raw.to_owned())));
                        }
                    }
                    j = j + 1;
                }
            } else {
                let start = self.pos;
                let mut j = self.pos + 1;
                while j < self.len && !is_delimiter(self.input.get_char(j))
                    invariant
                        self.wf(),
                        self.input@ == s,
                        s == old(self).text(),
                        i0 == old(self).at(),
                        self.pos == start,
                        scan(s, start as int) == scan(s, i0),
                        start as int + 1 <= j as int <= s.len(),
                        scan_nonspecial(s, start as int + 1) == scan_nonspecial(s, j as int),
                    decreases s.len() - j,
                {
                    j = j + 1;
                }
                let text = self.input.substring_char(start, j);
                self.pos = j;
                return Ok(Some(Token::NonSpecial(text.to_owned())));
            }
        }
    }
}

/// Whether `c` ends a non-special run; follows [`is_nonspecial_end`].
fn is_delimiter(c: char) -> (b: bool)
    ensures
        b == is_nonspecial_end(c),
{
    c == ' ' || c == '\n' || c == '\t' || c == ',' || c == '[' || c == ']' || c == '{' || c == '}'
        || c == '(' || c == ')' || c == '\'' || c == '"' || c == '`' || c == ';'
}

} // verus!
