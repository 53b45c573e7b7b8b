//! Laws of the tokenizer and reader, stated and proved over the spec-level
//! scanner and parser that the executable code is verified against.

use vstd::prelude::*;

use crate::mal_error::ErrorKind;
use crate::reader::{
    classify, key_text, parse_form, parse_list, parse_map, strip_quotes, ParseStep, all_digits,
    digit_val, digits_val, int_body, int_val, is_digit, is_int_literal, MAX_DEPTH,
};
use crate::tokenizer::{is_ws, scan, scan_comment, tokens_spec, ScanStep, Tok};
use crate::types::Val;

verus! {

// ---------------------------------------------------------------------------
// Separators and comments are insignificant.
// ---------------------------------------------------------------------------

/// A whitespace character or comma changes nothing about what is scanned:
/// the token found from position `i` is the token found after it.
pub proof fn lemma_separator_insignificant(s: Seq<char>, i: int)
    requires
        0 <= i < s.len(),
        is_ws(s[i]),
    ensures
        scan(s, i) == scan(s, i + 1),
{
}

/// A line comment changes nothing about what is scanned: from its `;` the
/// scan continues after the comment's last character (the newline is itself
/// insignificant whitespace), or ends with the input.
pub proof fn lemma_comment_insignificant(s: Seq<char>, i: int, j: int)
    requires
        0 <= i < j <= s.len(),
        s[i] == ';',
        forall|m: int| i < m < j ==> s[m] != '\n',
        j == s.len() || s[j] == '\n',
    ensures
        j == s.len() ==> scan(s, i) == ScanStep::End,
        j < s.len() ==> scan(s, i) == scan(s, j + 1),
{
    lemma_comment_skip(s, i + 1, j);
}

proof fn lemma_comment_skip(s: Seq<char>, m: int, j: int)
    requires
        0 <= m <= j <= s.len(),
        forall|t: int| m <= t < j ==> s[t] != '\n',
        j == s.len() || s[j] == '\n',
    ensures
        j == s.len() ==> scan_comment(s, m) == ScanStep::End,
        j < s.len() ==> scan_comment(s, m) == scan(s, j + 1),
    decreases j - m,
{
    if m < j {
        lemma_comment_skip(s, m + 1, j);
    }
}

// ---------------------------------------------------------------------------
// Blank input yields "no form", not an error.
// ---------------------------------------------------------------------------

/// The text from position `i` on holds only whitespace, commas, and line
/// comments.
pub open spec fn blank_text(s: Seq<char>, i: int) -> bool
    decreases s.len() - i, 0int,
{
    if i < 0 || i >= s.len() {
        true
    } else if is_ws(s[i]) {
        blank_text(s, i + 1)
    } else if s[i] == ';' {
        blank_comment(s, i + 1)
    } else {
        false
    }
}

/// As [`blank_text`], inside a line comment.
pub open spec fn blank_comment(s: Seq<char>, i: int) -> bool
    decreases s.len() - i, 1int,
{
    if i < 0 || i >= s.len() {
        true
    } else if s[i] == '\n' {
        blank_text(s, i + 1)
    } else {
        blank_comment(s, i + 1)
    }
}

/// Input holding only whitespace, commas, and comments scans to nothing and
/// reads as the explicit "no form" outcome — not an error, not a failure.
pub proof fn lemma_blank_input_no_form(s: Seq<char>)
    requires
        blank_text(s, 0),
    ensures
        tokens_spec(s, 0) == Some(Seq::<Tok>::empty()),
        parse_form(Seq::<Tok>::empty(), MAX_DEPTH as nat) is End,
{
    lemma_blank_scan(s, 0);
}

proof fn lemma_blank_scan(s: Seq<char>, i: int)
    requires
        0 <= i <= s.len(),
        blank_text(s, i),
    ensures
        scan(s, i) == ScanStep::End,
    decreases s.len() - i, 0int,
{
    if i < s.len() {
        if is_ws(s[i]) {
            lemma_blank_scan(s, i + 1);
        } else {
            lemma_blank_comment_scan(s, i + 1);
        }
    }
}

proof fn lemma_blank_comment_scan(s: Seq<char>, i: int)
    requires
        0 <= i <= s.len(),
        blank_comment(s, i),
    ensures
        scan_comment(s, i) == ScanStep::End,
    decreases s.len() - i, 1int,
{
    if i < s.len() {
        if s[i] == '\n' {
            lemma_blank_scan(s, i + 1);
        } else {
            lemma_blank_comment_scan(s, i + 1);
        }
    }
}

// ---------------------------------------------------------------------------
// Canonical renderings: every tree of lists and atoms has a balanced token
// sequence that reads back to exactly that tree.
// ---------------------------------------------------------------------------

/// A tree the canonical rendering covers: lists and atoms. Maps are left
/// out (their entries have no canonical order); an integer must fit the
/// node type; a symbol's text must classify back to the same symbol.
pub open spec fn renderable(v: Val) -> bool
    decreases v,
{
    match v {
        Val::List(es) => seq_renderable(es),
        Val::Int(n) => i64::MIN <= n <= i64::MAX,
        Val::Symbol(text) => classify(text) == Val::Symbol(text),
        Val::Str(_) => true,
        Val::Nil => true,
        Val::True => true,
        Val::False => true,
        Val::Dict(_) => false,
    }
}

/// Every element is renderable.
pub open spec fn seq_renderable(es: Seq<Val>) -> bool
    decreases es,
{
    if es.len() == 0 {
        true
    } else {
        renderable(es[0]) && seq_renderable(es.skip(1))
    }
}

/// The bracket-nesting depth of a tree: atoms are flat, a list is one
/// deeper than its deepest element.
pub open spec fn depth_of(v: Val) -> nat
    decreases v,
{
    match v {
        Val::List(es) => 1 + seq_depth(es),
        _ => 0,
    }
}

/// The deepest nesting among the elements.
pub open spec fn seq_depth(es: Seq<Val>) -> nat
    decreases es,
{
    if es.len() == 0 {
        0
    } else if depth_of(es[0]) >= seq_depth(es.skip(1)) {
        depth_of(es[0])
    } else {
        seq_depth(es.skip(1))
    }
}

/// A decimal digit as a character.
pub open spec fn digit_char(d: nat) -> char {
    if d == 0 {
        '0'
    } else if d == 1 {
        '1'
    } else if d == 2 {
        '2'
    } else if d == 3 {
        '3'
    } else if d == 4 {
        '4'
    } else if d == 5 {
        '5'
    } else if d == 6 {
        '6'
    } else if d == 7 {
        '7'
    } else if d == 8 {
        '8'
    } else {
        '9'
    }
}

/// The decimal digits of `n`, most significant first.
pub open spec fn digits_render(n: nat) -> Seq<char>
    decreases n,
{
    if n < 10 {
        seq![digit_char(n)]
    } else {
        digits_render(n / 10).push(digit_char(n % 10))
    }
}

/// The canonical text of an integer literal.
pub open spec fn int_render(n: int) -> Seq<char> {
    if n < 0 {
        seq!['-'] + digits_render((-n) as nat)
    } else {
        digits_render(n as nat)
    }
}

/// The canonical token sequence of a tree: each list contributes its own
/// bracket pair, elements in left-to-right order.
pub open spec fn tokens_of(v: Val) -> Seq<Tok>
    decreases v,
{
    match v {
        Val::List(es) => seq![Tok::LParen] + tokens_of_seq(es) + seq![Tok::RParen],
        Val::Int(n) => seq![Tok::NonSpecial(int_render(n))],
        Val::Symbol(text) => seq![Tok::NonSpecial(text)],
        Val::Str(text) => seq![Tok::Str(seq!['"'] + text + seq!['"'])],
        Val::Nil => seq![Tok::NonSpecial("nil"@)],
        Val::True => seq![Tok::NonSpecial("true"@)],
        Val::False => seq![Tok::NonSpecial("false"@)],
        Val::Dict(_) => Seq::empty(),
    }
}

/// The canonical tokens of the elements, in order.
pub open spec fn tokens_of_seq(es: Seq<Val>) -> Seq<Tok>
    decreases es,
{
    if es.len() == 0 {
        Seq::empty()
    } else {
        tokens_of(es[0]) + tokens_of_seq(es.skip(1))
    }
}

/// The decimal rendering of `n` is a digit run denoting `n`.
proof fn lemma_digits_render(n: nat)
    ensures
        all_digits(digits_render(n)),
        digits_val(digits_render(n)) == n,
        digits_render(n).len() >= 1,
        digits_render(n)[0] != '-' && digits_render(n)[0] != '+',
    decreases n,
{
    if n < 10 {
        let s = seq![digit_char(n)];
        assert(s.drop_last() =~= Seq::<char>::empty());
        assert(s.last() == digit_char(n));
        assert(digit_val(digit_char(n)) == n);
        assert(is_digit(digit_char(n)));
        assert(digits_val(Seq::<char>::empty()) == 0);
        assert(digits_val(s) == digits_val(s.drop_last()) * 10 + digit_val(s.last()));
        assert(digits_val(s) == n);
    } else {
        lemma_digits_render(n / 10);
        let s0 = digits_render(n / 10);
        let s = s0.push(digit_char(n % 10));
        assert(s.drop_last() =~= s0);
        assert(s.last() == digit_char(n % 10));
        assert(digit_val(digit_char(n % 10)) == n % 10);
        assert(is_digit(digit_char(n % 10)));
        assert(digits_val(s) == digits_val(s0) * 10 + (n % 10));
        assert forall|k: int| 0 <= k < s.len() implies is_digit(#[trigger] s[k]) by {
            if k < s0.len() {
                assert(s[k] == s0[k]);
            }
        }
        assert(s[0] == s0[0]);
    }
}


/// The canonical text of an in-range integer classifies back to it.
proof fn lemma_int_render_classifies(n: int)
    requires
        i64::MIN <= n <= i64::MAX,
    ensures
        classify(int_render(n)) == Val::Int(n),
{
    let t = int_render(n);
    if n < 0 {
        lemma_digits_render((-n) as nat);
        let d = digits_render((-n) as nat);
        assert(t[0] == '-');
        assert(t.skip(1) =~= d);
        assert(int_body(t) == d);
        assert(int_val(t) == -1 * digits_val(d));
        assert(int_val(t) == n);
        assert(is_int_literal(t));
    } else {
        lemma_digits_render(n as nat);
        assert(int_body(t) == t);
        assert(int_val(t) == digits_val(t));
        assert(is_int_literal(t));
    }
}

/// The literal words are not integer literals, so they classify to their
/// literal values.
proof fn lemma_literal_words_classify()
    ensures
        classify("nil"@) == Val::Nil,
        classify("true"@) == Val::True,
        classify("false"@) == Val::False,
{
    reveal_strlit("nil");
    reveal_strlit("true");
    reveal_strlit("false");
    assert(!is_digit('n'));
    assert(!is_digit('t'));
    assert(!is_digit('f'));
    assert(int_body("nil"@) == "nil"@);
    assert(!is_digit(int_body("nil"@)[0]));
    assert(!is_int_literal("nil"@));
    assert(int_body("true"@) == "true"@);
    assert(!is_digit(int_body("true"@)[0]));
    assert(!is_int_literal("true"@));
    assert(int_body("false"@) == "false"@);
    assert(!is_digit(int_body("false"@)[0]));
    assert(!is_int_literal("false"@));
    assert("true"@ != "nil"@);
    assert("false"@ != "nil"@);
    assert("false"@ != "true"@);
}

/// A rendering is never empty.
proof fn lemma_tokens_of_nonempty(v: Val)
    requires
        renderable(v),
    ensures
        tokens_of(v).len() >= 1,
{
}

/// Round trip: for every well-formed, fully-balanced rendering of a
/// tree of lists and atoms, and whatever tokens follow it, the reader
/// returns exactly that tree and stops exactly after the rendering. In
/// particular the tree's bracket-nesting depth equals the input's nesting
/// depth, and element order matches left-to-right input order, since the
/// input carries one bracket pair per list node and the elements in order.
pub proof fn lemma_round_trip(v: Val, rest: Seq<Tok>, depth: nat)
    requires
        renderable(v),
        depth_of(v) <= depth,
    ensures
        parse_form(tokens_of(v) + rest, depth) == ParseStep::Form(v, rest),
    decreases v,
{
    let ts = tokens_of(v) + rest;
    match v {
        Val::List(es) => {
            assert(ts[0] == Tok::LParen);
            assert(depth >= 1);
            let body = tokens_of_seq(es) + seq![Tok::RParen] + rest;
            assert(ts.skip(1) =~= body);
            lemma_round_trip_elems(es, rest, (depth - 1) as nat, Seq::empty());
            assert(Seq::<Val>::empty() + es =~= es);
            assert(parse_form(ts, depth) == parse_list(body, (depth - 1) as nat, Seq::empty()));
        },
        Val::Int(n) => {
            lemma_int_render_classifies(n);
            assert(ts[0] == Tok::NonSpecial(int_render(n)));
            assert(ts.skip(1) =~= rest);
        },
        Val::Symbol(text) => {
            assert(ts.skip(1) =~= rest);
        },
        Val::Str(text) => {
            let raw = seq!['"'] + text + seq!['"'];
            assert(raw.len() >= 2);
            assert(strip_quotes(raw) =~= text);
            assert(ts.skip(1) =~= rest);
        },
        Val::Nil => {
            lemma_literal_words_classify();
            assert(ts.skip(1) =~= rest);
        },
        Val::True => {
            lemma_literal_words_classify();
            assert(ts.skip(1) =~= rest);
        },
        Val::False => {
            lemma_literal_words_classify();
            assert(ts.skip(1) =~= rest);
        },
        Val::Dict(_) => {
            assert(false);
        },
    }
}

/// The elements of a list rendering are read back in order, and the list
/// closes at its `)`.
proof fn lemma_round_trip_elems(es: Seq<Val>, rest: Seq<Tok>, depth: nat, acc: Seq<Val>)
    requires
        seq_renderable(es),
        seq_depth(es) <= depth,
    ensures
        parse_list(tokens_of_seq(es) + seq![Tok::RParen] + rest, depth, acc) == ParseStep::Form(
            Val::List(acc + es),
            rest,
        ),
    decreases es,
{
    let ts = tokens_of_seq(es) + seq![Tok::RParen] + rest;
    if es.len() == 0 {
        assert(ts =~= seq![Tok::RParen] + rest);
        assert(ts[0] == Tok::RParen);
        assert(parse_form(ts, depth) is Delim);
        assert(ts.skip(1) =~= rest);
        assert(acc + es =~= acc);
    } else {
        let e = es[0];
        let tail = es.skip(1);
        let rest2 = tokens_of_seq(tail) + seq![Tok::RParen] + rest;
        assert(ts =~= tokens_of(e) + rest2);
        lemma_round_trip(e, rest2, depth);
        lemma_tokens_of_nonempty(e);
        assert(parse_form(ts, depth) == ParseStep::Form(e, rest2));
        assert(rest2.len() < ts.len());
        lemma_round_trip_elems(tail, rest, depth, acc.push(e));
        assert(acc.push(e) + tail =~= acc + es);
        assert(parse_list(ts, depth, acc) == parse_list(rest2, depth, acc.push(e)));
    }
}

// ---------------------------------------------------------------------------
// Unbalanced brackets fail with their own error, never a value.
// ---------------------------------------------------------------------------

/// A `(` whose elements run to the end of input with no matching `)`
/// fails with `UnbalancedList` — never a panic (the reader is a total,
/// verified function) and never a partially valid list (a `Fail` carries no
/// value at all).
pub proof fn lemma_unbalanced_list(es: Seq<Val>, depth: nat)
    requires
        seq_renderable(es),
        depth >= 1 + seq_depth(es),
    ensures
        parse_form(seq![Tok::LParen] + tokens_of_seq(es), depth) == ParseStep::Fail(
            ErrorKind::UnbalancedList,
        ),
{
    let ts = seq![Tok::LParen] + tokens_of_seq(es);
    assert(ts[0] == Tok::LParen);
    assert(ts.skip(1) =~= tokens_of_seq(es));
    lemma_list_no_close(es, (depth - 1) as nat, Seq::empty());
}

proof fn lemma_list_no_close(es: Seq<Val>, depth: nat, acc: Seq<Val>)
    requires
        seq_renderable(es),
        seq_depth(es) <= depth,
    ensures
        parse_list(tokens_of_seq(es), depth, acc) == ParseStep::Fail(ErrorKind::UnbalancedList),
    decreases es,
{
    if es.len() == 0 {
        assert(tokens_of_seq(es).len() == 0);
    } else {
        let e = es[0];
        let tail = es.skip(1);
        let ts = tokens_of_seq(es);
        assert(ts =~= tokens_of(e) + tokens_of_seq(tail));
        lemma_round_trip(e, tokens_of_seq(tail), depth);
        lemma_tokens_of_nonempty(e);
        lemma_list_no_close(tail, depth, acc.push(e));
    }
}

// ---------------------------------------------------------------------------
// Unbalanced or odd-length maps fail with `UnbalancedMap`.
// ---------------------------------------------------------------------------

/// Key/value pairs whose keys resolve to symbols or strings, all renderable.
pub open spec fn entries_renderable(ps: Seq<(Val, Val)>) -> bool
    decreases ps,
{
    if ps.len() == 0 {
        true
    } else {
        (ps[0].0 is Symbol || ps[0].0 is Str) && renderable(ps[0].0) && renderable(ps[0].1)
            && entries_renderable(ps.skip(1))
    }
}

/// The deepest nesting among the pairs.
pub open spec fn entries_depth(ps: Seq<(Val, Val)>) -> nat
    decreases ps,
{
    if ps.len() == 0 {
        0
    } else {
        let d0 = if depth_of(ps[0].0) >= depth_of(ps[0].1) {
            depth_of(ps[0].0)
        } else {
            depth_of(ps[0].1)
        };
        if d0 >= entries_depth(ps.skip(1)) {
            d0
        } else {
            entries_depth(ps.skip(1))
        }
    }
}

/// The canonical tokens of the pairs: key then value, in order.
pub open spec fn tokens_of_entries(ps: Seq<(Val, Val)>) -> Seq<Tok>
    decreases ps,
{
    if ps.len() == 0 {
        Seq::empty()
    } else {
        tokens_of(ps[0].0) + tokens_of(ps[0].1) + tokens_of_entries(ps.skip(1))
    }
}

/// The map denoted by the pairs, later pairs winning.
pub open spec fn entries_map(ps: Seq<(Val, Val)>, acc: Map<Seq<char>, Val>) -> Map<Seq<char>, Val>
    decreases ps,
{
    if ps.len() == 0 {
        acc
    } else {
        entries_map(ps.skip(1), acc.insert(key_text(ps[0].0), ps[0].1))
    }
}

/// A `{` whose key/value pairs run to the end of input with
/// no matching `}` fails with `UnbalancedMap`.
pub proof fn lemma_unbalanced_map(ps: Seq<(Val, Val)>, depth: nat)
    requires
        entries_renderable(ps),
        depth >= 1 + entries_depth(ps),
    ensures
        parse_form(seq![Tok::LCurly] + tokens_of_entries(ps), depth) == ParseStep::Fail(
            ErrorKind::UnbalancedMap,
        ),
{
    let ts = seq![Tok::LCurly] + tokens_of_entries(ps);
    assert(ts[0] == Tok::LCurly);
    assert(ts.skip(1) =~= tokens_of_entries(ps));
    lemma_map_no_close(ps, (depth - 1) as nat, Map::empty());
}

#[verifier::rlimit(50)]
proof fn lemma_map_no_close(ps: Seq<(Val, Val)>, depth: nat, acc: Map<Seq<char>, Val>)
    requires
        entries_renderable(ps),
        entries_depth(ps) <= depth,
    ensures
        parse_map(tokens_of_entries(ps), depth, acc) == ParseStep::Fail(ErrorKind::UnbalancedMap),
    decreases ps,
{
    if ps.len() == 0 {
        assert(tokens_of_entries(ps).len() == 0);
        assert(parse_form(tokens_of_entries(ps), depth) is End);
        assert(parse_map(tokens_of_entries(ps), depth, acc) == ParseStep::Fail(
            ErrorKind::UnbalancedMap,
        ));
    } else {
        let k = ps[0].0;
        let v = ps[0].1;
        let tail = ps.skip(1);
        let ts = tokens_of_entries(ps);
        let rest1 = tokens_of(v) + tokens_of_entries(tail);
        assert(ts =~= tokens_of(k) + rest1);
        assert(k is Symbol || k is Str);
        assert(renderable(k) && renderable(v));
        assert(entries_renderable(tail));
        assert(depth_of(k) <= depth && depth_of(v) <= depth);
        assert(entries_depth(tail) <= depth);
        lemma_round_trip(k, rest1, depth);
        lemma_tokens_of_nonempty(k);
        lemma_round_trip(v, tokens_of_entries(tail), depth);
        lemma_tokens_of_nonempty(v);
        assert(parse_form(ts, depth) == ParseStep::Form(k, rest1));
        assert(rest1.len() < ts.len());
        assert(parse_form(rest1, depth) == ParseStep::Form(v, tokens_of_entries(tail)));
        assert(tokens_of_entries(tail).len() < rest1.len());
        lemma_map_no_close(tail, depth, acc.insert(key_text(k), v));
        assert(parse_map(ts, depth, acc) == parse_map(
            tokens_of_entries(tail),
            depth,
            acc.insert(key_text(k), v),
        ));
        assert(parse_map(tokens_of_entries(ps), depth, acc) == ParseStep::Fail(
            ErrorKind::UnbalancedMap,
        ));
    }
}

/// A `{` with an odd count of forms before its `}` — the
/// pairs, then one key with no paired value — fails with `UnbalancedMap`.
pub proof fn lemma_odd_map(ps: Seq<(Val, Val)>, k: Val, depth: nat)
    requires
        entries_renderable(ps),
        k is Symbol || k is Str,
        renderable(k),
        depth >= 1 + entries_depth(ps),
        depth >= 1 + depth_of(k),
    ensures
        parse_form(
            seq![Tok::LCurly] + tokens_of_entries(ps) + tokens_of(k) + seq![Tok::RCurly],
            depth,
        ) == ParseStep::Fail(ErrorKind::UnbalancedMap),
{
    let ts = seq![Tok::LCurly] + tokens_of_entries(ps) + tokens_of(k) + seq![Tok::RCurly];
    assert(ts[0] == Tok::LCurly);
    assert(ts.skip(1) =~= tokens_of_entries(ps) + (tokens_of(k) + seq![Tok::RCurly]));
    lemma_odd_map_entries(ps, k, (depth - 1) as nat, Map::empty());
}

#[verifier::rlimit(50)]
proof fn lemma_odd_map_entries(ps: Seq<(Val, Val)>, k: Val, depth: nat, acc: Map<Seq<char>, Val>)
    requires
        entries_renderable(ps),
        k is Symbol || k is Str,
        renderable(k),
        entries_depth(ps) <= depth,
        depth_of(k) <= depth,
    ensures
        parse_map(tokens_of_entries(ps) + (tokens_of(k) + seq![Tok::RCurly]), depth, acc)
            == ParseStep::Fail(ErrorKind::UnbalancedMap),
    decreases ps,
{
    let stub = tokens_of(k) + seq![Tok::RCurly];
    if ps.len() == 0 {
        let ts = tokens_of_entries(ps) + stub;
        assert(ts =~= tokens_of(k) + seq![Tok::RCurly]);
        lemma_round_trip(k, seq![Tok::RCurly], depth);
        lemma_tokens_of_nonempty(k);
        assert(parse_form(ts, depth) == ParseStep::Form(k, seq![Tok::RCurly]));
        assert(parse_form(seq![Tok::RCurly], depth) is Delim);
        assert(seq![Tok::RCurly][0] == Tok::RCurly);
    } else {
        let k0 = ps[0].0;
        let v0 = ps[0].1;
        let tail = ps.skip(1);
        let ts = tokens_of_entries(ps) + stub;
        let rest1 = tokens_of(v0) + (tokens_of_entries(tail) + stub);
        assert(ts =~= tokens_of(k0) + rest1);
        lemma_round_trip(k0, rest1, depth);
        lemma_tokens_of_nonempty(k0);
        lemma_round_trip(v0, tokens_of_entries(tail) + stub, depth);
        lemma_tokens_of_nonempty(v0);
        lemma_odd_map_entries(tail, k, depth, acc.insert(key_text(k0), v0));
    }
}

/// The round trip for maps: the pairs of a map rendering are read back into
/// the denoted map (later duplicate keys overwriting), and the map closes at
/// its `}`.
pub proof fn lemma_map_round_trip(ps: Seq<(Val, Val)>, rest: Seq<Tok>, depth: nat)
    requires
        entries_renderable(ps),
        depth >= 1 + entries_depth(ps),
    ensures
        parse_form(seq![Tok::LCurly] + tokens_of_entries(ps) + seq![Tok::RCurly] + rest, depth)
            == ParseStep::Form(Val::Dict(entries_map(ps, Map::empty())), rest),
{
    let ts = seq![Tok::LCurly] + tokens_of_entries(ps) + seq![Tok::RCurly] + rest;
    assert(ts[0] == Tok::LCurly);
    assert(ts.skip(1) =~= tokens_of_entries(ps) + (seq![Tok::RCurly] + rest));
    lemma_map_entries_round_trip(ps, rest, (depth - 1) as nat, Map::empty());
}

#[verifier::rlimit(50)]
proof fn lemma_map_entries_round_trip(
    ps: Seq<(Val, Val)>,
    rest: Seq<Tok>,
    depth: nat,
    acc: Map<Seq<char>, Val>,
)
    requires
        entries_renderable(ps),
        entries_depth(ps) <= depth,
    ensures
        parse_map(tokens_of_entries(ps) + (seq![Tok::RCurly] + rest), depth, acc)
            == ParseStep::Form(Val::Dict(entries_map(ps, acc)), rest),
    decreases ps,
{
    let closing = seq![Tok::RCurly] + rest;
    if ps.len() == 0 {
        let ts = tokens_of_entries(ps) + closing;
        assert(ts =~= closing);
        assert(ts[0] == Tok::RCurly);
        assert(parse_form(ts, depth) is Delim);
        assert(ts.skip(1) =~= rest);
    } else {
        let k0 = ps[0].0;
        let v0 = ps[0].1;
        let tail = ps.skip(1);
        let ts = tokens_of_entries(ps) + closing;
        let rest1 = tokens_of(v0) + (tokens_of_entries(tail) + closing);
        assert(ts =~= tokens_of(k0) + rest1);
        lemma_round_trip(k0, rest1, depth);
        lemma_tokens_of_nonempty(k0);
        lemma_round_trip(v0, tokens_of_entries(tail) + closing, depth);
        lemma_tokens_of_nonempty(v0);
        lemma_map_entries_round_trip(tail, rest, depth, acc.insert(key_text(k0), v0));
    }
}

} // verus!
