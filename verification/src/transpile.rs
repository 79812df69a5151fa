//! The last pass and the pipeline: removing the type annotations of
//! variable declarations, parameters and return types, and rendering the
//! tokens back to text.
//!
//! The end of an annotation is found by a heuristic: the first stop
//! punctuator met at bracket depth zero (`(`, `[` and `{` nest).
use vstd::prelude::*;

use crate::classes::{
    class_word, lemma_strip_classes_identity, strip_class_syntax, strip_classes,
};
use crate::enums::{expand_enums, lemma_expand_enums_identity, strip_enums};
use crate::expressions::{
    lemma_strip_expression_types_identity, strip_expression_type_syntax, strip_expression_types,
};
use crate::generics::{
    lemma_strip_generic_lists_identity, strip_generic_lists, strip_generics,
};
use crate::interfaces::{
    lemma_strip_declarations_identity, strip_declarations, strip_interfaces_and_type_aliases,
};
use crate::token::{
    eof_terminated, is_subsequence, lemma_render_push, lemma_render_single,
    lemma_subsequence_extend_take, lemma_subsequence_push, lemma_subsequence_refl, render,
    text_of, views, CollectingSink, SpecToken, Token,
};
use crate::tokenizer::{lemma_lex_lossless, lemma_lex_shape, lex, tokenize};

verus! {

// ---------------------------------------------------------------------
// Token helpers shared by the passes
// ---------------------------------------------------------------------

/// Whether a token carries meaning: whitespace, comments, rewritten text
/// and the end marker do not.
pub open spec fn is_sig(t: SpecToken) -> bool {
    !(t is Whitespace || t is Comment || t is Raw || t is Eof)
}

pub(crate) fn is_significant(t: &Token) -> (b: bool)
    ensures
        b == is_sig(t@),
{
    !matches!(t, Token::Whitespace(_) | Token::Comment(_) | Token::Raw(_) | Token::Eof)
}

pub fn token_text(t: &Token) -> (s: &str)
    ensures
        s@ == text_of(t@),
{
    match t {
        Token::Identifier(s) => s.as_str(),
        Token::Number(s) => s.as_str(),
        Token::StringLiteral(s) => s.as_str(),
        Token::Punctuator(s) => s.as_str(),
        Token::Whitespace(s) => s.as_str(),
        Token::Comment(s) => s.as_str(),
        Token::Raw(s) => s.as_str(),
        Token::Eof => {
            proof {
                reveal_strlit("");
            }
            ""
        },
    }
}

/// Whether `s` holds the text `lit`.
pub(crate) fn text_is(s: &String, lit: &str) -> (b: bool)
    ensures
        b == (s@ == lit@),
{
    *s == lit.to_owned()
}

/// Whether `t` is the punctuator `p`.
pub(crate) fn punct_is(t: &Token, p: &str) -> (b: bool)
    ensures
        b == (t@ == SpecToken::Punctuator(p@)),
{
    match t {
        Token::Punctuator(s) => text_is(s, p),
        _ => false,
    }
}

/// Whether `t` is the identifier `name`.
pub(crate) fn ident_is(t: &Token, name: &str) -> (b: bool)
    ensures
        b == (t@ == SpecToken::Identifier(name@)),
{
    match t {
        Token::Identifier(s) => text_is(s, name),
        _ => false,
    }
}

/// A copy of `t`.
pub(crate) fn copy_token(t: &Token) -> (r: Token)
    ensures
        r@ == t@,
{
    match t {
        Token::Identifier(s) => Token::Identifier(s.clone()),
        Token::Number(s) => Token::Number(s.clone()),
        Token::StringLiteral(s) => Token::StringLiteral(s.clone()),
        Token::Punctuator(s) => Token::Punctuator(s.clone()),
        Token::Whitespace(s) => Token::Whitespace(s.clone()),
        Token::Comment(s) => Token::Comment(s.clone()),
        Token::Raw(s) => Token::Raw(s.clone()),
        Token::Eof => Token::Eof,
    }
}

pub open spec fn is_modifier(s: Seq<char>) -> bool {
    s == "public"@ || s == "private"@ || s == "protected"@ || s == "readonly"@ || s
        == "abstract"@ || s == "override"@
}

/// Whether `s` is a TypeScript-only member modifier.
pub(crate) fn is_modifier_keyword(s: &String) -> (b: bool)
    ensures
        b == is_modifier(s@),
{
    text_is(s, "public") || text_is(s, "private") || text_is(s, "protected") || text_is(
        s,
        "readonly",
    ) || text_is(s, "abstract") || text_is(s, "override")
}

pub open spec fn opt_int(r: Option<usize>) -> Option<int> {
    match r {
        Some(k) => Some(k as int),
        None => None,
    }
}

/// The first index at or after `start` that holds a significant token.
pub open spec fn next_sig(ts: Seq<SpecToken>, start: int) -> Option<int>
    decreases ts.len() - start,
{
    if start < 0 || start >= ts.len() {
        None
    } else if is_sig(ts[start]) {
        Some(start)
    } else {
        next_sig(ts, start + 1)
    }
}

/// `next_sig` finds the first significant token, and no other.
pub proof fn lemma_next_sig(ts: Seq<SpecToken>, start: int)
    requires
        0 <= start,
    ensures
        next_sig(ts, start) matches Some(k) ==> start <= k < ts.len() && is_sig(ts[k]) && forall|
            j: int,
        | start <= j < k ==> !is_sig(#[trigger] ts[j]),
        next_sig(ts, start) is None ==> forall|j: int|
            start <= j < ts.len() ==> !is_sig(#[trigger] ts[j]),
    decreases ts.len() - start,
{
    if start < ts.len() && !is_sig(ts[start]) {
        lemma_next_sig(ts, start + 1);
    }
}

pub(crate) fn next_sig_index(tokens: &[Token], start: usize) -> (r: Option<usize>)
    ensures
        opt_int(r) == next_sig(views(tokens@), start as int),
{
    let ghost ts = views(tokens@);
    let mut i = start;
    while i < tokens.len()
        invariant
            ts == views(tokens@),
            start <= i,
            next_sig(ts, i as int) == next_sig(ts, start as int),
        decreases tokens.len() - i,
    {
        if is_significant(&tokens[i]) {
            return Some(i);
        }
        i = i + 1;
    }
    None
}

/// The index of the bracket `close` that matches the bracket `open` at
/// `i`, counting nesting from `depth`; `None` when `Eof` or the end comes
/// first.
pub open spec fn matching_close(
    ts: Seq<SpecToken>,
    i: int,
    depth: int,
    open: Seq<char>,
    close: Seq<char>,
) -> Option<int>
    decreases ts.len() - i,
{
    if i < 0 || i >= ts.len() {
        None
    } else if ts[i] is Eof {
        None
    } else if ts[i] == SpecToken::Punctuator(open) {
        matching_close(ts, i + 1, depth + 1, open, close)
    } else if ts[i] == SpecToken::Punctuator(close) {
        if depth - 1 == 0 {
            Some(i)
        } else {
            matching_close(ts, i + 1, depth - 1, open, close)
        }
    } else {
        matching_close(ts, i + 1, depth, open, close)
    }
}

/// A matching closer found from `i` is a closing punctuator at or after `i`, after an opener at `i`.
pub proof fn lemma_matching_close_bounds(
    ts: Seq<SpecToken>,
    i: int,
    depth: int,
    open: Seq<char>,
    close: Seq<char>,
)
    ensures
        matching_close(ts, i, depth, open, close) matches Some(k) ==> i <= k < ts.len() && ts[k]
            == SpecToken::Punctuator(close) && (ts[i] == SpecToken::Punctuator(open) ==> i < k),
    decreases ts.len() - i,
{
    if 0 <= i < ts.len() && !(ts[i] is Eof) {
        lemma_matching_close_bounds(ts, i + 1, depth + 1, open, close);
        lemma_matching_close_bounds(ts, i + 1, depth - 1, open, close);
        lemma_matching_close_bounds(ts, i + 1, depth, open, close);
    }
}

/// How a token changes the nesting of the brackets `open` and `close`.
pub open spec fn pair_delta(t: SpecToken, open: Seq<char>, close: Seq<char>) -> int {
    if t == SpecToken::Punctuator(open) {
        1
    } else if t == SpecToken::Punctuator(close) {
        -1
    } else {
        0
    }
}

/// The number of `open` brackets minus that of `close` brackets among
/// the tokens `a..b`.
pub open spec fn pair_balance(ts: Seq<SpecToken>, a: int, b: int, open: Seq<char>, close: Seq<char>) -> int
    decreases b - a,
{
    if b <= a {
        0
    } else {
        pair_balance(ts, a, b - 1, open, close) + pair_delta(ts[b - 1], open, close)
    }
}

proof fn lemma_matching_close_from(
    ts: Seq<SpecToken>,
    o: int,
    i: int,
    open: Seq<char>,
    close: Seq<char>,
)
    requires
        0 <= o < i <= ts.len(),
        open != close,
        forall|m: int| o < m < i ==> !(#[trigger] ts[m] is Eof),
        forall|m: int| o <= m < i ==> #[trigger] pair_balance(ts, o, m + 1, open, close) > 0,
    ensures
        ({
            let r = matching_close(ts, i, pair_balance(ts, o, i, open, close), open, close);
            &&& r matches Some(c) ==> {
                &&& o < c < ts.len()
                &&& ts[c] == SpecToken::Punctuator(close)
                &&& pair_balance(ts, o, c + 1, open, close) == 0
                &&& forall|m: int| o < m <= c ==> !(#[trigger] ts[m] is Eof)
                &&& forall|m: int| o <= m < c ==> #[trigger] pair_balance(ts, o, m + 1, open, close) > 0
            }
            &&& r is None ==> forall|c: int|
                o <= c < ts.len() && (forall|m: int| o < m <= c ==> !(#[trigger] ts[m] is Eof))
                    ==> #[trigger] pair_balance(ts, o, c + 1, open, close) > 0
        }),
    decreases ts.len() - i,
{
    let d = pair_balance(ts, o, i, open, close);
    if i < ts.len() && !(ts[i] is Eof) {
        assert(pair_balance(ts, o, i + 1, open, close) == d + pair_delta(ts[i], open, close));
        assert(pair_balance(ts, o, (i - 1) + 1, open, close) > 0);
        if ts[i] == SpecToken::Punctuator(close) && d - 1 == 0 {
        } else {
            assert forall|m: int| o <= m < i + 1 implies #[trigger] pair_balance(ts, o, m + 1, open, close) > 0 by {
                if m == i {
                    assert(pair_balance(ts, o, i + 1, open, close) > 0);
                }
            }
            lemma_matching_close_from(ts, o, i + 1, open, close);
        }
    } else if i < ts.len() {
        assert forall|c: int|
            o <= c < ts.len() && (forall|m: int| o < m <= c ==> !(#[trigger] ts[m] is Eof))
                implies #[trigger] pair_balance(ts, o, c + 1, open, close) > 0 by {
            if c >= i {
                assert(!(ts[i] is Eof));
            }
        }
    }
}

/// Bracket matching: from an `open` bracket at `o`, `matching_close`
/// finds the first index at which the count of `open` brackets less that
/// of `close` brackets since `o` drops back to zero, which holds a
/// `close` bracket, with no `Eof` on the way; it finds nothing exactly
/// when the count stays above zero up to the first `Eof` or the end.
pub proof fn lemma_matching_close_law(ts: Seq<SpecToken>, o: int, open: Seq<char>, close: Seq<char>)
    requires
        0 <= o < ts.len(),
        ts[o] == SpecToken::Punctuator(open),
        open != close,
    ensures
        matching_close(ts, o, 0, open, close) matches Some(c) ==> {
            &&& o < c < ts.len()
            &&& ts[c] == SpecToken::Punctuator(close)
            &&& pair_balance(ts, o, c + 1, open, close) == 0
            &&& forall|m: int| o < m <= c ==> !(#[trigger] ts[m] is Eof)
            &&& forall|m: int| o <= m < c ==> #[trigger] pair_balance(ts, o, m + 1, open, close) > 0
        },
        matching_close(ts, o, 0, open, close) is None ==> forall|c: int|
            o <= c < ts.len() && (forall|m: int| o < m <= c ==> !(#[trigger] ts[m] is Eof))
                ==> #[trigger] pair_balance(ts, o, c + 1, open, close) > 0,
{
    assert(pair_balance(ts, o, o, open, close) == 0);
    assert(pair_balance(ts, o, o + 1, open, close) == 1);
    assert forall|m: int| o <= m < o + 1 implies #[trigger] pair_balance(ts, o, m + 1, open, close) > 0 by {
        assert(m == o);
    }
    lemma_matching_close_from(ts, o, o + 1, open, close);
}

/// The bracket that closes the one at `open`.
pub(crate) fn consume_matching_bracket(
    tokens: &[Token],
    open: usize,
    open_ch: &str,
    close_ch: &str,
) -> (r: Option<usize>)
    ensures
        opt_int(r) == matching_close(views(tokens@), open as int, 0, open_ch@, close_ch@),
{
    let ghost ts = views(tokens@);
    // The nesting depth is `opens - closes`.
    let mut opens: usize = 0;
    let mut closes: usize = 0;
    let mut i = open;
    while i < tokens.len()
        invariant
            ts == views(tokens@),
            open <= i,
            opens + closes <= i - open,
            matching_close(ts, i as int, opens - closes, open_ch@, close_ch@) == matching_close(
                ts,
                open as int,
                0,
                open_ch@,
                close_ch@,
            ),
        decreases tokens.len() - i,
    {
        let t = &tokens[i];
        if matches!(t, Token::Eof) {
            return None;
        } else if punct_is(t, open_ch) {
            opens = opens + 1;
            i = i + 1;
        } else if punct_is(t, close_ch) {
            if closes + 1 == opens {
                return Some(i);
            }
            closes = closes + 1;
            i = i + 1;
        } else {
            i = i + 1;
        }
    }
    None
}

/// The `>` that closes the generic parameter list opened at `lt`.
pub(crate) fn consume_angle_generic(tokens: &[Token], lt: usize) -> (r: Option<usize>)
    ensures
        opt_int(r) == matching_close(views(tokens@), lt as int, 0, "<"@, ">"@),
{
    consume_matching_bracket(tokens, lt, "<", ">")
}

/// The texts of a list of string slices.
pub open spec fn texts(stops: Seq<&str>) -> Seq<Seq<char>> {
    stops.map_values(|s: &str| s@)
}

fn contains_text(stops: &[&str], p: &String) -> (b: bool)
    ensures
        b == texts(stops@).contains(p@),
{
    let mut k: usize = 0;
    while k < stops.len()
        invariant
            k <= stops@.len(),
            forall|j: int| 0 <= j < k ==> texts(stops@)[j] != p@,
        decreases stops.len() - k,
    {
        if text_is(p, stops[k]) {
            proof {
                assert(texts(stops@)[k as int] == p@);
            }
            return true;
        }
        k = k + 1;
    }
    false
}

/// How a punctuator changes the bracket depth of a type.
pub open spec fn bracket_delta(p: Seq<char>) -> int {
    if p == "("@ || p == "["@ || p == "{"@ {
        1
    } else if p == ")"@ || p == "]"@ || p == "}"@ {
        -1
    } else {
        0
    }
}

/// The index of the first of `stops` met at depth zero from `i` on,
/// or of `Eof`, or the end.
pub open spec fn type_end(ts: Seq<SpecToken>, i: int, depth: int, stops: Seq<Seq<char>>) -> int
    decreases ts.len() - i,
{
    if i < 0 || i >= ts.len() {
        i
    } else {
        match ts[i] {
            SpecToken::Punctuator(p) => if depth == 0 && stops.contains(p) {
                i
            } else {
                type_end(ts, i + 1, depth + bracket_delta(p), stops)
            },
            SpecToken::Eof => i,
            _ => type_end(ts, i + 1, depth, stops),
        }
    }
}

/// How a token changes the bracket depth of a type.
pub open spec fn token_bracket_delta(t: SpecToken) -> int {
    match t {
        SpecToken::Punctuator(p) => bracket_delta(p),
        _ => 0,
    }
}

/// The bracket depth of the tokens `s..k`: opening `(`, `[` and `{` less
/// closing `)`, `]` and `}`.
pub open spec fn type_depth(ts: Seq<SpecToken>, s: int, k: int) -> int
    decreases k - s,
{
    if k <= s {
        0
    } else {
        type_depth(ts, s, k - 1) + token_bracket_delta(ts[k - 1])
    }
}

/// Whether the token at `k` ends a type that starts at `s`: `Eof`, or
/// one of `stops` at depth zero.
pub open spec fn type_stop(ts: Seq<SpecToken>, s: int, k: int, stops: Seq<Seq<char>>) -> bool {
    ts[k] is Eof || (ts[k] matches SpecToken::Punctuator(p) && stops.contains(p) && type_depth(
        ts,
        s,
        k,
    ) == 0)
}

proof fn lemma_type_end_from(ts: Seq<SpecToken>, s: int, i: int, stops: Seq<Seq<char>>)
    requires
        0 <= s <= i <= ts.len(),
        forall|m: int| s <= m < i ==> !#[trigger] type_stop(ts, s, m, stops),
    ensures
        ({
            let r = type_end(ts, i, type_depth(ts, s, i), stops);
            &&& i <= r <= ts.len()
            &&& forall|m: int| s <= m < r ==> !#[trigger] type_stop(ts, s, m, stops)
            &&& r < ts.len() ==> type_stop(ts, s, r, stops)
        }),
    decreases ts.len() - i,
{
    if i < ts.len() {
        assert(type_depth(ts, s, i + 1) == type_depth(ts, s, i) + token_bracket_delta(ts[i]));
        if !type_stop(ts, s, i, stops) {
            assert forall|m: int| s <= m < i + 1 implies !#[trigger] type_stop(ts, s, m, stops) by {}
            lemma_type_end_from(ts, s, i + 1, stops);
        }
    }
}

/// The end of a type: `type_end` from `s` at depth zero is the first
/// index from `s` on holding `Eof` or one of `stops` at bracket depth
/// zero (depth counted over the tokens from `s`), or the end of the
/// stream where there is none.
pub proof fn lemma_type_end_law(ts: Seq<SpecToken>, s: int, stops: Seq<Seq<char>>)
    requires
        0 <= s <= ts.len(),
    ensures
        s <= type_end(ts, s, 0, stops) <= ts.len(),
        forall|m: int| s <= m < type_end(ts, s, 0, stops) ==> !#[trigger] type_stop(ts, s, m, stops),
        type_end(ts, s, 0, stops) < ts.len() ==> type_stop(ts, s, type_end(ts, s, 0, stops), stops),
{
    assert(type_depth(ts, s, s) == 0);
    lemma_type_end_from(ts, s, s, stops);
}

/// The end of a type lies between its start and the end of the stream.
pub proof fn lemma_type_end_bounds(ts: Seq<SpecToken>, i: int, depth: int, stops: Seq<Seq<char>>)
    requires
        0 <= i <= ts.len(),
    ensures
        i <= type_end(ts, i, depth, stops) <= ts.len(),
    decreases ts.len() - i,
{
    if i < ts.len() {
        match ts[i] {
            SpecToken::Punctuator(p) => {
                lemma_type_end_bounds(ts, i + 1, depth + bracket_delta(p), stops);
            },
            SpecToken::Eof => {},
            _ => {
                lemma_type_end_bounds(ts, i + 1, depth, stops);
            },
        }
    }
}

/// Where an annotation that starts at `start` ends.
pub(crate) fn find_type_end(tokens: &[Token], start: usize, stops: &[&str]) -> (r: usize)
    ensures
        r == type_end(views(tokens@), start as int, 0, texts(stops@)),
{
    let ghost ts = views(tokens@);
    // The bracket depth is `opens - closes`.
    let mut opens: usize = 0;
    let mut closes: usize = 0;
    let mut i = start;
    while i < tokens.len()
        invariant
            ts == views(tokens@),
            start <= i,
            opens + closes <= i - start,
            type_end(ts, i as int, opens - closes, texts(stops@)) == type_end(
                ts,
                start as int,
                0,
                texts(stops@),
            ),
        decreases tokens.len() - i,
    {
        match &tokens[i] {
            Token::Punctuator(p) => {
                if opens == closes && contains_text(stops, p) {
                    return i;
                }
                if text_is(p, "(") || text_is(p, "[") || text_is(p, "{") {
                    opens = opens + 1;
                } else if text_is(p, ")") || text_is(p, "]") || text_is(p, "}") {
                    closes = closes + 1;
                }
            },
            Token::Eof => return i,
            _ => {},
        }
        i = i + 1;
    }
    i
}

/// The first index of the run of whitespace tokens that ends at `k`,
/// not going back past `colon + 1`.
pub open spec fn keep_from(ts: Seq<SpecToken>, colon: int, k: int) -> int
    decreases k,
{
    if k > colon + 1 && 0 < k <= ts.len() && ts[k - 1] is Whitespace {
        keep_from(ts, colon, k - 1)
    } else {
        k
    }
}

/// The kept trailing whitespace starts at `k`, or before it but past the colon.
pub proof fn lemma_keep_from_bounds(ts: Seq<SpecToken>, colon: int, k: int)
    requires
        0 <= k,
    ensures
        keep_from(ts, colon, k) <= k,
        keep_from(ts, colon, k) >= k || keep_from(ts, colon, k) >= colon + 1,
    decreases k,
{
    if k > colon + 1 && 0 < k <= ts.len() && ts[k - 1] is Whitespace {
        lemma_keep_from_bounds(ts, colon, k - 1);
    }
}

/// Leaves the whitespace just before the end of a removed annotation in
/// place, so that `x: number = 1` becomes `x = 1`.
pub(crate) fn preserve_trailing_whitespace(tokens: &[Token], colon_index: usize, end: usize) -> (r:
    usize)
    requires
        colon_index < usize::MAX,
        end <= tokens@.len(),
    ensures
        r == keep_from(views(tokens@), colon_index as int, end as int),
{
    let mut keep_from = end;
    while keep_from > colon_index + 1 && matches!(tokens[keep_from - 1], Token::Whitespace(_))
        invariant
            keep_from <= end <= tokens@.len(),
            colon_index < usize::MAX,
            crate::transpile::keep_from(views(tokens@), colon_index as int, keep_from as int)
                == crate::transpile::keep_from(views(tokens@), colon_index as int, end as int),
        decreases keep_from,
    {
        keep_from = keep_from - 1;
    }
    keep_from
}


// ---------------------------------------------------------------------
// Removing type annotations
// ---------------------------------------------------------------------

/// The significant token `back` places from the end of the history.
pub open spec fn hist_tok(ts: Seq<SpecToken>, hist: Seq<usize>, back: int) -> Option<SpecToken> {
    if hist.len() >= back {
        Some(ts[hist[hist.len() - back] as int])
    } else {
        None
    }
}

pub open spec fn is_identifier(t: Option<SpecToken>) -> bool {
    t matches Some(SpecToken::Identifier(_))
}

pub open spec fn is_some_punct(t: Option<SpecToken>, p: Seq<char>) -> bool {
    t == Some(SpecToken::Punctuator(p))
}

/// The last significant token is a name that follows `(` or `,` inside
/// parentheses: a parameter.
pub open spec fn param_position(ts: Seq<SpecToken>, depth: int, hist: Seq<usize>) -> bool {
    is_identifier(hist_tok(ts, hist, 1)) && depth >= 1 && (is_some_punct(hist_tok(ts, hist, 2), "("@)
        || is_some_punct(hist_tok(ts, hist, 2), ","@))
}

/// The last significant token is a name declared by `let`, `const` or `var`.
pub open spec fn var_decl_position(ts: Seq<SpecToken>, hist: Seq<usize>) -> bool {
    is_identifier(hist_tok(ts, hist, 1)) && (hist_tok(ts, hist, 2) == Some(
        SpecToken::Identifier("let"@),
    ) || hist_tok(ts, hist, 2) == Some(SpecToken::Identifier("const"@)) || hist_tok(ts, hist, 2)
        == Some(SpecToken::Identifier("var"@)))
}

/// The last significant token closes a parameter list.
pub open spec fn return_type_position(ts: Seq<SpecToken>, hist: Seq<usize>) -> bool {
    is_some_punct(hist_tok(ts, hist, 1), ")"@)
}

/// The next significant token after `i` is `:`, `,`, `)` or `=`, so a `?`
/// at `i` marks an optional parameter (and is no conditional operator).
pub open spec fn optional_marker_follows(ts: Seq<SpecToken>, i: int) -> bool {
    match next_sig(ts, i + 1) {
        Some(k) => ts[k] == SpecToken::Punctuator(":"@) || ts[k] == SpecToken::Punctuator(","@)
            || ts[k] == SpecToken::Punctuator(")"@) || ts[k] == SpecToken::Punctuator("="@),
        None => false,
    }
}

pub open spec fn var_param_stops() -> Seq<Seq<char>> {
    seq!["="@, ";"@, ","@, ")"@]
}

pub open spec fn return_stops() -> Seq<Seq<char>> {
    seq!["{"@, "=>"@, ";"@, ","@]
}

/// Where the annotation after the `:` at `i` ends (its trailing
/// whitespace kept), given the stops that may end it.
pub open spec fn annotation_skip(ts: Seq<SpecToken>, i: int, stops: Seq<Seq<char>>) -> int {
    keep_from(ts, i, type_end(ts, i + 1, 0, stops))
}

/// The annotation after the `:` at `i` ends at a body or an arrow, as a
/// return type does.
pub open spec fn ends_at_body_or_arrow(ts: Seq<SpecToken>, i: int) -> bool {
    let e = type_end(ts, i + 1, 0, return_stops());
    0 <= e < ts.len() && (ts[e] == SpecToken::Punctuator("{"@) || ts[e] == SpecToken::Punctuator(
        "=>"@,
    ))
}

/// How a kept token changes the parenthesis depth.
pub open spec fn paren_delta(t: SpecToken) -> int {
    if t == SpecToken::Punctuator("?"@) || t == SpecToken::Punctuator(":"@) {
        0
    } else if t == SpecToken::Punctuator("("@) {
        1
    } else if t == SpecToken::Punctuator(")"@) {
        -1
    } else {
        0
    }
}

/// Skipping an annotation consumes at least one token and stays in bounds.
pub proof fn lemma_annotation_skip_progress(ts: Seq<SpecToken>, i: int, stops: Seq<Seq<char>>)
    requires
        0 <= i < ts.len(),
    ensures
        i < annotation_skip(ts, i, stops) <= ts.len(),
{
    lemma_type_end_bounds(ts, i + 1, 0, stops);
    lemma_keep_from_bounds(ts, i, type_end(ts, i + 1, 0, stops));
}

/// Where the annotation-removing pass jumps when it meets the significant
/// token at `i`: past an optional-parameter `?`, or past a type
/// annotation; `None` when the token is kept.
pub open spec fn annot_skip(ts: Seq<SpecToken>, i: int, depth: int, hist: Seq<usize>) -> Option<
    int,
> {
    let t = ts[i];
    if t == SpecToken::Punctuator("?"@) {
        if param_position(ts, depth, hist) && optional_marker_follows(ts, i) {
            Some(i + 1)
        } else {
            None
        }
    } else if t == SpecToken::Punctuator(":"@) {
        if var_decl_position(ts, hist) || param_position(ts, depth, hist) {
            Some(annotation_skip(ts, i, var_param_stops()))
        } else if return_type_position(ts, hist) && ends_at_body_or_arrow(ts, i) {
            Some(annotation_skip(ts, i, return_stops()))
        } else {
            None
        }
    } else {
        None
    }
}

/// The tokens from `keep_from(ts, colon, k)` up to `k` are whitespace.
pub proof fn lemma_keep_from_whitespace(ts: Seq<SpecToken>, colon: int, k: int)
    requires
        0 <= k,
    ensures
        forall|m: int| keep_from(ts, colon, k) <= m < k ==> (#[trigger] ts[m]) is Whitespace,
    decreases k,
{
    if k > colon + 1 && 0 < k <= ts.len() && ts[k - 1] is Whitespace {
        lemma_keep_from_whitespace(ts, colon, k - 1);
    }
}

/// A token that ends a variable or parameter annotation at depth zero:
/// `=`, `;`, `,` or `)`.
pub open spec fn ends_annotation(t: SpecToken) -> bool {
    t == SpecToken::Punctuator("="@) || t == SpecToken::Punctuator(";"@) || t
        == SpecToken::Punctuator(","@) || t == SpecToken::Punctuator(")"@)
}

/// Where a variable or parameter annotation ends: the annotation after
/// the `:` at `i` runs up to `e`, the first index after it that holds
/// `Eof` or, at bracket depth zero (counted from `i + 1`), one of `=`,
/// `;`, `,` and `)`, or the end of the stream. What is removed is the `:`
/// and the tokens after it up to `e`, except the blanks just before `e`;
/// the token at `e` and all after it stay.
pub proof fn lemma_annotation_ends_at_stop(ts: Seq<SpecToken>, i: int, depth: int, hist: Seq<usize>) -> (e: int)
    requires
        0 <= i < ts.len(),
        ts[i] == SpecToken::Punctuator(":"@),
        var_decl_position(ts, hist) || param_position(ts, depth, hist),
    ensures
        i < e <= ts.len(),
        forall|m: int|
            i < m < e ==> !((#[trigger] ts[m]) is Eof) && !(ends_annotation(ts[m]) && type_depth(
                ts,
                i + 1,
                m,
            ) == 0),
        e < ts.len() ==> ts[e] is Eof || (ends_annotation(ts[e]) && type_depth(ts, i + 1, e) == 0),
        annot_skip(ts, i, depth, hist) matches Some(j) && i < j <= e && forall|m: int|
            j <= m < e ==> (#[trigger] ts[m]) is Whitespace,
{
    reveal_strlit("?");
    reveal_strlit(":");
    assert(":"@ != "?"@) by {
        assert(":"@[0] != "?"@[0]);
    }
    let stops = var_param_stops();
    assert(stops[0] == "="@ && stops[1] == ";"@ && stops[2] == ","@ && stops[3] == ")"@);
    assert forall|p: Seq<char>| stops.contains(p) <==> (p == "="@ || p == ";"@ || p == ","@ || p
        == ")"@) by {
        if p == "="@ || p == ";"@ || p == ","@ || p == ")"@ {
            if p == "="@ {
                assert(stops[0] == p);
            } else if p == ";"@ {
                assert(stops[1] == p);
            } else if p == ","@ {
                assert(stops[2] == p);
            } else {
                assert(stops[3] == p);
            }
        }
    }
    lemma_type_end_law(ts, i + 1, stops);
    let e = type_end(ts, i + 1, 0, stops);
    lemma_keep_from_bounds(ts, i, e);
    lemma_keep_from_whitespace(ts, i, e);
    assert forall|m: int|
        i < m < e implies !((#[trigger] ts[m]) is Eof) && !(ends_annotation(ts[m]) && type_depth(
            ts,
            i + 1,
            m,
        ) == 0) by {
        assert(!type_stop(ts, i + 1, m, stops));
    }
    if e < ts.len() {
        assert(type_stop(ts, i + 1, e, stops));
    }
    e
}

/// A skip of the annotation pass moves forward and stays in bounds.
pub proof fn lemma_annot_skip_progress(ts: Seq<SpecToken>, i: int, depth: int, hist: Seq<usize>)
    requires
        0 <= i < ts.len(),
    ensures
        annot_skip(ts, i, depth, hist) matches Some(j) ==> i < j <= ts.len(),
{
    lemma_annotation_skip_progress(ts, i, var_param_stops());
    lemma_annotation_skip_progress(ts, i, return_stops());
}

/// The text that the annotation-removing pass produces from index `i`
/// on, with parenthesis depth `depth` and the indices of the significant
/// tokens kept so far in `hist`. It stops at `Eof`.
pub open spec fn annot_from(ts: Seq<SpecToken>, i: int, depth: int, hist: Seq<usize>) -> Seq<
    char,
>
    decreases ts.len() - i,
{
    if i < 0 || i >= ts.len() || ts[i] is Eof {
        Seq::empty()
    } else if !is_sig(ts[i]) {
        text_of(ts[i]) + annot_from(ts, i + 1, depth, hist)
    } else {
        match annot_skip(ts, i, depth, hist) {
            Some(j) => {
                proof {
                    lemma_annot_skip_progress(ts, i, depth, hist);
                }
                annot_from(ts, j, depth, hist)
            },
            None => text_of(ts[i]) + annot_from(
                ts,
                i + 1,
                depth + paren_delta(ts[i]),
                hist.push(i as usize),
            ),
        }
    }
}

/// The text with the annotations of `ts` removed.
pub open spec fn strip_annotations(ts: Seq<SpecToken>) -> Seq<char> {
    annot_from(ts, 0, 0, Seq::empty())
}

fn history_token<'a>(tokens: &'a [Token], hist: &Vec<usize>, back: usize) -> (r: Option<&'a Token>)
    requires
        1 <= back,
        forall|k: int| 0 <= k < hist@.len() ==> hist@[k] < tokens@.len(),
    ensures
        (match r {
            Some(t) => Some(t@),
            None => None::<SpecToken>,
        }) == hist_tok(views(tokens@), hist@, back as int),
{
    if hist.len() >= back {
        Some(&tokens[hist[hist.len() - back]])
    } else {
        None
    }
}

fn in_param_position(tokens: &[Token], paren_opens: usize, paren_closes: usize, hist: &Vec<usize>) -> (b:
    bool)
    requires
        forall|k: int| 0 <= k < hist@.len() ==> hist@[k] < tokens@.len(),
    ensures
        b == param_position(views(tokens@), paren_opens - paren_closes, hist@),
{
    let prev = history_token(tokens, hist, 1);
    let prev2 = history_token(tokens, hist, 2);
    matches!(prev, Some(Token::Identifier(_))) && paren_opens > paren_closes && match prev2 {
        Some(t) => punct_is(t, "(") || punct_is(t, ","),
        None => false,
    }
}

/// Removes the type annotations of variable declarations, parameters and
/// return types from `tokens` and renders the rest as text, up to `Eof`.
pub fn strip_type_annotations(tokens: &[Token]) -> (out: String)
    ensures
        out@ == strip_annotations(views(tokens@)),
{
    let ghost ts = views(tokens@);
    let mut out = String::new();
    // The parenthesis depth is `paren_opens - paren_closes`.
    let mut paren_opens: usize = 0;
    let mut paren_closes: usize = 0;
    // The indices of the significant tokens written so far.
    let mut sig_history: Vec<usize> = Vec::new();
    let mut i: usize = 0;

    while i < tokens.len()
        invariant
            ts == views(tokens@),
            i <= tokens@.len(),
            paren_opens + paren_closes <= i,
            sig_history@.len() <= i,
            forall|k: int| 0 <= k < sig_history@.len() ==> sig_history@[k] < tokens@.len(),
            out@ + annot_from(ts, i as int, paren_opens - paren_closes, sig_history@)
                == strip_annotations(ts),
        decreases tokens.len() - i,
    {
        let ghost depth = paren_opens - paren_closes;
        let tok = &tokens[i];
        if matches!(tok, Token::Eof) {
            proof {
                assert(annot_from(ts, i as int, depth, sig_history@) =~= Seq::<char>::empty());
                assert(out@ =~= strip_annotations(ts));
            }
            return out;
        }
        if !is_significant(tok) {
            out.append(token_text(tok));
            proof {
                assert(out@ + annot_from(ts, i + 1, depth, sig_history@) =~= strip_annotations(ts));
            }
            i += 1;
            continue;
        }
        if let Token::Punctuator(p) = tok {
            if text_is(p, "?") {
                // An optional-parameter marker: only where the next
                // significant token is `:`, `,`, `)` or `=`, which a
                // conditional operator is never followed by.
                if in_param_position(tokens, paren_opens, paren_closes, &sig_history) {
                    proof {
                        lemma_next_sig(ts, i + 1);
                    }
                    let looks_like_optional_marker = match next_sig_index(tokens, i + 1) {
                        Some(k) => punct_is(&tokens[k], ":") || punct_is(&tokens[k], ",")
                            || punct_is(&tokens[k], ")") || punct_is(&tokens[k], "="),
                        None => false,
                    };
                    if looks_like_optional_marker {
                        i += 1;
                        continue;
                    }
                }
            } else if text_is(p, ":") {
                let prev = history_token(tokens, &sig_history, 1);
                let prev2 = history_token(tokens, &sig_history, 2);
                let is_var_decl = matches!(prev, Some(Token::Identifier(_))) && match prev2 {
                    Some(t) => ident_is(t, "let") || ident_is(t, "const") || ident_is(t, "var"),
                    None => false,
                };
                let is_param = in_param_position(tokens, paren_opens, paren_closes, &sig_history);
                let is_return_type = match prev {
                    Some(t) => punct_is(t, ")"),
                    None => false,
                };
                if is_var_decl || is_param {
                    let end = find_type_end(tokens, i + 1, &["=", ";", ",", ")"]);
                    proof {
                        lemma_type_end_bounds(ts, i + 1, 0, var_param_stops());
                        lemma_annotation_skip_progress(ts, i as int, var_param_stops());
                        assert(texts(["=", ";", ",", ")"]@) =~= var_param_stops());
                    }
                    i = preserve_trailing_whitespace(tokens, i, end);
                    continue;
                } else if is_return_type {
                    let end = find_type_end(tokens, i + 1, &["{", "=>", ";", ","]);
                    proof {
                        lemma_type_end_bounds(ts, i + 1, 0, return_stops());
                        lemma_annotation_skip_progress(ts, i as int, return_stops());
                        assert(texts(["{", "=>", ";", ","]@) =~= return_stops());
                    }
                    let stopped_at_body_or_arrow = end < tokens.len() && (punct_is(
                        &tokens[end],
                        "{",
                    ) || punct_is(&tokens[end], "=>"));
                    if stopped_at_body_or_arrow {
                        i = preserve_trailing_whitespace(tokens, i, end);
                        continue;
                    }
                    // Not certainly a return type (a conditional
                    // operator's `:`, say): the token is kept.
                }
            } else if text_is(p, "(") {
                paren_opens += 1;
            } else if text_is(p, ")") {
                paren_closes += 1;
            }
        }
        proof {
            assert(annot_skip(ts, i as int, depth, sig_history@) is None);
            assert(paren_opens - paren_closes == depth + paren_delta(ts[i as int]));
        }
        out.append(token_text(tok));
        sig_history.push(i);
        proof {
            assert(out@ + annot_from(ts, i + 1, paren_opens - paren_closes, sig_history@)
                =~= strip_annotations(ts));
        }
        i += 1;
    }
    proof {
        assert(annot_from(ts, i as int, paren_opens - paren_closes, sig_history@) =~= Seq::<
            char,
        >::empty());
        assert(out@ =~= strip_annotations(ts));
    }
    out
}


proof fn lemma_annot_identity(ts: Seq<SpecToken>, i: int, depth: int, hist: Seq<usize>)
    requires
        eof_terminated(ts),
        0 <= i < ts.len(),
        forall|k: int|
            0 <= k < ts.len() ==> #[trigger] ts[k] != SpecToken::Punctuator(":"@) && ts[k]
                != SpecToken::Punctuator("?"@),
    ensures
        annot_from(ts, i, depth, hist) == render(ts.subrange(i, ts.len() as int)),
    decreases ts.len() - i,
{
    let rest = ts.subrange(i, ts.len() as int);
    if ts[i] is Eof {
        assert(rest =~= seq![SpecToken::Eof]);
        lemma_render_single(SpecToken::Eof);
    } else {
        assert(rest.drop_first() =~= ts.subrange(i + 1, ts.len() as int));
        if is_sig(ts[i]) {
            lemma_annot_identity(ts, i + 1, depth + paren_delta(ts[i]), hist.push(i as usize));
        } else {
            lemma_annot_identity(ts, i + 1, depth, hist);
        }
    }
}

/// A token stream without `:` and `?` renders unchanged.
pub proof fn lemma_strip_annotations_identity(ts: Seq<SpecToken>)
    requires
        eof_terminated(ts),
        forall|k: int|
            0 <= k < ts.len() ==> #[trigger] ts[k] != SpecToken::Punctuator(":"@) && ts[k]
                != SpecToken::Punctuator("?"@),
    ensures
        strip_annotations(ts) == render(ts),
{
    lemma_annot_identity(ts, 0, 0, Seq::empty());
    assert(ts.subrange(0, ts.len() as int) =~= ts);
}

/// The index of the first `Eof` from `i` on, or the length of `ts`.
pub open spec fn eof_from(ts: Seq<SpecToken>, i: int) -> int
    decreases ts.len() - i,
{
    if i < 0 || i >= ts.len() {
        ts.len() as int
    } else if ts[i] is Eof {
        i
    } else {
        eof_from(ts, i + 1)
    }
}

/// The index of the first `Eof` of `ts`, or its length.
pub open spec fn first_eof(ts: Seq<SpecToken>) -> int {
    eof_from(ts, 0)
}

/// `eof_from` finds the first `Eof` from `i` on.
pub proof fn lemma_eof_from(ts: Seq<SpecToken>, i: int)
    requires
        0 <= i <= ts.len(),
    ensures
        i <= eof_from(ts, i) <= ts.len(),
        eof_from(ts, i) == ts.len() || ts[eof_from(ts, i)] is Eof,
        forall|m: int| i <= m < eof_from(ts, i) ==> !(#[trigger] ts[m] is Eof),
    decreases ts.len() - i,
{
    if i < ts.len() && !(ts[i] is Eof) {
        lemma_eof_from(ts, i + 1);
    }
}

/// A skip of the annotation pass does not pass the `Eof` at `e` (or the
/// end) that follows it.
proof fn lemma_annot_skip_before_eof(ts: Seq<SpecToken>, i: int, depth: int, hist: Seq<usize>, e: int)
    requires
        0 <= i < e <= ts.len(),
        e == ts.len() || ts[e] is Eof,
    ensures
        annot_skip(ts, i, depth, hist) matches Some(j) ==> j <= e,
{
    lemma_type_end_law(ts, i + 1, var_param_stops());
    lemma_type_end_law(ts, i + 1, return_stops());
    let r1 = type_end(ts, i + 1, 0, var_param_stops());
    let r2 = type_end(ts, i + 1, 0, return_stops());
    if r1 > e {
        assert(type_stop(ts, i + 1, e, var_param_stops()));
    }
    if r2 > e {
        assert(type_stop(ts, i + 1, e, return_stops()));
    }
    lemma_keep_from_bounds(ts, i, r1);
    lemma_keep_from_bounds(ts, i, r2);
}

proof fn lemma_annot_subsequence(
    ts: Seq<SpecToken>,
    i: int,
    depth: int,
    hist: Seq<usize>,
    kept: Seq<SpecToken>,
    e: int,
) -> (a: Seq<SpecToken>)
    requires
        0 <= i <= e <= ts.len(),
        e == ts.len() || ts[e] is Eof,
        forall|m: int| 0 <= m < e ==> !(#[trigger] ts[m] is Eof),
        is_subsequence(kept, ts.take(i)),
    ensures
        is_subsequence(a, ts.take(e)),
        render(a) == render(kept) + annot_from(ts, i, depth, hist),
    decreases ts.len() - i,
{
    if i == ts.len() || ts[i] is Eof {
        lemma_subsequence_extend_take(kept, ts, i, e);
        assert(render(kept) + annot_from(ts, i, depth, hist) =~= render(kept));
        kept
    } else {
        assert(ts.take(i).push(ts[i]) =~= ts.take(i + 1));
        if !is_sig(ts[i]) {
            lemma_subsequence_push(kept, ts.take(i), ts[i]);
            lemma_render_push(kept, ts[i]);
            let a = lemma_annot_subsequence(ts, i + 1, depth, hist, kept.push(ts[i]), e);
            assert(render(a) =~= render(kept) + annot_from(ts, i, depth, hist));
            a
        } else {
            match annot_skip(ts, i, depth, hist) {
                Some(j) => {
                    lemma_annot_skip_progress(ts, i, depth, hist);
                    lemma_annot_skip_before_eof(ts, i, depth, hist, e);
                    lemma_subsequence_extend_take(kept, ts, i, j);
                    lemma_annot_subsequence(ts, j, depth, hist, kept, e)
                },
                None => {
                    lemma_subsequence_push(kept, ts.take(i), ts[i]);
                    lemma_render_push(kept, ts[i]);
                    let a = lemma_annot_subsequence(
                        ts,
                        i + 1,
                        depth + paren_delta(ts[i]),
                        hist.push(i as usize),
                        kept.push(ts[i]),
                        e,
                    );
                    assert(render(a) =~= render(kept) + annot_from(ts, i, depth, hist));
                    a
                },
            }
        }
    }
}

/// Removing annotations only ever leaves tokens out, and only tokens
/// before the first `Eof` are ever kept: the text is the rendering of a
/// subsequence of the tokens before the first `Eof`.
pub proof fn lemma_strip_annotations_subsequence(ts: Seq<SpecToken>)
    ensures
        exists|a: Seq<SpecToken>|
            #[trigger] is_subsequence(a, ts.take(first_eof(ts))) && strip_annotations(ts) == render(a),
{
    lemma_eof_from(ts, 0);
    lemma_subsequence_refl(Seq::empty());
    assert(ts.take(0) =~= Seq::<SpecToken>::empty());
    let a = lemma_annot_subsequence(ts, 0, 0, Seq::empty(), Seq::empty(), first_eof(ts));
    assert(render(Seq::<SpecToken>::empty()) =~= Seq::<char>::empty());
    assert(strip_annotations(ts) =~= render(a));
}

// ---------------------------------------------------------------------
// The pipeline
// ---------------------------------------------------------------------

/// The JavaScript for the TypeScript source `cs`: its tokens, with type
/// declarations removed, enums expanded, class syntax removed, generic
/// lists removed, expression type syntax removed, and finally type
/// annotations removed as the tokens are rendered.
pub open spec fn transpiled(cs: Seq<char>) -> Seq<char> {
    strip_annotations(
        strip_expression_types(
            strip_generic_lists(strip_classes(expand_enums(strip_declarations(lex(cs))))),
        ),
    )
}

/// Transpiles TypeScript source text to JavaScript by removing its type
/// syntax.
pub fn transpile(source: &str) -> (js: String)
    ensures
        js@ == transpiled(source@),
{
    let mut sink = CollectingSink::default();
    tokenize(source, &mut sink);
    proof {
        assert(views(sink.tokens@) =~= lex(source@));
    }
    let tokens = sink.tokens;
    let tokens = strip_interfaces_and_type_aliases(&tokens);
    let tokens = strip_enums(&tokens);
    let tokens = strip_class_syntax(&tokens);
    let tokens = strip_generics(&tokens);
    let tokens = strip_expression_type_syntax(&tokens);
    strip_type_annotations(&tokens)
}


/// A token that only TypeScript gives meaning to here.
pub open spec fn typescript_only(t: SpecToken) -> bool {
    ||| t == SpecToken::Identifier("interface"@)
    ||| t == SpecToken::Identifier("type"@)
    ||| t == SpecToken::Identifier("enum"@)
    ||| t == SpecToken::Identifier("as"@)
    ||| class_word(t)
    ||| t == SpecToken::Punctuator(":"@)
    ||| t == SpecToken::Punctuator("?"@)
    ||| t == SpecToken::Punctuator("!"@)
    ||| t == SpecToken::Punctuator("<"@)
}

/// Source text none of whose tokens is TypeScript-only (no `:`, `?`,
/// `!`, `<`, `as`, `class`, `enum`, `interface` or `type`)
/// comes out of the transpiler unchanged.
pub proof fn lemma_transpile_leaves_plain_javascript(cs: Seq<char>)
    requires
        forall|k: int| 0 <= k < lex(cs).len() ==> !typescript_only(#[trigger] lex(cs)[k]),
    ensures
        transpiled(cs) == cs,
{
    let ts = lex(cs);
    lemma_lex_shape(cs);
    lemma_lex_lossless(cs);
    assert(eof_terminated(ts));
    assert forall|k: int| 0 <= k < ts.len() implies #[trigger] ts[k] != SpecToken::Identifier(
        "interface"@,
    ) && ts[k] != SpecToken::Identifier("type"@) by {
        assert(!typescript_only(ts[k]));
    }
    lemma_strip_declarations_identity(ts);
    assert forall|k: int| 0 <= k < ts.len() implies #[trigger] ts[k] != SpecToken::Identifier(
        "enum"@,
    ) by {
        assert(!typescript_only(ts[k]));
    }
    lemma_expand_enums_identity(ts);
    assert forall|k: int| 0 <= k < ts.len() implies !class_word(#[trigger] ts[k]) by {
        assert(!typescript_only(ts[k]));
    }
    lemma_strip_classes_identity(ts);
    assert forall|k: int| 0 <= k < ts.len() implies #[trigger] ts[k] != SpecToken::Punctuator(
        "<"@,
    ) by {
        assert(!typescript_only(ts[k]));
    }
    lemma_strip_generic_lists_identity(ts);
    assert forall|k: int| 0 <= k < ts.len() implies #[trigger] ts[k] != SpecToken::Punctuator(
        "!"@,
    ) && ts[k] != SpecToken::Identifier("as"@) by {
        assert(!typescript_only(ts[k]));
    }
    lemma_strip_expression_types_identity(ts);
    assert forall|k: int| 0 <= k < ts.len() implies #[trigger] ts[k] != SpecToken::Punctuator(
        ":"@,
    ) && ts[k] != SpecToken::Punctuator("?"@) by {
        assert(!typescript_only(ts[k]));
    }
    lemma_strip_annotations_identity(ts);
}

} // verus!
