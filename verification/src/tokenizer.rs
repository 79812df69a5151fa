//! A lexer for the TypeScript subset: identifiers, numbers, string
//! literals, punctuators, whitespace and comments, cut by a plain
//! left-to-right scan. Every token keeps the exact source text it covers.
use vstd::prelude::*;

use crate::token::{lemma_render_concat, lemma_render_single, render, text_of, SpecToken, Token, TokenSink};

verus! {

broadcast use vstd::string::group_string_axioms;

// ---------------------------------------------------------------------
// Character classes
// ---------------------------------------------------------------------

/// Whether `c` has the Unicode White_Space property: tab, line feed,
/// vertical tab, form feed, carriage return, space, next line, no-break
/// space, ogham space mark, the spaces from en quad to hair space, line
/// and paragraph separators, narrow no-break space, medium mathematical
/// space and ideographic space.
pub open spec fn char_is_whitespace(c: char) -> bool {
    let u = c as int;
    (0x09 <= u <= 0x0d) || u == 0x20 || u == 0x85 || u == 0xa0 || u == 0x1680 || (0x2000 <= u
        <= 0x200a) || u == 0x2028 || u == 0x2029 || u == 0x202f || u == 0x205f || u == 0x3000
}

/// Whether `char::is_alphabetic` holds of `c` (the Unicode Alphabetic
/// property).
pub uninterp spec fn char_is_alphabetic(c: char) -> bool;

/// Whether `char::is_alphanumeric` holds of `c`.
pub uninterp spec fn char_is_alphanumeric(c: char) -> bool;

/// Calls `char::is_whitespace`, which, as its documentation says, tests
/// the Unicode White_Space property, the code points that
/// `char_is_whitespace` lists.
#[verifier::external_body]
fn is_whitespace(c: char) -> (b: bool)
    ensures
        b == char_is_whitespace(c),
{
    c.is_whitespace()
}

/// Calls `char::is_alphabetic`, which tests the Unicode Alphabetic
/// property. Its result is named, the Unicode tables being left unsaid
/// beyond ASCII, where the alphabetic characters are the letters `A` to
/// `Z` and `a` to `z`; and, as the documentation of
/// `char::is_alphanumeric` says ("either `is_alphabetic()` or
/// `is_numeric()`"), an alphabetic character is also alphanumeric.
#[verifier::external_body]
fn is_alphabetic(c: char) -> (b: bool)
    ensures
        b == char_is_alphabetic(c),
        b ==> char_is_alphanumeric(c),
        (c as int) < 0x80 ==> (b <==> (('a' <= c && c <= 'z') || ('A' <= c && c <= 'Z'))),
{
    c.is_alphabetic()
}

/// Calls `char::is_alphanumeric`, which tests the Unicode Alphabetic and
/// Numeric properties. Its result is named, the Unicode tables being left
/// unsaid beyond ASCII, where the alphanumeric characters are the letters
/// and the digits `0` to `9`; as its documentation says ("either
/// `is_alphabetic()` or `is_numeric()`"), it holds of every alphabetic
/// character.
#[verifier::external_body]
fn is_alphanumeric(c: char) -> (b: bool)
    ensures
        b == char_is_alphanumeric(c),
        char_is_alphabetic(c) ==> b,
        (c as int) < 0x80 ==> (b <==> (('a' <= c && c <= 'z') || ('A' <= c && c <= 'Z') || ('0'
            <= c && c <= '9'))),
{
    c.is_alphanumeric()
}

/// Appends one character to a `String` (`String::push`).
#[verifier::external_body]
pub(crate) fn push_char(s: &mut String, c: char)
    ensures
        final(s)@ == old(s)@.push(c),
{
    s.push(c)
}

pub open spec fn is_digit(c: char) -> bool {
    '0' <= c && c <= '9'
}

pub open spec fn is_ascii(c: char) -> bool {
    (c as int) < 0x80
}

pub open spec fn is_ascii_letter(c: char) -> bool {
    ('a' <= c && c <= 'z') || ('A' <= c && c <= 'Z')
}

/// A character that can start a name: in ASCII a letter, `_` or `$`;
/// beyond it an alphabetic character.
pub open spec fn ident_start(c: char) -> bool {
    if is_ascii(c) {
        is_ascii_letter(c) || c == '_' || c == '$'
    } else {
        char_is_alphabetic(c)
    }
}

/// A character that can go on a name: in ASCII a letter, a digit, `_` or
/// `$`; beyond it an alphabetic or alphanumeric character.
pub open spec fn ident_continue(c: char) -> bool {
    if is_ascii(c) {
        is_ascii_letter(c) || is_digit(c) || c == '_' || c == '$'
    } else {
        char_is_alphabetic(c) || char_is_alphanumeric(c)
    }
}

/// Any character that can start a name can go on one.
pub proof fn lemma_ident_start_continues(c: char)
    ensures
        ident_start(c) ==> ident_continue(c),
{
}

fn is_ascii_digit(c: char) -> (b: bool)
    ensures
        b == is_digit(c),
{
    '0' <= c && c <= '9'
}

fn is_not_newline(c: char) -> (b: bool)
    ensures
        b == (c != '\n'),
{
    c != '\n'
}

fn is_ident_start(c: char) -> (b: bool)
    ensures
        b == ident_start(c),
        b ==> ident_continue(c),
{
    is_alphabetic(c) || c == '_' || c == '$'
}

fn is_ident_continue(c: char) -> (b: bool)
    ensures
        b == ident_continue(c),
{
    is_alphanumeric(c) || c == '_' || c == '$'
}

/// The classes of characters that a token can be a run of.
pub enum CharClass {
    Whitespace,
    Digit,
    IdentContinue,
    NotNewline,
}

pub open spec fn in_class(c: char, k: CharClass) -> bool {
    match k {
        CharClass::Whitespace => char_is_whitespace(c),
        CharClass::Digit => is_digit(c),
        CharClass::IdentContinue => ident_continue(c),
        CharClass::NotNewline => c != '\n',
    }
}

// ---------------------------------------------------------------------
// The lexical grammar
// ---------------------------------------------------------------------

/// The end of the longest run of characters of class `k` that starts at `i`.
pub open spec fn run_end(cs: Seq<char>, i: int, k: CharClass) -> int
    decreases cs.len() - i,
{
    if 0 <= i < cs.len() && in_class(cs[i], k) {
        run_end(cs, i + 1, k)
    } else {
        i
    }
}

/// The characters of `cs` from `i` on.
pub open spec fn rest_of(cs: Seq<char>, i: int) -> Seq<char> {
    cs.subrange(i, cs.len() as int)
}

pub open spec fn has_prefix(s: Seq<char>, p: Seq<char>) -> bool {
    p.len() <= s.len() && s.subrange(0, p.len() as int) == p
}

/// The end of a block comment whose body starts at `i`: just past the
/// first `*/`, or the end of the input.
pub open spec fn block_end(cs: Seq<char>, i: int) -> int
    decreases cs.len() - i,
{
    if i < 0 || i >= cs.len() {
        cs.len() as int
    } else if has_prefix(rest_of(cs, i), "*/"@) {
        i + 2
    } else {
        block_end(cs, i + 1)
    }
}

/// The end of a string literal quoted by `q` whose body starts at `i`:
/// just past the closing quote, or the end of the input. A backslash
/// keeps the character after it from closing the literal.
pub open spec fn string_end(cs: Seq<char>, i: int, q: char) -> int
    decreases cs.len() - i,
{
    if i < 0 || i >= cs.len() {
        cs.len() as int
    } else if cs[i] == '\\' {
        if i + 1 < cs.len() {
            string_end(cs, i + 2, q)
        } else {
            cs.len() as int
        }
    } else if cs[i] == q {
        i + 1
    } else {
        string_end(cs, i + 1, q)
    }
}

/// The end of a number literal: digits, then optionally `.` and digits.
pub open spec fn number_end(cs: Seq<char>, i: int) -> int {
    let j = run_end(cs, i, CharClass::Digit);
    if 0 <= j < cs.len() && cs[j] == '.' {
        run_end(cs, j + 1, CharClass::Digit)
    } else {
        j
    }
}

/// The multi-character punctuator that `s` starts with, longest forms
/// tried before their prefixes.
pub open spec fn multi_punctuator(s: Seq<char>) -> Option<Seq<char>> {
    if has_prefix(s, "=>"@) {
        Some("=>"@)
    } else if has_prefix(s, "==="@) {
        Some("==="@)
    } else if has_prefix(s, "!=="@) {
        Some("!=="@)
    } else if has_prefix(s, "=="@) {
        Some("=="@)
    } else if has_prefix(s, "!="@) {
        Some("!="@)
    } else if has_prefix(s, "<="@) {
        Some("<="@)
    } else if has_prefix(s, ">="@) {
        Some(">="@)
    } else if has_prefix(s, "&&"@) {
        Some("&&"@)
    } else if has_prefix(s, "||"@) {
        Some("||"@)
    } else if has_prefix(s, "??"@) {
        Some("??"@)
    } else if has_prefix(s, "?."@) {
        Some("?."@)
    } else if has_prefix(s, "..."@) {
        Some("..."@)
    } else if has_prefix(s, "+="@) {
        Some("+="@)
    } else if has_prefix(s, "-="@) {
        Some("-="@)
    } else if has_prefix(s, "*="@) {
        Some("*="@)
    } else if has_prefix(s, "/="@) {
        Some("/="@)
    } else {
        None
    }
}

/// The kinds of lexeme, decided by the first characters.
pub enum Lexeme {
    Whitespace,
    LineComment,
    BlockComment,
    StringLit,
    Number,
    Ident,
    Punct,
}

/// The kind of the lexeme that starts at `i` (`0 <= i < cs.len()`).
pub open spec fn lexeme_at(cs: Seq<char>, i: int) -> Lexeme {
    let c = cs[i];
    if char_is_whitespace(c) {
        Lexeme::Whitespace
    } else if c == '/' && has_prefix(rest_of(cs, i), "//"@) {
        Lexeme::LineComment
    } else if c == '/' && has_prefix(rest_of(cs, i), "/*"@) {
        Lexeme::BlockComment
    } else if c == '"' || c == '\'' || c == '`' {
        Lexeme::StringLit
    } else if is_digit(c) {
        Lexeme::Number
    } else if ident_start(c) {
        Lexeme::Ident
    } else {
        Lexeme::Punct
    }
}

/// Where the lexeme that starts at `i` ends.
pub open spec fn token_end(cs: Seq<char>, i: int) -> int {
    match lexeme_at(cs, i) {
        Lexeme::Whitespace => run_end(cs, i, CharClass::Whitespace),
        Lexeme::LineComment => run_end(cs, i, CharClass::NotNewline),
        Lexeme::BlockComment => block_end(cs, i + 2),
        Lexeme::StringLit => string_end(cs, i + 1, cs[i]),
        Lexeme::Number => number_end(cs, i),
        Lexeme::Ident => run_end(cs, i + 1, CharClass::IdentContinue),
        Lexeme::Punct => match multi_punctuator(rest_of(cs, i)) {
            Some(op) => i + op.len(),
            None => i + 1,
        },
    }
}

/// The token of kind `l` with text `text`.
pub open spec fn make_token(l: Lexeme, text: Seq<char>) -> SpecToken {
    match l {
        Lexeme::Whitespace => SpecToken::Whitespace(text),
        Lexeme::LineComment => SpecToken::Comment(text),
        Lexeme::BlockComment => SpecToken::Comment(text),
        Lexeme::StringLit => SpecToken::StringLiteral(text),
        Lexeme::Number => SpecToken::Number(text),
        Lexeme::Ident => SpecToken::Identifier(text),
        Lexeme::Punct => SpecToken::Punctuator(text),
    }
}

/// A run ends inside the input, and covers at least one character when the first is in the class.
pub proof fn lemma_run_end_bounds(cs: Seq<char>, i: int, k: CharClass)
    requires
        0 <= i <= cs.len(),
    ensures
        i <= run_end(cs, i, k) <= cs.len(),
        i < cs.len() && in_class(cs[i], k) ==> i < run_end(cs, i, k),
    decreases cs.len() - i,
{
    if 0 <= i < cs.len() && in_class(cs[i], k) {
        lemma_run_end_bounds(cs, i + 1, k);
    }
}

/// A block comment ends inside the input.
pub proof fn lemma_block_end_bounds(cs: Seq<char>, i: int)
    requires
        0 <= i,
    ensures
        i <= block_end(cs, i) <= cs.len() || (i > cs.len() && block_end(cs, i) == cs.len()),
    decreases cs.len() - i,
{
    reveal_strlit("*/");
    if i < cs.len() && !has_prefix(rest_of(cs, i), "*/"@) {
        lemma_block_end_bounds(cs, i + 1);
    }
}

/// A string literal ends inside the input.
pub proof fn lemma_string_end_bounds(cs: Seq<char>, i: int, q: char)
    requires
        0 <= i,
    ensures
        i <= string_end(cs, i, q) <= cs.len() || (i > cs.len() && string_end(cs, i, q)
            == cs.len()),
    decreases cs.len() - i,
{
    if 0 <= i < cs.len() {
        if cs[i] == '\\' {
            if i + 1 < cs.len() {
                lemma_string_end_bounds(cs, i + 2, q);
            }
        } else if cs[i] != q {
            lemma_string_end_bounds(cs, i + 1, q);
        }
    }
}

/// A recognized multi-character punctuator is a non-empty prefix of the input.
pub proof fn lemma_multi_punctuator_len(s: Seq<char>)
    ensures
        multi_punctuator(s) matches Some(op) ==> 0 < op.len() <= s.len(),
{
    reveal_strlit("=>");
    reveal_strlit("===");
    reveal_strlit("!==");
    reveal_strlit("==");
    reveal_strlit("!=");
    reveal_strlit("<=");
    reveal_strlit(">=");
    reveal_strlit("&&");
    reveal_strlit("||");
    reveal_strlit("??");
    reveal_strlit("?.");
    reveal_strlit("...");
    reveal_strlit("+=");
    reveal_strlit("-=");
    reveal_strlit("*=");
    reveal_strlit("/=");
}

/// Every lexeme covers at least one character and stays inside the input.
pub proof fn lemma_token_end_progress(cs: Seq<char>, i: int)
    requires
        0 <= i < cs.len(),
    ensures
        i < token_end(cs, i) <= cs.len(),
{
    reveal_strlit("//");
    reveal_strlit("/*");
    match lexeme_at(cs, i) {
        Lexeme::Whitespace => lemma_run_end_bounds(cs, i, CharClass::Whitespace),
        Lexeme::LineComment => lemma_run_end_bounds(cs, i, CharClass::NotNewline),
        Lexeme::BlockComment => {
            assert(rest_of(cs, i).subrange(0, 2) == "/*"@);
            assert(rest_of(cs, i).len() >= 2);
            lemma_block_end_bounds(cs, i + 2);
        },
        Lexeme::StringLit => lemma_string_end_bounds(cs, i + 1, cs[i]),
        Lexeme::Number => {
            lemma_run_end_bounds(cs, i, CharClass::Digit);
            let j = run_end(cs, i, CharClass::Digit);
            if 0 <= j < cs.len() && cs[j] == '.' {
                lemma_run_end_bounds(cs, j + 1, CharClass::Digit);
            }
        },
        Lexeme::Ident => lemma_run_end_bounds(cs, i + 1, CharClass::IdentContinue),
        Lexeme::Punct => lemma_multi_punctuator_len(rest_of(cs, i)),
    }
}

/// The tokens of `cs` from position `i` on, closed by `Eof`.
pub open spec fn lex_from(cs: Seq<char>, i: int) -> Seq<SpecToken>
    decreases cs.len() - i,
{
    if 0 <= i < cs.len() {
        let e = token_end(cs, i);
        proof {
            lemma_token_end_progress(cs, i);
        }
        seq![make_token(lexeme_at(cs, i), cs.subrange(i, e))] + lex_from(cs, e)
    } else {
        seq![SpecToken::Eof]
    }
}

/// The tokens of the source text `cs`.
pub open spec fn lex(cs: Seq<char>) -> Seq<SpecToken> {
    lex_from(cs, 0)
}

proof fn lemma_lex_from_lossless(cs: Seq<char>, i: int)
    requires
        0 <= i <= cs.len(),
    ensures
        render(lex_from(cs, i)) == cs.subrange(i, cs.len() as int),
    decreases cs.len() - i,
{
    if i < cs.len() {
        let e = token_end(cs, i);
        lemma_token_end_progress(cs, i);
        lemma_lex_from_lossless(cs, e);
        let t = make_token(lexeme_at(cs, i), cs.subrange(i, e));
        lemma_render_concat(seq![t], lex_from(cs, e));
        lemma_render_single(t);
        assert(cs.subrange(i, cs.len() as int) =~= cs.subrange(i, e) + cs.subrange(e, cs.len() as int));
    } else {
        lemma_render_single(SpecToken::Eof);
        assert(cs.subrange(i, cs.len() as int) =~= Seq::<char>::empty());
    }
}

/// Lexing loses nothing: the texts of the tokens, one after another,
/// are the source text.
pub proof fn lemma_lex_lossless(cs: Seq<char>)
    ensures
        render(lex(cs)) == cs,
{
    lemma_lex_from_lossless(cs, 0);
    assert(cs.subrange(0, cs.len() as int) =~= cs);
}

proof fn lemma_lex_from_shape(cs: Seq<char>, i: int)
    requires
        0 <= i <= cs.len(),
    ensures
        lex_from(cs, i).len() >= 1,
        lex_from(cs, i).last() == SpecToken::Eof,
        forall|k: int|
            0 <= k < lex_from(cs, i).len() - 1 ==> #[trigger] lex_from(cs, i)[k] != SpecToken::Eof
                && text_of(lex_from(cs, i)[k]).len() > 0,
    decreases cs.len() - i,
{
    if i < cs.len() {
        let e = token_end(cs, i);
        lemma_token_end_progress(cs, i);
        lemma_lex_from_shape(cs, e);
        let t = make_token(lexeme_at(cs, i), cs.subrange(i, e));
        let r = lex_from(cs, e);
        assert(lex_from(cs, i) == seq![t] + r);
        assert forall|k: int| 0 <= k < lex_from(cs, i).len() - 1 implies #[trigger] lex_from(
            cs,
            i,
        )[k] != SpecToken::Eof && text_of(lex_from(cs, i)[k]).len() > 0 by {
            if k > 0 {
                assert(lex_from(cs, i)[k] == r[k - 1]);
            }
        }
    }
}

/// The tokens of any source text close with a single `Eof`; every token
/// before it stands for a non-empty piece of the text.
pub proof fn lemma_lex_shape(cs: Seq<char>)
    ensures
        lex(cs).len() >= 1,
        lex(cs).last() == SpecToken::Eof,
        forall|k: int|
            0 <= k < lex(cs).len() - 1 ==> #[trigger] lex(cs)[k] != SpecToken::Eof && text_of(
                lex(cs)[k],
            ).len() > 0,
{
    lemma_lex_from_shape(cs, 0);
}

/// `d` digits, then either nothing or a `.` and more digits.
pub open spec fn number_text_at(s: Seq<char>, d: int) -> bool {
    1 <= d <= s.len() && (forall|k: int| 0 <= k < d ==> is_digit(#[trigger] s[k])) && (d
        == s.len() || (s[d] == '.' && forall|k: int| d < k < s.len() ==> is_digit(#[trigger] s[k])))
}

/// Digits, then optionally a `.` and more digits.
pub open spec fn number_text(s: Seq<char>) -> bool {
    exists|d: int| #[trigger] number_text_at(s, d)
}

/// What a token says of its own text, where `rest` is the source text
/// from the token's first character on: whitespace and names are maximal
/// runs of their classes, names start with a name's first character,
/// numbers are digits with at most one `.`, and punctuators are the
/// longest multi-character form that `rest` starts with, else one
/// character.
pub open spec fn token_shape(t: SpecToken, rest: Seq<char>) -> bool {
    match t {
        SpecToken::Whitespace(s) => s.len() > 0 && s.len() <= rest.len() && (forall|k: int|
            0 <= k < s.len() ==> char_is_whitespace(#[trigger] s[k])) && (s.len() < rest.len()
            ==> !char_is_whitespace(rest[s.len() as int])),
        SpecToken::Identifier(s) => s.len() > 0 && s.len() <= rest.len() && ident_start(s[0])
            && (forall|k: int| 0 <= k < s.len() ==> ident_continue(#[trigger] s[k])) && (s.len()
            < rest.len() ==> !ident_continue(rest[s.len() as int])),
        SpecToken::Number(s) => number_text(s),
        SpecToken::StringLiteral(s) => string_text(s, rest),
        SpecToken::Punctuator(s) => s == match multi_punctuator(rest) {
            Some(op) => op,
            None => rest.take(1),
        },
        _ => true,
    }
}

/// A quote character.
pub open spec fn is_quote(c: char) -> bool {
    c == '"' || c == '\'' || c == '`'
}

/// A string literal, `rest` being the text from its opening quote on:
/// it opens with a quote, and is closed only by that same quote. Inside
/// it, the opening quote occurs only right after a backslash; where the
/// literal stops before the end of the text, it ends with its opening
/// quote.
pub open spec fn string_text(s: Seq<char>, rest: Seq<char>) -> bool {
    &&& 1 <= s.len() <= rest.len()
    &&& is_quote(s[0])
    &&& forall|k: int| 1 <= k < s.len() - 1 && #[trigger] s[k] == s[0] ==> s[k - 1] == '\\'
    &&& s.len() < rest.len() ==> s.len() >= 2 && s[s.len() - 1] == s[0]
}

/// A string literal whose body starts at `j` ends at the first quote `q`
/// that no backslash escapes (just past it), or at the end of the text;
/// every `q` before that is right after a backslash.
pub proof fn lemma_string_end_law(cs: Seq<char>, j: int, q: char)
    requires
        0 <= j,
        q != '\\',
    ensures
        string_end(cs, j, q) < cs.len() ==> string_end(cs, j, q) >= j + 1 && cs[string_end(cs, j, q)
            - 1] == q,
        forall|m: int|
            j <= m < string_end(cs, j, q) - 1 && #[trigger] cs[m] == q ==> m > j && cs[m - 1]
                == '\\',
    decreases cs.len() - j,
{
    if j < cs.len() {
        if cs[j] == '\\' {
            if j + 1 < cs.len() {
                lemma_string_end_law(cs, j + 2, q);
            }
        } else if cs[j] != q {
            lemma_string_end_law(cs, j + 1, q);
        }
    }
}

/// The multi-character punctuator found is a prefix of the text.
pub proof fn lemma_multi_punctuator_prefix(s: Seq<char>)
    ensures
        multi_punctuator(s) matches Some(op) ==> has_prefix(s, op),
{
}

/// Every character of a run is in its class, and the character after it
/// is not.
pub proof fn lemma_run_end_class(cs: Seq<char>, i: int, k: CharClass)
    requires
        0 <= i <= cs.len(),
    ensures
        forall|m: int| i <= m < run_end(cs, i, k) ==> in_class(#[trigger] cs[m], k),
        run_end(cs, i, k) < cs.len() ==> !in_class(cs[run_end(cs, i, k)], k),
    decreases cs.len() - i,
{
    if i < cs.len() && in_class(cs[i], k) {
        lemma_run_end_class(cs, i + 1, k);
    }
}

/// The lexeme that starts at `i` has the shape of its kind.
pub proof fn lemma_lexeme_shape(cs: Seq<char>, i: int)
    requires
        0 <= i < cs.len(),
    ensures
        token_shape(make_token(lexeme_at(cs, i), cs.subrange(i, token_end(cs, i))), rest_of(cs, i)),
{
    lemma_token_end_progress(cs, i);
    let e = token_end(cs, i);
    let s = cs.subrange(i, e);
    let rest = rest_of(cs, i);
    match lexeme_at(cs, i) {
        Lexeme::Whitespace => {
            lemma_run_end_class(cs, i, CharClass::Whitespace);
            assert forall|k: int| 0 <= k < s.len() implies char_is_whitespace(#[trigger] s[k]) by {
                assert(in_class(cs[i + k], CharClass::Whitespace));
            }
            if s.len() < rest.len() {
                assert(rest[s.len() as int] == cs[e]);
            }
        },
        Lexeme::Ident => {
            lemma_run_end_class(cs, i + 1, CharClass::IdentContinue);
            assert forall|k: int| 0 <= k < s.len() implies ident_continue(#[trigger] s[k]) by {
                lemma_ident_start_continues(s[0]);
                assert(in_class(cs[i + k], CharClass::IdentContinue));
            }
            if s.len() < rest.len() {
                assert(rest[s.len() as int] == cs[e]);
            }
        },
        Lexeme::Number => {
            lemma_run_end_class(cs, i, CharClass::Digit);
            lemma_run_end_bounds(cs, i, CharClass::Digit);
            let j = run_end(cs, i, CharClass::Digit);
            let d = j - i;
            if 0 <= j < cs.len() && cs[j] == '.' {
                lemma_run_end_bounds(cs, j + 1, CharClass::Digit);
            }
            assert(1 <= d <= s.len());
            assert forall|k: int| 0 <= k < d implies is_digit(#[trigger] s[k]) by {
                assert(in_class(cs[i + k], CharClass::Digit));
            }
            if 0 <= j < cs.len() && cs[j] == '.' {
                lemma_run_end_class(cs, j + 1, CharClass::Digit);
                assert forall|k: int| d < k < s.len() implies is_digit(#[trigger] s[k]) by {
                    assert(in_class(cs[i + k], CharClass::Digit));
                }
                assert(s[d] == '.');
            }
            assert(number_text_at(s, d));
            assert(number_text(s));
        },
        Lexeme::Punct => {
            lemma_multi_punctuator_prefix(rest);
            lemma_multi_punctuator_len(rest);
            match multi_punctuator(rest) {
                Some(op) => {
                    assert(s =~= rest.subrange(0, op.len() as int));
                },
                None => {
                    assert(s =~= rest.take(1));
                },
            }
        },
        Lexeme::StringLit => {
            let q = cs[i];
            lemma_string_end_law(cs, i + 1, q);
            lemma_string_end_bounds(cs, i + 1, q);
            assert forall|k: int| 1 <= k < s.len() - 1 && #[trigger] s[k] == s[0] implies s[k - 1]
                == '\\' by {
                assert(s[k] == cs[i + k]);
                assert(s[k - 1] == cs[i + k - 1]);
            }
            if s.len() < rest.len() {
                assert(s[s.len() - 1] == cs[e - 1]);
            }
        },
        _ => {},
    }
}

proof fn lemma_lex_from_structure(cs: Seq<char>, i: int)
    requires
        0 <= i <= cs.len(),
    ensures
        forall|t: int|
            0 <= t < lex_from(cs, i).len() - 1 ==> token_shape(
                #[trigger] lex_from(cs, i)[t],
                render(lex_from(cs, i).skip(t)),
            ),
        forall|t: int|
            0 <= t && t + 1 < lex_from(cs, i).len() && #[trigger] lex_from(cs, i)[t] is Whitespace
                ==> !(lex_from(cs, i)[t + 1] is Whitespace),
    decreases cs.len() - i,
{
    if i < cs.len() {
        let e = token_end(cs, i);
        lemma_token_end_progress(cs, i);
        lemma_lex_from_structure(cs, e);
        lemma_lex_from_lossless(cs, i);
        lemma_lexeme_shape(cs, i);
        let tok = make_token(lexeme_at(cs, i), cs.subrange(i, e));
        let r = lex_from(cs, e);
        let l = lex_from(cs, i);
        assert(l == seq![tok] + r);
        assert(l.skip(0) =~= l);
        assert forall|t: int| 0 <= t < l.len() - 1 implies token_shape(
            #[trigger] l[t],
            render(l.skip(t)),
        ) by {
            if t > 0 {
                assert(l[t] == r[t - 1]);
                assert(l.skip(t) =~= r.skip(t - 1));
            }
        }
        assert forall|t: int| 0 <= t && t + 1 < l.len() && #[trigger] l[t] is Whitespace implies !(
        l[t + 1] is Whitespace) by {
            if t > 0 {
                assert(l[t] == r[t - 1]);
                assert(l[t + 1] == r[t]);
            } else {
                lemma_run_end_class(cs, i, CharClass::Whitespace);
                assert(l[1] == r[0]);
                if e < cs.len() {
                    assert(!char_is_whitespace(cs[e]));
                    assert(r[0] == make_token(lexeme_at(cs, e), cs.subrange(e, token_end(cs, e))));
                } else {
                    assert(r[0] == SpecToken::Eof);
                }
            }
        }
    }
}

/// The structure of the tokens: each token before `Eof` has the shape of
/// its kind in the text from its first character on (see `token_shape`:
/// maximal whitespace and name runs, numbers of digits with at most one
/// `.`, longest-match punctuators), and no two whitespace tokens are
/// neighbours.
pub proof fn lemma_lex_structure(cs: Seq<char>)
    ensures
        forall|t: int|
            0 <= t < lex(cs).len() - 1 ==> token_shape(#[trigger] lex(cs)[t], render(lex(cs).skip(t))),
        forall|t: int|
            0 <= t && t + 1 < lex(cs).len() && #[trigger] lex(cs)[t] is Whitespace ==> !(lex(
                cs,
            )[t + 1] is Whitespace),
{
    lemma_lex_from_structure(cs, 0);
}


// ---------------------------------------------------------------------
// The scanner
// ---------------------------------------------------------------------

/// A cursor over the characters of a source text.
pub struct Tokenizer {
    chars: Vec<char>,
    pos: usize,
}

impl Tokenizer {
    /// The characters being scanned.
    pub closed spec fn input(&self) -> Seq<char> {
        self.chars@
    }

    /// How many characters have been consumed.
    pub closed spec fn position(&self) -> int {
        self.pos as int
    }

    /// The position lies within the input.
    pub closed spec fn wf(&self) -> bool {
        self.pos <= self.chars@.len()
    }

    /// A cursor at the start of `input`.
    pub fn new(input: &str) -> (t: Self)
        ensures
            t.wf(),
            t.input() == input@,
            t.position() == 0,
    {
        let mut chars: Vec<char> = Vec::new();
        for c in it: input.chars()
            invariant
                it.seq() == input@,
                chars@ == input@.take(it.index()),
        {
            chars.push(c);
            proof {
                assert(input@.take(it.index() + 1) =~= input@.take(it.index()).push(c));
            }
        }
        proof {
            assert(chars@ =~= input@);
        }
        Tokenizer { chars, pos: 0 }
    }

    fn advance(&mut self) -> (c: Option<char>)
        requires
            old(self).wf(),
        ensures
            final(self).wf(),
            final(self).input() == old(self).input(),
            old(self).position() < old(self).input().len() ==> c == Some(
                old(self).input()[old(self).position()],
            ) && final(self).position() == old(self).position() + 1,
            old(self).position() >= old(self).input().len() ==> c is None
                && final(self).position() == old(self).position(),
    {
        if self.pos < self.chars.len() {
            let c = self.chars[self.pos];
            self.pos = self.pos + 1;
            Some(c)
        } else {
            None
        }
    }

    fn peek(&self) -> (c: Option<char>)
        requires
            self.wf(),
        ensures
            self.position() < self.input().len() ==> c == Some(self.input()[self.position()]),
            self.position() >= self.input().len() ==> c is None,
    {
        if self.pos < self.chars.len() {
            Some(self.chars[self.pos])
        } else {
            None
        }
    }

    fn remaining(&self) -> (r: &[char])
        requires
            self.wf(),
        ensures
            r@ == rest_of(self.input(), self.position()),
    {
        vstd::slice::slice_subrange(self.chars.as_slice(), self.pos, self.chars.len())
    }

    /// Consumes the longest run of characters that `pred` accepts and
    /// returns it.
    fn run<F: Fn(char) -> bool>(&mut self, pred: F, Ghost(k): Ghost<CharClass>) -> (out: String)
        requires
            old(self).wf(),
            forall|c: char| call_requires(pred, (c,)),
            forall|c: char, b: bool| call_ensures(pred, (c,), b) ==> b == in_class(c, k),
        ensures
            final(self).wf(),
            final(self).input() == old(self).input(),
            final(self).position() == run_end(old(self).input(), old(self).position(), k),
            out@ == old(self).input().subrange(old(self).position(), final(self).position()),
    {
        let ghost cs = self.chars@;
        let ghost start = self.pos as int;
        let mut out = String::new();
        proof {
            lemma_run_end_bounds(cs, start, k);
        }
        loop
            invariant_except_break
                self.wf(),
                self.chars@ == cs,
                0 <= start <= self.pos,
                run_end(cs, self.pos as int, k) == run_end(cs, start, k),
                out@ == cs.subrange(start, self.pos as int),
                forall|c: char| call_requires(pred, (c,)),
                forall|c: char, b: bool| call_ensures(pred, (c,), b) ==> b == in_class(c, k),
            ensures
                self.wf(),
                self.chars@ == cs,
                self.pos == run_end(cs, start, k),
                out@ == cs.subrange(start, self.pos as int),
            decreases cs.len() - self.pos,
        {
            match self.peek() {
                Some(c) => {
                    if pred(c) {
                        push_char(&mut out, c);
                        self.advance();
                        proof {
                            assert(cs.subrange(start, self.pos as int) =~= cs.subrange(
                                start,
                                self.pos - 1,
                            ).push(c));
                        }
                    } else {
                        break;
                    }
                },
                None => {
                    break;
                },
            }
        }
        out
    }
}

/// Whether `rest` starts with `pat`.
fn starts_with(rest: &[char], pat: &str) -> (b: bool)
    ensures
        b == has_prefix(rest@, pat@),
{
    let n = pat.unicode_len();
    if n > rest.len() {
        return false;
    }
    let mut k: usize = 0;
    while k < n
        invariant
            n == pat@.len(),
            n <= rest@.len(),
            k <= n,
            forall|j: int| 0 <= j < k ==> rest@[j] == pat@[j],
        decreases n - k,
    {
        if rest[k] != pat.get_char(k) {
            proof {
                assert(rest@.subrange(0, n as int)[k as int] != pat@[k as int]);
            }
            return false;
        }
        k = k + 1;
    }
    proof {
        assert(rest@.subrange(0, n as int) =~= pat@);
    }
    true
}

/// The multi-character punctuator that `rest` starts with, if any.
fn multi_char_punctuator(rest: &[char]) -> (r: Option<&'static str>)
    ensures
        multi_punctuator(rest@) == (match r {
            Some(op) => Some(op@),
            None => None::<Seq<char>>,
        }),
{
    if starts_with(rest, "=>") {
        Some("=>")
    } else if starts_with(rest, "===") {
        Some("===")
    } else if starts_with(rest, "!==") {
        Some("!==")
    } else if starts_with(rest, "==") {
        Some("==")
    } else if starts_with(rest, "!=") {
        Some("!=")
    } else if starts_with(rest, "<=") {
        Some("<=")
    } else if starts_with(rest, ">=") {
        Some(">=")
    } else if starts_with(rest, "&&") {
        Some("&&")
    } else if starts_with(rest, "||") {
        Some("||")
    } else if starts_with(rest, "??") {
        Some("??")
    } else if starts_with(rest, "?.") {
        Some("?.")
    } else if starts_with(rest, "...") {
        Some("...")
    } else if starts_with(rest, "+=") {
        Some("+=")
    } else if starts_with(rest, "-=") {
        Some("-=")
    } else if starts_with(rest, "*=") {
        Some("*=")
    } else if starts_with(rest, "/=") {
        Some("/=")
    } else {
        None
    }
}


proof fn lemma_emit(prev: Seq<SpecToken>, tok: SpecToken, cs: Seq<char>, start: int)
    requires
        0 <= start < cs.len(),
        tok == make_token(lexeme_at(cs, start), cs.subrange(start, token_end(cs, start))),
    ensures
        prev.push(tok) + lex_from(cs, token_end(cs, start)) == prev + lex_from(cs, start),
{
    lemma_token_end_progress(cs, start);
    assert(prev.push(tok) + lex_from(cs, token_end(cs, start)) =~= prev + lex_from(cs, start));
}

/// Cuts `input` into tokens and hands them to `sink` in order, closing
/// with `Token::Eof`.
pub fn tokenize<S: TokenSink>(input: &str, sink: &mut S)
    ensures
        S::records_tokens() ==> final(sink).received() == old(sink).received() + lex(input@),
{
    let mut tokenizer = Tokenizer::new(input);
    let ghost cs = input@;
    let ghost base = sink.received();
    loop
        invariant_except_break
            tokenizer.wf(),
            tokenizer.input() == cs,
            S::records_tokens() ==> base + lex(cs) == sink.received() + lex_from(
                cs,
                tokenizer.position(),
            ),
        ensures
            S::records_tokens() ==> sink.received() == base + lex(cs),
        decreases cs.len() - tokenizer.position(),
    {
        let c = match tokenizer.peek() {
            None => {
                sink.process_token(Token::Eof);
                proof {
                    if S::records_tokens() {
                        assert(sink.received() =~= base + lex(cs));
                    }
                }
                break;
            },
            Some(c) => c,
        };
        let ghost start = tokenizer.position();
        let ghost prev = sink.received();
        proof {
            lemma_token_end_progress(cs, start);
        }

        if is_whitespace(c) {
            let ws = tokenizer.run(is_whitespace, Ghost(CharClass::Whitespace));
            let tok = Token::Whitespace(ws);
            proof {
                lemma_emit(prev, tok@, cs, start);
            }
            sink.process_token(tok);
            continue;
        }

        // Line comment.
        if c == '/' && starts_with(tokenizer.remaining(), "//") {
            let text = tokenizer.run(is_not_newline, Ghost(CharClass::NotNewline));
            let tok = Token::Comment(text);
            proof {
                lemma_emit(prev, tok@, cs, start);
            }
            sink.process_token(tok);
            continue;
        }

        // Block comment.
        if c == '/' && starts_with(tokenizer.remaining(), "/*") {
            let mut text = String::new();
            text.append("/*");
            tokenizer.advance();
            tokenizer.advance();
            proof {
                reveal_strlit("/*");
                assert(rest_of(cs, start).subrange(0, 2) == "/*"@);
                assert(cs.subrange(start, start + 2) =~= rest_of(cs, start).subrange(0, 2));
                lemma_block_end_bounds(cs, start + 2);
            }
            loop
                invariant_except_break
                    tokenizer.wf(),
                    tokenizer.input() == cs,
                    0 <= start < start + 2 <= tokenizer.position(),
                    lexeme_at(cs, start) == Lexeme::BlockComment,
                    block_end(cs, tokenizer.position()) == block_end(cs, start + 2),
                    text@ == cs.subrange(start, tokenizer.position()),
                ensures
                    tokenizer.wf(),
                    tokenizer.input() == cs,
                    tokenizer.position() == token_end(cs, start),
                    text@ == cs.subrange(start, tokenizer.position()),
                decreases cs.len() - tokenizer.position(),
            {
                let ghost p = tokenizer.position();
                match tokenizer.peek() {
                    None => break,
                    Some(d) => {
                        if d == '*' && starts_with(tokenizer.remaining(), "*/") {
                            text.append("*/");
                            tokenizer.advance();
                            tokenizer.advance();
                            proof {
                                reveal_strlit("*/");
                                assert(rest_of(cs, p).subrange(0, 2) == "*/"@);
                                assert(cs.subrange(start, p + 2) =~= cs.subrange(start, p) + "*/"@);
                            }
                            break;
                        } else {
                            push_char(&mut text, d);
                            tokenizer.advance();
                            proof {
                                reveal_strlit("*/");
                                if has_prefix(rest_of(cs, p), "*/"@) {
                                    assert(rest_of(cs, p).subrange(0, 2)[0] == '*');
                                }
                                assert(cs.subrange(start, p + 1) =~= cs.subrange(start, p).push(d));
                            }
                        }
                    },
                }
            }
            let tok = Token::Comment(text);
            proof {
                lemma_emit(prev, tok@, cs, start);
            }
            sink.process_token(tok);
            continue;
        }

        // String literal, quoted by `"`, `'` or a backtick.
        if c == '"' || c == '\'' || c == '`' {
            let quote = c;
            let mut text = String::new();
            push_char(&mut text, quote);
            tokenizer.advance();
            proof {
                assert(cs.subrange(start, start + 1) =~= seq![quote]);
                lemma_string_end_bounds(cs, start + 1, quote);
            }
            loop
                invariant_except_break
                    tokenizer.wf(),
                    tokenizer.input() == cs,
                    0 <= start < start + 1 <= tokenizer.position(),
                    quote == cs[start],
                    lexeme_at(cs, start) == Lexeme::StringLit,
                    string_end(cs, tokenizer.position(), quote) == string_end(cs, start + 1, quote),
                    text@ == cs.subrange(start, tokenizer.position()),
                ensures
                    tokenizer.wf(),
                    tokenizer.input() == cs,
                    tokenizer.position() == token_end(cs, start),
                    text@ == cs.subrange(start, tokenizer.position()),
                decreases cs.len() - tokenizer.position(),
            {
                let ghost p = tokenizer.position();
                match tokenizer.advance() {
                    None => break,
                    Some(d) => {
                        proof {
                            assert(cs.subrange(start, p + 1) =~= cs.subrange(start, p).push(d));
                        }
                        if d == '\\' {
                            push_char(&mut text, '\\');
                            if let Some(escaped) = tokenizer.advance() {
                                push_char(&mut text, escaped);
                                proof {
                                    assert(cs.subrange(start, p + 2) =~= cs.subrange(start, p + 1).push(
                                        escaped,
                                    ));
                                }
                            }
                        } else if d == quote {
                            push_char(&mut text, d);
                            break;
                        } else {
                            push_char(&mut text, d);
                        }
                    },
                }
            }
            let tok = Token::StringLiteral(text);
            proof {
                lemma_emit(prev, tok@, cs, start);
            }
            sink.process_token(tok);
            continue;
        }

        if is_ascii_digit(c) {
            let mut num = tokenizer.run(is_ascii_digit, Ghost(CharClass::Digit));
            if tokenizer.peek() == Some('.') {
                let ghost p = tokenizer.position();
                push_char(&mut num, '.');
                tokenizer.advance();
                let frac = tokenizer.run(is_ascii_digit, Ghost(CharClass::Digit));
                num.append(frac.as_str());
                proof {
                    lemma_run_end_bounds(cs, start, CharClass::Digit);
                    lemma_run_end_bounds(cs, p + 1, CharClass::Digit);
                    assert(cs.subrange(start, tokenizer.position()) =~= cs.subrange(start, p).push(
                        '.',
                    ) + cs.subrange(p + 1, tokenizer.position()));
                }
            }
            let tok = Token::Number(num);
            proof {
                lemma_emit(prev, tok@, cs, start);
            }
            sink.process_token(tok);
            continue;
        }

        if is_ident_start(c) {
            proof {
                assert(run_end(cs, start, CharClass::IdentContinue) == run_end(
                    cs,
                    start + 1,
                    CharClass::IdentContinue,
                ));
            }
            let ident = tokenizer.run(is_ident_continue, Ghost(CharClass::IdentContinue));
            let tok = Token::Identifier(ident);
            proof {
                lemma_emit(prev, tok@, cs, start);
            }
            sink.process_token(tok);
            continue;
        }

        // Punctuator, the longest match first.
        let remaining = tokenizer.remaining();
        if let Some(op) = multi_char_punctuator(remaining) {
            let n = op.unicode_len();
            proof {
                lemma_multi_punctuator_len(rest_of(cs, start));
            }
            let mut k: usize = 0;
            while k < n
                invariant
                    tokenizer.wf(),
                    tokenizer.input() == cs,
                    k <= n,
                    n == op@.len(),
                    start + n <= cs.len(),
                    tokenizer.position() == start + k,
                decreases n - k,
            {
                tokenizer.advance();
                k = k + 1;
            }
            let tok = Token::Punctuator(op.to_owned());
            proof {
                assert(rest_of(cs, start).subrange(0, n as int) == op@);
                assert(cs.subrange(start, start + n) =~= rest_of(cs, start).subrange(0, n as int));
                lemma_emit(prev, tok@, cs, start);
            }
            sink.process_token(tok);
            continue;
        }
        tokenizer.advance();
        let mut text = String::new();
        push_char(&mut text, c);
        let tok = Token::Punctuator(text);
        proof {
            assert(cs.subrange(start, start + 1) =~= seq![c]);
            lemma_emit(prev, tok@, cs, start);
        }
        sink.process_token(tok);
    }
}

} // verus!
