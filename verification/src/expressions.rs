//! Removes expression-level type syntax: the postfix non-null assertion
//! `x!` and the cast `x as T`.
//!
//! A `!` is removed only right after the end of a value, so the prefix
//! logical not stays, and `!=`/`!==` are tokens of their own. The prefix
//! cast `<T>x` is left alone: it cannot be told from a generic call or a
//! JSX tag by a token scan. In the `{ ... }` list of an import,
//! `a as b` renames and stays. A cast's type runs over names and `.`,
//! `[`, `]`, `|`, `&` written without blanks, and over a union's `|`
//! with blanks around it.
use vstd::prelude::*;

use crate::classes::{last_sig_of, last_significant};
use crate::token::{
    is_subsequence, lemma_subsequence_extend_take, lemma_subsequence_push, lemma_subsequence_refl,
    views, SpecToken, Token,
};
use crate::transpile::{
    copy_token, ident_is, lemma_next_sig, next_sig, next_sig_index, punct_is, text_is,
};

verus! {

/// Whether a postfix `!` after `t` is a non-null assertion, `t` ending a
/// value.
pub open spec fn value_end(t: SpecToken) -> bool {
    match t {
        SpecToken::Identifier(s) => !(s == "return"@ || s == "typeof"@ || s == "delete"@ || s
            == "void"@ || s == "in"@ || s == "of"@ || s == "new"@ || s == "instanceof"@ || s
            == "yield"@ || s == "await"@),
        SpecToken::Number(_) | SpecToken::StringLiteral(_) | SpecToken::Raw(_) => true,
        SpecToken::Punctuator(p) => p == ")"@ || p == "]"@,
        _ => false,
    }
}

fn is_value_end(tok: &Token) -> (b: bool)
    ensures
        b == value_end(tok@),
{
    match tok {
        // After these keywords a `!` is a prefix logical not.
        Token::Identifier(s) => !(text_is(s, "return") || text_is(s, "typeof") || text_is(
            s,
            "delete",
        ) || text_is(s, "void") || text_is(s, "in") || text_is(s, "of") || text_is(s, "new")
            || text_is(s, "instanceof") || text_is(s, "yield") || text_is(s, "await")),
        Token::Number(_) | Token::StringLiteral(_) | Token::Raw(_) => true,
        Token::Punctuator(p) => text_is(p, ")") || text_is(p, "]"),
        _ => false,
    }
}

/// A token that continues the type of a cast: a name, or `[`, `]`, `|`,
/// `&` or `.`.
pub open spec fn cast_type_part(t: SpecToken) -> bool {
    match t {
        SpecToken::Punctuator(p) => p == "["@ || p == "]"@ || p == "|"@ || p == "&"@ || p == "."@,
        SpecToken::Identifier(_) => true,
        _ => false,
    }
}

/// The end of the type of a cast, extended from `end` over the type parts
/// that follow with nothing between them, and over a union's `|` with
/// blanks before it together with the name after it.
pub open spec fn cast_end(ts: Seq<SpecToken>, end: int) -> int
    decreases ts.len() - end,
{
    if end < 0 {
        end
    } else {
        match next_sig(ts, end) {
            Some(sig) => {
                proof {
                    lemma_next_sig(ts, end);
                    lemma_next_sig(ts, sig + 1);
                }
                if sig == end && cast_type_part(ts[sig]) {
                    cast_end(ts, sig + 1)
                } else if ts[sig] == SpecToken::Punctuator("|"@) {
                    match next_sig(ts, sig + 1) {
                        Some(n) => if ts[n] is Identifier {
                            cast_end(ts, n + 1)
                        } else {
                            end
                        },
                        None => end,
                    }
                } else {
                    end
                }
            },
            None => end,
        }
    }
}

/// What the pass knows of the import syntax around it.
pub struct ExprState {
    /// Inside the `{ ... }` specifier list of an import, where
    /// `a as b` renames.
    pub in_specifiers: bool,
    /// After `import`, before its clause's `{`, `from`, `;`, `(` or `.`.
    pub import_clause: bool,
}

pub open spec fn initial_expr_state() -> ExprState {
    ExprState { in_specifiers: false, import_clause: false }
}

/// The state after keeping `t`.
pub open spec fn next_expr_state(st: ExprState, t: SpecToken) -> ExprState {
    match t {
        SpecToken::Identifier(s) => if s == "import"@ {
            ExprState { import_clause: true, ..st }
        } else if s == "from"@ {
            ExprState { import_clause: false, ..st }
        } else {
            st
        },
        SpecToken::Punctuator(p) => if p == "{"@ {
            ExprState { in_specifiers: st.in_specifiers || st.import_clause, import_clause: false }
        } else if p == "}"@ {
            ExprState { in_specifiers: false, ..st }
        } else if p == ";"@ || p == "("@ || p == "."@ {
            ExprState { import_clause: false, ..st }
        } else {
            st
        },
        _ => st,
    }
}

/// Where this pass jumps on meeting the token at `i`, with `out` kept so
/// far in state `st`: past a non-null `!`, or past a cast `as T` outside
/// a specifier list; `None` keeps it.
pub open spec fn expr_skip(ts: Seq<SpecToken>, i: int, out: Seq<SpecToken>, st: ExprState) -> Option<int> {
    let prev_is_value_end = match last_sig_of(out) {
        Some(p) => value_end(p),
        None => false,
    };
    if ts[i] == SpecToken::Punctuator("!"@) && prev_is_value_end {
        Some(i + 1)
    } else if ts[i] == SpecToken::Identifier("as"@) && prev_is_value_end && !st.in_specifiers {
        match next_sig(ts, i + 1) {
            Some(ns) => if ts[ns] is Identifier {
                Some(cast_end(ts, ns + 1))
            } else {
                None
            },
            None => None,
        }
    } else {
        None
    }
}

/// The end of a cast target lies between its start and the end of the stream.
pub proof fn lemma_cast_end_bounds(ts: Seq<SpecToken>, end: int)
    requires
        0 <= end <= ts.len(),
    ensures
        end <= cast_end(ts, end) <= ts.len(),
    decreases ts.len() - end,
{
    lemma_next_sig(ts, end);
    if let Some(sig) = next_sig(ts, end) {
        lemma_next_sig(ts, sig + 1);
        if sig == end && cast_type_part(ts[sig]) {
            lemma_cast_end_bounds(ts, sig + 1);
        } else if ts[sig] == SpecToken::Punctuator("|"@) {
            if let Some(n) = next_sig(ts, sig + 1) {
                if ts[n] is Identifier {
                    lemma_cast_end_bounds(ts, n + 1);
                }
            }
        }
    }
}

/// The state of the pass after keeping the tokens `toks`, from the start.
pub open spec fn expr_state_after(toks: Seq<SpecToken>) -> ExprState
    decreases toks.len(),
{
    if toks.len() == 0 {
        initial_expr_state()
    } else {
        next_expr_state(expr_state_after(toks.drop_last()), toks.last())
    }
}

/// The last `{` or `}` among `toks`.
pub open spec fn last_brace(toks: Seq<SpecToken>) -> Option<SpecToken>
    decreases toks.len(),
{
    if toks.len() == 0 {
        None
    } else if toks.last() == SpecToken::Punctuator("{"@) || toks.last() == SpecToken::Punctuator(
        "}"@,
    ) {
        Some(toks.last())
    } else {
        last_brace(toks.drop_last())
    }
}

/// The pass meets each token in the state that the tokens kept before it
/// give: it starts from `expr_state_after` of nothing, and keeping `t`
/// after `out` moves it to `expr_state_after(out.push(t))`.
pub proof fn lemma_expr_state_threads(out: Seq<SpecToken>, t: SpecToken)
    ensures
        expr_state_after(Seq::empty()) == initial_expr_state(),
        next_expr_state(expr_state_after(out), t) == expr_state_after(out.push(t)),
{
    assert(out.push(t).drop_last() =~= out);
}

/// A specifier list is closed by its `}`: the pass is inside one only
/// while the last brace kept is an opening `{`.
pub proof fn lemma_specifier_list_closed(toks: Seq<SpecToken>)
    ensures
        expr_state_after(toks).in_specifiers ==> last_brace(toks) == Some(SpecToken::Punctuator("{"@)),
    decreases toks.len(),
{
    if toks.len() > 0 {
        reveal_strlit("{");
        reveal_strlit("}");
        assert("{"@ != "}"@) by {
            assert("{"@[0] != "}"@[0]);
        }
        lemma_specifier_list_closed(toks.drop_last());
    }
}

/// Casts go outside specifier lists: where `as` follows the end of a
/// value and a name follows it, and the last brace kept before it is no
/// opening `{`, the pass skips the `as` and at least the name after it.
pub proof fn lemma_cast_removed_outside_specifiers(ts: Seq<SpecToken>, i: int, out: Seq<SpecToken>, n: int)
    requires
        0 <= i < ts.len(),
        ts[i] == SpecToken::Identifier("as"@),
        last_sig_of(out) matches Some(p) && value_end(p),
        next_sig(ts, i + 1) == Some(n),
        ts[n] is Identifier,
        last_brace(out) != Some(SpecToken::Punctuator("{"@)),
    ensures
        expr_skip(ts, i, out, expr_state_after(out)) matches Some(j) && j > n,
{
    lemma_specifier_list_closed(out);
    lemma_next_sig(ts, i + 1);
    lemma_cast_end_bounds(ts, n + 1);
}

/// A skipped piece of expression type syntax moves forward and stays in bounds.
pub proof fn lemma_expr_skip_bounds(ts: Seq<SpecToken>, i: int, out: Seq<SpecToken>, st: ExprState)
    requires
        0 <= i < ts.len(),
    ensures
        expr_skip(ts, i, out, st) matches Some(e) ==> i < e <= ts.len(),
{
    lemma_next_sig(ts, i + 1);
    if let Some(ns) = next_sig(ts, i + 1) {
        lemma_cast_end_bounds(ts, ns + 1);
    }
}

/// The tokens that this pass leaves, scanning from `i` with `out` kept
/// so far in state `st`.
pub open spec fn exprs_from(ts: Seq<SpecToken>, i: int, out: Seq<SpecToken>, st: ExprState) -> Seq<
    SpecToken,
>
    decreases ts.len() - i,
{
    if i < 0 || i >= ts.len() {
        out
    } else {
        match expr_skip(ts, i, out, st) {
            Some(e) => {
                proof {
                    lemma_expr_skip_bounds(ts, i, out, st);
                }
                exprs_from(ts, e, out, st)
            },
            None => exprs_from(ts, i + 1, out.push(ts[i]), next_expr_state(st, ts[i])),
        }
    }
}

/// The tokens with non-null assertions and `as` casts removed.
pub open spec fn strip_expression_types(ts: Seq<SpecToken>) -> Seq<SpecToken> {
    exprs_from(ts, 0, Seq::empty(), initial_expr_state())
}

/// The end of the type of a cast whose type name ends at `start`.
fn find_cast_end(tokens: &[Token], start: usize) -> (r: usize)
    requires
        start <= tokens@.len(),
    ensures
        r == cast_end(views(tokens@), start as int),
{
    let ghost ts = views(tokens@);
    let mut end = start;
    loop
        invariant
            ts == views(tokens@),
            start <= end <= tokens@.len(),
            cast_end(ts, end as int) == cast_end(ts, start as int),
        ensures
            end == cast_end(ts, start as int),
        decreases tokens@.len() - end,
    {
        proof {
            lemma_next_sig(ts, end as int);
        }
        let sig = match next_sig_index(tokens, end) {
            Some(sig) => sig,
            None => break,
        };
        proof {
            lemma_next_sig(ts, sig + 1);
        }
        let is_type_part = match &tokens[sig] {
            Token::Punctuator(p) => text_is(p, "[") || text_is(p, "]") || text_is(p, ".")
                || text_is(p, "|") || text_is(p, "&"),
            Token::Identifier(_) => true,
            _ => false,
        };
        if is_type_part && sig == end {
            end = sig + 1;
        } else if punct_is(&tokens[sig], "|") {
            // A union goes on over a `|` with blanks before it, when a
            // name follows.
            match next_sig_index(tokens, sig + 1) {
                Some(n) => {
                    if matches!(tokens[n], Token::Identifier(_)) {
                        end = n + 1;
                    } else {
                        break;
                    }
                },
                None => break,
            }
        } else {
            break;
        }
    }
    end
}

/// Returns `tokens` with non-null assertions and `as` casts removed.
pub fn strip_expression_type_syntax(tokens: &[Token]) -> (out: Vec<Token>)
    ensures
        views(out@) == strip_expression_types(views(tokens@)),
{
    let ghost ts = views(tokens@);
    let mut out: Vec<Token> = Vec::with_capacity(tokens.len());
    proof {
        assert(views(out@) =~= Seq::<SpecToken>::empty());
    }
    let mut in_specifiers = false;
    let mut import_clause = false;
    let mut i: usize = 0;
    while i < tokens.len()
        invariant
            ts == views(tokens@),
            i <= tokens@.len(),
            exprs_from(ts, i as int, views(out@), ExprState { in_specifiers, import_clause })
                == strip_expression_types(ts),
        decreases tokens.len() - i,
    {
        let tok = &tokens[i];
        let ghost st = ExprState { in_specifiers, import_clause };
        proof {
            lemma_expr_skip_bounds(ts, i as int, views(out@), st);
        }
        // A postfix `!` after the end of a value: a non-null assertion.
        if punct_is(tok, "!") {
            if let Some(prev) = last_significant(&out) {
                if is_value_end(prev) {
                    i += 1;
                    continue;
                }
            }
        }

        // `as` after the end of a value is a cast (`as` is no reserved
        // word: `const as = 1;` keeps it), except in the specifier list
        // of an import, where it renames. The cast runs over
        // the type name and the parts of an array, qualified, union or
        // intersection type after it.
        if ident_is(tok, "as") && !in_specifiers {
            let prev_is_value_end = match last_significant(&out) {
                Some(prev) => is_value_end(prev),
                None => false,
            };
            if prev_is_value_end {
                proof {
                    lemma_next_sig(ts, i + 1);
                }
                if let Some(next_sig) = next_sig_index(tokens, i + 1) {
                    if matches!(tokens[next_sig], Token::Identifier(_)) {
                        i = find_cast_end(tokens, next_sig + 1);
                        continue;
                    }
                }
            }
        }
        let ghost before = views(out@);
        if let Token::Identifier(name) = tok {
            if text_is(name, "import") {
                import_clause = true;
            } else if text_is(name, "from") {
                import_clause = false;
            }
        } else if let Token::Punctuator(p) = tok {
            if text_is(p, "{") {
                in_specifiers = in_specifiers || import_clause;
                import_clause = false;
            } else if text_is(p, "}") {
                in_specifiers = false;
            } else if text_is(p, ";") || text_is(p, "(") || text_is(p, ".") {
                import_clause = false;
            }
        }
        proof {
            assert(ExprState { in_specifiers, import_clause } == next_expr_state(st, ts[i as int]));
        }
        out.push(copy_token(tok));
        proof {
            assert(views(out@) =~= before.push(ts[i as int]));
        }
        i += 1;
    }
    out
}


proof fn lemma_exprs_identity(ts: Seq<SpecToken>, i: int, st: ExprState)
    requires
        0 <= i <= ts.len(),
        forall|k: int|
            0 <= k < ts.len() ==> #[trigger] ts[k] != SpecToken::Punctuator("!"@) && ts[k]
                != SpecToken::Identifier("as"@),
    ensures
        exprs_from(ts, i, ts.take(i), st) == ts,
    decreases ts.len() - i,
{
    if i == ts.len() {
        assert(ts.take(i) =~= ts);
    } else {
        assert(ts.take(i).push(ts[i]) =~= ts.take(i + 1));
        lemma_exprs_identity(ts, i + 1, next_expr_state(st, ts[i]));
    }
}

/// A token stream with no `!` and no `as` passes through unchanged.
pub proof fn lemma_strip_expression_types_identity(ts: Seq<SpecToken>)
    requires
        forall|k: int|
            0 <= k < ts.len() ==> #[trigger] ts[k] != SpecToken::Punctuator("!"@) && ts[k]
                != SpecToken::Identifier("as"@),
    ensures
        strip_expression_types(ts) == ts,
{
    assert(ts.take(0) =~= Seq::<SpecToken>::empty());
    lemma_exprs_identity(ts, 0, initial_expr_state());
}


proof fn lemma_exprs_subsequence(ts: Seq<SpecToken>, i: int, out: Seq<SpecToken>, st: ExprState)
    requires
        0 <= i <= ts.len(),
        is_subsequence(out, ts.take(i)),
    ensures
        is_subsequence(exprs_from(ts, i, out, st), ts),
    decreases ts.len() - i,
{
    if i == ts.len() {
        assert(ts.take(i) =~= ts);
    } else {
        assert(ts.take(i).push(ts[i]) =~= ts.take(i + 1));
        match expr_skip(ts, i, out, st) {
            Some(e) => {
                lemma_expr_skip_bounds(ts, i, out, st);
                lemma_subsequence_extend_take(out, ts, i, e);
                lemma_exprs_subsequence(ts, e, out, st);
            },
            None => {
                lemma_subsequence_push(out, ts.take(i), ts[i]);
                lemma_exprs_subsequence(ts, i + 1, out.push(ts[i]), next_expr_state(st, ts[i]));
            },
        }
    }
}

/// Removing expression type syntax only ever removes tokens.
pub proof fn lemma_strip_expression_types_subsequence(ts: Seq<SpecToken>)
    ensures
        is_subsequence(strip_expression_types(ts), ts),
{
    lemma_subsequence_refl(Seq::empty());
    assert(ts.take(0) =~= Seq::<SpecToken>::empty());
    lemma_exprs_subsequence(ts, 0, Seq::empty(), initial_expr_state());
}

} // verus!
