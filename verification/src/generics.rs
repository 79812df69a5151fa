//! Removes generic type parameter and argument lists `<...>`: after a
//! name in `function name<T>(...)`, `class Name<T> extends Base<T> {`,
//! and at call sites `name<Type>(...)`.
//!
//! As `<` and `>` are comparison operators too, a list is only removed
//! where everything inside looks like types and, besides, either the
//! text before it declares something (`function`, `class`, `extends`,
//! `implements`) and a declaration follows, or a `(` follows. Anything else is left
//! alone: a missed annotation does less harm than a broken expression.
use vstd::prelude::*;

use crate::token::{
    eof_terminated, is_subsequence, lemma_subsequence_extend, lemma_subsequence_extend_take, lemma_subsequence_push,
    lemma_subsequence_refl, views, SpecToken, Token,
};
use crate::transpile::{
    consume_angle_generic, copy_token, ident_is, lemma_matching_close_bounds, lemma_next_sig,
    matching_close, next_sig, next_sig_index, punct_is, text_is,
};

verus! {

/// The text of the last identifier or punctuator among the first `k`
/// tokens of `s`.
pub open spec fn last_word(s: Seq<SpecToken>, k: int) -> Option<Seq<char>>
    decreases k,
{
    if k <= 0 || k > s.len() {
        None
    } else {
        match s[k - 1] {
            SpecToken::Identifier(t) => Some(t),
            SpecToken::Punctuator(t) => Some(t),
            _ => last_word(s, k - 1),
        }
    }
}

fn last_significant_text(out: &[Token]) -> (r: Option<&str>)
    ensures
        (match r {
            Some(t) => Some(t@),
            None => None::<Seq<char>>,
        }) == last_word(views(out@), out@.len() as int),
{
    let ghost s = views(out@);
    let mut k = out.len();
    while k > 0
        invariant
            s == views(out@),
            k <= out@.len(),
            last_word(s, k as int) == last_word(s, out@.len() as int),
        decreases k,
    {
        match &out[k - 1] {
            Token::Identifier(t) => return Some(t.as_str()),
            Token::Punctuator(t) => return Some(t.as_str()),
            _ => {},
        }
        k -= 1;
    }
    None
}

/// A token that may stand inside a generic list.
pub open spec fn type_like(t: SpecToken) -> bool {
    match t {
        SpecToken::Identifier(_) | SpecToken::Whitespace(_) | SpecToken::Comment(_) => true,
        SpecToken::Punctuator(p) => p == ","@ || p == "."@ || p == "["@ || p == "]"@ || p == "<"@
            || p == ">"@ || p == "|"@ || p == "&"@ || p == "="@ || p == "extends"@,
        _ => false,
    }
}

/// Whether everything strictly between `lt` and `gt` looks like types,
/// so that the angle brackets are no comparisons.
fn looks_type_like(tokens: &[Token], lt: usize, gt: usize) -> (b: bool)
    requires
        lt < gt <= tokens@.len(),
    ensures
        b == forall|k: int| lt < k < gt ==> type_like(#[trigger] views(tokens@)[k]),
{
    let ghost ts = views(tokens@);
    let mut k = lt + 1;
    while k < gt
        invariant
            ts == views(tokens@),
            lt < k <= gt <= tokens@.len(),
            forall|j: int| lt < j < k ==> type_like(#[trigger] ts[j]),
        decreases gt - k,
    {
        let ok = match &tokens[k] {
            Token::Identifier(_) | Token::Whitespace(_) | Token::Comment(_) => true,
            Token::Punctuator(p) => text_is(p, ",") || text_is(p, ".") || text_is(p, "[")
                || text_is(p, "]") || text_is(p, "<") || text_is(p, ">") || text_is(p, "|")
                || text_is(p, "&") || text_is(p, "=") || text_is(p, "extends"),
            _ => false,
        };
        if !ok {
            proof {
                assert(!type_like(ts[k as int]));
            }
            return false;
        }
        k += 1;
    }
    true
}

/// Where the generic list after the identifier at `i` ends (just past its
/// `>`), when it is to be removed; `out` holds the tokens kept so far.
pub open spec fn generic_skip(ts: Seq<SpecToken>, i: int, out: Seq<SpecToken>) -> Option<int> {
    match next_sig(ts, i + 1) {
        Some(lt) => if ts[lt] == SpecToken::Punctuator("<"@) {
            match matching_close(ts, lt, 0, "<"@, ">"@) {
                Some(gt) => match next_sig(ts, gt + 1) {
                    Some(after) => {
                        let prev = last_word(out, out.len() as int);
                        let decl_context = prev == Some("function"@) || prev == Some("class"@)
                            || prev == Some("extends"@) || prev == Some("implements"@);
                        let decl_follow_ok = ts[after] == SpecToken::Punctuator("("@) || ts[after]
                            == SpecToken::Punctuator("{"@) || ts[after] == SpecToken::Identifier(
                            "extends"@,
                        ) || ts[after] == SpecToken::Identifier("implements"@);
                        let call_follow = ts[after] == SpecToken::Punctuator("("@);
                        let types_inside = forall|k: int| lt < k < gt ==> type_like(#[trigger] ts[k]);
                        let strip = if decl_context {
                            decl_follow_ok && types_inside
                        } else {
                            call_follow && types_inside
                        };
                        if strip {
                            Some(gt + 1)
                        } else {
                            None
                        }
                    },
                    None => None,
                },
                None => None,
            }
        } else {
            None
        },
        None => None,
    }
}

/// A token that may stand in a list of type arguments: a name, a blank,
/// a comment, or one of `,` `.` `[` `]` `<` `>` `|` `&` `=`.
pub open spec fn type_argument_token(t: SpecToken) -> bool {
    match t {
        SpecToken::Identifier(_) | SpecToken::Whitespace(_) | SpecToken::Comment(_) => true,
        SpecToken::Punctuator(p) => p == ","@ || p == "."@ || p == "["@ || p == "]"@ || p == "<"@
            || p == ">"@ || p == "|"@ || p == "&"@ || p == "="@,
        _ => false,
    }
}

/// Generic arguments of a call go: where the name at `i` is followed by
/// a `<`, its matching `>` by a `(`, and everything between the brackets
/// may stand in a list of types (unions and intersections included), the
/// list is skipped whatever was kept before it.
pub proof fn lemma_call_generics_removed(ts: Seq<SpecToken>, i: int, out: Seq<SpecToken>, lt: int, gt: int, after: int)
    requires
        0 <= i,
        next_sig(ts, i + 1) == Some(lt),
        ts[lt] == SpecToken::Punctuator("<"@),
        matching_close(ts, lt, 0, "<"@, ">"@) == Some(gt),
        next_sig(ts, gt + 1) == Some(after),
        ts[after] == SpecToken::Punctuator("("@),
        forall|k: int| lt < k < gt ==> type_argument_token(#[trigger] ts[k]),
    ensures
        generic_skip(ts, i, out) == Some(gt + 1),
{
    assert forall|k: int| lt < k < gt implies type_like(#[trigger] ts[k]) by {
        assert(type_argument_token(ts[k]));
    }
}

/// A skipped generic list moves forward and stays in bounds.
pub proof fn lemma_generic_skip_bounds(ts: Seq<SpecToken>, i: int, out: Seq<SpecToken>)
    requires
        0 <= i < ts.len(),
    ensures
        generic_skip(ts, i, out) matches Some(e) ==> i < e <= ts.len(),
{
    lemma_next_sig(ts, i + 1);
    if let Some(lt) = next_sig(ts, i + 1) {
        lemma_matching_close_bounds(ts, lt, 0, "<"@, ">"@);
    }
}

/// The tokens that removing generic lists leaves, scanning from `i` with
/// `out` kept so far; it stops after `Eof`.
pub open spec fn generics_from(ts: Seq<SpecToken>, i: int, out: Seq<SpecToken>) -> Seq<SpecToken>
    decreases ts.len() - i,
{
    if i < 0 || i >= ts.len() {
        out
    } else if ts[i] is Eof {
        out.push(ts[i])
    } else if ts[i] is Identifier && generic_skip(ts, i, out) is Some {
        proof {
            lemma_generic_skip_bounds(ts, i, out);
        }
        generics_from(ts, generic_skip(ts, i, out)->0, out.push(ts[i]))
    } else {
        generics_from(ts, i + 1, out.push(ts[i]))
    }
}

/// The tokens with generic parameter and argument lists removed.
pub open spec fn strip_generic_lists(ts: Seq<SpecToken>) -> Seq<SpecToken> {
    generics_from(ts, 0, Seq::empty())
}

/// Returns `tokens` with generic parameter and argument lists removed.
pub(crate) fn strip_generics(tokens: &[Token]) -> (out: Vec<Token>)
    ensures
        views(out@) == strip_generic_lists(views(tokens@)),
{
    let ghost ts = views(tokens@);
    let mut out: Vec<Token> = Vec::with_capacity(tokens.len());
    proof {
        assert(views(out@) =~= Seq::<SpecToken>::empty());
    }
    let mut i: usize = 0;
    while i < tokens.len()
        invariant
            ts == views(tokens@),
            i <= tokens@.len(),
            generics_from(ts, i as int, views(out@)) == strip_generic_lists(ts),
        decreases tokens.len() - i,
    {
        let ghost before = views(out@);
        if matches!(tokens[i], Token::Eof) {
            out.push(copy_token(&tokens[i]));
            proof {
                assert(views(out@) =~= before.push(ts[i as int]));
            }
            return out;
        }
        if matches!(tokens[i], Token::Identifier(_)) {
            proof {
                lemma_next_sig(ts, i + 1);
            }
            if let Some(lt) = next_sig_index(tokens, i + 1) {
                if punct_is(&tokens[lt], "<") {
                    proof {
                        lemma_matching_close_bounds(ts, lt as int, 0, "<"@, ">"@);
                    }
                    if let Some(gt) = consume_angle_generic(tokens, lt) {
                        proof {
                            lemma_next_sig(ts, gt + 1);
                        }
                        if let Some(after) = next_sig_index(tokens, gt + 1) {
                            let prev_kw = last_significant_text(&out);
                            // The type arguments of a base class
                            // (`extends Base<T>`) are removed as in a
                            // declaration.
                            let decl_context = match prev_kw {
                                Some(w) => str_is(w, "function") || str_is(w, "class") || str_is(
                                    w,
                                    "extends",
                                ) || str_is(w, "implements"),
                                None => false,
                            };
                            let decl_follow_ok = punct_is(&tokens[after], "(") || punct_is(
                                &tokens[after],
                                "{",
                            ) || ident_is(&tokens[after], "extends") || ident_is(
                                &tokens[after],
                                "implements",
                            );
                            let call_or_method_follow = punct_is(&tokens[after], "(");
                            let should_strip = if decl_context {
                                decl_follow_ok && looks_type_like(tokens, lt, gt)
                            } else {
                                call_or_method_follow && looks_type_like(tokens, lt, gt)
                            };
                            if should_strip {
                                out.push(copy_token(&tokens[i]));
                                proof {
                                    assert(views(out@) =~= before.push(ts[i as int]));
                                    lemma_generic_skip_bounds(ts, i as int, before);
                                }
                                i = gt + 1;
                                continue;
                            }
                        }
                    }
                }
            }
        }
        out.push(copy_token(&tokens[i]));
        proof {
            assert(views(out@) =~= before.push(ts[i as int]));
        }
        i += 1;
    }
    out
}

/// Whether the text `s` is `lit`.
fn str_is(s: &str, lit: &str) -> (b: bool)
    ensures
        b == (s@ == lit@),
{
    let t = s.to_owned();
    text_is(&t, lit)
}


proof fn lemma_generics_identity(ts: Seq<SpecToken>, i: int)
    requires
        eof_terminated(ts),
        0 <= i < ts.len(),
        forall|k: int| 0 <= k < ts.len() ==> #[trigger] ts[k] != SpecToken::Punctuator("<"@),
    ensures
        generics_from(ts, i, ts.take(i)) == ts,
    decreases ts.len() - i,
{
    if ts[i] is Eof {
        assert(ts.take(i).push(ts[i]) =~= ts);
    } else {
        lemma_next_sig(ts, i + 1);
        assert(generic_skip(ts, i, ts.take(i)) is None);
        assert(ts.take(i).push(ts[i]) =~= ts.take(i + 1));
        lemma_generics_identity(ts, i + 1);
    }
}

/// A token stream with no `<` passes through unchanged.
pub proof fn lemma_strip_generic_lists_identity(ts: Seq<SpecToken>)
    requires
        eof_terminated(ts),
        forall|k: int| 0 <= k < ts.len() ==> #[trigger] ts[k] != SpecToken::Punctuator("<"@),
    ensures
        strip_generic_lists(ts) == ts,
{
    assert(ts.take(0) =~= Seq::<SpecToken>::empty());
    lemma_generics_identity(ts, 0);
}


proof fn lemma_generics_subsequence(ts: Seq<SpecToken>, i: int, out: Seq<SpecToken>)
    requires
        0 <= i <= ts.len(),
        is_subsequence(out, ts.take(i)),
    ensures
        is_subsequence(generics_from(ts, i, out), ts),
    decreases ts.len() - i,
{
    if i == ts.len() {
        assert(ts.take(i) =~= ts);
    } else {
        assert(ts.take(i).push(ts[i]) =~= ts.take(i + 1));
        lemma_subsequence_push(out, ts.take(i), ts[i]);
        if ts[i] is Eof {
            lemma_subsequence_extend(out.push(ts[i]), ts.take(i + 1), ts);
        } else if ts[i] is Identifier && generic_skip(ts, i, out) is Some {
            let e = generic_skip(ts, i, out)->0;
            lemma_generic_skip_bounds(ts, i, out);
            lemma_subsequence_extend_take(out.push(ts[i]), ts, i + 1, e);
            lemma_generics_subsequence(ts, e, out.push(ts[i]));
        } else {
            lemma_generics_subsequence(ts, i + 1, out.push(ts[i]));
        }
    }
}

/// Removing generic lists only ever removes tokens.
pub proof fn lemma_strip_generic_lists_subsequence(ts: Seq<SpecToken>)
    ensures
        is_subsequence(strip_generic_lists(ts), ts),
{
    lemma_subsequence_refl(Seq::empty());
    assert(ts.take(0) =~= Seq::<SpecToken>::empty());
    lemma_generics_subsequence(ts, 0, Seq::empty());
}

} // verus!
