//! Removes `interface` declarations and `type` alias declarations whole:
//! both are type-level syntax with no runtime form.
//!
//! Recognised forms, by a token scan rather than a parser:
//! `interface Name { ... }`, `interface Name<T> extends Base<T> { ... }`,
//! `type Name = ...;` and `type Name<T> = ...;`, each with a leading
//! `export` removed too. Where the expected shape is not found the
//! keyword is left as an ordinary identifier.
use vstd::prelude::*;

use crate::token::{
    eof_terminated, is_subsequence, lemma_subsequence_extend, lemma_subsequence_extend_take, lemma_subsequence_push,
    lemma_subsequence_take, views, SpecToken, Token,
};
use crate::transpile::{
    consume_angle_generic, consume_matching_bracket, copy_token, ident_is, is_sig,
    is_significant, lemma_matching_close_bounds, lemma_next_sig, matching_close, next_sig,
    next_sig_index, opt_int, punct_is, text_is,
};

verus! {

/// The start of the run of insignificant tokens that ends `s` at `k`.
pub open spec fn trail_start(s: Seq<SpecToken>, k: int) -> int
    decreases k,
{
    if 0 < k <= s.len() && !is_sig(s[k - 1]) {
        trail_start(s, k - 1)
    } else {
        k
    }
}

/// The start of the trailing whitespace lies in `0..=k`.
pub proof fn lemma_trail_start_bounds(s: Seq<SpecToken>, k: int)
    requires
        0 <= k <= s.len(),
    ensures
        0 <= trail_start(s, k) <= k,
    decreases k,
{
    if 0 < k && !is_sig(s[k - 1]) {
        lemma_trail_start_bounds(s, k - 1);
    }
}

/// `s` without its last significant token and what follows it, when that
/// token is the identifier `kw`; else `s`.
pub open spec fn drop_trailing(s: Seq<SpecToken>, kw: Seq<char>) -> Seq<SpecToken> {
    let idx = trail_start(s, s.len() as int);
    if idx > 0 && s[idx - 1] == SpecToken::Identifier(kw) {
        s.take(idx - 1)
    } else {
        s
    }
}

/// Removes a trailing identifier `kw`, and the blanks after it, from the
/// end of `out`; `out` stays as it is where its last significant token
/// is anything else.
pub(crate) fn drop_trailing_identifier(out: &mut Vec<Token>, kw: &str)
    ensures
        views(final(out)@) == drop_trailing(views(old(out)@), kw@),
{
    let ghost s = views(out@);
    let mut idx = out.len();
    while idx > 0 && !is_significant(&out[idx - 1])
        invariant
            s == views(out@),
            idx <= out@.len(),
            trail_start(s, idx as int) == trail_start(s, s.len() as int),
        decreases idx,
    {
        idx -= 1;
    }
    if idx > 0 && ident_is(&out[idx - 1], kw) {
        out.truncate(idx - 1);
        proof {
            assert(views(out@) =~= s.take(idx - 1));
        }
    }
}

/// Removes a trailing `export` (and the whitespace after it) from `out`,
/// so that none is left behind by a removed declaration.
fn drop_trailing_export(out: &mut Vec<Token>)
    ensures
        views(final(out)@) == drop_trailing(views(old(out)@), "export"@),
{
    drop_trailing_identifier(out, "export");
}

fn consume_brace_body(tokens: &[Token], open: usize) -> (r: Option<usize>)
    ensures
        opt_int(r) == matching_close(views(tokens@), open as int, 0, "{"@, "}"@),
{
    consume_matching_bracket(tokens, open, "{", "}")
}

/// The end of an interface header and body, scanning from `i`: generic
/// lists, `extends`/`implements` clauses, names, `,` and `.` are passed
/// over up to the body `{ ... }`, whose end it returns.
pub open spec fn interface_rest(ts: Seq<SpecToken>, i: int) -> Option<int>
    decreases ts.len() - i,
{
    if i < 0 {
        None
    } else {
        match next_sig(ts, i) {
            None => None,
            Some(sig) => {
                proof {
                    lemma_next_sig(ts, i);
                }
                if ts[sig] == SpecToken::Punctuator("<"@) {
                    match matching_close(ts, sig, 0, "<"@, ">"@) {
                        None => None,
                        Some(gt) => {
                            proof {
                                lemma_matching_close_bounds(ts, sig, 0, "<"@, ">"@);
                            }
                            interface_rest(ts, gt + 1)
                        },
                    }
                } else if ts[sig] == SpecToken::Punctuator("{"@) {
                    match matching_close(ts, sig, 0, "{"@, "}"@) {
                        None => None,
                        Some(close) => Some(close + 1),
                    }
                } else if ts[sig] is Identifier || ts[sig] is Punctuator {
                    interface_rest(ts, sig + 1)
                } else {
                    None
                }
            },
        }
    }
}

/// The end of an interface declaration lies past its start, inside the stream.
pub proof fn lemma_interface_rest_bounds(ts: Seq<SpecToken>, i: int)
    requires
        0 <= i,
    ensures
        interface_rest(ts, i) matches Some(e) ==> i < e <= ts.len(),
    decreases ts.len() - i,
{
    lemma_next_sig(ts, i);
    if let Some(sig) = next_sig(ts, i) {
        lemma_matching_close_bounds(ts, sig, 0, "<"@, ">"@);
        lemma_matching_close_bounds(ts, sig, 0, "{"@, "}"@);
        if ts[sig] == SpecToken::Punctuator("<"@) {
            if let Some(gt) = matching_close(ts, sig, 0, "<"@, ">"@) {
                lemma_interface_rest_bounds(ts, gt + 1);
            }
        } else if ts[sig] != SpecToken::Punctuator("{"@) && (ts[sig] is Identifier
            || ts[sig] is Punctuator) {
            lemma_interface_rest_bounds(ts, sig + 1);
        }
    }
}

/// Where an `interface` declaration starting at `start` ends, if it can
/// be told for certain.
pub open spec fn interface_end(ts: Seq<SpecToken>, start: int) -> Option<int> {
    match next_sig(ts, start + 1) {
        Some(name_idx) => if ts[name_idx] is Identifier {
            interface_rest(ts, name_idx + 1)
        } else {
            None
        },
        None => None,
    }
}

/// Returns the index just past an interface declaration that starts at
/// `start`, when its whole extent can be told.
fn try_consume_interface(tokens: &[Token], start: usize) -> (r: Option<usize>)
    requires
        start < tokens.len(),
    ensures
        opt_int(r) == interface_end(views(tokens@), start as int),
{
    let ghost ts = views(tokens@);
    proof {
        lemma_next_sig(ts, start + 1);
    }
    let name_idx = next_sig_index(tokens, start + 1)?;
    if !matches!(tokens[name_idx], Token::Identifier(_)) {
        return None;
    }
    let mut i = name_idx + 1;
    loop
        invariant
            ts == views(tokens@),
            i <= tokens@.len(),
            interface_rest(ts, i as int) == interface_end(ts, start as int),
        decreases tokens@.len() - i,
    {
        proof {
            lemma_next_sig(ts, i as int);
        }
        let sig = next_sig_index(tokens, i)?;
        if punct_is(&tokens[sig], "<") {
            proof {
                lemma_matching_close_bounds(ts, sig as int, 0, "<"@, ">"@);
            }
            let gt = consume_angle_generic(tokens, sig)?;
            i = gt + 1;
        } else if punct_is(&tokens[sig], "{") {
            proof {
                lemma_matching_close_bounds(ts, sig as int, 0, "{"@, "}"@);
            }
            let close = consume_brace_body(tokens, sig)?;
            return Some(close + 1);
        } else if matches!(tokens[sig], Token::Identifier(_) | Token::Punctuator(_)) {
            // A name of an `extends`/`implements` clause, `,` or `.`.
            i = sig + 1;
        } else {
            return None;
        }
    }
}

/// The end of the body of a type alias lies between `j` and the end of
/// the stream.
pub proof fn lemma_alias_body_end_bounds(ts: Seq<SpecToken>, j: int, depth: int)
    requires
        0 <= j <= ts.len(),
    ensures
        j <= alias_body_end(ts, j, depth) <= ts.len(),
    decreases ts.len() - j,
{
    if j < ts.len() {
        lemma_alias_body_end_bounds(ts, j + 1, depth + 1);
        lemma_alias_body_end_bounds(ts, j + 1, depth - 1);
        lemma_alias_body_end_bounds(ts, j + 1, depth);
    }
}

/// The end of the body of a type alias, scanning from `j` at bracket
/// depth `depth`: just past the first `;` at depth zero or less, or the
/// index of `Eof` or the end.
pub open spec fn alias_body_end(ts: Seq<SpecToken>, j: int, depth: int) -> int
    decreases ts.len() - j,
{
    if j < 0 || j >= ts.len() {
        j
    } else {
        match ts[j] {
            SpecToken::Eof => j,
            SpecToken::Punctuator(p) => if p == "("@ || p == "["@ || p == "{"@ || p == "<"@ {
                alias_body_end(ts, j + 1, depth + 1)
            } else if p == ")"@ || p == "]"@ || p == "}"@ || p == ">"@ {
                alias_body_end(ts, j + 1, depth - 1)
            } else if p == ";"@ && depth <= 0 {
                j + 1
            } else {
                alias_body_end(ts, j + 1, depth)
            },
            _ => alias_body_end(ts, j + 1, depth),
        }
    }
}

/// How a token changes the bracket depth of a type alias body, where `<`
/// and `>` nest too.
pub open spec fn alias_delta(t: SpecToken) -> int {
    match t {
        SpecToken::Punctuator(p) => if p == "("@ || p == "["@ || p == "{"@ || p == "<"@ {
            1
        } else if p == ")"@ || p == "]"@ || p == "}"@ || p == ">"@ {
            -1
        } else {
            0
        },
        _ => 0,
    }
}

/// The bracket depth of the tokens `e..k` of an alias body.
pub open spec fn alias_depth(ts: Seq<SpecToken>, e: int, k: int) -> int
    decreases k - e,
{
    if k <= e {
        0
    } else {
        alias_depth(ts, e, k - 1) + alias_delta(ts[k - 1])
    }
}

/// Whether the token at `k` ends an alias body that starts at `e`:
/// `Eof`, or a `;` at depth zero or less.
pub open spec fn alias_stop(ts: Seq<SpecToken>, e: int, k: int) -> bool {
    ts[k] is Eof || (ts[k] == SpecToken::Punctuator(";"@) && alias_depth(ts, e, k) <= 0)
}

/// `k` is the first stop of the alias body from `e` on (or the end), and
/// `r` is where the body ends by it: past a `;`, at `Eof`, or at the end.
pub open spec fn alias_end_by(ts: Seq<SpecToken>, e: int, k: int, r: int) -> bool {
    &&& e <= k <= ts.len()
    &&& forall|m: int| e <= m < k ==> !#[trigger] alias_stop(ts, e, m)
    &&& if k == ts.len() {
        r == k
    } else if ts[k] is Eof {
        r == k
    } else {
        alias_stop(ts, e, k) && r == k + 1
    }
}

proof fn lemma_alias_body_end_from(ts: Seq<SpecToken>, e: int, j: int) -> (k: int)
    requires
        0 <= e <= j <= ts.len(),
        forall|m: int| e <= m < j ==> !#[trigger] alias_stop(ts, e, m),
    ensures
        alias_end_by(ts, e, k, alias_body_end(ts, j, alias_depth(ts, e, j))),
    decreases ts.len() - j,
{
    if j == ts.len() {
        j
    } else {
        assert(alias_depth(ts, e, j + 1) == alias_depth(ts, e, j) + alias_delta(ts[j]));
        if alias_stop(ts, e, j) {
            reveal_strlit(";");
            reveal_strlit("(");
            reveal_strlit("[");
            reveal_strlit("{");
            reveal_strlit("<");
            reveal_strlit(")");
            reveal_strlit("]");
            reveal_strlit("}");
            reveal_strlit(">");
            let d = alias_depth(ts, e, j);
            if ts[j] is Eof {
                assert(alias_body_end(ts, j, d) == j);
            } else {
                assert(ts[j] == SpecToken::Punctuator(";"@));
                assert(d <= 0);
                assert(";"@[0] == ';');
                assert(";"@ != "("@ && ";"@ != "["@ && ";"@ != "{"@ && ";"@ != "<"@) by {
                    assert("("@[0] == '(' && "["@[0] == '[' && "{"@[0] == '{' && "<"@[0] == '<');
                }
                assert(";"@ != ")"@ && ";"@ != "]"@ && ";"@ != "}"@ && ";"@ != ">"@) by {
                    assert(")"@[0] == ')' && "]"@[0] == ']' && "}"@[0] == '}' && ">"@[0] == '>');
                }
                assert(alias_body_end(ts, j, d) == j + 1);
            }
            j
        } else {
            assert forall|m: int| e <= m < j + 1 implies !#[trigger] alias_stop(ts, e, m) by {}
            assert(alias_body_end(ts, j, alias_depth(ts, e, j)) == alias_body_end(ts, j + 1, alias_depth(ts, e, j + 1)));
            lemma_alias_body_end_from(ts, e, j + 1)
        }
    }
}

/// The end of a type alias body: scanning from `e` at depth zero, the
/// body ends just past the first `;` at bracket depth zero or less
/// (`(`, `[`, `{`, `<` opening and `)`, `]`, `}`, `>` closing), or at
/// the first `Eof` if that comes first, or at the end of the stream;
/// `k` is the index of that `;` or `Eof`.
pub proof fn lemma_alias_body_end_law(ts: Seq<SpecToken>, e: int) -> (k: int)
    requires
        0 <= e <= ts.len(),
    ensures
        alias_end_by(ts, e, k, alias_body_end(ts, e, 0)),
{
    assert(alias_depth(ts, e, e) == 0);
    lemma_alias_body_end_from(ts, e, e)
}

/// The index after an optional generic list that may follow the alias
/// name, scanning from `i`.
pub open spec fn after_alias_generics(ts: Seq<SpecToken>, i: int) -> Option<int> {
    match next_sig(ts, i) {
        Some(sig) => if ts[sig] == SpecToken::Punctuator("<"@) {
            match matching_close(ts, sig, 0, "<"@, ">"@) {
                Some(gt) => Some(gt + 1),
                None => None,
            }
        } else {
            Some(i)
        },
        None => Some(i),
    }
}

/// Where a `type` alias declaration starting at `start` ends, if it can
/// be told for certain.
pub open spec fn type_alias_end(ts: Seq<SpecToken>, start: int) -> Option<int> {
    match next_sig(ts, start + 1) {
        Some(name_idx) => if ts[name_idx] is Identifier {
            match after_alias_generics(ts, name_idx + 1) {
                Some(i) => match next_sig(ts, i) {
                    Some(eq_idx) => if ts[eq_idx] == SpecToken::Punctuator("="@) {
                        Some(alias_body_end(ts, eq_idx + 1, 0))
                    } else {
                        None
                    },
                    None => None,
                },
                None => None,
            }
        } else {
            None
        },
        None => None,
    }
}

/// Returns the index just past a `type Name = ...;` declaration that
/// starts at `start` (brackets of all four kinds nest), when it has that
/// shape.
pub fn try_consume_type_alias(tokens: &[Token], start: usize) -> (r: Option<usize>)
    requires
        start < usize::MAX,
    ensures
        opt_int(r) == type_alias_end(views(tokens@), start as int),
{
    let ghost ts = views(tokens@);
    proof {
        lemma_next_sig(ts, start + 1);
    }
    let name_idx = next_sig_index(tokens, start + 1)?;
    if !matches!(tokens[name_idx], Token::Identifier(_)) {
        return None;
    }
    let mut i = name_idx + 1;
    // An optional generic list `<T>`.
    proof {
        lemma_next_sig(ts, i as int);
    }
    if let Some(sig) = next_sig_index(tokens, i) {
        if punct_is(&tokens[sig], "<") {
            proof {
                lemma_matching_close_bounds(ts, sig as int, 0, "<"@, ">"@);
            }
            i = consume_angle_generic(tokens, sig)? + 1;
        }
    }
    proof {
        lemma_next_sig(ts, i as int);
    }
    let eq_idx = next_sig_index(tokens, i)?;
    if !punct_is(&tokens[eq_idx], "=") {
        return None;
    }
    // The bracket depth is `opens - closes`.
    let mut opens: usize = 0;
    let mut closes: usize = 0;
    let mut j = eq_idx + 1;
    while j < tokens.len()
        invariant
            ts == views(tokens@),
            eq_idx < j,
            opens + closes <= j - eq_idx,
            alias_body_end(ts, j as int, opens - closes) == alias_body_end(
                ts,
                eq_idx + 1,
                0,
            ),
            type_alias_end(ts, start as int) == Some(alias_body_end(ts, eq_idx + 1, 0)),
        decreases tokens.len() - j,
    {
        match &tokens[j] {
            Token::Eof => return Some(j),
            Token::Punctuator(p) => {
                if text_is(p, "(") || text_is(p, "[") || text_is(p, "{") || text_is(p, "<") {
                    opens += 1;
                } else if text_is(p, ")") || text_is(p, "]") || text_is(p, "}") || text_is(
                    p,
                    ">",
                ) {
                    closes += 1;
                } else if text_is(p, ";") && opens <= closes {
                    return Some(j + 1);
                }
            },
            _ => {},
        }
        j += 1;
    }
    Some(j)
}

/// The end of an interface or type alias lies past its start, inside the stream.
pub proof fn lemma_declaration_end_bounds(ts: Seq<SpecToken>, start: int)
    requires
        0 <= start < ts.len(),
    ensures
        interface_end(ts, start) matches Some(e) ==> start < e <= ts.len(),
        type_alias_end(ts, start) matches Some(e) ==> start < e <= ts.len(),
{
    lemma_next_sig(ts, start + 1);
    if let Some(name_idx) = next_sig(ts, start + 1) {
        lemma_interface_rest_bounds(ts, name_idx + 1);
        lemma_next_sig(ts, name_idx + 1);
        if let Some(sig) = next_sig(ts, name_idx + 1) {
            lemma_matching_close_bounds(ts, sig, 0, "<"@, ">"@);
        }
        if let Some(i) = after_alias_generics(ts, name_idx + 1) {
            lemma_next_sig(ts, i);
            if let Some(eq_idx) = next_sig(ts, i) {
                lemma_alias_body_end_bounds(ts, eq_idx + 1, 0);
            }
        }
    }
}

/// Where the `interface` or `type` declaration at `i` ends, when there is
/// one whose extent can be told.
pub open spec fn declaration_end(ts: Seq<SpecToken>, i: int) -> Option<int> {
    if ts[i] == SpecToken::Identifier("interface"@) {
        interface_end(ts, i)
    } else if ts[i] == SpecToken::Identifier("type"@) {
        type_alias_end(ts, i)
    } else {
        None
    }
}

/// The tokens that removing declarations leaves, scanning from `i` with
/// `out` kept so far; it stops after `Eof`.
pub open spec fn strip_decls_from(ts: Seq<SpecToken>, i: int, out: Seq<SpecToken>) -> Seq<
    SpecToken,
>
    decreases ts.len() - i,
{
    if i < 0 || i >= ts.len() {
        out
    } else if ts[i] is Eof {
        out.push(ts[i])
    } else {
        match declaration_end(ts, i) {
            Some(e) => {
                proof {
                    lemma_declaration_end_bounds(ts, i);
                }
                strip_decls_from(ts, e, drop_trailing(out, "export"@))
            },
            None => strip_decls_from(ts, i + 1, out.push(ts[i])),
        }
    }
}

/// The tokens with every `interface` and `type` alias declaration removed.
pub open spec fn strip_declarations(ts: Seq<SpecToken>) -> Seq<SpecToken> {
    strip_decls_from(ts, 0, Seq::empty())
}

/// Returns `tokens` with `interface` and `type` alias declarations removed.
pub(crate) fn strip_interfaces_and_type_aliases(tokens: &[Token]) -> (out: Vec<Token>)
    ensures
        views(out@) == strip_declarations(views(tokens@)),
{
    let ghost ts = views(tokens@);
    let mut out: Vec<Token> = Vec::with_capacity(tokens.len());
    proof {
        assert(views(out@) =~= Seq::<SpecToken>::empty());
    }
    let mut i: usize = 0;
    while i < tokens.len()
        invariant
            ts == views(tokens@),
            i <= tokens@.len(),
            strip_decls_from(ts, i as int, views(out@)) == strip_declarations(ts),
        decreases tokens.len() - i,
    {
        if matches!(tokens[i], Token::Eof) {
            let ghost before = views(out@);
            out.push(copy_token(&tokens[i]));
            proof {
                assert(views(out@) =~= before.push(ts[i as int]));
            }
            return out;
        }
        if ident_is(&tokens[i], "interface") {
            if let Some(end) = try_consume_interface(tokens, i) {
                proof {
                    lemma_declaration_end_bounds(ts, i as int);
                }
                drop_trailing_export(&mut out);
                i = end;
                continue;
            }
        } else if ident_is(&tokens[i], "type") {
            if let Some(end) = try_consume_type_alias(tokens, i) {
                proof {
                    lemma_declaration_end_bounds(ts, i as int);
                }
                drop_trailing_export(&mut out);
                i = end;
                continue;
            }
        }
        let ghost before = views(out@);
        out.push(copy_token(&tokens[i]));
        proof {
            assert(views(out@) =~= before.push(ts[i as int]));
        }
        i += 1;
    }
    out
}


proof fn lemma_strip_decls_identity(ts: Seq<SpecToken>, i: int)
    requires
        eof_terminated(ts),
        0 <= i < ts.len(),
        forall|k: int|
            0 <= k < ts.len() ==> #[trigger] ts[k] != SpecToken::Identifier("interface"@) && ts[k]
                != SpecToken::Identifier("type"@),
    ensures
        strip_decls_from(ts, i, ts.take(i)) == ts,
    decreases ts.len() - i,
{
    if ts[i] is Eof {
        assert(ts.take(i).push(ts[i]) =~= ts);
    } else {
        assert(ts.take(i).push(ts[i]) =~= ts.take(i + 1));
        lemma_strip_decls_identity(ts, i + 1);
    }
}

/// A token stream with no `interface` or `type` identifier passes through
/// unchanged.
pub proof fn lemma_strip_declarations_identity(ts: Seq<SpecToken>)
    requires
        eof_terminated(ts),
        forall|k: int|
            0 <= k < ts.len() ==> #[trigger] ts[k] != SpecToken::Identifier("interface"@) && ts[k]
                != SpecToken::Identifier("type"@),
    ensures
        strip_declarations(ts) == ts,
{
    assert(ts.take(0) =~= Seq::<SpecToken>::empty());
    lemma_strip_decls_identity(ts, 0);
}


/// Dropping a trailing keyword cuts off a tail.
pub proof fn lemma_drop_trailing_take(s: Seq<SpecToken>, kw: Seq<char>) -> (m: int)
    ensures
        0 <= m <= s.len(),
        drop_trailing(s, kw) == s.take(m),
{
    lemma_trail_start_bounds(s, s.len() as int);
    let idx = trail_start(s, s.len() as int);
    if idx > 0 && s[idx - 1] == SpecToken::Identifier(kw) {
        idx - 1
    } else {
        assert(s.take(s.len() as int) =~= s);
        s.len() as int
    }
}

/// Dropping a trailing keyword keeps a subsequence.
pub proof fn lemma_drop_trailing_subsequence(s: Seq<SpecToken>, b: Seq<SpecToken>, kw: Seq<char>)
    requires
        is_subsequence(s, b),
    ensures
        is_subsequence(drop_trailing(s, kw), b),
{
    lemma_trail_start_bounds(s, s.len() as int);
    let idx = trail_start(s, s.len() as int);
    if idx > 0 && s[idx - 1] == SpecToken::Identifier(kw) {
        lemma_subsequence_take(s, b, idx - 1);
    }
}

proof fn lemma_strip_decls_subsequence(ts: Seq<SpecToken>, i: int, out: Seq<SpecToken>)
    requires
        0 <= i <= ts.len(),
        is_subsequence(out, ts.take(i)),
    ensures
        is_subsequence(strip_decls_from(ts, i, out), ts),
    decreases ts.len() - i,
{
    if i == ts.len() {
        assert(ts.take(i) =~= ts);
    } else {
        assert(ts.take(i).push(ts[i]) =~= ts.take(i + 1));
        if ts[i] is Eof {
            lemma_subsequence_push(out, ts.take(i), ts[i]);
            lemma_subsequence_extend(out.push(ts[i]), ts.take(i + 1), ts);
        } else {
            match declaration_end(ts, i) {
                Some(e) => {
                    lemma_declaration_end_bounds(ts, i);
                    lemma_drop_trailing_subsequence(out, ts.take(i), "export"@);
                    lemma_subsequence_extend_take(drop_trailing(out, "export"@), ts, i, e);
                    lemma_strip_decls_subsequence(ts, e, drop_trailing(out, "export"@));
                },
                None => {
                    lemma_subsequence_push(out, ts.take(i), ts[i]);
                    lemma_strip_decls_subsequence(ts, i + 1, out.push(ts[i]));
                },
            }
        }
    }
}

/// Removing declarations only ever removes tokens.
pub proof fn lemma_strip_declarations_subsequence(ts: Seq<SpecToken>)
    ensures
        is_subsequence(strip_declarations(ts), ts),
{
    crate::token::lemma_subsequence_refl(Seq::empty());
    assert(ts.take(0) =~= Seq::<SpecToken>::empty());
    lemma_strip_decls_subsequence(ts, 0, Seq::empty());
}

} // verus!
