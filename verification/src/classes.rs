//! Class syntax: visibility modifiers, constructor parameter properties
//! and the annotations of class fields.
//!
//! - `public`, `private`, `protected`, `readonly`, `abstract` and
//!   `override` are removed where a class member or a constructor
//!   parameter starts with them; elsewhere they are ordinary names. `static` is JavaScript and stays.
//! - The type annotation, optional `?` and definite-assignment `!` of a
//!   class field are removed (`private x: number;` becomes `x;`).
//! - A constructor parameter with a modifier is a parameter property: it
//!   declares a field too, so `this.y = y;` is written at the start of the
//!   constructor body for each, as `tsc` does. Plain parameters are no
//!   properties.
//!
//! The annotations of plain parameters and return types are left to the
//! annotation pass, which sees a `(` or `,` before each parameter once
//! the modifiers are gone.
use vstd::prelude::*;

use crate::token::{
    eof_terminated, is_subsequence, lemma_raw_free_extend, lemma_raw_free_push,
    lemma_subsequence_refl, lemma_without_raw_push, views, without_raw, SpecToken, Token,
};
use crate::transpile::{
    annotation_skip, copy_token, find_type_end, ident_is, is_modifier, is_modifier_keyword,
    is_sig, is_significant, lemma_annotation_skip_progress, lemma_next_sig,
    lemma_type_end_bounds, next_sig, next_sig_index, preserve_trailing_whitespace, punct_is,
    text_is, texts,
};

verus! {

/// The last significant token among the first `k` tokens of `s`.
pub open spec fn last_sig(s: Seq<SpecToken>, k: int) -> Option<SpecToken>
    decreases k,
{
    if k <= 0 || k > s.len() {
        None
    } else if is_sig(s[k - 1]) {
        Some(s[k - 1])
    } else {
        last_sig(s, k - 1)
    }
}

/// The last significant token of `s`.
pub open spec fn last_sig_of(s: Seq<SpecToken>) -> Option<SpecToken> {
    last_sig(s, s.len() as int)
}

pub(crate) fn last_significant(out: &[Token]) -> (r: Option<&Token>)
    ensures
        (match r {
            Some(t) => Some(t@),
            None => None::<SpecToken>,
        }) == last_sig_of(views(out@)),
{
    let ghost s = views(out@);
    let mut k = out.len();
    while k > 0
        invariant
            s == views(out@),
            k <= out@.len(),
            last_sig(s, k as int) == last_sig_of(s),
        decreases k,
    {
        if is_significant(&out[k - 1]) {
            return Some(&out[k - 1]);
        }
        k -= 1;
    }
    None
}

/// A token that, following a field name, shows that a `?` or `!` before
/// it marks the field as optional or definitely assigned.
pub open spec fn stop_before_marker(t: SpecToken) -> bool {
    t == SpecToken::Punctuator(":"@) || t == SpecToken::Punctuator(";"@) || t
        == SpecToken::Punctuator("="@) || t == SpecToken::Punctuator("}"@)
}

fn is_stop_before_marker(t: &Token) -> (b: bool)
    ensures
        b == stop_before_marker(t@),
{
    punct_is(t, ":") || punct_is(t, ";") || punct_is(t, "=") || punct_is(t, "}")
}


/// What the pass remembers of an open parenthesis: whether it opens the
/// parameters of a constructor, and the parameter properties seen so far.
pub struct ParenCtx {
    pub is_constructor: bool,
    pub props: Vec<String>,
}

pub open spec fn string_views(v: Seq<String>) -> Seq<Seq<char>> {
    v.map_values(|s: String| s@)
}

impl View for ParenCtx {
    type V = (bool, Seq<Seq<char>>);

    open spec fn view(&self) -> (bool, Seq<Seq<char>>) {
        (self.is_constructor, string_views(self.props@))
    }
}

pub open spec fn ctx_views(v: Seq<ParenCtx>) -> Seq<(bool, Seq<Seq<char>>)> {
    v.map_values(|c: ParenCtx| c@)
}

/// The state of the class pass.
pub struct ClassState {
    /// The open parentheses, innermost last.
    pub stack: Seq<(bool, Seq<Seq<char>>)>,
    /// The brace depths at which class bodies hold their members.
    pub member_depths: Seq<int>,
    pub brace_depth: int,
    /// A `class` keyword was seen and its body's `{` is still to come.
    pub awaiting_class_brace: bool,
    /// Parameter properties whose assignments go after the next `{`.
    pub pending_injection: Option<Seq<Seq<char>>>,
    /// A modifier was removed and the next name is a parameter property.
    pub pending_property: bool,
}

pub open spec fn initial_class_state() -> ClassState {
    ClassState {
        stack: Seq::empty(),
        member_depths: Seq::empty(),
        brace_depth: 0,
        awaiting_class_brace: false,
        pending_injection: None,
        pending_property: false,
    }
}

/// Directly in a class body, outside any parentheses.
pub open spec fn member_level(st: ClassState) -> bool {
    st.member_depths.len() > 0 && st.member_depths.last() == st.brace_depth && st.stack.len() == 0
}

/// The assignments that a constructor gets for its parameter properties.
pub open spec fn injection(props: Seq<Seq<char>>) -> Seq<char>
    decreases props.len(),
{
    if props.len() == 0 {
        Seq::empty()
    } else {
        " this."@ + props[0] + " = "@ + props[0] + ";"@ + injection(props.drop_first())
    }
}

/// Whether the next significant token after `i` shows that the `?` or
/// `!` at `i` marks a field.
pub open spec fn marker_follows(ts: Seq<SpecToken>, i: int) -> bool {
    match next_sig(ts, i + 1) {
        Some(k) => stop_before_marker(ts[k]),
        None => false,
    }
}

pub open spec fn member_stops() -> Seq<Seq<char>> {
    seq!["="@, ";"@, "}"@]
}

/// 1 when the token after `i` is whitespace, else 0.
pub open spec fn ws_after(ts: Seq<SpecToken>, i: int) -> int {
    if 0 <= i + 1 < ts.len() && ts[i + 1] is Whitespace {
        1
    } else {
        0
    }
}

/// A modifier at the start of a parameter of a constructor.
pub open spec fn param_start(out: Seq<SpecToken>, st: ClassState) -> bool {
    st.stack.len() > 0 && st.stack.last().0 && (last_sig_of(out) == Some(SpecToken::Punctuator("("@)) || last_sig_of(out)
        == Some(SpecToken::Punctuator(","@)))
}

/// A modifier at the start of a class member.
pub open spec fn member_start(out: Seq<SpecToken>, st: ClassState) -> bool {
    member_level(st) && (last_sig_of(out) is None || last_sig_of(out) == Some(
        SpecToken::Punctuator(";"@),
    ) || last_sig_of(out) == Some(SpecToken::Punctuator("{"@)) || last_sig_of(out) == Some(
        SpecToken::Punctuator("}"@),
    ))
}

/// The state after the name `name`: a pending parameter property takes it.
pub open spec fn take_property(st: ClassState, name: Seq<char>) -> ClassState {
    if st.pending_property {
        ClassState {
            stack: if st.stack.len() > 0 {
                st.stack.update(
                    st.stack.len() - 1,
                    (st.stack.last().0, st.stack.last().1.push(name)),
                )
            } else {
                st.stack
            },
            pending_property: false,
            ..st
        }
    } else {
        st
    }
}

/// The step for a significant token that is no removed modifier, in state
/// `st`, with `lvl` telling whether the scan was at member level.
pub open spec fn punct_step(
    ts: Seq<SpecToken>,
    i: int,
    out: Seq<SpecToken>,
    st: ClassState,
    lvl: bool,
) -> (int, Seq<SpecToken>, ClassState) {
    let tok = ts[i];
    let keep = (i + 1, out.push(tok), st);
    match tok {
        SpecToken::Punctuator(p) => if p == "("@ {
            // Only a `constructor` declared in a class body opens
            // constructor parameters.
            let is_ctor = lvl && last_sig_of(out) == Some(SpecToken::Identifier("constructor"@));
            (i + 1, out.push(tok), ClassState { stack: st.stack.push((is_ctor, Seq::empty())), ..st })
        } else if p == ")"@ {
            if st.stack.len() > 0 {
                let ctx = st.stack.last();
                (
                    i + 1,
                    out.push(tok),
                    ClassState {
                        stack: st.stack.drop_last(),
                        pending_injection: if ctx.0 && ctx.1.len() > 0 {
                            Some(ctx.1)
                        } else {
                            st.pending_injection
                        },
                        ..st
                    },
                )
            } else {
                keep
            }
        } else if p == "{"@ {
            let nd = st.brace_depth + 1;
            let st1 = ClassState {
                member_depths: if st.awaiting_class_brace {
                    st.member_depths.push(nd)
                } else {
                    st.member_depths
                },
                awaiting_class_brace: false,
                brace_depth: nd,
                pending_injection: None,
                ..st
            };
            match st.pending_injection {
                Some(props) => (
                    i + 1,
                    out.push(tok).push(SpecToken::Raw(injection(props))),
                    st1,
                ),
                None => (i + 1, out.push(tok), st1),
            }
        } else if p == "}"@ {
            let md = if st.member_depths.len() > 0 && st.member_depths.last() == st.brace_depth {
                st.member_depths.drop_last()
            } else {
                st.member_depths
            };
            (
                i + 1,
                out.push(tok),
                ClassState { member_depths: md, brace_depth: st.brace_depth - 1, ..st },
            )
        } else if (p == "?"@ || p == "!"@) && lvl && last_sig_of(out) matches Some(
            SpecToken::Identifier(_),
        ) {
            if marker_follows(ts, i) {
                (i + 1, out, st)
            } else {
                keep
            }
        } else if p == ":"@ && lvl && last_sig_of(out) matches Some(SpecToken::Identifier(_)) {
            (annotation_skip(ts, i, member_stops()), out, st)
        } else {
            keep
        },
        _ => keep,
    }
}

/// What the class pass does with the token at `i` (no `Eof`): where it
/// goes on, what it has written, and its new state.
pub open spec fn class_step(ts: Seq<SpecToken>, i: int, out: Seq<SpecToken>, st: ClassState) -> (
    int,
    Seq<SpecToken>,
    ClassState,
) {
    let tok = ts[i];
    if !is_sig(tok) {
        (i + 1, out.push(tok), st)
    } else {
        let lvl = member_level(st);
        match tok {
            SpecToken::Identifier(name) => if name == "class"@ {
                (i + 1, out.push(tok), ClassState { awaiting_class_brace: true, ..st })
            } else if is_modifier(name) && param_start(out, st) {
                // The modifier goes, with one whitespace token after it.
                (i + 1 + ws_after(ts, i), out, ClassState { pending_property: true, ..st })
            } else if is_modifier(name) && member_start(out, st) {
                (i + 1 + ws_after(ts, i), out, st)
            } else {
                punct_step(ts, i, out, take_property(st, name), lvl)
            },
            _ => punct_step(ts, i, out, st, lvl),
        }
    }
}

/// A member modifier word: `public`, `private`, `protected`, `readonly`,
/// `abstract` or `override`.
pub open spec fn modifier_word(t: SpecToken) -> bool {
    t == SpecToken::Identifier("public"@) || t == SpecToken::Identifier("private"@) || t
        == SpecToken::Identifier("protected"@) || t == SpecToken::Identifier("readonly"@) || t
        == SpecToken::Identifier("abstract"@) || t == SpecToken::Identifier("override"@)
}

/// Member modifiers go: where the scan is directly in a class body,
/// outside parentheses, and the last token kept is the body's `{`, a `;`
/// or the `}` that closes the previous member (or nothing), a modifier
/// word is not written, and the scan goes on past it and the one blank
/// after it.
pub proof fn lemma_member_modifier_removed(ts: Seq<SpecToken>, i: int, out: Seq<SpecToken>, st: ClassState)
    requires
        0 <= i < ts.len(),
        modifier_word(ts[i]),
        st.member_depths.len() > 0,
        st.member_depths.last() == st.brace_depth,
        st.stack.len() == 0,
        last_sig_of(out) is None || last_sig_of(out) == Some(SpecToken::Punctuator("{"@))
            || last_sig_of(out) == Some(SpecToken::Punctuator(";"@)) || last_sig_of(out) == Some(
            SpecToken::Punctuator("}"@),
        ),
    ensures
        class_step(ts, i, out, st).1 == out,
        class_step(ts, i, out, st).0 == i + 1 + (if i + 1 < ts.len() && ts[i + 1] is Whitespace {
            1int
        } else {
            0int
        }),
{
    reveal_strlit("class");
    reveal_strlit("public");
    reveal_strlit("private");
    reveal_strlit("protected");
    reveal_strlit("readonly");
    reveal_strlit("abstract");
    reveal_strlit("override");
    assert(is_sig(ts[i]));
    assert(ts[i] != SpecToken::Identifier("class"@)) by {
        assert("class"@[0] == 'c');
        assert("public"@[0] == 'p' && "private"@[0] == 'p' && "protected"@[0] == 'p');
        assert("readonly"@[0] == 'r' && "abstract"@[0] == 'a' && "override"@[0] == 'o');
    }
}

/// One step of the class pass consumes at least one token and stays in bounds.
pub proof fn lemma_class_step_progress(ts: Seq<SpecToken>, i: int, out: Seq<SpecToken>, st: ClassState)
    requires
        0 <= i < ts.len(),
    ensures
        i < class_step(ts, i, out, st).0 <= ts.len(),
{
    lemma_annotation_skip_progress(ts, i, member_stops());
}

/// The tokens that the class pass leaves, scanning from `i` with `out`
/// written so far and state `st`; it stops after `Eof`.
pub open spec fn class_from(ts: Seq<SpecToken>, i: int, out: Seq<SpecToken>, st: ClassState) -> Seq<
    SpecToken,
>
    decreases ts.len() - i,
{
    if i < 0 || i >= ts.len() {
        out
    } else if ts[i] is Eof {
        out.push(ts[i])
    } else {
        let (j, out2, st2) = class_step(ts, i, out, st);
        proof {
            lemma_class_step_progress(ts, i, out, st);
        }
        class_from(ts, j, out2, st2)
    }
}

/// The tokens with class-only syntax removed and parameter properties
/// expanded.
pub open spec fn strip_classes(ts: Seq<SpecToken>) -> Seq<SpecToken> {
    class_from(ts, 0, Seq::empty(), initial_class_state())
}

pub open spec fn depth_views(v: Seq<i128>) -> Seq<int> {
    v.map_values(|d: i128| d as int)
}

pub open spec fn opt_strings_view(o: Option<Vec<String>>) -> Option<Seq<Seq<char>>> {
    match o {
        Some(v) => Some(string_views(v@)),
        None => None,
    }
}

/// The assignments for `props`, as one piece of text.
fn render_injection(props: &Vec<String>) -> (s: String)
    ensures
        s@ == injection(string_views(props@)),
{
    let ghost ps = string_views(props@);
    let mut s = String::new();
    let mut k: usize = 0;
    proof {
        assert(ps.subrange(0, ps.len() as int) =~= ps);
    }
    while k < props.len()
        invariant
            ps == string_views(props@),
            k <= props@.len(),
            s@ + injection(ps.subrange(k as int, ps.len() as int)) == injection(ps),
        decreases props.len() - k,
    {
        let p = &props[k];
        proof {
            assert(ps.subrange(k as int, ps.len() as int).drop_first() =~= ps.subrange(
                k + 1,
                ps.len() as int,
            ));
        }
        s.append(" this.");
        s.append(p.as_str());
        s.append(" = ");
        s.append(p.as_str());
        s.append(";");
        proof {
            assert(s@ + injection(ps.subrange(k + 1, ps.len() as int)) =~= injection(ps));
        }
        k += 1;
    }
    proof {
        assert(ps.subrange(k as int, ps.len() as int) =~= Seq::<Seq<char>>::empty());
        assert(s@ =~= injection(ps));
    }
    s
}

/// Removes class-only syntax from `tokens` and expands constructor
/// parameter properties.
pub(crate) fn strip_class_syntax(tokens: &[Token]) -> (out: Vec<Token>)
    ensures
        views(out@) == strip_classes(views(tokens@)),
{
    let ghost ts = views(tokens@);
    let mut out: Vec<Token> = Vec::with_capacity(tokens.len());
    let mut paren_ctx_stack: Vec<ParenCtx> = Vec::new();
    let mut class_member_depths: Vec<i128> = Vec::new();
    // Wide enough never to overflow: it changes by one per token.
    let mut brace_depth: i128 = 0;
    let mut awaiting_class_brace = false;
    let mut pending_ctor_injection: Option<Vec<String>> = None;
    let mut pending_property_marker = false;
    let mut i: usize = 0;
    proof {
        assert(views(out@) =~= Seq::<SpecToken>::empty());
        assert(ctx_views(paren_ctx_stack@) =~= Seq::<(bool, Seq<Seq<char>>)>::empty());
        assert(depth_views(class_member_depths@) =~= Seq::<int>::empty());
    }
    while i < tokens.len()
        invariant
            ts == views(tokens@),
            i <= tokens@.len(),
            -(i as int) <= brace_depth <= i,
            class_from(
                ts,
                i as int,
                views(out@),
                ClassState {
                    stack: ctx_views(paren_ctx_stack@),
                    member_depths: depth_views(class_member_depths@),
                    brace_depth: brace_depth as int,
                    awaiting_class_brace,
                    pending_injection: opt_strings_view(pending_ctor_injection),
                    pending_property: pending_property_marker,
                },
            ) == strip_classes(ts),
        decreases tokens.len() - i,
    {
        let ghost st = ClassState {
            stack: ctx_views(paren_ctx_stack@),
            member_depths: depth_views(class_member_depths@),
            brace_depth: brace_depth as int,
            awaiting_class_brace,
            pending_injection: opt_strings_view(pending_ctor_injection),
            pending_property: pending_property_marker,
        };
        let ghost o = views(out@);
        let tok = &tokens[i];
        if matches!(tok, Token::Eof) {
            out.push(copy_token(tok));
            proof {
                assert(views(out@) =~= o.push(ts[i as int]));
            }
            return out;
        }
        if !is_significant(tok) {
            out.push(copy_token(tok));
            proof {
                assert(views(out@) =~= o.push(ts[i as int]));
            }
            i += 1;
            continue;
        }
        let is_member_level = class_member_depths.len() > 0 && class_member_depths[class_member_depths.len()
            - 1] == brace_depth && paren_ctx_stack.len() == 0;
        proof {
            assert(is_member_level == member_level(st));
            lemma_class_step_progress(ts, i as int, o, st);
        }

        if let Token::Identifier(name) = tok {
            if text_is(name, "class") {
                awaiting_class_brace = true;
                out.push(copy_token(tok));
                proof {
                    assert(views(out@) =~= o.push(ts[i as int]));
                }
                i += 1;
                continue;
            }
            if is_modifier_keyword(name) {
                let prev_sig = last_significant(&out);
                let in_param_start = paren_ctx_stack.len() > 0
                    && paren_ctx_stack[paren_ctx_stack.len() - 1].is_constructor && match prev_sig {
                    Some(t) => punct_is(t, "(") || punct_is(t, ","),
                    None => false,
                };
                let in_member_start = is_member_level && match prev_sig {
                    None => true,
                    Some(t) => punct_is(t, ";") || punct_is(t, "{") || punct_is(t, "}"),
                };
                if in_param_start {
                    pending_property_marker = true;
                    // The whitespace after the modifier goes with it, or
                    // `, public x` would leave two spaces after the comma.
                    i += 1;
                    if i < tokens.len() && matches!(tokens[i], Token::Whitespace(_)) {
                        i += 1;
                    }
                    continue;
                } else if in_member_start {
                    i += 1;
                    if i < tokens.len() && matches!(tokens[i], Token::Whitespace(_)) {
                        i += 1;
                    }
                    continue;
                }
            }
            if pending_property_marker {
                // The name after one or more modifiers: a parameter
                // property.
                if paren_ctx_stack.len() > 0 {
                    let ghost before = ctx_views(paren_ctx_stack@);
                    let mut ctx = paren_ctx_stack.pop().unwrap();
                    let ghost ctx_before = ctx@;
                    ctx.props.push(name.clone());
                    proof {
                        assert(string_views(ctx.props@) =~= ctx_before.1.push(name@));
                    }
                    paren_ctx_stack.push(ctx);
                    proof {
                        assert(ctx_views(paren_ctx_stack@) =~= before.update(
                            before.len() - 1,
                            (before.last().0, before.last().1.push(name@)),
                        ));
                    }
                }
                pending_property_marker = false;
            }
        }
        let ghost st1 = ClassState {
            stack: ctx_views(paren_ctx_stack@),
            member_depths: depth_views(class_member_depths@),
            brace_depth: brace_depth as int,
            awaiting_class_brace,
            pending_injection: opt_strings_view(pending_ctor_injection),
            pending_property: pending_property_marker,
        };
        proof {
            assert(class_step(ts, i as int, o, st) == punct_step(ts, i as int, o, st1, member_level(st)));
        }

        if let Token::Punctuator(p) = tok {
            if text_is(p, "(") {
                let prev_sig = last_significant(&out);
                let is_ctor = is_member_level && match prev_sig {
                    Some(t) => ident_is(t, "constructor"),
                    None => false,
                };
                let ghost before = ctx_views(paren_ctx_stack@);
                paren_ctx_stack.push(ParenCtx { is_constructor: is_ctor, props: Vec::new() });
                proof {
                    assert(string_views(paren_ctx_stack@.last().props@) =~= Seq::<Seq<char>>::empty());
                    assert(ctx_views(paren_ctx_stack@) =~= before.push((is_ctor, Seq::empty())));
                }
            } else if text_is(p, ")") {
                if paren_ctx_stack.len() > 0 {
                    let ghost before = ctx_views(paren_ctx_stack@);
                    let ctx = paren_ctx_stack.pop().unwrap();
                    proof {
                        assert(ctx_views(paren_ctx_stack@) =~= before.drop_last());
                    }
                    if ctx.is_constructor && ctx.props.len() > 0 {
                        pending_ctor_injection = Some(ctx.props);
                    }
                }
            } else if text_is(p, "{") {
                let new_depth = brace_depth + 1;
                if awaiting_class_brace {
                    let ghost before = depth_views(class_member_depths@);
                    class_member_depths.push(new_depth);
                    proof {
                        assert(depth_views(class_member_depths@) =~= before.push(new_depth as int));
                    }
                    awaiting_class_brace = false;
                }
                brace_depth = new_depth;
                out.push(copy_token(tok));
                proof {
                    assert(views(out@) =~= o.push(ts[i as int]));
                }
                let ghost o1 = views(out@);
                match pending_ctor_injection {
                    Some(props) => {
                        let injected = render_injection(&props);
                        out.push(Token::Raw(injected));
                        proof {
                            assert(views(out@) =~= o1.push(SpecToken::Raw(injection(string_views(props@)))));
                        }
                    },
                    None => {},
                }
                pending_ctor_injection = None;
                i += 1;
                continue;
            } else if text_is(p, "}") {
                if class_member_depths.len() > 0 && class_member_depths[class_member_depths.len() - 1]
                    == brace_depth {
                    let ghost before = depth_views(class_member_depths@);
                    class_member_depths.pop();
                    proof {
                        assert(depth_views(class_member_depths@) =~= before.drop_last());
                    }
                }
                brace_depth -= 1;
            } else if (text_is(p, "?") || text_is(p, "!")) && is_member_level && matches!(
                last_significant(&out),
                Some(Token::Identifier(_))
            ) {
                proof {
                    lemma_next_sig(ts, i + 1);
                }
                let next_sig = next_sig_index(tokens, i + 1);
                let is_marker = match next_sig {
                    Some(k) => is_stop_before_marker(&tokens[k]),
                    None => false,
                };
                if is_marker {
                    i += 1;
                    continue;
                }
            } else if text_is(p, ":") && is_member_level && matches!(
                last_significant(&out),
                Some(Token::Identifier(_))
            ) {
                let end = find_type_end(tokens, i + 1, &["=", ";", "}"]);
                proof {
                    lemma_type_end_bounds(ts, i + 1, 0, member_stops());
                    assert(texts(["=", ";", "}"]@) =~= member_stops());
                }
                i = preserve_trailing_whitespace(tokens, i, end);
                continue;
            }
        }
        out.push(copy_token(tok));
        proof {
            assert(views(out@) =~= o.push(ts[i as int]));
        }
        i += 1;
    }
    out
}


/// The identifier `class`, which all class syntax here follows.
pub open spec fn class_word(t: SpecToken) -> bool {
    t == SpecToken::Identifier("class"@)
}

/// The state of a scan that has met no class syntax.
pub open spec fn inactive(st: ClassState) -> bool {
    &&& st.member_depths.len() == 0
    &&& !st.awaiting_class_brace
    &&& st.pending_injection is None
    &&& !st.pending_property
    &&& forall|k: int| 0 <= k < st.stack.len() ==> (#[trigger] st.stack[k]).1.len() == 0
        && !st.stack[k].0
}

proof fn lemma_class_step_inactive(ts: Seq<SpecToken>, i: int, out: Seq<SpecToken>, st: ClassState)
    requires
        0 <= i < ts.len(),
        !class_word(ts[i]),
        inactive(st),
    ensures
        class_step(ts, i, out, st).0 == i + 1,
        class_step(ts, i, out, st).1 == out.push(ts[i]),
        inactive(class_step(ts, i, out, st).2),
{
    let st2 = class_step(ts, i, out, st).2;
    if ts[i] == SpecToken::Punctuator("("@) && is_sig(ts[i]) {
        assert forall|k: int| 0 <= k < st2.stack.len() implies (#[trigger] st2.stack[k]).1.len()
            == 0 by {
            if k < st.stack.len() {
                assert(st2.stack[k] == st.stack[k]);
            }
        }
    }
    if ts[i] == SpecToken::Punctuator(")"@) && is_sig(ts[i]) && st.stack.len() > 0 {
        reveal_strlit("(");
        reveal_strlit(")");
        assert(")"@[0] != "("@[0]);
        assert(")"@ != "("@);
        assert(st2.stack == st.stack.drop_last());
        assert(st.stack.last().1.len() == 0);
        assert forall|k: int| 0 <= k < st2.stack.len() implies (#[trigger] st2.stack[k]).1.len()
            == 0 by {
            assert(st2.stack[k] == st.stack[k]);
        }
    }
}

proof fn lemma_class_from_identity(ts: Seq<SpecToken>, i: int, st: ClassState)
    requires
        eof_terminated(ts),
        0 <= i < ts.len(),
        inactive(st),
        forall|k: int| 0 <= k < ts.len() ==> !class_word(#[trigger] ts[k]),
    ensures
        class_from(ts, i, ts.take(i), st) == ts,
    decreases ts.len() - i,
{
    if ts[i] is Eof {
        assert(ts.take(i).push(ts[i]) =~= ts);
    } else {
        lemma_class_step_inactive(ts, i, ts.take(i), st);
        assert(ts.take(i).push(ts[i]) =~= ts.take(i + 1));
        lemma_class_from_identity(ts, i + 1, class_step(ts, i, ts.take(i), st).2);
    }
}

/// A token stream without `class` passes through unchanged: modifier
/// words outside classes are ordinary names.
pub proof fn lemma_strip_classes_identity(ts: Seq<SpecToken>)
    requires
        eof_terminated(ts),
        forall|k: int| 0 <= k < ts.len() ==> !class_word(#[trigger] ts[k]),
    ensures
        strip_classes(ts) == ts,
{
    assert(ts.take(0) =~= Seq::<SpecToken>::empty());
    lemma_class_from_identity(ts, 0, initial_class_state());
}


/// A class step keeps the token, drops it, or keeps it and writes a `Raw`
/// token after it.
proof fn lemma_class_step_shape(ts: Seq<SpecToken>, i: int, out: Seq<SpecToken>, st: ClassState)
    requires
        0 <= i < ts.len(),
    ensures
        ({
            let out2 = class_step(ts, i, out, st).1;
            ||| out2 == out
            ||| out2 == out.push(ts[i])
            ||| out2.len() == out.len() + 2 && out2.drop_last() == out.push(ts[i])
                && out2.last() is Raw
        }),
{
    let out2 = class_step(ts, i, out, st).1;
    if out2.len() == out.len() + 2 {
        assert(out2.drop_last() =~= out.push(ts[i]));
    }
}

proof fn lemma_class_raw_free(ts: Seq<SpecToken>, i: int, out: Seq<SpecToken>, st: ClassState)
    requires
        0 <= i <= ts.len(),
        is_subsequence(without_raw(out), without_raw(ts.take(i))),
    ensures
        is_subsequence(without_raw(class_from(ts, i, out, st)), without_raw(ts)),
    decreases ts.len() - i,
{
    if i == ts.len() {
        assert(ts.take(i) =~= ts);
    } else if ts[i] is Eof {
        lemma_raw_free_push(out, ts, i);
        lemma_raw_free_extend(out.push(ts[i]), ts, i + 1, ts.len() as int);
        assert(ts.take(ts.len() as int) =~= ts);
    } else {
        let (j, out2, st2) = class_step(ts, i, out, st);
        lemma_class_step_progress(ts, i, out, st);
        lemma_class_step_shape(ts, i, out, st);
        if out2 == out {
            lemma_raw_free_extend(out, ts, i, j);
        } else {
            lemma_raw_free_push(out, ts, i);
            if out2 != out.push(ts[i]) {
                lemma_without_raw_push(out2.drop_last(), out2.last());
                assert(out2 =~= out2.drop_last().push(out2.last()));
            }
            lemma_raw_free_extend(out2, ts, i + 1, j);
        }
        lemma_class_raw_free(ts, j, out2, st2);
    }
}

/// The class pass writes its own `Raw` text and otherwise only ever
/// removes tokens.
pub proof fn lemma_strip_classes_only_adds_raw(ts: Seq<SpecToken>)
    ensures
        is_subsequence(without_raw(strip_classes(ts)), without_raw(ts)),
{
    assert(ts.take(0) =~= Seq::<SpecToken>::empty());
    assert(without_raw(Seq::<SpecToken>::empty()) =~= Seq::<SpecToken>::empty());
    lemma_subsequence_refl(Seq::empty());
    lemma_class_raw_free(ts, 0, Seq::empty(), initial_class_state());
}

} // verus!
