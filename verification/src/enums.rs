//! Expands `enum` declarations. Unlike `interface` and `type`, an enum
//! exists at runtime: a numeric enum becomes an object with both forward
//! (`Name.Member` to value) and reverse (`Name[value]` to member name)
//! mappings, built by an immediately invoked function as `tsc` emits it.
//!
//! - Members without an initialiser or with a number literal get both
//!   mappings; the implicit values count on from the last number.
//! - Members initialised by a string literal get only the forward
//!   mapping, as with `tsc`.
//! - Members with any other initialiser (`A = 1 << 2`) have the
//!   expression text copied, with only the forward mapping.
//! - `const enum` is expanded like a plain enum (no inlining).
use vstd::prelude::*;

use crate::interfaces::{drop_trailing, drop_trailing_identifier, lemma_drop_trailing_take};
use crate::token::{
    eof_terminated, is_subsequence, lemma_raw_free_extend, lemma_raw_free_push,
    lemma_raw_free_take, lemma_render_push, lemma_subsequence_refl, lemma_without_raw_push, render,
    views, without_raw, SpecToken, Token,
};
use crate::tokenizer::char_is_whitespace;
use crate::transpile::{
    consume_matching_bracket, copy_token, ident_is, is_sig, is_significant,
    lemma_matching_close_bounds, lemma_next_sig, matching_close, next_sig, next_sig_index,
    punct_is, token_text,
};

verus! {

// ---------------------------------------------------------------------
// Outside helpers: integer parsing, integer printing, trimming
// ---------------------------------------------------------------------

pub open spec fn is_decimal_digit(c: char) -> bool {
    '0' <= c && c <= '9'
}

/// The value of a string of decimal digits.
pub open spec fn digits_value(s: Seq<char>) -> nat
    decreases s.len(),
{
    if s.len() == 0 {
        0
    } else {
        digits_value(s.drop_last()) * 10 + (s.last() as nat - '0' as nat) as nat
    }
}

/// The value of `s` read as an `i64`: an optional `+` or `-`, then one
/// or more decimal digits, the value within the range of `i64`; `None`
/// for any other text.
pub open spec fn parsed_i64(s: Seq<char>) -> Option<i64> {
    let signed = s.len() > 0 && (s[0] == '+' || s[0] == '-');
    let digits = if signed {
        s.drop_first()
    } else {
        s
    };
    let v: int = if signed && s[0] == '-' {
        -(digits_value(digits) as int)
    } else {
        digits_value(digits) as int
    };
    if digits.len() > 0 && (forall|k: int| 0 <= k < digits.len() ==> is_decimal_digit(
        #[trigger] digits[k],
    )) && i64::MIN <= v <= i64::MAX {
        Some(v as i64)
    } else {
        None
    }
}

/// Calls `str::parse::<i64>`, which, as the documentation of
/// `i64::from_str_radix` says, reads an optional `+` or `-` sign followed
/// by only digits, and fails on any other text and on a value out of
/// range: what `parsed_i64` states.
#[verifier::external_body]
fn parse_i64(s: &str) -> (r: Option<i64>)
    ensures
        r == parsed_i64(s@),
{
    s.parse::<i64>().ok()
}

pub open spec fn digit_char(d: nat) -> char {
    (('0' as nat) + d) as char
}

/// The decimal digits of `n`, without leading zeros.
pub open spec fn nat_digits(n: nat) -> Seq<char>
    decreases n,
{
    if n < 10 {
        seq![digit_char(n)]
    } else {
        nat_digits(n / 10).push(digit_char(n % 10))
    }
}

/// The decimal text of `v`, with a `-` before a negative number.
pub open spec fn decimal(v: int) -> Seq<char> {
    if v < 0 {
        seq!['-'] + nat_digits((-v) as nat)
    } else {
        nat_digits(v as nat)
    }
}

/// Calls `i128::to_string`, which writes the number in decimal.
#[verifier::external_body]
fn int_to_string(v: i128) -> (s: String)
    ensures
        s@ == decimal(v as int),
{
    v.to_string()
}

/// The index of the first character of `s` from `k` on that is not
/// whitespace.
pub open spec fn trim_start_index(s: Seq<char>, k: int) -> int
    decreases s.len() - k,
{
    if 0 <= k < s.len() && char_is_whitespace(s[k]) {
        trim_start_index(s, k + 1)
    } else {
        k
    }
}

/// The index just past the last character of `s` before `k` that is not
/// whitespace, not going below `lo`.
pub open spec fn trim_end_index(s: Seq<char>, lo: int, k: int) -> int
    decreases k,
{
    if lo < k <= s.len() && 0 < k && char_is_whitespace(s[k - 1]) {
        trim_end_index(s, lo, k - 1)
    } else {
        k
    }
}

/// `s` without leading and trailing whitespace.
pub open spec fn trimmed(s: Seq<char>) -> Seq<char> {
    let a = trim_start_index(s, 0);
    s.subrange(a, trim_end_index(s, a, s.len() as int))
}

/// Calls `str::trim`, which, as its documentation says, removes the
/// leading and trailing characters with the White_Space property, the
/// property that `char::is_whitespace` tests.
#[verifier::external_body]
fn trim(s: &str) -> (r: &str)
    ensures
        r@ == trimmed(s@),
{
    s.trim()
}

// ---------------------------------------------------------------------
// Members
// ---------------------------------------------------------------------

/// A member's initialiser.
pub enum Init {
    Absent,
    Number(String),
    StringLit(String),
    Other(String),
}

pub enum SpecInit {
    Absent,
    Number(Seq<char>),
    StringLit(Seq<char>),
    Other(Seq<char>),
}

impl View for Init {
    type V = SpecInit;

    open spec fn view(&self) -> SpecInit {
        match self {
            Init::Absent => SpecInit::Absent,
            Init::Number(s) => SpecInit::Number(s@),
            Init::StringLit(s) => SpecInit::StringLit(s@),
            Init::Other(s) => SpecInit::Other(s@),
        }
    }
}

/// A parsed enum member.
pub struct EnumMember {
    pub name: String,
    pub init: Init,
}

pub struct SpecMember {
    pub name: Seq<char>,
    pub init: SpecInit,
}

impl View for EnumMember {
    type V = SpecMember;

    open spec fn view(&self) -> SpecMember {
        SpecMember { name: self.name@, init: self.init@ }
    }
}

pub open spec fn member_views(ms: Seq<EnumMember>) -> Seq<SpecMember> {
    ms.map_values(|m: EnumMember| m@)
}

/// The significant tokens of `s`, in order.
pub open spec fn sigs(s: Seq<SpecToken>) -> Seq<SpecToken>
    decreases s.len(),
{
    if s.len() == 0 {
        Seq::empty()
    } else if is_sig(s.last()) {
        sigs(s.drop_last()).push(s.last())
    } else {
        sigs(s.drop_last())
    }
}

/// The end of a member's initialiser that starts at `k`: the first `,`
/// at bracket depth zero, or `close`.
pub open spec fn init_end(ts: Seq<SpecToken>, k: int, close: int, depth: int) -> int
    decreases close - k,
{
    if k >= close || k < 0 || k >= ts.len() {
        k
    } else if ts[k] == SpecToken::Punctuator(","@) && depth == 0 {
        k
    } else if ts[k] == SpecToken::Punctuator("("@) || ts[k] == SpecToken::Punctuator("["@)
        || ts[k] == SpecToken::Punctuator("{"@) {
        init_end(ts, k + 1, close, depth + 1)
    } else if ts[k] == SpecToken::Punctuator(")"@) || ts[k] == SpecToken::Punctuator("]"@)
        || ts[k] == SpecToken::Punctuator("}"@) {
        init_end(ts, k + 1, close, depth - 1)
    } else {
        init_end(ts, k + 1, close, depth)
    }
}

/// The initialiser that the tokens `expr` make: a lone number or string
/// literal, or else the trimmed text of the expression.
pub open spec fn classify_init(expr: Seq<SpecToken>) -> SpecInit {
    let s = sigs(expr);
    if s.len() == 1 {
        match s[0] {
            SpecToken::Number(n) => SpecInit::Number(n),
            SpecToken::StringLiteral(t) => SpecInit::StringLit(t),
            _ => SpecInit::Other(trimmed(render(expr))),
        }
    } else {
        SpecInit::Other(trimmed(render(expr)))
    }
}

/// The initialiser of a member whose name is just before `j`, and where
/// the scan goes on from.
pub open spec fn member_init(ts: Seq<SpecToken>, j: int, close: int) -> (SpecInit, int) {
    match next_sig(ts, j) {
        Some(eq) => if eq < close && ts[eq] == SpecToken::Punctuator("="@) {
            let k = init_end(ts, eq + 1, close, 0);
            (classify_init(ts.subrange(eq + 1, k)), k)
        } else {
            (SpecInit::Absent, j)
        },
        None => (SpecInit::Absent, j),
    }
}

/// The members of an enum body that closes at `close`, parsed from `i`
/// with `acc` found so far; `None` where a member name is no identifier.
pub open spec fn members_from(ts: Seq<SpecToken>, i: int, close: int, acc: Seq<SpecMember>) -> Option<
    Seq<SpecMember>,
>
    decreases close - i,
{
    if i >= close || i < 0 {
        Some(acc)
    } else {
        match next_sig(ts, i) {
            Some(name_idx) => if name_idx < close {
                match ts[name_idx] {
                    SpecToken::Identifier(name) => {
                        let (init, j) = member_init(ts, name_idx + 1, close);
                        let acc2 = acc.push(SpecMember { name, init });
                        match next_sig(ts, j) {
                            Some(comma) => if comma < close && ts[comma] == SpecToken::Punctuator(
                                ","@,
                            ) {
                                proof {
                                    lemma_next_sig(ts, i);
                                    lemma_member_init_bounds(ts, name_idx + 1, close);
                                    lemma_next_sig(ts, j);
                                }
                                members_from(ts, comma + 1, close, acc2)
                            } else {
                                Some(acc2)
                            },
                            None => Some(acc2),
                        }
                    },
                    _ => None,
                }
            } else {
                Some(acc)
            },
            None => Some(acc),
        }
    }
}

/// Reading a member initializer never moves backwards.
pub proof fn lemma_member_init_bounds(ts: Seq<SpecToken>, j: int, close: int)
    requires
        0 <= j,
    ensures
        member_init(ts, j, close).1 >= j,
{
    lemma_next_sig(ts, j);
    if let Some(eq) = next_sig(ts, j) {
        lemma_init_end_bounds(ts, eq + 1, close, 0);
    }
}

/// The end of an initializer expression lies between its start and the end of the body.
pub proof fn lemma_init_end_bounds(ts: Seq<SpecToken>, k: int, close: int, depth: int)
    requires
        0 <= k,
    ensures
        k <= init_end(ts, k, close, depth),
        k <= close <= ts.len() ==> init_end(ts, k, close, depth) <= close,
    decreases close - k,
{
    if k < close && k < ts.len() {
        lemma_init_end_bounds(ts, k + 1, close, depth + 1);
        lemma_init_end_bounds(ts, k + 1, close, depth - 1);
        lemma_init_end_bounds(ts, k + 1, close, depth);
    }
}

proof fn lemma_sigs_push(s: Seq<SpecToken>, t: SpecToken)
    ensures
        sigs(s.push(t)) == (if is_sig(t) {
            sigs(s).push(t)
        } else {
            sigs(s)
        }),
{
    assert(s.push(t).drop_last() =~= s);
}

/// Parses the members of the enum body between `brace_idx` and `close`,
/// split at the commas at depth zero.
fn parse_members(tokens: &[Token], brace_idx: usize, close: usize) -> (r: Option<Vec<EnumMember>>)
    requires
        brace_idx < usize::MAX,
        close <= tokens@.len(),
    ensures
        (match r {
            Some(ms) => Some(member_views(ms@)),
            None => None::<Seq<SpecMember>>,
        }) == members_from(views(tokens@), brace_idx + 1, close as int, Seq::empty()),
{
    let ghost ts = views(tokens@);
    let mut members: Vec<EnumMember> = Vec::new();
    let mut i = brace_idx + 1;
    proof {
        assert(member_views(members@) =~= Seq::<SpecMember>::empty());
    }
    while i < close
        invariant_except_break
            ts == views(tokens@),
            close <= tokens@.len(),
            members_from(ts, i as int, close as int, member_views(members@)) == members_from(
                ts,
                brace_idx + 1,
                close as int,
                Seq::empty(),
            ),
        ensures
            members_from(ts, brace_idx + 1, close as int, Seq::empty()) == Some(
                member_views(members@),
            ),
        decreases close - i,
    {
        proof {
            lemma_next_sig(ts, i as int);
        }
        let name_idx = match next_sig_index(tokens, i) {
            Some(n) => if n < close {
                n
            } else {
                break;
            },
            None => break,
        };
        let name = match &tokens[name_idx] {
            Token::Identifier(name) => name,
            _ => return None,
        };
        let mut j = name_idx + 1;
        proof {
            lemma_next_sig(ts, j as int);
        }
        let init = match next_sig_index(tokens, j) {
            Some(eq_idx) => {
                if eq_idx < close && punct_is(&tokens[eq_idx], "=") {
                    // Collect the initialiser up to a comma at depth zero
                    // or the end of the body. Only `(`, `[` and `{` nest:
                    // `<` is far more often a shift or a comparison here.
                    // The depth is `opens - closes`.
                    let mut opens: usize = 0;
                    let mut closes: usize = 0;
                    let mut k = eq_idx + 1;
                    let expr_start = k;
                    loop
                        invariant
                            ts == views(tokens@),
                            expr_start <= k <= close <= tokens@.len(),
                            opens + closes <= k - expr_start,
                            init_end(ts, k as int, close as int, opens - closes) == init_end(
                                ts,
                                expr_start as int,
                                close as int,
                                0,
                            ),
                        ensures
                            expr_start <= k <= close,
                            k == init_end(ts, expr_start as int, close as int, 0),
                        decreases close - k,
                    {
                        if k >= close {
                            break;
                        }
                        let t = &tokens[k];
                        if punct_is(t, ",") && opens == closes {
                            break;
                        } else if punct_is(t, "(") || punct_is(t, "[") || punct_is(t, "{") {
                            opens += 1;
                            k += 1;
                        } else if punct_is(t, ")") || punct_is(t, "]") || punct_is(t, "}") {
                            closes += 1;
                            k += 1;
                        } else {
                            k += 1;
                        }
                    }
                    let ghost expr = ts.subrange(expr_start as int, k as int);
                    // The text of the expression and its significant
                    // tokens: how many, and the first.
                    let mut text = String::new();
                    let mut sig_count: usize = 0;
                    let mut first_sig: usize = expr_start;
                    let mut m = expr_start;
                    proof {
                        assert(ts.subrange(expr_start as int, m as int) =~= Seq::<
                            SpecToken,
                        >::empty());
                        assert(render(Seq::<SpecToken>::empty()) =~= Seq::<char>::empty());
                    }
                    while m < k
                        invariant
                            ts == views(tokens@),
                            expr_start <= m <= k <= close <= tokens@.len(),
                            expr == ts.subrange(expr_start as int, k as int),
                            text@ == render(ts.subrange(expr_start as int, m as int)),
                            sig_count == sigs(ts.subrange(expr_start as int, m as int)).len(),
                            sig_count <= m - expr_start,
                            sig_count >= 1 ==> expr_start <= first_sig < m && sigs(
                                ts.subrange(expr_start as int, m as int),
                            )[0] == ts[first_sig as int],
                        decreases k - m,
                    {
                        let ghost pre = ts.subrange(expr_start as int, m as int);
                        text.append(token_text(&tokens[m]));
                        proof {
                            assert(ts.subrange(expr_start as int, m + 1) =~= pre.push(
                                ts[m as int],
                            ));
                            lemma_render_push(pre, ts[m as int]);
                            lemma_sigs_push(pre, ts[m as int]);
                        }
                        if is_significant(&tokens[m]) {
                            if sig_count == 0 {
                                first_sig = m;
                            }
                            sig_count += 1;
                        }
                        m += 1;
                    }
                    let init = if sig_count == 1 {
                        match &tokens[first_sig] {
                            Token::Number(n) => Init::Number(n.clone()),
                            Token::StringLiteral(s) => Init::StringLit(s.clone()),
                            _ => Init::Other(trim(text.as_str()).to_owned()),
                        }
                    } else {
                        Init::Other(trim(text.as_str()).to_owned())
                    };
                    j = k;
                    init
                } else {
                    Init::Absent
                }
            },
            None => Init::Absent,
        };
        let ghost acc = member_views(members@);
        members.push(EnumMember { name: name.clone(), init });
        proof {
            assert(member_views(members@) =~= acc.push(members@.last()@));
            lemma_next_sig(ts, j as int);
        }
        // Past the next comma, if there is one.
        match next_sig_index(tokens, j) {
            Some(comma_idx) => {
                if comma_idx < close && punct_is(&tokens[comma_idx], ",") {
                    i = comma_idx + 1;
                } else {
                    break;
                }
            },
            None => break,
        }
    }
    Some(members)
}


// ---------------------------------------------------------------------
// Rendering
// ---------------------------------------------------------------------

/// The line that sets both mappings of `member` to `value`.
pub open spec fn reverse_line(name: Seq<char>, member: Seq<char>, value: Seq<char>) -> Seq<char> {
    "    "@ + name + "["@ + name + "[\""@ + member + "\"] = "@ + value + "] = \""@ + member
        + "\";\n"@
}

/// The line that sets only the forward mapping of `member` to `value`.
pub open spec fn forward_line(name: Seq<char>, member: Seq<char>, value: Seq<char>) -> Seq<char> {
    "    "@ + name + "[\""@ + member + "\"] = "@ + value + ";\n"@
}

/// The next implicit value after a member initialised by the number
/// literal `n`: one more than its value where it parses as an `i64`.
pub open spec fn next_after_number(n: Seq<char>, next: int) -> int {
    match parsed_i64(n) {
        Some(v) => v + 1,
        None => next,
    }
}

/// The lines for the members `ms`, the next implicit value being `next`.
pub open spec fn enum_lines(name: Seq<char>, ms: Seq<SpecMember>, next: int) -> Seq<char>
    decreases ms.len(),
{
    if ms.len() == 0 {
        Seq::empty()
    } else {
        let m = ms[0];
        match m.init {
            SpecInit::Absent => reverse_line(name, m.name, decimal(next)) + enum_lines(
                name,
                ms.drop_first(),
                next + 1,
            ),
            SpecInit::Number(n) => reverse_line(name, m.name, n) + enum_lines(
                name,
                ms.drop_first(),
                next_after_number(n, next),
            ),
            SpecInit::StringLit(t) => forward_line(name, m.name, t) + enum_lines(
                name,
                ms.drop_first(),
                next,
            ),
            SpecInit::Other(e) => forward_line(name, m.name, e) + enum_lines(
                name,
                ms.drop_first(),
                next,
            ),
        }
    }
}

/// How the implicit value counter moves on over a member initialised by
/// `init`, standing at `c` before it: one up after a member without an
/// initialiser, one past the value of a number literal that parses as an
/// `i64`, and unchanged otherwise.
pub open spec fn counter_step(init: SpecInit, c: int) -> int {
    match init {
        SpecInit::Absent => c + 1,
        SpecInit::Number(n) => next_after_number(n, c),
        _ => c,
    }
}

/// The value of the implicit value counter at the member `k` of `ms`,
/// starting from zero at the first.
pub open spec fn counter_at(ms: Seq<SpecMember>, k: int) -> int
    decreases k,
{
    if k <= 0 {
        0
    } else {
        counter_step(ms[k - 1].init, counter_at(ms, k - 1))
    }
}

/// The line of the member `m`, the counter standing at `c`: a member
/// without an initialiser gets the counter's value.
pub open spec fn member_line(name: Seq<char>, m: SpecMember, c: int) -> Seq<char> {
    match m.init {
        SpecInit::Absent => reverse_line(name, m.name, decimal(c)),
        SpecInit::Number(n) => reverse_line(name, m.name, n),
        SpecInit::StringLit(t) => forward_line(name, m.name, t),
        SpecInit::Other(e) => forward_line(name, m.name, e),
    }
}

/// The lines of the first `k` members of `ms`, each with the counter at it.
pub open spec fn lines_upto(name: Seq<char>, ms: Seq<SpecMember>, k: int) -> Seq<char>
    decreases k,
{
    if k <= 0 {
        Seq::empty()
    } else {
        lines_upto(name, ms, k - 1) + member_line(name, ms[k - 1], counter_at(ms, k - 1))
    }
}

proof fn lemma_enum_lines_from(name: Seq<char>, ms: Seq<SpecMember>, k: int)
    requires
        0 <= k <= ms.len(),
    ensures
        lines_upto(name, ms, k) + enum_lines(name, ms.subrange(k, ms.len() as int), counter_at(ms, k))
            == enum_lines(name, ms, 0),
    decreases k,
{
    if k == 0 {
        assert(ms.subrange(0, ms.len() as int) =~= ms);
        assert(lines_upto(name, ms, 0) + enum_lines(name, ms, 0) =~= enum_lines(name, ms, 0));
    } else {
        lemma_enum_lines_from(name, ms, k - 1);
        let prev = ms.subrange(k - 1, ms.len() as int);
        assert(prev[0] == ms[k - 1]);
        assert(prev.drop_first() =~= ms.subrange(k, ms.len() as int));
        let c = counter_at(ms, k - 1);
        assert(enum_lines(name, prev, c) == member_line(name, ms[k - 1], c) + enum_lines(
            name,
            ms.subrange(k, ms.len() as int),
            counter_step(ms[k - 1].init, c),
        ));
        assert(lines_upto(name, ms, k) + enum_lines(name, ms.subrange(k, ms.len() as int), counter_at(ms, k))
            =~= lines_upto(name, ms, k - 1) + enum_lines(name, prev, c));
    }
}

/// The enum counter: the members' lines follow one another, and each
/// member without an initialiser gets the value of the counter at it,
/// which starts at zero and moves on as `counter_step` says.
pub proof fn lemma_enum_counter_law(name: Seq<char>, ms: Seq<SpecMember>)
    ensures
        enum_lines(name, ms, 0) == lines_upto(name, ms, ms.len() as int),
{
    lemma_enum_lines_from(name, ms, ms.len() as int);
    assert(ms.subrange(ms.len() as int, ms.len() as int) =~= Seq::<SpecMember>::empty());
    assert(lines_upto(name, ms, ms.len() as int) + Seq::<char>::empty() =~= lines_upto(
        name,
        ms,
        ms.len() as int,
    ));
}

/// The implicit value counter after a member initialised by a number
/// literal that parsed as `parsed` (`None` where it is no `i64`), the
/// counter standing at `next` before it.
pub fn counter_after_number(parsed: Option<i64>, next: i128) -> (r: i128)
    ensures
        r == match parsed {
            Some(v) => v + 1,
            None => next as int,
        },
{
    match parsed {
        Some(v) => v as i128 + 1,
        None => next,
    }
}

/// The JavaScript for the enum `name` with members `ms`.
pub open spec fn enum_js(name: Seq<char>, ms: Seq<SpecMember>) -> Seq<char> {
    "var "@ + name + ";\n(function ("@ + name + ") {\n"@ + enum_lines(name, ms, 0) + "})("@ + name
        + " || ("@ + name + " = {}));"@
}

/// Appends the line that sets both mappings of `member` to `value`.
fn push_reverse_line(js: &mut String, name: &str, member: &str, value: &str)
    ensures
        final(js)@ == old(js)@ + reverse_line(name@, member@, value@),
{
    js.append("    ");
    js.append(name);
    js.append("[");
    js.append(name);
    js.append("[\"");
    js.append(member);
    js.append("\"] = ");
    js.append(value);
    js.append("] = \"");
    js.append(member);
    js.append("\";\n");
    proof {
        assert(js@ =~= old(js)@ + reverse_line(name@, member@, value@));
    }
}

/// Appends the line that sets the forward mapping of `member` to `value`.
fn push_forward_line(js: &mut String, name: &str, member: &str, value: &str)
    ensures
        final(js)@ == old(js)@ + forward_line(name@, member@, value@),
{
    js.append("    ");
    js.append(name);
    js.append("[\"");
    js.append(member);
    js.append("\"] = ");
    js.append(value);
    js.append(";\n");
    proof {
        assert(js@ =~= old(js)@ + forward_line(name@, member@, value@));
    }
}

/// Renders the enum `name` as an immediately invoked function that fills
/// in its mappings.
pub fn render_enum(name: &str, members: &[EnumMember]) -> (js: String)
    ensures
        js@ == enum_js(name@, member_views(members@)),
{
    let ghost ms = member_views(members@);
    let mut js = String::new();
    js.append("var ");
    js.append(name);
    js.append(";\n(function (");
    js.append(name);
    js.append(") {\n");
    let ghost header = js@;

    // Wide enough that counting on from any `i64` never overflows.
    let mut next_numeric: i128 = 0;
    let mut k: usize = 0;
    proof {
        assert(ms.subrange(0, ms.len() as int) =~= ms);
    }
    while k < members.len()
        invariant
            ms == member_views(members@),
            k <= members@.len(),
            i64::MIN <= next_numeric <= i64::MAX + k,
            js@ + enum_lines(name@, ms.subrange(k as int, ms.len() as int), next_numeric as int)
                == header + enum_lines(name@, ms, 0),
        decreases members.len() - k,
    {
        let m = &members[k];
        let ghost rest = ms.subrange(k + 1, ms.len() as int);
        proof {
            assert(ms.subrange(k as int, ms.len() as int).drop_first() =~= rest);
            assert(ms.subrange(k as int, ms.len() as int)[0] == m@);
        }
        match &m.init {
            Init::Absent => {
                let value = int_to_string(next_numeric);
                push_reverse_line(&mut js, name, m.name.as_str(), value.as_str());
                proof {
                    assert(js@ + enum_lines(name@, rest, next_numeric + 1) =~= header + enum_lines(
                        name@,
                        ms,
                        0,
                    ));
                }
                next_numeric += 1;
            },
            Init::Number(n) => {
                push_reverse_line(&mut js, name, m.name.as_str(), n.as_str());
                let ghost before = next_numeric as int;
                next_numeric = counter_after_number(parse_i64(n.as_str()), next_numeric);
                proof {
                    assert(next_numeric == next_after_number(n@, before));
                    assert(js@ + enum_lines(name@, rest, next_numeric as int) =~= header
                        + enum_lines(name@, ms, 0));
                }
            },
            Init::StringLit(s) => {
                push_forward_line(&mut js, name, m.name.as_str(), s.as_str());
                proof {
                    assert(js@ + enum_lines(name@, rest, next_numeric as int) =~= header
                        + enum_lines(name@, ms, 0));
                }
            },
            Init::Other(expr) => {
                push_forward_line(&mut js, name, m.name.as_str(), expr.as_str());
                proof {
                    assert(js@ + enum_lines(name@, rest, next_numeric as int) =~= header
                        + enum_lines(name@, ms, 0));
                }
            },
        }
        k += 1;
    }
    proof {
        assert(ms.subrange(k as int, ms.len() as int) =~= Seq::<SpecMember>::empty());
    }
    js.append("})(");
    js.append(name);
    js.append(" || (");
    js.append(name);
    js.append(" = {}));");
    proof {
        assert(js@ =~= enum_js(name@, ms));
    }
    js
}

// ---------------------------------------------------------------------
// The pass
// ---------------------------------------------------------------------

/// The name, closing brace and members of an enum declaration whose
/// `enum` keyword is at `i`, when it has the form `enum Name { ... }`
/// with identifiers for member names.
pub open spec fn enum_decl(ts: Seq<SpecToken>, i: int) -> Option<(Seq<char>, int, Seq<SpecMember>)> {
    match next_sig(ts, i + 1) {
        Some(name_idx) => match ts[name_idx] {
            SpecToken::Identifier(enum_name) => match next_sig(ts, name_idx + 1) {
                Some(brace_idx) => if ts[brace_idx] == SpecToken::Punctuator("{"@) {
                    match matching_close(ts, brace_idx, 0, "{"@, "}"@) {
                        Some(close) => match members_from(ts, brace_idx + 1, close, Seq::empty()) {
                            Some(ms) => Some((enum_name, close, ms)),
                            None => None,
                        },
                        None => None,
                    }
                } else {
                    None
                },
                None => None,
            },
            _ => None,
        },
        None => None,
    }
}

/// A recognized enum declaration closes after its start, inside the stream.
pub proof fn lemma_enum_decl_bounds(ts: Seq<SpecToken>, i: int)
    requires
        0 <= i < ts.len(),
    ensures
        enum_decl(ts, i) matches Some((n, close, ms)) ==> i < close < ts.len(),
{
    lemma_next_sig(ts, i + 1);
    if let Some(name_idx) = next_sig(ts, i + 1) {
        lemma_next_sig(ts, name_idx + 1);
        if let Some(brace_idx) = next_sig(ts, name_idx + 1) {
            lemma_matching_close_bounds(ts, brace_idx, 0, "{"@, "}"@);
        }
    }
}

/// The tokens that expanding enums leaves, scanning from `i` with `out`
/// kept so far; it stops after `Eof`.
pub open spec fn enums_from(ts: Seq<SpecToken>, i: int, out: Seq<SpecToken>) -> Seq<SpecToken>
    decreases ts.len() - i,
{
    if i < 0 || i >= ts.len() {
        out
    } else if ts[i] is Eof {
        out.push(ts[i])
    } else if ts[i] == SpecToken::Identifier("enum"@) && enum_decl(ts, i) is Some {
        let (name, close, ms) = enum_decl(ts, i)->0;
        proof {
            lemma_enum_decl_bounds(ts, i);
        }
        enums_from(
            ts,
            close + 1,
            drop_trailing(drop_trailing(out, "const"@), "export"@).push(
                SpecToken::Raw(enum_js(name, ms)),
            ),
        )
    } else {
        enums_from(ts, i + 1, out.push(ts[i]))
    }
}

/// The tokens with every enum declaration expanded.
pub open spec fn expand_enums(ts: Seq<SpecToken>) -> Seq<SpecToken> {
    enums_from(ts, 0, Seq::empty())
}

/// Removes a trailing `kw` (with the insignificant tokens after it) from
/// `out`.
fn drop_trailing_keyword(out: &mut Vec<Token>, kw: &str)
    ensures
        views(final(out)@) == drop_trailing(views(old(out)@), kw@),
{
    drop_trailing_identifier(out, kw);
}

/// The parts of the enum declaration whose keyword is at `i`.
fn parse_enum_declaration(tokens: &[Token], i: usize) -> (r: Option<(String, usize, Vec<EnumMember>)>)
    requires
        i < tokens.len(),
    ensures
        (match r {
            Some((n, c, ms)) => Some((n@, c as int, member_views(ms@))),
            None => None::<(Seq<char>, int, Seq<SpecMember>)>,
        }) == enum_decl(views(tokens@), i as int),
{
    let ghost ts = views(tokens@);
    proof {
        lemma_next_sig(ts, i + 1);
    }
    let name_idx = next_sig_index(tokens, i + 1)?;
    let enum_name = match &tokens[name_idx] {
        Token::Identifier(n) => n,
        _ => return None,
    };
    proof {
        lemma_next_sig(ts, name_idx + 1);
    }
    let brace_idx = next_sig_index(tokens, name_idx + 1)?;
    if !punct_is(&tokens[brace_idx], "{") {
        return None;
    }
    proof {
        lemma_matching_close_bounds(ts, brace_idx as int, 0, "{"@, "}"@);
    }
    let close = consume_matching_bracket(tokens, brace_idx, "{", "}")?;
    let members = parse_members(tokens, brace_idx, close)?;
    Some((enum_name.clone(), close, members))
}

/// Returns `tokens` with each enum declaration replaced by the JavaScript
/// that builds it.
pub(crate) fn strip_enums(tokens: &[Token]) -> (out: Vec<Token>)
    ensures
        views(out@) == expand_enums(views(tokens@)),
{
    let ghost ts = views(tokens@);
    let mut out: Vec<Token> = Vec::with_capacity(tokens.len());
    proof {
        assert(views(out@) =~= Seq::<SpecToken>::empty());
    }
    let mut i: usize = 0;
    while i < tokens.len()
        invariant
            ts == views(tokens@),
            i <= tokens@.len(),
            enums_from(ts, i as int, views(out@)) == expand_enums(ts),
        decreases tokens.len() - i,
    {
        if matches!(tokens[i], Token::Eof) {
            let ghost before = views(out@);
            out.push(copy_token(&tokens[i]));
            proof {
                assert(views(out@) =~= before.push(ts[i as int]));
            }
            return out;
        }
        if ident_is(&tokens[i], "enum") {
            proof {
                lemma_enum_decl_bounds(ts, i as int);
            }
            if let Some(parsed) = parse_enum_declaration(tokens, i) {
                let (enum_name, close, members) = parsed;
                drop_trailing_keyword(&mut out, "const");
                drop_trailing_keyword(&mut out, "export");
                let ghost before = views(out@);
                out.push(Token::Raw(render_enum(enum_name.as_str(), members.as_slice())));
                proof {
                    assert(views(out@) =~= before.push(out@.last()@));
                }
                i = close + 1;
                continue;
            }
        }
        let ghost before = views(out@);
        out.push(copy_token(&tokens[i]));
        proof {
            assert(views(out@) =~= before.push(ts[i as int]));
        }
        i += 1;
    }
    out
}


proof fn lemma_enums_identity(ts: Seq<SpecToken>, i: int)
    requires
        eof_terminated(ts),
        0 <= i < ts.len(),
        forall|k: int| 0 <= k < ts.len() ==> #[trigger] ts[k] != SpecToken::Identifier("enum"@),
    ensures
        enums_from(ts, i, ts.take(i)) == ts,
    decreases ts.len() - i,
{
    if ts[i] is Eof {
        assert(ts.take(i).push(ts[i]) =~= ts);
    } else {
        assert(ts.take(i).push(ts[i]) =~= ts.take(i + 1));
        lemma_enums_identity(ts, i + 1);
    }
}

/// A token stream with no `enum` identifier passes through unchanged.
pub proof fn lemma_expand_enums_identity(ts: Seq<SpecToken>)
    requires
        eof_terminated(ts),
        forall|k: int| 0 <= k < ts.len() ==> #[trigger] ts[k] != SpecToken::Identifier("enum"@),
    ensures
        expand_enums(ts) == ts,
{
    assert(ts.take(0) =~= Seq::<SpecToken>::empty());
    lemma_enums_identity(ts, 0);
}


proof fn lemma_enums_raw_free(ts: Seq<SpecToken>, i: int, out: Seq<SpecToken>)
    requires
        0 <= i <= ts.len(),
        is_subsequence(without_raw(out), without_raw(ts.take(i))),
    ensures
        is_subsequence(without_raw(enums_from(ts, i, out)), without_raw(ts)),
    decreases ts.len() - i,
{
    if i == ts.len() {
        assert(ts.take(i) =~= ts);
    } else if ts[i] is Eof {
        lemma_raw_free_push(out, ts, i);
        lemma_raw_free_extend(out.push(ts[i]), ts, i + 1, ts.len() as int);
        assert(ts.take(ts.len() as int) =~= ts);
    } else if ts[i] == SpecToken::Identifier("enum"@) && enum_decl(ts, i) is Some {
        let (name, close, ms) = enum_decl(ts, i)->0;
        lemma_enum_decl_bounds(ts, i);
        let m1 = lemma_drop_trailing_take(out, "const"@);
        lemma_raw_free_take(out, without_raw(ts.take(i)), m1);
        let o1 = drop_trailing(out, "const"@);
        let m2 = lemma_drop_trailing_take(o1, "export"@);
        lemma_raw_free_take(o1, without_raw(ts.take(i)), m2);
        let o2 = drop_trailing(o1, "export"@);
        lemma_without_raw_push(o2, SpecToken::Raw(enum_js(name, ms)));
        lemma_raw_free_extend(o2.push(SpecToken::Raw(enum_js(name, ms))), ts, i, close + 1);
        lemma_enums_raw_free(ts, close + 1, o2.push(SpecToken::Raw(enum_js(name, ms))));
    } else {
        lemma_raw_free_push(out, ts, i);
        lemma_enums_raw_free(ts, i + 1, out.push(ts[i]));
    }
}

/// Expanding enums writes its own `Raw` text and otherwise only ever
/// removes tokens.
pub proof fn lemma_expand_enums_only_adds_raw(ts: Seq<SpecToken>)
    ensures
        is_subsequence(without_raw(expand_enums(ts)), without_raw(ts)),
{
    assert(ts.take(0) =~= Seq::<SpecToken>::empty());
    assert(without_raw(Seq::<SpecToken>::empty()) =~= Seq::<SpecToken>::empty());
    lemma_subsequence_refl(Seq::empty());
    lemma_enums_raw_free(ts, 0, Seq::empty());
}

} // verus!
