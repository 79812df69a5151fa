//! Tokens of the TypeScript subset that the lexer recognises.
use vstd::prelude::*;

verus! {

/// A token of the source text. Every token but `Eof` carries the raw
/// source text it was cut from, so that rendering the tokens back
/// reproduces the input.
#[derive(Debug, Clone, PartialEq, Eq)]
pub enum Token {
    /// Identifiers and keywords alike.
    Identifier(String),
    Number(String),
    /// The literal with its quotes, escapes left as written.
    StringLiteral(String),
    /// A one-character or multi-character operator.
    Punctuator(String),
    /// A run of whitespace characters.
    Whitespace(String),
    /// A line comment or block comment, verbatim.
    Comment(String),
    /// Text produced by a rewriting pass, emitted as it stands.
    Raw(String),
    Eof,
}

/// The mathematical model of a token: its kind and its text.
pub enum SpecToken {
    Identifier(Seq<char>),
    Number(Seq<char>),
    StringLiteral(Seq<char>),
    Punctuator(Seq<char>),
    Whitespace(Seq<char>),
    Comment(Seq<char>),
    Raw(Seq<char>),
    Eof,
}

impl View for Token {
    type V = SpecToken;

    open spec fn view(&self) -> SpecToken {
        match self {
            Token::Identifier(s) => SpecToken::Identifier(s@),
            Token::Number(s) => SpecToken::Number(s@),
            Token::StringLiteral(s) => SpecToken::StringLiteral(s@),
            Token::Punctuator(s) => SpecToken::Punctuator(s@),
            Token::Whitespace(s) => SpecToken::Whitespace(s@),
            Token::Comment(s) => SpecToken::Comment(s@),
            Token::Raw(s) => SpecToken::Raw(s@),
            Token::Eof => SpecToken::Eof,
        }
    }
}

/// The source text that a token stands for; `Eof` stands for none.
pub open spec fn text_of(t: SpecToken) -> Seq<char> {
    match t {
        SpecToken::Identifier(s) => s,
        SpecToken::Number(s) => s,
        SpecToken::StringLiteral(s) => s,
        SpecToken::Punctuator(s) => s,
        SpecToken::Whitespace(s) => s,
        SpecToken::Comment(s) => s,
        SpecToken::Raw(s) => s,
        SpecToken::Eof => Seq::empty(),
    }
}

/// The texts of `ts`, one after another.
pub open spec fn render(ts: Seq<SpecToken>) -> Seq<char>
    decreases ts.len(),
{
    if ts.len() == 0 {
        Seq::empty()
    } else {
        text_of(ts[0]) + render(ts.drop_first())
    }
}

/// Rendering distributes over concatenation.
pub proof fn lemma_render_concat(a: Seq<SpecToken>, b: Seq<SpecToken>)
    ensures
        render(a + b) == render(a) + render(b),
    decreases a.len(),
{
    if a.len() == 0 {
        assert(a + b =~= b);
        assert(render(a) + render(b) =~= render(b));
    } else {
        lemma_render_concat(a.drop_first(), b);
        assert((a + b).drop_first() =~= a.drop_first() + b);
        assert(render(a + b) =~= render(a) + render(b));
    }
}

/// A single token renders as its text.
pub proof fn lemma_render_single(t: SpecToken)
    ensures
        render(seq![t]) == text_of(t),
{
    let e = Seq::<SpecToken>::empty();
    assert(seq![t].drop_first() =~= e);
    assert(render(e) == Seq::<char>::empty());
    assert(render(seq![t]) =~= text_of(t));
}

/// Rendering a token pushed at the end appends its text.
pub proof fn lemma_render_push(a: Seq<SpecToken>, t: SpecToken)
    ensures
        render(a.push(t)) == render(a) + text_of(t),
{
    lemma_render_concat(a, seq![t]);
    assert(a + seq![t] =~= a.push(t));
    lemma_render_single(t);
}

/// `ts` closes with `Eof` and holds no other: the shape the lexer gives.
pub open spec fn eof_terminated(ts: Seq<SpecToken>) -> bool {
    &&& ts.len() >= 1
    &&& ts.last() == SpecToken::Eof
    &&& forall|k: int| 0 <= k < ts.len() - 1 ==> ts[k] != SpecToken::Eof
}

/// `idx` picks the tokens of `a` out of `b`, in order.
pub open spec fn picks(a: Seq<SpecToken>, b: Seq<SpecToken>, idx: Seq<int>) -> bool {
    &&& idx.len() == a.len()
    &&& forall|k: int| 0 <= k < idx.len() ==> 0 <= #[trigger] idx[k] < b.len() && a[k] == b[idx[k]]
    &&& forall|k: int, l: int| 0 <= k < l < idx.len() ==> #[trigger] idx[k] < #[trigger] idx[l]
}

/// `a` is `b` with some tokens left out.
pub open spec fn is_subsequence(a: Seq<SpecToken>, b: Seq<SpecToken>) -> bool {
    exists|idx: Seq<int>| #[trigger] picks(a, b, idx)
}

/// Any sequence is a subsequence of itself.
pub proof fn lemma_subsequence_refl(a: Seq<SpecToken>)
    ensures
        is_subsequence(a, a),
{
    let idx = Seq::new(a.len(), |k: int| k);
    assert(picks(a, a, idx));
}

/// A subsequence of a prefix of `c` is a subsequence of `c`.
pub proof fn lemma_subsequence_extend(a: Seq<SpecToken>, b: Seq<SpecToken>, c: Seq<SpecToken>)
    requires
        is_subsequence(a, b),
        b.len() <= c.len(),
        c.take(b.len() as int) == b,
    ensures
        is_subsequence(a, c),
{
    let idx = choose|idx: Seq<int>| picks(a, b, idx);
    assert forall|k: int| 0 <= k < idx.len() implies 0 <= #[trigger] idx[k] < c.len() && a[k]
        == c[idx[k]] by {
        assert(c.take(b.len() as int)[idx[k]] == c[idx[k]]);
    }
    assert(picks(a, c, idx));
}

/// A subsequence of the first `i` tokens of `ts` is one of the first `e`.
pub proof fn lemma_subsequence_extend_take(a: Seq<SpecToken>, ts: Seq<SpecToken>, i: int, e: int)
    requires
        is_subsequence(a, ts.take(i)),
        0 <= i <= e <= ts.len(),
    ensures
        is_subsequence(a, ts.take(e)),
{
    assert(ts.take(e).take(i) =~= ts.take(i));
    lemma_subsequence_extend(a, ts.take(i), ts.take(e));
}

/// Keeping the same token after both keeps a subsequence.
pub proof fn lemma_subsequence_push(a: Seq<SpecToken>, b: Seq<SpecToken>, t: SpecToken)
    requires
        is_subsequence(a, b),
    ensures
        is_subsequence(a.push(t), b.push(t)),
{
    let idx = choose|idx: Seq<int>| picks(a, b, idx);
    let idx2 = idx.push(b.len() as int);
    assert forall|k: int| 0 <= k < idx2.len() implies 0 <= #[trigger] idx2[k] < b.push(t).len()
        && a.push(t)[k] == b.push(t)[idx2[k]] by {
        if k < idx.len() {
            assert(idx2[k] == idx[k]);
        }
    }
    assert forall|k: int, l: int| 0 <= k < l < idx2.len() implies #[trigger] idx2[k]
        < #[trigger] idx2[l] by {
        if l < idx.len() {
            assert(idx2[k] == idx[k] && idx2[l] == idx[l]);
        } else {
            assert(idx2[k] == idx[k]);
        }
    }
    assert(picks(a.push(t), b.push(t), idx2));
}

/// A prefix of a subsequence is a subsequence.
pub proof fn lemma_subsequence_take(a: Seq<SpecToken>, b: Seq<SpecToken>, m: int)
    requires
        is_subsequence(a, b),
        0 <= m <= a.len(),
    ensures
        is_subsequence(a.take(m), b),
{
    let idx = choose|idx: Seq<int>| picks(a, b, idx);
    let idx2 = idx.take(m);
    assert forall|k: int, l: int| 0 <= k < l < idx2.len() implies #[trigger] idx2[k]
        < #[trigger] idx2[l] by {
        assert(idx2[k] == idx[k] && idx2[l] == idx[l]);
    }
    assert(picks(a.take(m), b, idx2));
}

/// `s` without the tokens that a rewriting pass wrote (`Raw`).
pub open spec fn without_raw(s: Seq<SpecToken>) -> Seq<SpecToken>
    decreases s.len(),
{
    if s.len() == 0 {
        Seq::empty()
    } else if s.last() is Raw {
        without_raw(s.drop_last())
    } else {
        without_raw(s.drop_last()).push(s.last())
    }
}

/// Pushing a token keeps it among the non-`Raw` tokens exactly when it is not `Raw`.
pub proof fn lemma_without_raw_push(s: Seq<SpecToken>, t: SpecToken)
    ensures
        without_raw(s.push(t)) == (if t is Raw {
            without_raw(s)
        } else {
            without_raw(s).push(t)
        }),
{
    assert(s.push(t).drop_last() =~= s);
}

/// The non-`Raw` tokens of a prefix are a prefix of the non-`Raw` tokens.
pub proof fn lemma_without_raw_prefix(s: Seq<SpecToken>, m: int)
    requires
        0 <= m <= s.len(),
    ensures
        without_raw(s.take(m)).len() <= without_raw(s).len(),
        without_raw(s).take(without_raw(s.take(m)).len() as int) == without_raw(s.take(m)),
    decreases s.len() - m,
{
    if m == s.len() {
        assert(s.take(m) =~= s);
        assert(without_raw(s).take(without_raw(s).len() as int) =~= without_raw(s));
    } else {
        lemma_without_raw_prefix(s, m + 1);
        assert(s.take(m + 1) =~= s.take(m).push(s[m]));
        lemma_without_raw_push(s.take(m), s[m]);
        let a = without_raw(s.take(m));
        let b = without_raw(s.take(m + 1));
        let c = without_raw(s);
        if !(s[m] is Raw) {
            assert(c.take(a.len() as int) =~= c.take(b.len() as int).take(a.len() as int));
            assert(b.take(a.len() as int) =~= a);
        }
    }
}

/// Where the non-`Raw` tokens of `a` are a subsequence of those of the
/// first `i` tokens of `ts`, they are one of those of the first `e`.
pub proof fn lemma_raw_free_extend(a: Seq<SpecToken>, ts: Seq<SpecToken>, i: int, e: int)
    requires
        is_subsequence(without_raw(a), without_raw(ts.take(i))),
        0 <= i <= e <= ts.len(),
    ensures
        is_subsequence(without_raw(a), without_raw(ts.take(e))),
{
    lemma_without_raw_prefix(ts.take(e), i);
    assert(ts.take(e).take(i) =~= ts.take(i));
    lemma_subsequence_extend(without_raw(a), without_raw(ts.take(i)), without_raw(ts.take(e)));
}

/// Keeping the token at `i` keeps the non-`Raw` tokens a subsequence.
pub proof fn lemma_raw_free_push(a: Seq<SpecToken>, ts: Seq<SpecToken>, i: int)
    requires
        is_subsequence(without_raw(a), without_raw(ts.take(i))),
        0 <= i < ts.len(),
    ensures
        is_subsequence(without_raw(a.push(ts[i])), without_raw(ts.take(i + 1))),
{
    assert(ts.take(i + 1) =~= ts.take(i).push(ts[i]));
    lemma_without_raw_push(a, ts[i]);
    lemma_without_raw_push(ts.take(i), ts[i]);
    if !(ts[i] is Raw) {
        lemma_subsequence_push(without_raw(a), without_raw(ts.take(i)), ts[i]);
    }
}

/// Cutting the tail off `a` keeps its non-`Raw` tokens a subsequence.
pub proof fn lemma_raw_free_take(a: Seq<SpecToken>, b: Seq<SpecToken>, m: int)
    requires
        is_subsequence(without_raw(a), b),
        0 <= m <= a.len(),
    ensures
        is_subsequence(without_raw(a.take(m)), b),
{
    lemma_without_raw_prefix(a, m);
    lemma_subsequence_take(without_raw(a), b, without_raw(a.take(m)).len() as int);
}

/// The models of a sequence of tokens.
pub open spec fn views(ts: Seq<Token>) -> Seq<SpecToken> {
    ts.map_values(|t: Token| t@)
}

/// Receives the tokens that the lexer produces, one at a time.
pub trait TokenSink {
    /// Whether this sink keeps a record of what it receives, as
    /// `received` describes; a sink that does not claims nothing.
    open spec fn records_tokens() -> bool {
        false
    }

    /// The tokens received so far, for a sink that records them.
    open spec fn received(&self) -> Seq<SpecToken> {
        Seq::empty()
    }

    fn process_token(&mut self, token: Token)
        ensures
            Self::records_tokens() ==> final(self).received() == old(self).received().push(
                token@,
            ),
    ;
}

/// A sink that keeps every token it receives.
pub struct CollectingSink {
    pub tokens: Vec<Token>,
}

impl Default for CollectingSink {
    fn default() -> (s: Self)
        ensures
            s.tokens@.len() == 0,
    {
        CollectingSink { tokens: Vec::new() }
    }
}

impl TokenSink for CollectingSink {
    open spec fn records_tokens() -> bool {
        true
    }

    open spec fn received(&self) -> Seq<SpecToken> {
        views(self.tokens@)
    }

    fn process_token(&mut self, token: Token) {
        self.tokens.push(token);
        proof {
            assert(views(self.tokens@) =~= views(old(self).tokens@).push(token@));
        }
    }
}

} // verus!
