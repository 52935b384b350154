//! The compiled form of a pattern: tokens and expressions, together with
//! their mathematical model and a size measure used for termination.

use vstd::prelude::*;

verus! {

/// One grammar construct of a compiled pattern.
///
/// Quantifier markers (`?`, `+`) are not tokens: the parser folds them into
/// the token immediately preceding them, so `Optional` and `Repeated` always
/// carry the token they quantify.
#[derive(Debug, PartialEq)]
pub enum Token {
    /// Matches exactly this character.
    Literal(char),
    /// A backslash-escaped character; `d` and `w` are the digit and
    /// alphanumeric predicate classes, anything else matches itself.
    EscapedLiteral(char),
    /// `.`: matches any single character.
    AnyChar,
    /// `[...]`: matches a character contained in the set.
    PositiveClass(Vec<char>),
    /// `[^...]`: matches a character not contained in the set.
    NegativeClass(Vec<char>),
    /// `(a|b|c)`: an ordered group of alternative sub-expressions.
    Alternation(Vec<Expression>),
    /// `^` as the first character of the whole pattern.
    StartAnchor,
    /// `$` as the last character of the whole pattern.
    EndAnchor,
    /// A token followed by `?`: zero or one occurrence.
    Optional(Box<Token>),
    /// A token followed by `+`: one or more occurrences.
    Repeated(Box<Token>),
}

/// An ordered sequence of tokens: the compiled form of a whole pattern.
#[derive(Debug, PartialEq)]
pub struct Expression {
    pub tokens: Vec<Token>,
}

/// The mathematical model of a [`Token`], over `Seq` instead of `Vec`.
pub enum SpecToken {
    Literal(char),
    EscapedLiteral(char),
    AnyChar,
    PositiveClass(Seq<char>),
    NegativeClass(Seq<char>),
    Alternation(Seq<Seq<SpecToken>>),
    StartAnchor,
    EndAnchor,
    Optional(Box<SpecToken>),
    Repeated(Box<SpecToken>),
}

/// The model of a token.
pub open spec fn token_view(t: Token) -> SpecToken
    decreases t,
{
    match t {
        Token::Literal(c) => SpecToken::Literal(c),
        Token::EscapedLiteral(c) => SpecToken::EscapedLiteral(c),
        Token::AnyChar => SpecToken::AnyChar,
        Token::PositiveClass(cs) => SpecToken::PositiveClass(cs@),
        Token::NegativeClass(cs) => SpecToken::NegativeClass(cs@),
        Token::Alternation(alts) => SpecToken::Alternation(alternatives_view(alts@)),
        Token::StartAnchor => SpecToken::StartAnchor,
        Token::EndAnchor => SpecToken::EndAnchor,
        Token::Optional(inner) => SpecToken::Optional(Box::new(token_view(*inner))),
        Token::Repeated(inner) => SpecToken::Repeated(Box::new(token_view(*inner))),
    }
}

/// The model of a token sequence, element by element.
pub open spec fn tokens_view(ts: Seq<Token>) -> Seq<SpecToken>
    decreases ts,
{
    if ts.len() == 0 {
        Seq::empty()
    } else {
        seq![token_view(ts[0])] + tokens_view(ts.drop_first())
    }
}

/// The model of a sequence of alternative sub-expressions.
pub open spec fn alternatives_view(es: Seq<Expression>) -> Seq<Seq<SpecToken>>
    decreases es,
{
    if es.len() == 0 {
        Seq::empty()
    } else {
        seq![tokens_view(es[0].tokens@)] + alternatives_view(es.drop_first())
    }
}

/// The model of a whole expression.
pub open spec fn expr_view(e: Expression) -> Seq<SpecToken> {
    tokens_view(e.tokens@)
}

impl View for Token {
    type V = SpecToken;

    open spec fn view(&self) -> SpecToken {
        token_view(*self)
    }
}

impl View for Expression {
    type V = Seq<SpecToken>;

    open spec fn view(&self) -> Seq<SpecToken> {
        expr_view(*self)
    }
}

/// Structural size of a token; every token has size at least 1, and a
/// wrapped or nested token is strictly smaller than its wrapper.  Used as
/// the termination measure of the evaluator.
pub open spec fn token_size(t: SpecToken) -> nat
    decreases t,
{
    match t {
        SpecToken::Alternation(alts) => 1 + alternatives_size(alts),
        SpecToken::Optional(inner) => 1 + token_size(*inner),
        SpecToken::Repeated(inner) => 1 + token_size(*inner),
        _ => 1,
    }
}

/// Structural size of a token sequence: the sum of its tokens' sizes,
/// plus one per token so that dropping a token always shrinks it.
pub open spec fn tokens_size(ts: Seq<SpecToken>) -> nat
    decreases ts,
{
    if ts.len() == 0 {
        0
    } else {
        1 + token_size(ts[0]) + tokens_size(ts.drop_first())
    }
}

/// Structural size of a sequence of alternatives; each alternative counts
/// one more than its tokens, so an alternative's tokens are strictly
/// smaller than the sequence that holds it.
pub open spec fn alternatives_size(es: Seq<Seq<SpecToken>>) -> nat
    decreases es,
{
    if es.len() == 0 {
        0
    } else {
        1 + tokens_size(es[0]) + alternatives_size(es.drop_first())
    }
}

/// `tokens_view` maps element by element.
pub proof fn lemma_tokens_view_index(ts: Seq<Token>)
    ensures
        tokens_view(ts).len() == ts.len(),
        forall|i: int| 0 <= i < ts.len() ==> tokens_view(ts)[i] == token_view(#[trigger] ts[i]),
    decreases ts,
{
    if ts.len() > 0 {
        lemma_tokens_view_index(ts.drop_first());
        assert(tokens_view(ts) == seq![token_view(ts[0])] + tokens_view(ts.drop_first()));
        assert forall|i: int| 0 <= i < ts.len() implies tokens_view(ts)[i] == token_view(
            #[trigger] ts[i],
        ) by {
            if i > 0 {
                assert(ts.drop_first()[i - 1] == ts[i]);
                assert(tokens_view(ts)[i] == tokens_view(ts.drop_first())[i - 1]);
                assert(tokens_view(ts.drop_first())[i - 1] == token_view(ts.drop_first()[i - 1]));
            } else {
                assert(tokens_view(ts)[0] == token_view(ts[0]));
            }
        }
    }
}

/// `alternatives_view` maps element by element.
pub proof fn lemma_alternatives_view_index(es: Seq<Expression>)
    ensures
        alternatives_view(es).len() == es.len(),
        forall|i: int|
            0 <= i < es.len() ==> alternatives_view(es)[i] == tokens_view(
                #[trigger] es[i].tokens@,
            ),
    decreases es,
{
    if es.len() > 0 {
        lemma_alternatives_view_index(es.drop_first());
        assert(alternatives_view(es) == seq![tokens_view(es[0].tokens@)] + alternatives_view(
            es.drop_first(),
        ));
        assert forall|i: int| 0 <= i < es.len() implies alternatives_view(es)[i] == tokens_view(
            #[trigger] es[i].tokens@,
        ) by {
            if i > 0 {
                assert(es.drop_first()[i - 1] == es[i]);
                assert(alternatives_view(es)[i] == alternatives_view(es.drop_first())[i - 1]);
                assert(alternatives_view(es.drop_first())[i - 1] == tokens_view(
                    es.drop_first()[i - 1].tokens@,
                ));
            } else {
                assert(alternatives_view(es)[0] == tokens_view(es[0].tokens@));
            }
        }
    }
}

/// Appending a token appends its model.
pub proof fn lemma_tokens_view_push(ts: Seq<Token>, t: Token)
    ensures
        tokens_view(ts.push(t)) == tokens_view(ts).push(token_view(t)),
{
    lemma_tokens_view_index(ts);
    lemma_tokens_view_index(ts.push(t));
    assert forall|i: int| 0 <= i < ts.len() + 1 implies tokens_view(ts.push(t))[i] == tokens_view(
        ts,
    ).push(token_view(t))[i] by {
        assert(tokens_view(ts.push(t))[i] == token_view(ts.push(t)[i]));
        if i < ts.len() {
            assert(ts.push(t)[i] == ts[i]);
            assert(tokens_view(ts)[i] == token_view(ts[i]));
        } else {
            assert(ts.push(t)[i] == t);
        }
    }
    assert(tokens_view(ts.push(t)) =~= tokens_view(ts).push(token_view(t)));
}

/// Wrapping the last token (as a quantifier marker does) replaces its
/// model by the wrapped model.
pub proof fn lemma_tokens_view_wrap_last(ts: Seq<Token>, w: Token)
    requires
        ts.len() > 0,
    ensures
        tokens_view(ts.drop_last().push(w)) == tokens_view(ts).update(
            ts.len() - 1,
            token_view(w),
        ),
        tokens_view(ts).last() == token_view(ts.last()),
{
    let n = ts.len() as int;
    lemma_tokens_view_index(ts);
    lemma_tokens_view_index(ts.drop_last());
    lemma_tokens_view_push(ts.drop_last(), w);
    assert forall|i: int| 0 <= i < n implies tokens_view(ts.drop_last().push(w))[i] == tokens_view(
        ts,
    ).update(n - 1, token_view(w))[i] by {
        if i < n - 1 {
            assert(ts.drop_last()[i] == ts[i]);
            assert(tokens_view(ts.drop_last())[i] == token_view(ts.drop_last()[i]));
            assert(tokens_view(ts)[i] == token_view(ts[i]));
        }
    }
    assert(tokens_view(ts.drop_last().push(w)) =~= tokens_view(ts).update(n - 1, token_view(w)));
    assert(tokens_view(ts)[n - 1] == token_view(ts[n - 1]));
}

/// Appending an alternative appends its model.
pub proof fn lemma_alternatives_view_push(es: Seq<Expression>, e: Expression)
    ensures
        alternatives_view(es.push(e)) == alternatives_view(es).push(tokens_view(e.tokens@)),
{
    lemma_alternatives_view_index(es);
    lemma_alternatives_view_index(es.push(e));
    assert forall|i: int| 0 <= i < es.len() + 1 implies alternatives_view(es.push(e))[i]
        == alternatives_view(es).push(tokens_view(e.tokens@))[i] by {
        assert(alternatives_view(es.push(e))[i] == tokens_view(es.push(e)[i].tokens@));
        if i < es.len() {
            assert(es.push(e)[i] == es[i]);
            assert(alternatives_view(es)[i] == tokens_view(es[i].tokens@));
        } else {
            assert(es.push(e)[i] == e);
        }
    }
    assert(alternatives_view(es.push(e)) =~= alternatives_view(es).push(tokens_view(e.tokens@)));
}

/// Every token in a sequence weighs no more than the whole sequence.
pub proof fn lemma_token_size_le(ts: Seq<SpecToken>, i: int)
    requires
        0 <= i < ts.len(),
    ensures
        token_size(ts[i]) <= tokens_size(ts),
    decreases ts,
{
    if i > 0 {
        lemma_token_size_le(ts.drop_first(), i - 1);
    }
}

/// Every alternative's tokens weigh strictly less than the sequence of
/// alternatives that holds it.
pub proof fn lemma_alternative_size_lt(es: Seq<Seq<SpecToken>>, i: int)
    requires
        0 <= i < es.len(),
    ensures
        tokens_size(es[i]) < alternatives_size(es),
    decreases es,
{
    if i > 0 {
        lemma_alternative_size_lt(es.drop_first(), i - 1);
    }
}

/// Structural well-formedness of a token nested inside an expression:
/// every alternation holds at least one alternative, and each alternative
/// is itself a well-formed expression free of anchors.
pub open spec fn token_nested_wf(t: SpecToken) -> bool
    decreases t,
{
    match t {
        SpecToken::Alternation(alts) => alts.len() >= 1 && forall|i: int|
            0 <= i < alts.len() ==> alternative_wf(#[trigger] alts[i]),
        SpecToken::Optional(inner) => token_nested_wf(*inner),
        SpecToken::Repeated(inner) => token_nested_wf(*inner),
        _ => true,
    }
}

/// Well-formedness of one alternative of a group: anchors never occur in
/// it (inside a group, `^` and `$` are ordinary literals), and its tokens
/// are well formed.
pub open spec fn alternative_wf(ts: Seq<SpecToken>) -> bool
    decreases ts,
{
    forall|i: int|
        0 <= i < ts.len() ==> (#[trigger] ts[i]) != SpecToken::StartAnchor && ts[i]
            != SpecToken::EndAnchor && token_nested_wf(ts[i])
}

/// Well-formedness of a whole compiled expression: a bare start anchor
/// can stand only first, a bare end anchor only last, and every token is
/// well formed.  Quantifier markers never appear at all: they are no
/// tokens, the parser having folded each into the token preceding it.
pub open spec fn expression_wf(ts: Seq<SpecToken>) -> bool {
    &&& forall|i: int| 0 <= i < ts.len() && (#[trigger] ts[i]) == SpecToken::StartAnchor ==> i
        == 0
    &&& forall|i: int| 0 <= i < ts.len() && (#[trigger] ts[i]) == SpecToken::EndAnchor ==> i
        == ts.len() - 1
    &&& forall|i: int| 0 <= i < ts.len() ==> token_nested_wf(#[trigger] ts[i])
}

} // verus!
