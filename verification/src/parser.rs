//! The pattern parser: a recursive descent over a character cursor.
//!
//! The grammar is modelled by the spec functions `spec_parse_token`,
//! `spec_scan_class`, `spec_parse_class`, `spec_parse_item`,
//! `spec_parse_group_items`, `spec_parse_group` and `spec_parse`; each
//! takes the pattern and an absolute cursor position and yields the parsed
//! construct together with the position after it, or `None` on a malformed
//! pattern.  The executable parser is proved to return exactly what the
//! model says.

use vstd::prelude::*;
use vstd::string::StrSliceExecFns;

use crate::ast::Expression;
use crate::ast::SpecToken;
use crate::ast::Token;
use crate::ast::alternative_wf;
use crate::ast::expr_view;
use crate::ast::expression_wf;
use crate::ast::token_nested_wf;
use crate::ast::token_view;
use crate::ast::lemma_tokens_view_index;
use crate::ast::lemma_tokens_view_push;
use crate::ast::lemma_tokens_view_wrap_last;
use crate::ast::lemma_alternatives_view_push;
use crate::ast::tokens_view;
use crate::ast::alternatives_view;

verus! {

/// The one way a parse can fail: the cursor ran past the end of the input
/// while a closing delimiter was expected, or a quantifier marker had no
/// preceding token to attach to.
#[derive(PartialEq, Eq, Structural, Clone, Copy, Debug)]
pub enum ParseError {
    MalformedPattern,
}

/// What one step of the parser produces: either a finished token, or a
/// quantifier marker that the caller must fold into the token it just
/// produced.
pub enum ParseItem {
    Tok(Token),
    OptionalMarker,
    RepeatedMarker,
}

/// The model of a [`ParseItem`].
pub enum SpecParseItem {
    Tok(SpecToken),
    OptionalMarker,
    RepeatedMarker,
}

/// The model of one step of the parser.
pub open spec fn parse_item_view(p: ParseItem) -> SpecParseItem {
    match p {
        ParseItem::Tok(t) => SpecParseItem::Tok(token_view(t)),
        ParseItem::OptionalMarker => SpecParseItem::OptionalMarker,
        ParseItem::RepeatedMarker => SpecParseItem::RepeatedMarker,
    }
}

impl View for ParseItem {
    type V = SpecParseItem;

    open spec fn view(&self) -> SpecParseItem {
        parse_item_view(*self)
    }
}

/// Collects the characters of a bracket expression from position `i` up to
/// the closing `]`, yielding them and the position after the `]`.
pub open spec fn spec_scan_class(s: Seq<char>, i: int, acc: Seq<char>) -> Option<(Seq<char>, int)>
    decreases s.len() - i, 0int,
{
    if i < 0 || i >= s.len() {
        None
    } else if s[i] == ']' {
        Some((acc, i + 1))
    } else {
        spec_scan_class(s, i + 1, acc.push(s[i]))
    }
}

/// Parses a bracket expression from position `i` (just after the `[`):
/// a leading `^` makes it a negative class, the rest of the characters up
/// to the closing `]` are the class members.
pub open spec fn spec_parse_class(s: Seq<char>, i: int) -> Option<(SpecToken, int)>
    decreases s.len() - i, 1int,
{
    if 0 <= i < s.len() && s[i] == '^' {
        match spec_scan_class(s, i + 1, Seq::empty()) {
            Some((cs, j)) => Some((SpecToken::NegativeClass(cs), j)),
            None => None,
        }
    } else {
        match spec_scan_class(s, i, Seq::empty()) {
            Some((cs, j)) => Some((SpecToken::PositiveClass(cs), j)),
            None => None,
        }
    }
}

/// Parses one construct starting at position `i`.
///
/// `^` is a start anchor only at the very first position of the pattern and
/// `$` an end anchor only at the very last, as the grammar demands;
/// anywhere else they are ordinary literals.  The recursive calls advance
/// the cursor by at least one position (`lemma_parse_token_progress`); the
/// clamped index `j2` below only makes that fact available to the
/// termination measure.
pub open spec fn spec_parse_token(s: Seq<char>, i: int) -> Option<(SpecParseItem, int)>
    decreases s.len() - i, 2int,
{
    if i < 0 || i >= s.len() {
        None
    } else {
        let c = s[i];
        if c == '$' && i + 1 == s.len() {
            Some((SpecParseItem::Tok(SpecToken::EndAnchor), i + 1))
        } else if c == '^' && i == 0 {
            Some((SpecParseItem::Tok(SpecToken::StartAnchor), 1))
        } else if c == '\\' {
            if i + 1 < s.len() {
                Some((SpecParseItem::Tok(SpecToken::EscapedLiteral(s[i + 1])), i + 2))
            } else {
                None
            }
        } else if c == '(' {
            match spec_parse_group(s, i + 1) {
                Some((alts, j)) => Some((SpecParseItem::Tok(SpecToken::Alternation(alts)), j)),
                None => None,
            }
        } else if c == '[' {
            match spec_parse_class(s, i + 1) {
                Some((t, j)) => Some((SpecParseItem::Tok(t), j)),
                None => None,
            }
        } else if c == '.' {
            Some((SpecParseItem::Tok(SpecToken::AnyChar), i + 1))
        } else if c == '+' {
            Some((SpecParseItem::RepeatedMarker, i + 1))
        } else if c == '?' {
            Some((SpecParseItem::OptionalMarker, i + 1))
        } else {
            Some((SpecParseItem::Tok(SpecToken::Literal(c)), i + 1))
        }
    }
}

/// Folds one parsed step into the tokens collected so far: a token is
/// appended, a quantifier marker wraps the last collected token, and a
/// marker with nothing to wrap is a malformed pattern.
pub open spec fn spec_fold_item(acc: Seq<SpecToken>, p: SpecParseItem) -> Option<Seq<SpecToken>> {
    match p {
        SpecParseItem::Tok(t) => Some(acc.push(t)),
        SpecParseItem::OptionalMarker => if acc.len() == 0 {
            None
        } else {
            Some(acc.update(acc.len() - 1, SpecToken::Optional(Box::new(acc.last()))))
        },
        SpecParseItem::RepeatedMarker => if acc.len() == 0 {
            None
        } else {
            Some(acc.update(acc.len() - 1, SpecToken::Repeated(Box::new(acc.last()))))
        },
    }
}

/// Parses one alternative of a group from position `i`: tokens are
/// collected (with quantifier folding) up to a `|`, which is consumed, or
/// up to the group's closing `)`, which is left in place.
pub open spec fn spec_parse_item(s: Seq<char>, i: int, acc: Seq<SpecToken>) -> Option<
    (Seq<SpecToken>, int),
>
    decreases s.len() - i, 3int,
{
    if i < 0 || i >= s.len() {
        None
    } else if s[i] == ')' {
        Some((acc, i))
    } else if s[i] == '|' {
        Some((acc, i + 1))
    } else {
        match spec_parse_token(s, i) {
            None => None,
            Some((p, j)) => {
                let j2 = if i < j <= s.len() {
                    j
                } else {
                    i + 1
                };
                match spec_fold_item(acc, p) {
                    None => None,
                    Some(acc2) => spec_parse_item(s, j2, acc2),
                }
            },
        }
    }
}

/// Collects the alternatives of a group from position `i` up to the
/// closing `)`, which is consumed.
pub open spec fn spec_parse_group_items(s: Seq<char>, i: int, acc: Seq<Seq<SpecToken>>) -> Option<
    (Seq<Seq<SpecToken>>, int),
>
    decreases s.len() - i, 4int,
{
    if i < 0 || i >= s.len() {
        None
    } else if s[i] == ')' {
        Some((acc, i + 1))
    } else {
        match spec_parse_item(s, i, Seq::empty()) {
            None => None,
            Some((item, j)) => {
                let j2 = if i < j <= s.len() {
                    j
                } else {
                    i + 1
                };
                spec_parse_group_items(s, j2, acc.push(item))
            },
        }
    }
}

/// Parses a parenthesized group from position `i` (just after the `(`).
/// Every alternation holds at least one alternative: a group with no
/// content at all holds one empty alternative, which matches the empty
/// string.
pub open spec fn spec_parse_group(s: Seq<char>, i: int) -> Option<(Seq<Seq<SpecToken>>, int)>
    decreases s.len() - i, 5int,
{
    match spec_parse_group_items(s, i, Seq::empty()) {
        Some((alts, j)) => if alts.len() == 0 {
            Some((seq![Seq::<SpecToken>::empty()], j))
        } else {
            Some((alts, j))
        },
        None => None,
    }
}

/// Parses the whole pattern from position `i`, folding quantifier markers
/// into the token preceding them; `|`, `)` and `]` are ordinary literals
/// at the top level.
pub open spec fn spec_parse_from(s: Seq<char>, i: int, acc: Seq<SpecToken>) -> Option<
    Seq<SpecToken>,
>
    decreases s.len() - i, 3int,
{
    if i >= s.len() {
        Some(acc)
    } else {
        match spec_parse_token(s, i) {
            None => None,
            Some((p, j)) => {
                let j2 = if i < j <= s.len() {
                    j
                } else {
                    i + 1
                };
                match spec_fold_item(acc, p) {
                    None => None,
                    Some(acc2) => spec_parse_from(s, j2, acc2),
                }
            },
        }
    }
}

/// The compiled form of a pattern, or `None` when the pattern is
/// malformed.
pub open spec fn spec_parse(s: Seq<char>) -> Option<Seq<SpecToken>> {
    spec_parse_from(s, 0, Seq::empty())
}

/// The parser always advances: whatever a parsing function returns, the
/// returned position lies strictly past the position it started from and
/// within the input (one past it at most).
pub proof fn lemma_scan_class_progress(s: Seq<char>, i: int, acc: Seq<char>)
    requires
        0 <= i,
    ensures
        spec_scan_class(s, i, acc) matches Some((_, j)) ==> i < j <= s.len(),
    decreases s.len() - i, 0int,
{
    if 0 <= i < s.len() && s[i] != ']' {
        lemma_scan_class_progress(s, i + 1, acc.push(s[i]));
    }
}

pub proof fn lemma_parse_class_progress(s: Seq<char>, i: int)
    requires
        0 <= i,
    ensures
        spec_parse_class(s, i) matches Some((_, j)) ==> i < j <= s.len(),
    decreases s.len() - i, 1int,
{
    if 0 <= i < s.len() && s[i] == '^' {
        lemma_scan_class_progress(s, i + 1, Seq::empty());
    } else {
        lemma_scan_class_progress(s, i, Seq::empty());
    }
}

pub proof fn lemma_parse_token_progress(s: Seq<char>, i: int)
    requires
        0 <= i,
    ensures
        spec_parse_token(s, i) matches Some((_, j)) ==> i < j <= s.len(),
    decreases s.len() - i, 2int,
{
    if 0 <= i < s.len() {
        let c = s[i];
        if c == '(' {
            lemma_parse_group_progress(s, i + 1);
        } else if c == '[' {
            lemma_parse_class_progress(s, i + 1);
        }
    }
}

pub proof fn lemma_parse_item_progress(s: Seq<char>, i: int, acc: Seq<SpecToken>)
    requires
        0 <= i,
    ensures
        match spec_parse_item(s, i, acc) {
            Some((r, j)) => i <= j <= s.len() && ((i < s.len() && s[i] != ')') ==> i < j),
            None => true,
        },
    decreases s.len() - i, 3int,
{
    if 0 <= i < s.len() && s[i] != ')' && s[i] != '|' {
        lemma_parse_token_progress(s, i);
        if let Some((p, j)) = spec_parse_token(s, i) {
            if let Some(acc2) = spec_fold_item(acc, p) {
                lemma_parse_item_progress(s, j, acc2);
            }
        }
    }
}

pub proof fn lemma_parse_group_items_progress(s: Seq<char>, i: int, acc: Seq<Seq<SpecToken>>)
    requires
        0 <= i,
    ensures
        spec_parse_group_items(s, i, acc) matches Some((_, j)) ==> i < j <= s.len(),
    decreases s.len() - i, 4int,
{
    if 0 <= i < s.len() && s[i] != ')' {
        lemma_parse_item_progress(s, i, Seq::empty());
        if let Some((item, j)) = spec_parse_item(s, i, Seq::empty()) {
            let j2 = if i < j <= s.len() {
                j
            } else {
                i + 1
            };
            lemma_parse_group_items_progress(s, j2, acc.push(item));
        }
    }
}

pub proof fn lemma_parse_group_progress(s: Seq<char>, i: int)
    requires
        0 <= i,
    ensures
        spec_parse_group(s, i) matches Some((_, j)) ==> i < j <= s.len(),
    decreases s.len() - i, 5int,
{
    lemma_parse_group_items_progress(s, i, Seq::empty());
}

/// A bracket expression yields a class token: never an anchor, and well
/// formed.
proof fn lemma_wf_class(s: Seq<char>, i: int)
    ensures
        spec_parse_class(s, i) matches Some((t, j)) ==> token_nested_wf(t) && t
            != SpecToken::StartAnchor && t != SpecToken::EndAnchor,
{
}

/// One parsed construct is well formed; a start anchor arises only at the
/// very first position, and an end anchor only when the cursor has
/// reached the pattern's end.
proof fn lemma_wf_token(s: Seq<char>, i: int)
    requires
        0 <= i,
    ensures
        match spec_parse_token(s, i) {
            Some((SpecParseItem::Tok(t), j)) => token_nested_wf(t) && (t
                == SpecToken::StartAnchor ==> i == 0) && (t == SpecToken::EndAnchor ==> j
                == s.len()),
            _ => true,
        },
    decreases s.len() - i, 2int,
{
    if 0 <= i < s.len() {
        if s[i] == '(' {
            lemma_wf_group(s, i + 1);
        } else if s[i] == '[' {
            lemma_wf_class(s, i + 1);
        }
    }
}

/// An alternative collected inside a group holds no anchors and only well
/// formed tokens.
proof fn lemma_wf_item(s: Seq<char>, i: int, acc: Seq<SpecToken>)
    requires
        1 <= i,
        alternative_wf(acc),
    ensures
        spec_parse_item(s, i, acc) matches Some((res, j)) ==> alternative_wf(res),
    decreases s.len() - i, 3int,
{
    if 1 <= i < s.len() && s[i] != ')' && s[i] != '|' {
        lemma_wf_token(s, i);
        lemma_parse_token_progress(s, i);
        if let Some((p, j)) = spec_parse_token(s, i) {
            match p {
                SpecParseItem::Tok(t) => {
                    if t == SpecToken::EndAnchor {
                        assert(spec_parse_item(s, s.len() as int, acc.push(t)) is None);
                    } else {
                        assert(alternative_wf(acc.push(t))) by {
                            assert forall|k: int| 0 <= k < acc.len() + 1 implies (#[trigger] acc.push(
                                t,
                            )[k]) != SpecToken::StartAnchor && acc.push(t)[k]
                                != SpecToken::EndAnchor && token_nested_wf(acc.push(t)[k]) by {
                                if k < acc.len() {
                                    assert(acc.push(t)[k] == acc[k]);
                                } else {
                                    assert(acc.push(t)[k] == t);
                                }
                            }
                        }
                        lemma_wf_item(s, j, acc.push(t));
                    }
                },
                SpecParseItem::OptionalMarker => {
                    if acc.len() > 0 {
                        let w = SpecToken::Optional(Box::new(acc.last()));
                        let acc2 = acc.update(acc.len() - 1, w);
                        assert(token_nested_wf(acc.last()));
                        assert(alternative_wf(acc2)) by {
                            assert forall|k: int| 0 <= k < acc2.len() implies (#[trigger] acc2[k])
                                != SpecToken::StartAnchor && acc2[k] != SpecToken::EndAnchor
                                && token_nested_wf(acc2[k]) by {
                                if k < acc.len() - 1 {
                                    assert(acc2[k] == acc[k]);
                                } else {
                                    assert(acc2[k] == w);
                                }
                            }
                        }
                        lemma_wf_item(s, j, acc2);
                    }
                },
                SpecParseItem::RepeatedMarker => {
                    if acc.len() > 0 {
                        let w = SpecToken::Repeated(Box::new(acc.last()));
                        let acc2 = acc.update(acc.len() - 1, w);
                        assert(token_nested_wf(acc.last()));
                        assert(alternative_wf(acc2)) by {
                            assert forall|k: int| 0 <= k < acc2.len() implies (#[trigger] acc2[k])
                                != SpecToken::StartAnchor && acc2[k] != SpecToken::EndAnchor
                                && token_nested_wf(acc2[k]) by {
                                if k < acc.len() - 1 {
                                    assert(acc2[k] == acc[k]);
                                } else {
                                    assert(acc2[k] == w);
                                }
                            }
                        }
                        lemma_wf_item(s, j, acc2);
                    }
                },
            }
        }
    }
}

/// Every alternative a group collects is well formed.
proof fn lemma_wf_group_items(s: Seq<char>, i: int, acc: Seq<Seq<SpecToken>>)
    requires
        1 <= i,
        forall|k: int| 0 <= k < acc.len() ==> alternative_wf(#[trigger] acc[k]),
    ensures
        spec_parse_group_items(s, i, acc) matches Some((alts, j)) ==> forall|k: int|
            0 <= k < alts.len() ==> alternative_wf(#[trigger] alts[k]),
    decreases s.len() - i, 4int,
{
    if 1 <= i < s.len() && s[i] != ')' {
        assert(alternative_wf(Seq::<SpecToken>::empty()));
        lemma_wf_item(s, i, Seq::empty());
        lemma_parse_item_progress(s, i, Seq::empty());
        if let Some((item, j)) = spec_parse_item(s, i, Seq::empty()) {
            assert(forall|k: int|
                0 <= k < acc.len() + 1 ==> alternative_wf(#[trigger] acc.push(item)[k]));
            lemma_wf_group_items(s, j, acc.push(item));
        }
    }
}

/// A parsed group holds at least one alternative, each well formed: an
/// alternation token is always well formed.
proof fn lemma_wf_group(s: Seq<char>, i: int)
    requires
        1 <= i,
    ensures
        spec_parse_group(s, i) matches Some((alts, j)) ==> alts.len() >= 1 && forall|k: int|
            0 <= k < alts.len() ==> alternative_wf(#[trigger] alts[k]),
    decreases s.len() - i, 5int,
{
    lemma_wf_group_items(s, i, Seq::empty());
    assert(alternative_wf(Seq::<SpecToken>::empty()));
}

/// The collected prefix of a parse stays well formed step by step.
proof fn lemma_wf_parse_from(s: Seq<char>, i: int, acc: Seq<SpecToken>)
    requires
        0 <= i,
        i == 0 ==> acc.len() == 0,
        forall|k: int| 0 <= k < acc.len() && (#[trigger] acc[k]) == SpecToken::StartAnchor ==> k
            == 0,
        forall|k: int| 0 <= k < acc.len() ==> (#[trigger] acc[k]) != SpecToken::EndAnchor,
        forall|k: int| 0 <= k < acc.len() ==> token_nested_wf(#[trigger] acc[k]),
    ensures
        spec_parse_from(s, i, acc) matches Some(res) ==> expression_wf(res),
    decreases s.len() - i, 3int,
{
    if i < s.len() {
        lemma_wf_token(s, i);
        lemma_parse_token_progress(s, i);
        if let Some((p, j)) = spec_parse_token(s, i) {
            match p {
                SpecParseItem::Tok(t) => {
                    let acc2 = acc.push(t);
                    if t == SpecToken::EndAnchor {
                        assert(spec_parse_from(s, s.len() as int, acc2) == Some(acc2));
                        assert(expression_wf(acc2)) by {
                            assert forall|k: int| 0 <= k < acc2.len() implies token_nested_wf(
                                #[trigger] acc2[k],
                            ) by {
                                if k < acc.len() {
                                    assert(acc2[k] == acc[k]);
                                } else {
                                    assert(acc2[k] == t);
                                }
                            }
                        }
                    } else {
                        assert forall|k: int| 0 <= k < acc2.len() implies token_nested_wf(
                            #[trigger] acc2[k],
                        ) && acc2[k] != SpecToken::EndAnchor && (acc2[k] == SpecToken::StartAnchor
                            ==> k == 0) by {
                            if k < acc.len() {
                                assert(acc2[k] == acc[k]);
                            } else {
                                assert(acc2[k] == t);
                            }
                        }
                        lemma_wf_parse_from(s, j, acc2);
                    }
                },
                SpecParseItem::OptionalMarker => {
                    if acc.len() > 0 {
                        let w = SpecToken::Optional(Box::new(acc.last()));
                        let acc2 = acc.update(acc.len() - 1, w);
                        assert(token_nested_wf(acc.last()));
                        assert forall|k: int| 0 <= k < acc2.len() implies token_nested_wf(
                            #[trigger] acc2[k],
                        ) && acc2[k] != SpecToken::EndAnchor && (acc2[k] == SpecToken::StartAnchor
                            ==> k == 0) by {
                            if k < acc.len() - 1 {
                                assert(acc2[k] == acc[k]);
                            } else {
                                assert(acc2[k] == w);
                            }
                        }
                        lemma_wf_parse_from(s, j, acc2);
                    }
                },
                SpecParseItem::RepeatedMarker => {
                    if acc.len() > 0 {
                        let w = SpecToken::Repeated(Box::new(acc.last()));
                        let acc2 = acc.update(acc.len() - 1, w);
                        assert(token_nested_wf(acc.last()));
                        assert forall|k: int| 0 <= k < acc2.len() implies token_nested_wf(
                            #[trigger] acc2[k],
                        ) && acc2[k] != SpecToken::EndAnchor && (acc2[k] == SpecToken::StartAnchor
                            ==> k == 0) by {
                            if k < acc.len() - 1 {
                                assert(acc2[k] == acc[k]);
                            } else {
                                assert(acc2[k] == w);
                            }
                        }
                        lemma_wf_parse_from(s, j, acc2);
                    }
                },
            }
        }
    }
}

/// Every expression the parser accepts satisfies the data model's
/// invariants: quantifier markers never stand bare (they are no tokens at
/// all), every alternation holds at least one alternative, a start anchor
/// stands only first and an end anchor only last, and inside a group the
/// anchor characters are ordinary literals.
pub proof fn lemma_parse_well_formed(p: Seq<char>)
    ensures
        spec_parse(p) matches Some(ts) ==> expression_wf(ts),
{
    lemma_wf_parse_from(p, 0, Seq::empty());
}

/// The characters of a string, one by one.
pub fn chars_of(s: &str) -> (v: Vec<char>)
    ensures
        v@ == s@,
{
    let n = s.unicode_len();
    let mut v: Vec<char> = Vec::new();
    let mut i: usize = 0;
    while i < n
        invariant
            i <= n,
            n as nat == s@.len(),
            v@ == s@.subrange(0, i as int),
        decreases n - i,
    {
        v.push(s.get_char(i));
        i = i + 1;
    }
    assert(v@ =~= s@);
    v
}

/// A character cursor over the pattern: the characters of the pattern and
/// the position of the next character to consume.
pub struct Parser {
    pub chars: Vec<char>,
    pub current: usize,
}

/// Folds one parsed step into the tokens collected so far, exactly as
/// `spec_fold_item` says: `false` means a quantifier marker had no
/// preceding token to attach to.
fn fold_item(tokens: &mut Vec<Token>, p: ParseItem) -> (ok: bool)
    ensures
        match spec_fold_item(tokens_view(old(tokens)@), parse_item_view(p)) {
            Some(acc2) => ok && tokens_view(final(tokens)@) == acc2,
            None => !ok,
        },
{
    let ghost acc = tokens_view(tokens@);
    proof {
        lemma_tokens_view_index(tokens@);
    }
    match p {
        ParseItem::Tok(t) => {
            proof {
                lemma_tokens_view_push(tokens@, t);
            }
            tokens.push(t);
            true
        },
        ParseItem::OptionalMarker => {
            let ghost before = tokens@;
            match tokens.pop() {
                None => false,
                Some(last) => {
                    let wrapped = Token::Optional(Box::new(last));
                    tokens.push(wrapped);
                    proof {
                        lemma_tokens_view_wrap_last(before, wrapped);
                        assert(tokens@ =~= before.drop_last().push(wrapped));
                        assert(tokens_view(tokens@) == acc.update(
                            acc.len() - 1,
                            SpecToken::Optional(Box::new(acc.last())),
                        ));
                    }
                    true
                },
            }
        },
        ParseItem::RepeatedMarker => {
            let ghost before = tokens@;
            match tokens.pop() {
                None => false,
                Some(last) => {
                    let wrapped = Token::Repeated(Box::new(last));
                    tokens.push(wrapped);
                    proof {
                        lemma_tokens_view_wrap_last(before, wrapped);
                        assert(tokens@ =~= before.drop_last().push(wrapped));
                        assert(tokens_view(tokens@) == acc.update(
                            acc.len() - 1,
                            SpecToken::Repeated(Box::new(acc.last())),
                        ));
                    }
                    true
                },
            }
        },
    }
}

impl Parser {
    /// A fresh cursor over a pattern, positioned at its first character.
    pub fn new(input: &str) -> (p: Parser)
        ensures
            p.chars@ == input@,
            p.current == 0,
    {
        Parser { current: 0, chars: chars_of(input) }
    }

    /// The next character, without consuming it.
    pub fn peek(&self) -> (c: char)
        requires
            self.current < self.chars.len(),
        ensures
            c == self.chars@[self.current as int],
    {
        self.chars[self.current]
    }

    /// Consumes and returns the next character.
    pub fn get(&mut self) -> (c: char)
        requires
            old(self).current < old(self).chars.len(),
        ensures
            final(self).chars@ == old(self).chars@,
            final(self).current == old(self).current + 1,
            c == old(self).chars@[old(self).current as int],
    {
        let ch = self.chars[self.current];
        self.current = self.current + 1;
        ch
    }

    /// Parses a bracket expression, the `[` already consumed: a positive
    /// or negative character class, exactly as `spec_parse_class` says.
    pub fn parse_positive_token(&mut self) -> (r: Result<Token, ParseError>)
        ensures
            final(self).chars@ == old(self).chars@,
            old(self).current <= final(self).current,
            match r {
                Ok(t) => spec_parse_class(old(self).chars@, old(self).current as int) == Some(
                    (token_view(t), final(self).current as int),
                ),
                Err(_) => spec_parse_class(old(self).chars@, old(self).current as int) is None,
            },
    {
        let ghost s = self.chars@;
        let ghost c0 = self.current as int;
        let negated: bool = if self.current < self.chars.len() && self.peek() == '^' {
            let _ = self.get();
            true
        } else {
            false
        };
        let ghost scan_start = self.current as int;
        let mut group: Vec<char> = Vec::new();
        loop
            invariant
                self.chars@ == s,
                s == old(self).chars@,
                c0 == old(self).current as int,
                negated ==> 0 <= c0 < s.len() && s[c0] == '^' && scan_start == c0 + 1,
                !negated ==> scan_start == c0 && !(0 <= c0 < s.len() && s[c0] == '^'),
                c0 <= scan_start <= self.current as int,
                spec_scan_class(s, scan_start, Seq::empty()) == spec_scan_class(
                    s,
                    self.current as int,
                    group@,
                ),
            decreases s.len() - self.current,
        {
            if self.current >= self.chars.len() {
                return Err(ParseError::MalformedPattern);
            }
            let c = self.peek();
            if c == ']' {
                let _ = self.get();
                if negated {
                    return Ok(Token::NegativeClass(group));
                } else {
                    return Ok(Token::PositiveClass(group));
                }
            }
            let c2 = self.get();
            group.push(c2);
        }
    }

    /// Parses one construct of the pattern, exactly as `spec_parse_token`
    /// says: a token, or a quantifier marker for the caller to fold.
    pub fn parse_token(&mut self) -> (r: Result<ParseItem, ParseError>)
        ensures
            final(self).chars@ == old(self).chars@,
            old(self).current <= final(self).current,
            match r {
                Ok(p) => spec_parse_token(old(self).chars@, old(self).current as int) == Some(
                    (parse_item_view(p), final(self).current as int),
                ),
                Err(_) => spec_parse_token(old(self).chars@, old(self).current as int) is None,
            },
        decreases self.chars@.len() - self.current, 0int,
    {
        if self.current >= self.chars.len() {
            return Err(ParseError::MalformedPattern);
        }
        let c = self.get();
        if c == '$' && self.current == self.chars.len() {
            Ok(ParseItem::Tok(Token::EndAnchor))
        } else if c == '^' && self.current == 1 {
            Ok(ParseItem::Tok(Token::StartAnchor))
        } else if c == '\\' {
            if self.current < self.chars.len() {
                let c2 = self.get();
                Ok(ParseItem::Tok(Token::EscapedLiteral(c2)))
            } else {
                Err(ParseError::MalformedPattern)
            }
        } else if c == '(' {
            match self.parse_union_group() {
                Ok(t) => Ok(ParseItem::Tok(t)),
                Err(e) => Err(e),
            }
        } else if c == '[' {
            match self.parse_positive_token() {
                Ok(t) => Ok(ParseItem::Tok(t)),
                Err(e) => Err(e),
            }
        } else if c == '.' {
            Ok(ParseItem::Tok(Token::AnyChar))
        } else if c == '+' {
            Ok(ParseItem::RepeatedMarker)
        } else if c == '?' {
            Ok(ParseItem::OptionalMarker)
        } else {
            Ok(ParseItem::Tok(Token::Literal(c)))
        }
    }

    /// Parses one alternative of a group, exactly as `spec_parse_item`
    /// says: tokens up to a `|` (consumed) or the closing `)` (left).
    pub fn parse_union_group_item(&mut self) -> (r: Result<Expression, ParseError>)
        ensures
            final(self).chars@ == old(self).chars@,
            old(self).current <= final(self).current,
            match r {
                Ok(e) => spec_parse_item(
                    old(self).chars@,
                    old(self).current as int,
                    Seq::empty(),
                ) == Some((expr_view(e), final(self).current as int)),
                Err(_) => spec_parse_item(
                    old(self).chars@,
                    old(self).current as int,
                    Seq::empty(),
                ) is None,
            },
        decreases self.chars@.len() - self.current, 1int,
    {
        let ghost s = self.chars@;
        let ghost i0 = self.current as int;
        let mut tokens: Vec<Token> = Vec::new();
        loop
            invariant
                self.chars@ == s,
                s == old(self).chars@,
                i0 == old(self).current as int,
                i0 <= self.current as int,
                spec_parse_item(s, i0, Seq::empty()) == spec_parse_item(
                    s,
                    self.current as int,
                    tokens_view(tokens@),
                ),
            decreases s.len() - self.current,
        {
            if self.current >= self.chars.len() {
                return Err(ParseError::MalformedPattern);
            }
            let c = self.peek();
            if c == ')' {
                return Ok(Expression { tokens });
            }
            if c == '|' {
                let _ = self.get();
                return Ok(Expression { tokens });
            }
            let ghost cur = self.current as int;
            proof {
                lemma_parse_token_progress(s, cur);
            }
            match self.parse_token() {
                Err(e) => {
                    return Err(e);
                },
                Ok(p) => {
                    if !fold_item(&mut tokens, p) {
                        return Err(ParseError::MalformedPattern);
                    }
                },
            }
        }
    }

    /// Parses a parenthesized group, the `(` already consumed, exactly as
    /// `spec_parse_group` says: the alternation of its alternatives, the
    /// closing `)` consumed.
    pub fn parse_union_group(&mut self) -> (r: Result<Token, ParseError>)
        ensures
            final(self).chars@ == old(self).chars@,
            old(self).current <= final(self).current,
            match r {
                Ok(t) => spec_parse_group(old(self).chars@, old(self).current as int) matches Some(
                    (alts, j),
                ) && token_view(t) == SpecToken::Alternation(alts) && final(self).current as int
                    == j,
                Err(_) => spec_parse_group(old(self).chars@, old(self).current as int) is None,
            },
        decreases self.chars@.len() - self.current, 2int,
    {
        let ghost s = self.chars@;
        let ghost i0 = self.current as int;
        let mut group: Vec<Expression> = Vec::new();
        loop
            invariant
                self.chars@ == s,
                s == old(self).chars@,
                i0 == old(self).current as int,
                i0 <= self.current as int,
                spec_parse_group_items(s, i0, Seq::empty()) == spec_parse_group_items(
                    s,
                    self.current as int,
                    alternatives_view(group@),
                ),
            decreases s.len() - self.current,
        {
            if self.current >= self.chars.len() {
                return Err(ParseError::MalformedPattern);
            }
            let c = self.peek();
            if c == ')' {
                let _ = self.get();
                if group.len() == 0 {
                    let empty_alt = Expression { tokens: Vec::new() };
                    proof {
                        lemma_alternatives_view_push(group@, empty_alt);
                    }
                    group.push(empty_alt);
                    proof {
                        assert(alternatives_view(group@) =~= seq![Seq::<SpecToken>::empty()]);
                    }
                }
                return Ok(Token::Alternation(group));
            }
            let ghost cur = self.current as int;
            proof {
                lemma_parse_item_progress(s, cur, Seq::empty());
            }
            match self.parse_union_group_item() {
                Err(e) => {
                    return Err(e);
                },
                Ok(item) => {
                    proof {
                        lemma_alternatives_view_push(group@, item);
                    }
                    group.push(item);
                },
            }
        }
    }

    /// Parses the whole pattern from the cursor's position, exactly as
    /// `spec_parse_from` says, folding quantifier markers into the token
    /// preceding them.
    pub fn parse(&mut self) -> (r: Result<Expression, ParseError>)
        ensures
            final(self).chars@ == old(self).chars@,
            match r {
                Ok(e) => spec_parse_from(old(self).chars@, old(self).current as int, Seq::empty())
                    == Some(expr_view(e)),
                Err(_) => spec_parse_from(
                    old(self).chars@,
                    old(self).current as int,
                    Seq::empty(),
                ) is None,
            },
    {
        let ghost s = self.chars@;
        let ghost i0 = self.current as int;
        let mut tokens: Vec<Token> = Vec::new();
        loop
            invariant
                self.chars@ == s,
                s == old(self).chars@,
                i0 == old(self).current as int,
                i0 <= self.current as int,
                spec_parse_from(s, i0, Seq::empty()) == spec_parse_from(
                    s,
                    self.current as int,
                    tokens_view(tokens@),
                ),
            decreases s.len() - self.current,
        {
            if self.current >= self.chars.len() {
                return Ok(Expression { tokens });
            }
            let ghost cur = self.current as int;
            proof {
                lemma_parse_token_progress(s, cur);
            }
            match self.parse_token() {
                Err(e) => {
                    return Err(e);
                },
                Ok(p) => {
                    if !fold_item(&mut tokens, p) {
                        return Err(ParseError::MalformedPattern);
                    }
                },
            }
        }
    }
}

} // verus!
