//! Laws of the engine, stated over the spec-level parser and matcher and
//! proved once and for all: determinism of parsing and matching, the
//! boundary behaviour of empty and anchor-only patterns, and the
//! characterisation of matching for the basic pattern shapes.

use vstd::prelude::*;

use crate::ast::Expression;
use crate::ast::SpecToken;
use crate::ast::expr_view;
use crate::matcher::alt_first;
use crate::matcher::char_is_alphanumeric;
use crate::matcher::char_is_numeric;
use crate::matcher::eval;
use crate::matcher::eval_one;
use crate::matcher::spec_match_pattern;
use crate::matcher::spec_search;
use crate::matcher::spec_search_at;
use crate::matcher::spec_anchored_start;
use crate::matcher::spec_require_end;
use crate::matcher::spec_window;
use crate::parser::spec_fold_item;
use crate::parser::spec_parse;
use crate::parser::spec_parse_from;
use crate::parser::spec_parse_token;
use crate::parser::spec_parse_item;
use crate::parser::spec_parse_group;
use crate::parser::spec_parse_group_items;
use crate::parser::SpecParseItem;

verus! {

/// A character that is no metacharacter of the grammar: it can only ever
/// be parsed as a literal.
pub open spec fn is_plain_char(c: char) -> bool {
    c != '^' && c != '$' && c != '\\' && c != '(' && c != ')' && c != '[' && c != ']' && c != '.'
        && c != '+' && c != '?' && c != '|'
}

/// The literal token for a character.
pub open spec fn lit(c: char) -> SpecToken {
    SpecToken::Literal(c)
}

/// The compiled form of a pattern of plain characters: one literal token
/// per character.
pub open spec fn literal_tokens(p: Seq<char>) -> Seq<SpecToken>
    decreases p,
{
    if p.len() == 0 {
        Seq::empty()
    } else {
        seq![lit(p[0])] + literal_tokens(p.drop_first())
    }
}

/// `literal_tokens` maps character by character.
pub proof fn lemma_literal_tokens(p: Seq<char>)
    ensures
        literal_tokens(p).len() == p.len(),
        forall|i: int| 0 <= i < p.len() ==> literal_tokens(p)[i] == lit(#[trigger] p[i]),
    decreases p,
{
    if p.len() > 0 {
        lemma_literal_tokens(p.drop_first());
        assert(literal_tokens(p) == seq![lit(p[0])] + literal_tokens(p.drop_first()));
        assert forall|i: int| 0 <= i < p.len() implies literal_tokens(p)[i] == lit(
            #[trigger] p[i],
        ) by {
            if i > 0 {
                assert(p.drop_first()[i - 1] == p[i]);
                assert(literal_tokens(p)[i] == literal_tokens(p.drop_first())[i - 1]);
                assert(literal_tokens(p.drop_first())[i - 1] == lit(p.drop_first()[i - 1]));
            } else {
                assert(literal_tokens(p)[0] == lit(p[0]));
            }
        }
    }
}

/// `p` occurs in `s` starting at offset `i`.
pub open spec fn occurs_at(s: Seq<char>, p: Seq<char>, i: int) -> bool {
    0 <= i && i + p.len() <= s.len() && s.subrange(i, i + p.len() as int) == p
}

/// `p` occurs somewhere in `s`: the plain substring relation.
pub open spec fn contains_substring(s: Seq<char>, p: Seq<char>) -> bool {
    exists|i: int| occurs_at(s, p, i)
}

/// Parsing is deterministic: two compiled forms of the same pattern are
/// structurally equal, since both are what `spec_parse` yields.
pub proof fn lemma_parse_deterministic(p: Seq<char>, e1: Expression, e2: Expression)
    requires
        spec_parse(p) == Some(expr_view(e1)),
        spec_parse(p) == Some(expr_view(e2)),
    ensures
        expr_view(e1) == expr_view(e2),
{
}

/// Matching is deterministic: identical subject and pattern always yield
/// identical results, since the result is what `spec_match_pattern`
/// yields.
pub proof fn lemma_match_deterministic(subj: Seq<char>, pat: Seq<char>, r1: bool, r2: bool)
    requires
        spec_match_pattern(subj, pat) == Some(r1),
        spec_match_pattern(subj, pat) == Some(r2),
    ensures
        r1 == r2,
{
}

/// The empty pattern compiles to the empty expression and matches every
/// subject at offset 0: there are no tokens to satisfy.
pub proof fn lemma_empty_pattern_matches_all(subj: Seq<char>)
    ensures
        spec_match_pattern(subj, Seq::empty()) == Some(true),
{
    let e = Seq::<char>::empty();
    assert(spec_parse(e) == Some(Seq::<SpecToken>::empty()));
    let ts = Seq::<SpecToken>::empty();
    assert(spec_window(ts) =~= ts);
    assert(subj.skip(0) =~= subj);
    assert(eval(ts, subj.skip(0)) == Some(0 as nat));
    assert(spec_search_at(ts, subj, 0, subj.len(), false) == Some(0 as nat));
}

/// The pattern `^$` matches exactly the empty subject: both anchors are
/// stripped, nothing remains to evaluate, and the match must reach the
/// subject's end starting from offset 0.
pub proof fn lemma_start_end_matches_only_empty(subj: Seq<char>)
    ensures
        spec_match_pattern(subj, seq!['^', '$']) == Some(subj.len() == 0),
{
    let p = seq!['^', '$'];
    assert(spec_parse_token(p, 0) == Some((SpecParseItem::Tok(SpecToken::StartAnchor), 1int)));
    assert(spec_parse_token(p, 1) == Some((SpecParseItem::Tok(SpecToken::EndAnchor), 2int)));
    let ts0 = Seq::<SpecToken>::empty();
    let ts1 = ts0.push(SpecToken::StartAnchor);
    let ts2 = ts1.push(SpecToken::EndAnchor);
    assert(spec_fold_item(ts0, SpecParseItem::Tok(SpecToken::StartAnchor)) == Some(ts1));
    assert(spec_fold_item(ts1, SpecParseItem::Tok(SpecToken::EndAnchor)) == Some(ts2));
    assert(spec_parse_from(p, 2, ts2) == Some(ts2));
    assert(spec_parse_from(p, 1, ts1) == Some(ts2));
    assert(spec_parse_from(p, 0, ts0) == Some(ts2));
    assert(spec_parse(p) == Some(ts2));
    assert(ts2[0] == SpecToken::StartAnchor);
    assert(ts2[1] == SpecToken::EndAnchor);
    assert(spec_anchored_start(ts2));
    assert(spec_require_end(ts2));
    assert(spec_window(ts2) =~= Seq::<SpecToken>::empty());
    assert(subj.skip(0) =~= subj);
    assert(eval(spec_window(ts2), subj.skip(0)) == Some(0 as nat));
    assert(spec_search_at(spec_window(ts2), subj, 0, 0, true) == (if subj.len() == 0 {
        Some(0 as nat)
    } else {
        None::<nat>
    }));
}

/// `p` is a prefix of `s`.
pub open spec fn is_prefix_of(p: Seq<char>, s: Seq<char>) -> bool {
    p.len() <= s.len() && s.subrange(0, p.len() as int) == p
}

/// A pattern of plain characters parses to one literal token per
/// character, whatever was collected before it.
proof fn lemma_parse_plain(s: Seq<char>, i: int, acc: Seq<SpecToken>)
    requires
        0 <= i <= s.len(),
        forall|j: int| i <= j < s.len() ==> is_plain_char(#[trigger] s[j]),
    ensures
        spec_parse_from(s, i, acc) == Some(acc + literal_tokens(s.skip(i))),
    decreases s.len() - i,
{
    lemma_literal_tokens(s.skip(i));
    if i >= s.len() {
        assert(s.skip(i) =~= Seq::<char>::empty());
        assert(acc + literal_tokens(s.skip(i)) =~= acc);
    } else {
        lemma_literal_tokens(s.skip(i + 1));
        assert(is_plain_char(s[i]));
        assert(spec_parse_token(s, i) == Some((SpecParseItem::Tok(lit(s[i])), i + 1)));
        let acc2 = acc.push(lit(s[i]));
        assert(spec_fold_item(acc, SpecParseItem::Tok(lit(s[i]))) == Some(acc2));
        lemma_parse_plain(s, i + 1, acc2);
        assert(acc2 + literal_tokens(s.skip(i + 1)) =~= acc + literal_tokens(s.skip(i))) by {
            assert(literal_tokens(s.skip(i)).len() == s.len() - i);
            assert(literal_tokens(s.skip(i + 1)).len() == s.len() - i - 1);
            assert forall|j: int| 0 <= j < acc.len() + (s.len() - i) implies (acc2 + literal_tokens(
                s.skip(i + 1),
            ))[j] == (acc + literal_tokens(s.skip(i)))[j] by {
                if j >= acc.len() {
                    assert((acc + literal_tokens(s.skip(i)))[j] == literal_tokens(s.skip(i))[j
                        - acc.len()]);
                    assert(literal_tokens(s.skip(i))[j - acc.len()] == lit(
                        s.skip(i)[j - acc.len()],
                    ));
                    if j == acc.len() {
                        assert(s.skip(i)[0] == s[i]);
                    } else {
                        assert(literal_tokens(s.skip(i + 1))[j - acc.len() - 1] == lit(
                            s.skip(i + 1)[j - acc.len() - 1],
                        ));
                        assert(s.skip(i + 1)[j - acc.len() - 1] == s[i + 1 + (j - acc.len() - 1)]);
                        assert(s.skip(i)[j - acc.len()] == s[i + (j - acc.len())]);
                    }
                }
            }
        }
    }
}

/// A sequence of literal tokens matches the input from the front exactly
/// when the corresponding characters are a prefix of the input, consuming
/// exactly them.
proof fn lemma_eval_literals(p: Seq<char>, inp: Seq<char>)
    ensures
        eval(literal_tokens(p), inp) == (if is_prefix_of(p, inp) {
            Some(p.len())
        } else {
            None::<nat>
        }),
    decreases p.len(),
{
    let lt = literal_tokens(p);
    lemma_literal_tokens(p);
    assert(lt.len() == p.len());
    if p.len() == 0 {
        assert(inp.subrange(0, 0) =~= p);
        assert(is_prefix_of(p, inp));
        assert(eval(lt, inp) == Some(p.len()));
    } else if inp.len() == 0 {
        assert(!is_prefix_of(p, inp));
        assert(eval(lt, inp) is None);
    } else {
        assert(lt[0] == lit(p[0]));
        if inp[0] == p[0] {
            lemma_literal_tokens(p.drop_first());
            lemma_eval_literals(p.drop_first(), inp.drop_first());
            assert(lt.drop_first() =~= literal_tokens(p.drop_first())) by {
                assert forall|j: int| 0 <= j < p.len() - 1 implies lt.drop_first()[j]
                    == literal_tokens(p.drop_first())[j] by {
                    assert(lt.drop_first()[j] == lt[j + 1]);
                    assert(lt[j + 1] == lit(p[j + 1]));
                    assert(literal_tokens(p.drop_first())[j] == lit(p.drop_first()[j]));
                }
            }
            assert(inp.skip(1) =~= inp.drop_first());
            assert(is_prefix_of(p, inp) <==> is_prefix_of(p.drop_first(), inp.drop_first())) by {
                if is_prefix_of(p, inp) {
                    assert(inp.drop_first().subrange(0, p.len() - 1) =~= p.drop_first()) by {
                        assert forall|j: int| 0 <= j < p.len() - 1 implies inp.drop_first()
                            .subrange(0, p.len() - 1)[j] == p.drop_first()[j] by {
                            assert(inp.subrange(0, p.len() as int)[j + 1] == p[j + 1]);
                        }
                    }
                }
                if is_prefix_of(p.drop_first(), inp.drop_first()) && inp[0] == p[0] {
                    assert(inp.subrange(0, p.len() as int) =~= p) by {
                        assert forall|j: int| 0 <= j < p.len() implies inp.subrange(
                            0,
                            p.len() as int,
                        )[j] == p[j] by {
                            if j > 0 {
                                assert(inp.drop_first().subrange(0, p.len() - 1)[j - 1] == p.drop_first()[
                                    j - 1]);
                            }
                        }
                    }
                }
            }
            assert(eval(lt, inp) == (if is_prefix_of(p, inp) {
                Some(p.len())
            } else {
                None::<nat>
            })) by {
                assert(eval_one(lt[0], inp) == Some(1 as nat));
                assert(eval(lt, inp) == (match eval(lt.drop_first(), inp.skip(1)) {
                    Some(m) => Some((1 + m) as nat),
                    None => None,
                }));
                assert(eval(lt.drop_first(), inp.skip(1)) == eval(
                    literal_tokens(p.drop_first()),
                    inp.drop_first(),
                ));
            }
        } else {
            if is_prefix_of(p, inp) {
                assert(inp.subrange(0, p.len() as int)[0] == inp[0]);
            }
            assert(!is_prefix_of(p, inp));
            assert(eval_one(lt[0], inp) is None);
            assert(eval(lt, inp) is None);
        }
    }
}

/// Without an end-anchor requirement, the scan over starting offsets
/// succeeds exactly when some offset in its range admits a match.
proof fn lemma_search_exists(ts: Seq<SpecToken>, subj: Seq<char>, i: nat, last: nat)
    requires
        i <= last,
    ensures
        spec_search_at(ts, subj, i, last, false) is Some <==> exists|j: int|
            i <= j <= last && eval(ts, subj.skip(j)) is Some,
    decreases last - i,
{
    match eval(ts, subj.skip(i as int)) {
        Some(k) => {
            assert(i as int <= i as int <= last && eval(ts, subj.skip(i as int)) is Some);
        },
        None => {
            if i < last {
                lemma_search_exists(ts, subj, (i + 1) as nat, last);
                if exists|j: int| i <= j <= last && eval(ts, subj.skip(j)) is Some {
                    let j = choose|j: int| i <= j <= last && eval(ts, subj.skip(j)) is Some;
                    assert(j != i);
                    assert(i + 1 <= j <= last && eval(ts, subj.skip(j)) is Some);
                }
            } else {
                assert forall|j: int| i <= j <= last implies !(eval(ts, subj.skip(j)) is Some) by {
                    assert(j == i);
                }
            }
        },
    }
}

/// A pattern of plain characters — no metacharacters at all — matches a
/// subject exactly when it occurs in the subject as a substring: with no
/// anchors, matching is an unanchored substring search.
pub proof fn lemma_no_metacharacters(subj: Seq<char>, pat: Seq<char>)
    requires
        forall|i: int| 0 <= i < pat.len() ==> is_plain_char(#[trigger] pat[i]),
    ensures
        spec_match_pattern(subj, pat) == Some(contains_substring(subj, pat)),
{
    lemma_parse_plain(pat, 0, Seq::empty());
    lemma_literal_tokens(pat);
    assert(pat.skip(0) =~= pat);
    let ts = literal_tokens(pat);
    assert(Seq::<SpecToken>::empty() + ts =~= ts);
    assert(spec_parse(pat) == Some(ts));
    if ts.len() > 0 {
        assert(ts[0] == lit(pat[0]));
        assert(ts[ts.len() - 1] == lit(pat[ts.len() - 1]));
    }
    assert(!spec_anchored_start(ts));
    assert(!spec_require_end(ts));
    assert(spec_window(ts) =~= ts);
    lemma_search_exists(ts, subj, 0, subj.len());
    assert forall|j: int| 0 <= j <= subj.len() implies (eval(ts, subj.skip(j)) is Some
        <==> occurs_at(subj, pat, j)) by {
        lemma_eval_literals(pat, subj.skip(j));
        assert(subj.skip(j).len() == subj.len() - j);
        if is_prefix_of(pat, subj.skip(j)) {
            assert(subj.subrange(j, j + pat.len() as int) =~= pat) by {
                assert forall|m: int| 0 <= m < pat.len() implies subj.subrange(
                    j,
                    j + pat.len() as int,
                )[m] == pat[m] by {
                    assert(subj.skip(j).subrange(0, pat.len() as int)[m] == pat[m]);
                    assert(subj.skip(j)[m] == subj[j + m]);
                }
            }
            assert(occurs_at(subj, pat, j));
        }
        if occurs_at(subj, pat, j) {
            assert(subj.skip(j).subrange(0, pat.len() as int) =~= pat) by {
                assert forall|m: int| 0 <= m < pat.len() implies subj.skip(j).subrange(
                    0,
                    pat.len() as int,
                )[m] == pat[m] by {
                    assert(subj.subrange(j, j + pat.len() as int)[m] == pat[m]);
                    assert(subj.skip(j)[m] == subj[j + m]);
                }
            }
            assert(is_prefix_of(pat, subj.skip(j)));
        }
    }
    if contains_substring(subj, pat) {
        let j = choose|j: int| occurs_at(subj, pat, j);
        assert(0 <= j <= subj.len() && eval(ts, subj.skip(j)) is Some);
    }
    if exists|j: int| 0 <= j <= subj.len() && eval(ts, subj.skip(j)) is Some {
        let j = choose|j: int| 0 <= j <= subj.len() && eval(ts, subj.skip(j)) is Some;
        assert(occurs_at(subj, pat, j));
    }
    assert(spec_search(ts, subj) is Some <==> contains_substring(subj, pat));
}

/// A pattern occurs at offset `j` exactly when its characters are a
/// prefix of the subject's suffix at `j`.
proof fn lemma_prefix_occurs(subj: Seq<char>, pat: Seq<char>, j: int)
    requires
        0 <= j <= subj.len(),
    ensures
        is_prefix_of(pat, subj.skip(j)) <==> occurs_at(subj, pat, j),
{
    assert(subj.skip(j).len() == subj.len() - j);
    if is_prefix_of(pat, subj.skip(j)) {
        assert(subj.subrange(j, j + pat.len() as int) =~= pat) by {
            assert forall|m: int| 0 <= m < pat.len() implies subj.subrange(
                j,
                j + pat.len() as int,
            )[m] == pat[m] by {
                assert(subj.skip(j).subrange(0, pat.len() as int)[m] == pat[m]);
                assert(subj.skip(j)[m] == subj[j + m]);
            }
        }
    }
    if occurs_at(subj, pat, j) {
        assert(subj.skip(j).subrange(0, pat.len() as int) =~= pat) by {
            assert forall|m: int| 0 <= m < pat.len() implies subj.skip(j).subrange(
                0,
                pat.len() as int,
            )[m] == pat[m] by {
                assert(subj.subrange(j, j + pat.len() as int)[m] == pat[m]);
                assert(subj.skip(j)[m] == subj[j + m]);
            }
        }
    }
}

/// The fully anchored literal pattern `^abc$` matches exactly the subject
/// `abc`: the search may start only at offset 0 and the match must reach
/// the subject's end.
pub proof fn lemma_anchored_literals_exact(subj: Seq<char>)
    ensures
        spec_match_pattern(subj, seq!['^', 'a', 'b', 'c', '$']) == Some(subj == seq![
            'a',
            'b',
            'c',
        ]),
{
    let p = seq!['^', 'a', 'b', 'c', '$'];
    let la = SpecToken::Literal('a');
    let lb = SpecToken::Literal('b');
    let lc = SpecToken::Literal('c');
    assert(spec_parse_token(p, 0) == Some((SpecParseItem::Tok(SpecToken::StartAnchor), 1int)));
    assert(spec_parse_token(p, 1) == Some((SpecParseItem::Tok(la), 2int)));
    assert(spec_parse_token(p, 2) == Some((SpecParseItem::Tok(lb), 3int)));
    assert(spec_parse_token(p, 3) == Some((SpecParseItem::Tok(lc), 4int)));
    assert(spec_parse_token(p, 4) == Some((SpecParseItem::Tok(SpecToken::EndAnchor), 5int)));
    let ts0 = Seq::<SpecToken>::empty();
    let ts1 = ts0.push(SpecToken::StartAnchor);
    let ts2 = ts1.push(la);
    let ts3 = ts2.push(lb);
    let ts4 = ts3.push(lc);
    let ts5 = ts4.push(SpecToken::EndAnchor);
    assert(spec_parse_from(p, 5, ts5) == Some(ts5));
    assert(spec_parse_from(p, 4, ts4) == Some(ts5));
    assert(spec_parse_from(p, 3, ts3) == Some(ts5));
    assert(spec_parse_from(p, 2, ts2) == Some(ts5));
    assert(spec_parse_from(p, 1, ts1) == Some(ts5));
    assert(spec_parse_from(p, 0, ts0) == Some(ts5));
    assert(spec_parse(p) == Some(ts5));
    assert(ts5.len() == 5);
    assert(ts5[0] == SpecToken::StartAnchor);
    assert(ts5[4] == SpecToken::EndAnchor);
    assert(spec_anchored_start(ts5));
    assert(spec_require_end(ts5));
    let abc = seq!['a', 'b', 'c'];
    let win = spec_window(ts5);
    assert(win =~= literal_tokens(abc)) by {
        lemma_literal_tokens(abc);
        assert(ts5[1] == la);
        assert(ts5[2] == lb);
        assert(ts5[3] == lc);
    }
    assert(subj.skip(0) =~= subj);
    lemma_eval_literals(abc, subj);
    lemma_prefix_occurs(subj, abc, 0);
    if is_prefix_of(abc, subj) && subj.len() == 3 {
        assert(subj =~= abc);
    }
    if subj == abc {
        assert(is_prefix_of(abc, subj)) by {
            assert(subj.subrange(0, 3) =~= abc);
        }
    }
    assert(spec_search_at(win, subj, 0, 0, true) == (if subj == abc {
        Some(3 as nat)
    } else {
        None::<nat>
    }));
}

/// The pattern `\d` matches exactly the subjects holding a decimal digit
/// at some scanned position, and `\w` the ones holding an alphanumeric
/// character: one predicate-class token, tried at every offset.
pub proof fn lemma_digit_class(subj: Seq<char>)
    ensures
        spec_match_pattern(subj, seq!['\\', 'd']) == Some(exists|i: int|
            0 <= i < subj.len() && char_is_numeric(#[trigger] subj[i])),
{
    let p = seq!['\\', 'd'];
    let esc = SpecToken::EscapedLiteral('d');
    assert(spec_parse_token(p, 0) == Some((SpecParseItem::Tok(esc), 2int)));
    let ts0 = Seq::<SpecToken>::empty();
    let ts = ts0.push(esc);
    assert(spec_parse_from(p, 2, ts) == Some(ts));
    assert(spec_parse_from(p, 0, ts0) == Some(ts));
    assert(spec_parse(p) == Some(ts));
    assert(ts[0] == esc);
    assert(!spec_anchored_start(ts));
    assert(!spec_require_end(ts));
    assert(spec_window(ts) =~= ts);
    lemma_search_exists(ts, subj, 0, subj.len());
    assert forall|j: int| 0 <= j <= subj.len() implies (eval(ts, subj.skip(j)) is Some <==> (j
        < subj.len() && char_is_numeric(subj[j]))) by {
        if j < subj.len() {
            assert(subj.skip(j).len() == subj.len() - j);
            assert(subj.skip(j)[0] == subj[j]);
            assert(ts.drop_first() =~= Seq::<SpecToken>::empty());
            assert(eval_one(esc, subj.skip(j)) == (if char_is_numeric(subj[j]) {
                Some(1 as nat)
            } else {
                None::<nat>
            }));
            if char_is_numeric(subj[j]) {
                assert(eval(ts.drop_first(), subj.skip(j).skip(1)) == Some(0 as nat));
                assert(eval(ts, subj.skip(j)) == Some(1 as nat));
            } else {
                assert(eval(ts, subj.skip(j)) is None);
            }
        } else {
            assert(subj.skip(j).len() == 0);
        }
    }
    if exists|i: int| 0 <= i < subj.len() && char_is_numeric(#[trigger] subj[i]) {
        let i = choose|i: int| 0 <= i < subj.len() && char_is_numeric(#[trigger] subj[i]);
        assert(0 <= i <= subj.len() && eval(ts, subj.skip(i)) is Some);
    }
    if exists|j: int| 0 <= j <= subj.len() && eval(ts, subj.skip(j)) is Some {
        let j = choose|j: int| 0 <= j <= subj.len() && eval(ts, subj.skip(j)) is Some;
        assert(0 <= j < subj.len() && char_is_numeric(subj[j]));
    }
}

/// See `lemma_digit_class`: the same law for `\w`.
pub proof fn lemma_word_class(subj: Seq<char>)
    ensures
        spec_match_pattern(subj, seq!['\\', 'w']) == Some(exists|i: int|
            0 <= i < subj.len() && char_is_alphanumeric(#[trigger] subj[i])),
{
    let p = seq!['\\', 'w'];
    let esc = SpecToken::EscapedLiteral('w');
    assert(spec_parse_token(p, 0) == Some((SpecParseItem::Tok(esc), 2int)));
    let ts0 = Seq::<SpecToken>::empty();
    let ts = ts0.push(esc);
    assert(spec_parse_from(p, 2, ts) == Some(ts));
    assert(spec_parse_from(p, 0, ts0) == Some(ts));
    assert(spec_parse(p) == Some(ts));
    assert(ts[0] == esc);
    assert(!spec_anchored_start(ts));
    assert(!spec_require_end(ts));
    assert(spec_window(ts) =~= ts);
    lemma_search_exists(ts, subj, 0, subj.len());
    assert forall|j: int| 0 <= j <= subj.len() implies (eval(ts, subj.skip(j)) is Some <==> (j
        < subj.len() && char_is_alphanumeric(subj[j]))) by {
        if j < subj.len() {
            assert(subj.skip(j).len() == subj.len() - j);
            assert(subj.skip(j)[0] == subj[j]);
            assert(ts.drop_first() =~= Seq::<SpecToken>::empty());
            assert(eval_one(esc, subj.skip(j)) == (if char_is_alphanumeric(subj[j]) {
                Some(1 as nat)
            } else {
                None::<nat>
            }));
            if char_is_alphanumeric(subj[j]) {
                assert(eval(ts.drop_first(), subj.skip(j).skip(1)) == Some(0 as nat));
                assert(eval(ts, subj.skip(j)) == Some(1 as nat));
            } else {
                assert(eval(ts, subj.skip(j)) is None);
            }
        } else {
            assert(subj.skip(j).len() == 0);
        }
    }
    if exists|i: int| 0 <= i < subj.len() && char_is_alphanumeric(#[trigger] subj[i]) {
        let i = choose|i: int| 0 <= i < subj.len() && char_is_alphanumeric(#[trigger] subj[i]);
        assert(0 <= i <= subj.len() && eval(ts, subj.skip(i)) is Some);
    }
    if exists|j: int| 0 <= j <= subj.len() && eval(ts, subj.skip(j)) is Some {
        let j = choose|j: int| 0 <= j <= subj.len() && eval(ts, subj.skip(j)) is Some;
        assert(0 <= j < subj.len() && char_is_alphanumeric(subj[j]));
    }
}

/// The pattern `(cat|dog)` matches exactly the subjects holding `cat` or
/// `dog` as a substring: the group's alternatives are tried in order at
/// every offset.
pub proof fn lemma_alternation_substring(subj: Seq<char>)
    ensures
        spec_match_pattern(subj, seq!['(', 'c', 'a', 't', '|', 'd', 'o', 'g', ')']) == Some(
            contains_substring(subj, seq!['c', 'a', 't']) || contains_substring(
                subj,
                seq!['d', 'o', 'g'],
            ),
        ),
{
    let p = seq!['(', 'c', 'a', 't', '|', 'd', 'o', 'g', ')'];
    let lc = SpecToken::Literal('c');
    let la = SpecToken::Literal('a');
    let lt2 = SpecToken::Literal('t');
    let ld = SpecToken::Literal('d');
    let lo = SpecToken::Literal('o');
    let lg = SpecToken::Literal('g');
    assert(spec_parse_token(p, 1) == Some((SpecParseItem::Tok(lc), 2int)));
    assert(spec_parse_token(p, 2) == Some((SpecParseItem::Tok(la), 3int)));
    assert(spec_parse_token(p, 3) == Some((SpecParseItem::Tok(lt2), 4int)));
    assert(spec_parse_token(p, 5) == Some((SpecParseItem::Tok(ld), 6int)));
    assert(spec_parse_token(p, 6) == Some((SpecParseItem::Tok(lo), 7int)));
    assert(spec_parse_token(p, 7) == Some((SpecParseItem::Tok(lg), 8int)));
    let e0 = Seq::<SpecToken>::empty();
    let c1 = e0.push(lc);
    let c2 = c1.push(la);
    let c3 = c2.push(lt2);
    assert(spec_parse_item(p, 4, c3) == Some((c3, 5int)));
    assert(spec_parse_item(p, 3, c2) == Some((c3, 5int)));
    assert(spec_parse_item(p, 2, c1) == Some((c3, 5int)));
    assert(spec_parse_item(p, 1, e0) == Some((c3, 5int)));
    let d1 = e0.push(ld);
    let d2 = d1.push(lo);
    let d3 = d2.push(lg);
    assert(spec_parse_item(p, 8, d3) == Some((d3, 8int)));
    assert(spec_parse_item(p, 7, d2) == Some((d3, 8int)));
    assert(spec_parse_item(p, 6, d1) == Some((d3, 8int)));
    assert(spec_parse_item(p, 5, e0) == Some((d3, 8int)));
    let a0 = Seq::<Seq<SpecToken>>::empty();
    let a1 = a0.push(c3);
    let a2 = a1.push(d3);
    assert(spec_parse_group_items(p, 8, a2) == Some((a2, 9int)));
    assert(spec_parse_group_items(p, 5, a1) == Some((a2, 9int)));
    assert(spec_parse_group_items(p, 1, a0) == Some((a2, 9int)));
    assert(spec_parse_group(p, 1) == Some((a2, 9int)));
    let alt_tok = SpecToken::Alternation(a2);
    assert(spec_parse_token(p, 0) == Some((SpecParseItem::Tok(alt_tok), 9int)));
    let ts = e0.push(alt_tok);
    assert(spec_fold_item(e0, SpecParseItem::Tok(alt_tok)) == Some(ts));
    assert(spec_parse_from(p, 9, ts) == Some(ts));
    assert(spec_parse_from(p, 0, e0) == Some(ts));
    assert(spec_parse(p) == Some(ts));
    assert(ts[0] == alt_tok);
    assert(!spec_anchored_start(ts));
    assert(!spec_require_end(ts));
    assert(spec_window(ts) =~= ts);
    let cat = seq!['c', 'a', 't'];
    let dog = seq!['d', 'o', 'g'];
    assert(c3 =~= literal_tokens(cat)) by {
        lemma_literal_tokens(cat);
    }
    assert(d3 =~= literal_tokens(dog)) by {
        lemma_literal_tokens(dog);
    }
    lemma_search_exists(ts, subj, 0, subj.len());
    assert forall|j: int| 0 <= j <= subj.len() implies (eval(ts, subj.skip(j)) is Some <==> (
    occurs_at(subj, cat, j) || occurs_at(subj, dog, j))) by {
        let inp = subj.skip(j);
        assert(inp.len() == subj.len() - j);
        lemma_eval_literals(cat, inp);
        lemma_eval_literals(dog, inp);
        lemma_prefix_occurs(subj, cat, j);
        lemma_prefix_occurs(subj, dog, j);
        if inp.len() == 0 {
            assert(!is_prefix_of(cat, inp));
            assert(!is_prefix_of(dog, inp));
        } else {
            assert(a2[0] == c3);
            let dd = a0.push(d3);
            assert(a2.drop_first() =~= dd);
            assert(dd[0] == d3);
            assert(dd.drop_first() =~= a0);
            assert(ts.drop_first() =~= e0);
            assert(eval_one(alt_tok, inp) == alt_first(a2, inp));
            if is_prefix_of(cat, inp) {
                assert(eval(c3, inp) == Some(3 as nat));
                assert(alt_first(a2, inp) == Some(3 as nat));
                assert(eval(ts.drop_first(), inp.skip(3)) == Some(0 as nat));
                assert(eval(ts, inp) == Some(3 as nat));
            } else if is_prefix_of(dog, inp) {
                assert(eval(c3, inp) is None);
                assert(eval(d3, inp) == Some(3 as nat));
                assert(alt_first(dd, inp) == Some(3 as nat));
                assert(alt_first(a2, inp) == Some(3 as nat));
                assert(eval(ts.drop_first(), inp.skip(3)) == Some(0 as nat));
                assert(eval(ts, inp) == Some(3 as nat));
            } else {
                assert(eval(c3, inp) is None);
                assert(eval(d3, inp) is None);
                assert(alt_first(a0, inp) is None);
                assert(alt_first(dd, inp) is None);
                assert(alt_first(a2, inp) is None);
                assert(eval(ts, inp) is None);
            }
        }
    }
    if contains_substring(subj, cat) {
        let j = choose|j: int| occurs_at(subj, cat, j);
        assert(0 <= j <= subj.len() && eval(ts, subj.skip(j)) is Some);
    }
    if contains_substring(subj, dog) {
        let j = choose|j: int| occurs_at(subj, dog, j);
        assert(0 <= j <= subj.len() && eval(ts, subj.skip(j)) is Some);
    }
    if exists|j: int| 0 <= j <= subj.len() && eval(ts, subj.skip(j)) is Some {
        let j = choose|j: int| 0 <= j <= subj.len() && eval(ts, subj.skip(j)) is Some;
        assert(occurs_at(subj, cat, j) || occurs_at(subj, dog, j));
    }
}

} // verus!
