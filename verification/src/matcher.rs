//! The matching engine: a single-pass, left-to-right, non-backtracking
//! walk of a compiled expression against a subject line.
//!
//! The evaluation rules are modelled by the mutually recursive spec
//! functions [`eval_one`] (one token against the rest of the subject),
//! [`greedy`] (the repetitions a `+` quantifier takes), [`alt_first`] (the
//! first alternative of a group that matches) and [`eval`] (a whole token
//! sequence).  [`spec_search`] models the outer search: anchor handling
//! and the scan over candidate starting offsets.  The executable matcher
//! is proved to return exactly what the model says.

use vstd::prelude::*;

use crate::ast::Expression;
use crate::ast::SpecToken;
use crate::ast::Token;
use crate::ast::alternatives_size;
use crate::ast::alternatives_view;
use crate::ast::expr_view;
use crate::ast::lemma_alternative_size_lt;
use crate::ast::lemma_alternatives_view_index;
use crate::ast::lemma_token_size_le;
use crate::ast::lemma_tokens_view_index;
use crate::ast::token_size;
use crate::ast::token_view;
use crate::ast::tokens_size;
use crate::ast::tokens_view;

verus! {

/// What `char::is_numeric` returns: the predicate behind the `\d` class.
/// The result depends on the character alone.
pub uninterp spec fn char_is_numeric(c: char) -> bool;

/// What `char::is_alphanumeric` returns: the predicate behind the `\w`
/// class.  The result depends on the character alone.
pub uninterp spec fn char_is_alphanumeric(c: char) -> bool;

/// Relies on `char::is_numeric`: whether the character lies in a numeric
/// Unicode category; the result depends on the character alone.
#[verifier::external_body]
fn is_numeric_char(c: char) -> (r: bool)
    ensures
        r == char_is_numeric(c),
{
    c.is_numeric()
}

/// Relies on `char::is_alphanumeric`: whether the character lies in an
/// alphabetic or numeric Unicode category; the result depends on the
/// character alone.
#[verifier::external_body]
fn is_alphanumeric_char(c: char) -> (r: bool)
    ensures
        r == char_is_alphanumeric(c),
{
    c.is_alphanumeric()
}

/// One token evaluated against the input from the front: the number of
/// characters it consumes, or `None` when it does not match there.
///
/// An anchor reached here never matches: anchors are meaningful only at
/// the ends of the whole expression, where the search strips them before
/// evaluation begins.
pub open spec fn eval_one(t: SpecToken, inp: Seq<char>) -> Option<nat>
    decreases token_size(t), inp.len(), 0int,
{
    if inp.len() == 0 {
        None
    } else {
        match t {
            SpecToken::Literal(c) => if inp[0] == c {
                Some(1 as nat)
            } else {
                None
            },
            SpecToken::EscapedLiteral(c) => if c == 'd' {
                if char_is_numeric(inp[0]) {
                    Some(1 as nat)
                } else {
                    None
                }
            } else if c == 'w' {
                if char_is_alphanumeric(inp[0]) {
                    Some(1 as nat)
                } else {
                    None
                }
            } else {
                if inp[0] == c {
                    Some(1 as nat)
                } else {
                    None
                }
            },
            SpecToken::AnyChar => Some(1 as nat),
            SpecToken::PositiveClass(cs) => if cs.contains(inp[0]) {
                Some(1 as nat)
            } else {
                None
            },
            SpecToken::NegativeClass(cs) => if cs.contains(inp[0]) {
                None
            } else {
                Some(1 as nat)
            },
            SpecToken::StartAnchor => None,
            SpecToken::EndAnchor => None,
            SpecToken::Optional(inner) => match eval_one(*inner, inp) {
                Some(k) => Some(k),
                None => Some(0 as nat),
            },
            SpecToken::Repeated(inner) => match eval_one(*inner, inp) {
                Some(k) => if k <= inp.len() {
                    Some((k + greedy(*inner, inp.skip(k as int))) as nat)
                } else {
                    None
                },
                None => None,
            },
            SpecToken::Alternation(alts) => alt_first(alts, inp),
        }
    }
}

/// How many further characters a `+` quantifier consumes: the quantified
/// token is re-matched greedily for as long as it keeps succeeding and
/// keeps consuming input, with no backtracking once a repetition is taken.
/// A repetition that consumes nothing would make no progress, so it ends
/// the repetition.  (A token never consumes more than the input holds —
/// `lemma_eval_one_le` — so the upper half of the guard always holds.)
pub open spec fn greedy(inner: SpecToken, s: Seq<char>) -> nat
    decreases token_size(inner), s.len(), 1int,
{
    match eval_one(inner, s) {
        Some(k) => if 1 <= k <= s.len() {
            (k + greedy(inner, s.skip(k as int))) as nat
        } else {
            0
        },
        None => 0,
    }
}

/// The first alternative, in declared order, whose tokens match the input
/// from the front: its consumed length, or `None` when no alternative
/// matches.  Committing to the first success is the engine's documented
/// non-backtracking behaviour.
pub open spec fn alt_first(alts: Seq<Seq<SpecToken>>, inp: Seq<char>) -> Option<nat>
    decreases alternatives_size(alts), inp.len(), 3int,
{
    if alts.len() == 0 {
        None
    } else {
        match eval(alts[0], inp) {
            Some(k) => Some(k),
            None => alt_first(alts.drop_first(), inp),
        }
    }
}

/// A token sequence evaluated against the input from the front: the total
/// number of characters consumed, or `None` when the walk fails.
///
/// Exhausting the tokens is success, whatever input remains; exhausting
/// the input while tokens remain is failure; otherwise the first token is
/// evaluated and, on success, the walk continues past what it consumed.
/// A single token failing fails the whole walk: there is no backtracking.
pub open spec fn eval(ts: Seq<SpecToken>, inp: Seq<char>) -> Option<nat>
    decreases tokens_size(ts), inp.len(), 2int,
{
    if ts.len() == 0 {
        Some(0 as nat)
    } else if inp.len() == 0 {
        None
    } else {
        match eval_one(ts[0], inp) {
            None => None,
            Some(k) => if k <= inp.len() {
                match eval(ts.drop_first(), inp.skip(k as int)) {
                    Some(m) => Some((k + m) as nat),
                    None => None,
                }
            } else {
                None
            },
        }
    }
}

/// A token never consumes more characters than the input holds.
pub proof fn lemma_eval_one_le(t: SpecToken, inp: Seq<char>)
    ensures
        eval_one(t, inp) matches Some(k) ==> k <= inp.len(),
    decreases token_size(t), inp.len(), 0int,
{
    if inp.len() > 0 {
        match t {
            SpecToken::Optional(inner) => {
                lemma_eval_one_le(*inner, inp);
            },
            SpecToken::Repeated(inner) => {
                lemma_eval_one_le(*inner, inp);
                if let Some(k) = eval_one(*inner, inp) {
                    lemma_greedy_le(*inner, inp.skip(k as int));
                }
            },
            SpecToken::Alternation(alts) => {
                lemma_alt_first_le(alts, inp);
            },
            _ => {},
        }
    }
}

/// The repetitions of a quantified token never consume more characters
/// than the input holds.
pub proof fn lemma_greedy_le(inner: SpecToken, s: Seq<char>)
    ensures
        greedy(inner, s) <= s.len(),
    decreases token_size(inner), s.len(), 1int,
{
    if let Some(k) = eval_one(inner, s) {
        if 1 <= k <= s.len() {
            lemma_greedy_le(inner, s.skip(k as int));
        }
    }
}

/// A matching alternative never consumes more characters than the input
/// holds.
pub proof fn lemma_alt_first_le(alts: Seq<Seq<SpecToken>>, inp: Seq<char>)
    ensures
        alt_first(alts, inp) matches Some(k) ==> k <= inp.len(),
    decreases alternatives_size(alts), inp.len(), 3int,
{
    if alts.len() > 0 {
        lemma_eval_le(alts[0], inp);
        if eval(alts[0], inp) is None {
            lemma_alt_first_le(alts.drop_first(), inp);
        }
    }
}

/// A token sequence never consumes more characters than the input holds.
pub proof fn lemma_eval_le(ts: Seq<SpecToken>, inp: Seq<char>)
    ensures
        eval(ts, inp) matches Some(k) ==> k <= inp.len(),
    decreases tokens_size(ts), inp.len(), 2int,
{
    if ts.len() > 0 && inp.len() > 0 {
        lemma_eval_one_le(ts[0], inp);
        if let Some(k) = eval_one(ts[0], inp) {
            if k <= inp.len() {
                lemma_eval_le(ts.drop_first(), inp.skip(k as int));
            }
        }
    }
}

/// The scan over candidate starting offsets, from `i` up to `last`
/// inclusive: the end position of the match found at the first offset
/// where evaluation succeeds, or `None`.
///
/// When the pattern carried an end anchor (`require_end`), the first
/// offset where evaluation succeeds must consume the subject exactly to
/// its end; if it does not, the search reports no match at once rather
/// than trying later offsets — the leftmost successful evaluation wins.
pub open spec fn spec_search_at(
    ts: Seq<SpecToken>,
    subj: Seq<char>,
    i: nat,
    last: nat,
    require_end: bool,
) -> Option<nat>
    decreases last - i,
{
    if i > last {
        None
    } else {
        match eval(ts, subj.skip(i as int)) {
            Some(k) => if !require_end || i + k == subj.len() {
                Some((i + k) as nat)
            } else {
                None
            },
            None => if i < last {
                spec_search_at(ts, subj, (i + 1) as nat, last, require_end)
            } else {
                None
            },
        }
    }
}

/// Whether the expression's first token is a start anchor, restricting the
/// search to offset 0.
pub open spec fn spec_anchored_start(ts: Seq<SpecToken>) -> bool {
    ts.len() > 0 && ts[0] == SpecToken::StartAnchor
}

/// Whether the expression's last token (after a start anchor is stripped)
/// is an end anchor, requiring a match to consume the subject to its end.
pub open spec fn spec_require_end(ts: Seq<SpecToken>) -> bool {
    ts.len() > (if spec_anchored_start(ts) {
        1int
    } else {
        0int
    }) && ts[ts.len() - 1] == SpecToken::EndAnchor
}

/// The tokens that remain once a leading start anchor and a trailing end
/// anchor are stripped: what the walk actually evaluates.
pub open spec fn spec_window(ts: Seq<SpecToken>) -> Seq<SpecToken> {
    let lo = if spec_anchored_start(ts) {
        1int
    } else {
        0int
    };
    let hi = if spec_require_end(ts) {
        ts.len() - 1
    } else {
        ts.len() as int
    };
    ts.subrange(lo, hi)
}

/// The outer search: anchors are stripped and turned into a search window
/// and an exact-end requirement, and the remaining tokens are tried at
/// each starting offset from 0 to the subject's length inclusive — only at
/// offset 0 when a start anchor was present.  `Some(end)` is the end
/// position of the match found; `None` means no match.
pub open spec fn spec_search(ts: Seq<SpecToken>, subj: Seq<char>) -> Option<nat> {
    let last = if spec_anchored_start(ts) {
        0 as nat
    } else {
        subj.len()
    };
    spec_search_at(spec_window(ts), subj, 0, last, spec_require_end(ts))
}

/// The whole engine as one function: the pattern is parsed and, when it is
/// well formed, the subject is searched; `None` means the pattern is
/// malformed.
pub open spec fn spec_match_pattern(subject: Seq<char>, pattern: Seq<char>) -> Option<bool> {
    match crate::parser::spec_parse(pattern) {
        None => None,
        Some(ts) => Some(spec_search(ts, subject) is Some),
    }
}

/// Whether the class members contain the character.
fn contains_char(cs: &Vec<char>, c: char) -> (b: bool)
    ensures
        b == cs@.contains(c),
{
    let mut i: usize = 0;
    while i < cs.len()
        invariant
            i <= cs.len(),
            forall|j: int| 0 <= j < i ==> cs@[j] != c,
        decreases cs.len() - i,
    {
        if cs[i] == c {
            return true;
        }
        i = i + 1;
    }
    false
}

/// One token evaluated against the input from position `pos`, exactly as
/// `eval_one` says: whether it matched there and how many characters it
/// consumed.
fn eval_one_at(input: &Vec<char>, t: &Token, pos: usize) -> (r: (bool, usize))
    requires
        pos <= input.len(),
    ensures
        match eval_one(token_view(*t), input@.skip(pos as int)) {
            Some(k) => r.0 && r.1 as nat == k && pos + r.1 <= input@.len(),
            None => r == (false, 0usize),
        },
    decreases token_size(token_view(*t)), input@.len() - pos, 0int,
{
    let ghost inp = input@.skip(pos as int);
    if pos == input.len() {
        return (false, 0);
    }
    proof {
        assert(inp[0] == input@[pos as int]);
    }
    match t {
        Token::Literal(c) => {
            if input[pos] == *c {
                (true, 1)
            } else {
                (false, 0)
            }
        },
        Token::EscapedLiteral(c) => {
            let ch = input[pos];
            if *c == 'd' {
                if is_numeric_char(ch) {
                    (true, 1)
                } else {
                    (false, 0)
                }
            } else if *c == 'w' {
                if is_alphanumeric_char(ch) {
                    (true, 1)
                } else {
                    (false, 0)
                }
            } else {
                if ch == *c {
                    (true, 1)
                } else {
                    (false, 0)
                }
            }
        },
        Token::AnyChar => (true, 1),
        Token::PositiveClass(cs) => {
            if contains_char(cs, input[pos]) {
                (true, 1)
            } else {
                (false, 0)
            }
        },
        Token::NegativeClass(cs) => {
            if contains_char(cs, input[pos]) {
                (false, 0)
            } else {
                (true, 1)
            }
        },
        Token::StartAnchor => (false, 0),
        Token::EndAnchor => (false, 0),
        Token::Optional(inner) => {
            let (m, k) = eval_one_at(input, &**inner, pos);
            if m {
                (true, k)
            } else {
                (true, 0)
            }
        },
        Token::Repeated(inner) => {
            let ghost iv = token_view(**inner);
            let (m0, k0) = eval_one_at(input, &**inner, pos);
            if !m0 {
                return (false, 0);
            }
            proof {
                assert(inp.skip(k0 as int) =~= input@.skip(pos + k0 as int));
            }
            let ghost target = k0 as nat + greedy(iv, input@.skip(pos + k0 as int));
            let ilen = input.len();
            let mut total: usize = k0;
            loop
                invariant
                    ilen as nat == input@.len(),
                    pos + total <= ilen,
                    iv == token_view(**inner),
                    inp == input@.skip(pos as int),
                    token_view(*t) == SpecToken::Repeated(Box::new(iv)),
                    token_size(iv) < token_size(token_view(*t)),
                    target == total as nat + greedy(iv, input@.skip(pos + total as int)),
                    eval_one(token_view(*t), inp) == Some(target),
                decreases ilen - pos - total,
            {
                let (m, k) = eval_one_at(input, &**inner, pos + total);
                if m && k > 0 {
                    proof {
                        assert(input@.skip(pos + total as int).skip(k as int) =~= input@.skip(
                            pos + total + k as int,
                        ));
                    }
                    total = total + k;
                } else {
                    proof {
                        assert(greedy(iv, input@.skip(pos + total as int)) == 0);
                    }
                    return (true, total);
                }
            }
        },
        Token::Alternation(alts) => {
            let ghost av = alternatives_view(alts@);
            proof {
                lemma_alternatives_view_index(alts@);
                assert(av.skip(0) =~= av);
            }
            let mut idx: usize = 0;
            loop
                invariant
                    idx <= alts.len(),
                    av == alternatives_view(alts@),
                    pos < input@.len(),
                    token_view(*t) == SpecToken::Alternation(av),
                    inp == input@.skip(pos as int),
                    inp.len() == input@.len() - pos,
                    av.len() == alts@.len(),
                    forall|j: int|
                        0 <= j < av.len() ==> av[j] == tokens_view(#[trigger] alts@[j].tokens@),
                    alt_first(av, inp) == alt_first(av.skip(idx as int), inp),
                decreases alts.len() - idx,
            {
                if idx == alts.len() {
                    proof {
                        assert(av.skip(idx as int) =~= Seq::<Seq<SpecToken>>::empty());
                    }
                    return (false, 0);
                }
                let alt: &Expression = &alts[idx];
                proof {
                    lemma_alternative_size_lt(av, idx as int);
                    lemma_tokens_view_index(alt.tokens@);
                    assert(tokens_view(alt.tokens@).subrange(0, alt.tokens@.len() as int)
                        =~= tokens_view(alt.tokens@));
                    assert(av[idx as int] == tokens_view(alt.tokens@));
                }
                let m = Matcher { input: input, re: alt };
                let (ok, end) = m.match_window(0, alt.tokens.len(), pos);
                proof {
                    assert(av.skip(idx as int)[0] == av[idx as int]);
                }
                if ok {
                    proof {
                        assert(alt_first(av.skip(idx as int), inp) == eval(av[idx as int], inp));
                    }
                    return (true, end - pos);
                }
                proof {
                    assert(av.skip(idx as int).drop_first() =~= av.skip(idx as int + 1));
                }
                idx = idx + 1;
            }
        },
    }
}

/// The matcher: a subject line and the compiled expression it is matched
/// against.
pub struct Matcher<'a> {
    pub input: &'a Vec<char>,
    pub re: &'a Expression,
}

impl<'a> Matcher<'a> {
    /// Walks the tokens `tok_lo..tok_hi` of the expression against the
    /// input from position `inp_ind`, exactly as `eval` says: two cursors
    /// advance in lockstep, one token's rule at a time, with no
    /// backtracking.  Returns whether the walk succeeded and the input
    /// position it reached; a failed walk reports position 0.
    pub fn match_window(&self, tok_lo: usize, tok_hi: usize, inp_ind: usize) -> (r: (bool, usize))
        requires
            tok_lo <= tok_hi <= self.re.tokens.len(),
            inp_ind <= self.input.len(),
        ensures
            match eval(
                tokens_view(self.re.tokens@).subrange(tok_lo as int, tok_hi as int),
                self.input@.skip(inp_ind as int),
            ) {
                Some(k) => r.0 && r.1 as nat == inp_ind + k && r.1 <= self.input@.len(),
                None => r == (false, 0usize),
            },
        decreases
                tokens_size(
                    tokens_view(self.re.tokens@).subrange(tok_lo as int, tok_hi as int),
                ),
                self.input@.len() - inp_ind,
                1int,
    {
        let ghost s = self.input@;
        let ghost win = tokens_view(self.re.tokens@).subrange(tok_lo as int, tok_hi as int);
        proof {
            lemma_tokens_view_index(self.re.tokens@);
        }
        let mut tok_i: usize = tok_lo;
        let mut cur: usize = inp_ind;
        loop
            invariant
                tok_lo <= tok_i <= tok_hi <= self.re.tokens.len(),
                inp_ind <= cur <= self.input@.len(),
                s == self.input@,
                win == tokens_view(self.re.tokens@).subrange(tok_lo as int, tok_hi as int),
                tokens_view(self.re.tokens@).len() == self.re.tokens@.len(),
                forall|j: int|
                    0 <= j < self.re.tokens@.len() ==> tokens_view(self.re.tokens@)[j]
                        == token_view(#[trigger] self.re.tokens@[j]),
                eval(win, s.skip(inp_ind as int)) == match eval(
                    tokens_view(self.re.tokens@).subrange(tok_i as int, tok_hi as int),
                    s.skip(cur as int),
                ) {
                    Some(m) => Some((cur - inp_ind + m) as nat),
                    None => None::<nat>,
                },
            decreases tok_hi - tok_i,
        {
            let ghost rest = tokens_view(self.re.tokens@).subrange(tok_i as int, tok_hi as int);
            if tok_i == tok_hi {
                proof {
                    assert(rest =~= Seq::<SpecToken>::empty());
                }
                return (true, cur);
            }
            if cur == self.input.len() {
                proof {
                    assert(rest.len() > 0);
                    assert(s.skip(cur as int).len() == 0);
                }
                return (false, 0);
            }
            proof {
                assert(rest[0] == token_view(self.re.tokens@[tok_i as int]));
                assert(win[tok_i - tok_lo] == rest[0]);
                lemma_token_size_le(win, tok_i - tok_lo);
            }
            let t = &self.re.tokens[tok_i];
            let (m, k) = eval_one_at(self.input, t, cur);
            if !m {
                return (false, 0);
            }
            proof {
                assert(rest.drop_first() =~= tokens_view(self.re.tokens@).subrange(
                    tok_i + 1int,
                    tok_hi as int,
                ));
                assert(s.skip(cur as int).skip(k as int) =~= s.skip(cur + k as int));
            }
            cur = cur + k;
            tok_i = tok_i + 1;
        }
    }

    /// Walks the whole expression against the input from position
    /// `inp_ind`.
    pub fn match_re_and_input(&self, inp_ind: usize) -> (r: (bool, usize))
        requires
            inp_ind <= self.input.len(),
        ensures
            match eval(expr_view(*self.re), self.input@.skip(inp_ind as int)) {
                Some(k) => r.0 && r.1 as nat == inp_ind + k && r.1 <= self.input@.len(),
                None => r == (false, 0usize),
            },
    {
        let n = self.re.tokens.len();
        proof {
            lemma_tokens_view_index(self.re.tokens@);
            assert(tokens_view(self.re.tokens@).subrange(0, n as int) =~= expr_view(*self.re));
        }
        self.match_window(0, n, inp_ind)
    }

    /// One match attempt of an expression against the input from its
    /// front: whether it matched and how many characters it consumed; a
    /// failed attempt reports 0.
    pub fn mtch(input: &Vec<char>, re: &Expression) -> (r: (bool, usize))
        ensures
            match eval(expr_view(*re), input@) {
                Some(k) => r.0 && r.1 as nat == k && r.1 <= input@.len(),
                None => r == (false, 0usize),
            },
    {
        let matcher = Matcher { input: input, re: re };
        proof {
            assert(input@.skip(0) =~= input@);
        }
        matcher.match_re_and_input(0)
    }

    /// The outer search, exactly as `spec_search` says: anchors are read
    /// off the ends of the expression (the expression itself is left
    /// untouched) and the rest of the tokens are tried at each starting
    /// offset from 0 to the subject's length inclusive — only at offset 0
    /// when the pattern starts with `^`.  Returns whether some offset
    /// matched and the input position that match reached.
    pub fn mtch_main(input: &Vec<char>, re: &Expression) -> (r: (bool, usize))
        ensures
            match spec_search(expr_view(*re), input@) {
                Some(end) => r.0 && r.1 as nat == end,
                None => r == (false, 0usize),
            },
    {
        let ghost ts = expr_view(*re);
        let n = re.tokens.len();
        proof {
            lemma_tokens_view_index(re.tokens@);
        }
        let anchored: bool = if n > 0 {
            match &re.tokens[0] {
                Token::StartAnchor => true,
                _ => false,
            }
        } else {
            false
        };
        proof {
            assert(anchored == spec_anchored_start(ts));
        }
        let lo: usize = if anchored {
            1
        } else {
            0
        };
        let require_end: bool = if n > lo {
            match &re.tokens[n - 1] {
                Token::EndAnchor => true,
                _ => false,
            }
        } else {
            false
        };
        proof {
            assert(require_end == spec_require_end(ts));
        }
        let hi: usize = if require_end {
            n - 1
        } else {
            n
        };
        let ghost win = spec_window(ts);
        proof {
            assert(win =~= tokens_view(re.tokens@).subrange(lo as int, hi as int));
        }
        let last: usize = if anchored {
            0
        } else {
            input.len()
        };
        let matcher = Matcher { input: input, re: re };
        let mut i: usize = 0;
        loop
            invariant
                0 <= i <= last,
                last <= input@.len(),
                lo <= hi <= re.tokens@.len(),
                n == re.tokens@.len(),
                ts == expr_view(*re),
                win == tokens_view(re.tokens@).subrange(lo as int, hi as int),
                tokens_view(re.tokens@).len() == re.tokens@.len(),
                matcher.input == input,
                matcher.re == re,
                spec_search(ts, input@) == spec_search_at(
                    win,
                    input@,
                    i as nat,
                    last as nat,
                    require_end,
                ),
            decreases last - i,
        {
            let (m, end) = matcher.match_window(lo, hi, i);
            if m {
                if require_end {
                    if end == input.len() {
                        return (true, end);
                    } else {
                        return (false, 0);
                    }
                }
                return (true, end);
            }
            if i == last {
                return (false, 0);
            }
            i = i + 1;
        }
    }
}

/// The whole engine: the pattern is compiled and the subject line is
/// searched for it, exactly as `spec_match_pattern` says.  A malformed
/// pattern is reported as an error, never as a false "no match".
pub fn match_pattern(input_line: &str, pattern: &str) -> (r: Result<bool, crate::parser::ParseError>)
    ensures
        match r {
            Ok(b) => crate::matcher::spec_match_pattern(input_line@, pattern@) == Some(b),
            Err(_) => crate::matcher::spec_match_pattern(input_line@, pattern@) is None,
        },
{
    let mut parser = crate::parser::Parser::new(pattern);
    let re = match parser.parse() {
        Ok(e) => e,
        Err(e) => {
            return Err(e);
        },
    };
    let chars = crate::parser::chars_of(input_line);
    let (matched, _ind) = Matcher::mtch_main(&chars, &re);
    Ok(matched)
}

} // verus!
