//! The concrete query syntax: keywords (bare words or quoted phrases)
//! joined left to right by `&` (and), `|` (or) and `-` (difference). A
//! malformed query is reported to the caller with a reason, never a crash.

use vstd::prelude::*;

verus! {

broadcast use vstd::seq_lib::group_seq_properties;

use crate::query::Query;
use crate::text::chars_of;

/// One token of the query surface syntax.
pub enum QTok {
    Word(String),
    OpAnd,
    OpOr,
    OpDiff,
}

/// Why a query failed to parse; carried back to the caller beside the
/// offending input.
#[derive(Debug)]
pub enum ParseError {
    EmptyQuery,
    UnterminatedQuote,
    MisplacedOperator,
}

/// A lexed token at the specification level: a word carries its characters.
pub enum LexTok {
    Word(Seq<char>),
    OpAnd,
    OpOr,
    OpDiff,
}

pub open spec fn qtok_view(t: QTok) -> LexTok {
    match t {
        QTok::Word(w) => LexTok::Word(w@),
        QTok::OpAnd => LexTok::OpAnd,
        QTok::OpOr => LexTok::OpOr,
        QTok::OpDiff => LexTok::OpDiff,
    }
}

pub open spec fn lex_views(ts: Seq<QTok>) -> Seq<LexTok> {
    ts.map_values(|t: QTok| qtok_view(t))
}

pub open spec fn is_special(c: char) -> bool {
    c == ' ' || c == '&' || c == '|' || c == '-' || c == '"'
}

fn special(c: char) -> (r: bool)
    ensures
        r == is_special(c),
{
    c == ' ' || c == '&' || c == '|' || c == '-' || c == '"'
}

/// The first position at or after `j` holding a special character, or the
/// end of the line.
pub open spec fn word_end(cs: Seq<char>, j: int) -> int
    decreases cs.len() - j,
{
    if j >= cs.len() {
        j
    } else if is_special(cs[j]) {
        j
    } else {
        word_end(cs, j + 1)
    }
}

/// The first position at or after `j` holding a closing quote, or the end
/// of the line.
pub open spec fn quote_end(cs: Seq<char>, j: int) -> int
    decreases cs.len() - j,
{
    if j >= cs.len() {
        j
    } else if cs[j] == '"' {
        j
    } else {
        quote_end(cs, j + 1)
    }
}

proof fn lemma_word_end_bounds(cs: Seq<char>, j: int)
    ensures
        word_end(cs, j) >= j,
        j <= cs.len() ==> word_end(cs, j) <= cs.len(),
    decreases cs.len() - j,
{
    if j < cs.len() && !is_special(cs[j]) {
        lemma_word_end_bounds(cs, j + 1);
    }
}

proof fn lemma_quote_end_bounds(cs: Seq<char>, j: int)
    ensures
        quote_end(cs, j) >= j,
        j <= cs.len() ==> quote_end(cs, j) <= cs.len(),
    decreases cs.len() - j,
{
    if j < cs.len() && cs[j] != '"' {
        lemma_quote_end_bounds(cs, j + 1);
    }
}

proof fn lemma_word_end_is(cs: Seq<char>, a: int, j: int)
    requires
        a <= j <= cs.len(),
        forall|k: int| a <= k < j ==> !is_special(cs[k]),
        j == cs.len() || is_special(cs[j]),
    ensures
        word_end(cs, a) == j,
    decreases j - a,
{
    if a < j {
        assert(!is_special(cs[a]));
        lemma_word_end_is(cs, a + 1, j);
    }
}

proof fn lemma_quote_end_is(cs: Seq<char>, a: int, j: int)
    requires
        a <= j <= cs.len(),
        forall|k: int| a <= k < j ==> cs[k] != '"',
        j == cs.len() || cs[j] == '"',
    ensures
        quote_end(cs, a) == j,
    decreases j - a,
{
    if a < j {
        assert(cs[a] != '"');
        lemma_quote_end_is(cs, a + 1, j);
    }
}

pub open spec fn lex_prepend(t: LexTok, rest: Result<Seq<LexTok>, ParseError>) -> Result<
    Seq<LexTok>,
    ParseError,
> {
    match rest {
        Ok(ts) => Ok(seq![t] + ts),
        Err(e) => Err(e),
    }
}

/// The tokens of the line from position `i` on: spaces separate, the three
/// operators stand alone, a quote opens a phrase that must close, and any
/// other character opens a bare word.
pub open spec fn spec_lex_from(cs: Seq<char>, i: int) -> Result<Seq<LexTok>, ParseError>
    decreases cs.len() - i,
    via spec_lex_from_dec
{
    if i >= cs.len() {
        Ok(Seq::empty())
    } else if cs[i] == ' ' {
        spec_lex_from(cs, i + 1)
    } else if cs[i] == '&' {
        lex_prepend(LexTok::OpAnd, spec_lex_from(cs, i + 1))
    } else if cs[i] == '|' {
        lex_prepend(LexTok::OpOr, spec_lex_from(cs, i + 1))
    } else if cs[i] == '-' {
        lex_prepend(LexTok::OpDiff, spec_lex_from(cs, i + 1))
    } else if cs[i] == '"' {
        if quote_end(cs, i + 1) >= cs.len() {
            Err(ParseError::UnterminatedQuote)
        } else {
            lex_prepend(
                LexTok::Word(cs.subrange(i + 1, quote_end(cs, i + 1))),
                spec_lex_from(cs, quote_end(cs, i + 1) + 1),
            )
        }
    } else {
        lex_prepend(
            LexTok::Word(cs.subrange(i, word_end(cs, i + 1))),
            spec_lex_from(cs, word_end(cs, i + 1)),
        )
    }
}

#[via_fn]
proof fn spec_lex_from_dec(cs: Seq<char>, i: int) {
    lemma_word_end_bounds(cs, i + 1);
    lemma_quote_end_bounds(cs, i + 1);
}

/// What a whole query line lexes to.
pub open spec fn spec_lex(cs: Seq<char>) -> Result<Seq<LexTok>, ParseError> {
    spec_lex_from(cs, 0)
}

pub open spec fn lex_concat(done: Seq<LexTok>, rest: Result<Seq<LexTok>, ParseError>) -> Result<
    Seq<LexTok>,
    ParseError,
> {
    match rest {
        Ok(ts) => Ok(done + ts),
        Err(e) => Err(e),
    }
}

proof fn lemma_lex_concat_step(a: Seq<LexTok>, v: LexTok, rest: Result<Seq<LexTok>, ParseError>)
    ensures
        lex_concat(a, lex_prepend(v, rest)) == lex_concat(a.push(v), rest),
{
    match rest {
        Ok(ts) => {
            assert(a + (seq![v] + ts) =~= a.push(v) + ts);
        },
        Err(_) => {},
    }
}

/// Cuts a query line into tokens, exactly as the lexing spec says. Only an
/// unclosed quote is malformed.
pub fn lex_query(s: &str) -> (r: Result<Vec<QTok>, ParseError>)
    ensures
        match r {
            Ok(toks) => spec_lex(s@) == Ok::<Seq<LexTok>, ParseError>(lex_views(toks@)),
            Err(e) => e is UnterminatedQuote && spec_lex(s@) == Err::<Seq<LexTok>, ParseError>(
                e,
            ),
        },
{
    let cs = chars_of(s);
    let n = cs.len();
    let mut toks: Vec<QTok> = Vec::new();
    let mut i: usize = 0;
    while i < n
        invariant
            n == cs@.len(),
            cs@ == s@,
            i <= n,
            spec_lex(s@) == lex_concat(lex_views(toks@), spec_lex_from(cs@, i as int)),
        decreases n - i,
    {
        let ghost pre = toks@;
        let c = cs[i];
        if c == ' ' {
            i += 1;
        } else if c == '&' {
            toks.push(QTok::OpAnd);
            proof {
                lemma_lex_concat_step(lex_views(pre), LexTok::OpAnd, spec_lex_from(cs@, i + 1));
                assert(lex_views(toks@) =~= lex_views(pre).push(LexTok::OpAnd));
            }
            i += 1;
        } else if c == '|' {
            toks.push(QTok::OpOr);
            proof {
                lemma_lex_concat_step(lex_views(pre), LexTok::OpOr, spec_lex_from(cs@, i + 1));
                assert(lex_views(toks@) =~= lex_views(pre).push(LexTok::OpOr));
            }
            i += 1;
        } else if c == '-' {
            toks.push(QTok::OpDiff);
            proof {
                lemma_lex_concat_step(lex_views(pre), LexTok::OpDiff, spec_lex_from(cs@, i + 1));
                assert(lex_views(toks@) =~= lex_views(pre).push(LexTok::OpDiff));
            }
            i += 1;
        } else if c == '"' {
            let mut j = i + 1;
            while j < n && cs[j] != '"'
                invariant
                    n == cs@.len(),
                    i + 1 <= j <= n,
                    forall|k: int| i + 1 <= k < j ==> cs@[k] != '"',
                decreases n - j,
            {
                j += 1;
            }
            proof {
                lemma_quote_end_is(cs@, i + 1, j as int);
            }
            if j == n {
                return Err(ParseError::UnterminatedQuote);
            }
            let w = vstd::string::StrSliceExecFns::substring_char(s, i + 1, j);
            let tok = QTok::Word(w.to_owned());
            let ghost v = LexTok::Word(cs@.subrange(i + 1, j as int));
            proof {
                assert(qtok_view(tok) == v);
            }
            toks.push(tok);
            proof {
                lemma_lex_concat_step(lex_views(pre), v, spec_lex_from(cs@, j + 1));
                assert(lex_views(toks@) =~= lex_views(pre).push(v));
            }
            i = j + 1;
        } else {
            let mut j = i + 1;
            while j < n && !special(cs[j])
                invariant
                    n == cs@.len(),
                    i + 1 <= j <= n,
                    forall|k: int| i + 1 <= k < j ==> !is_special(cs@[k]),
                decreases n - j,
            {
                j += 1;
            }
            proof {
                lemma_word_end_is(cs@, i + 1, j as int);
            }
            let w = vstd::string::StrSliceExecFns::substring_char(s, i, j);
            let tok = QTok::Word(w.to_owned());
            let ghost v = LexTok::Word(cs@.subrange(i as int, j as int));
            proof {
                assert(qtok_view(tok) == v);
            }
            toks.push(tok);
            proof {
                lemma_lex_concat_step(lex_views(pre), v, spec_lex_from(cs@, j as int));
                assert(lex_views(toks@) =~= lex_views(pre).push(v));
            }
            i = j;
        }
    }
    proof {
        assert(spec_lex_from(cs@, n as int) == Ok::<Seq<LexTok>, ParseError>(Seq::empty()));
        assert(lex_views(toks@) + Seq::<LexTok>::empty() =~= lex_views(toks@));
    }
    Ok(toks)
}

/// The query a token sequence denotes: keywords folded left to right with
/// their operators, or nothing where the alternation is broken.
pub open spec fn spec_parse_tokens(toks: Seq<QTok>) -> Option<Query>
    decreases toks.len(),
{
    if toks.len() == 0 {
        None
    } else if toks.len() == 1 {
        match toks[0] {
            QTok::Word(w) => Some(Query::KeyWord(w)),
            _ => None,
        }
    } else if toks.len() == 2 {
        None
    } else {
        match (spec_parse_tokens(toks.take(toks.len() - 2)), toks[toks.len() - 2], toks.last()) {
            (Some(acc), QTok::OpAnd, QTok::Word(w)) => Some(
                Query::And(Box::new(acc), Box::new(Query::KeyWord(w))),
            ),
            (Some(acc), QTok::OpOr, QTok::Word(w)) => Some(
                Query::Or(Box::new(acc), Box::new(Query::KeyWord(w))),
            ),
            (Some(acc), QTok::OpDiff, QTok::Word(w)) => Some(
                Query::Diff(Box::new(acc), Box::new(Query::KeyWord(w))),
            ),
            _ => None,
        }
    }
}

/// Folds a lexed token sequence into a query, exactly as the token-level
/// grammar says; a broken alternation is a misplaced operator, no tokens at
/// all an empty query.
pub fn parse_tokens(toks: &Vec<QTok>) -> (r: Result<Query, ParseError>)
    ensures
        match r {
            Ok(q) => spec_parse_tokens(toks@) == Some(q),
            Err(ParseError::EmptyQuery) => toks@.len() == 0,
            Err(_) => r == Err::<Query, ParseError>(ParseError::MisplacedOperator)
                && spec_parse_tokens(toks@) is None && toks@.len() > 0,
        },
{
    let n = toks.len();
    if n == 0 {
        return Err(ParseError::EmptyQuery);
    }
    let mut acc = match &toks[0] {
        QTok::Word(w) => Query::KeyWord(w.clone()),
        _ => {
            proof {
                assert(toks@.take(1) =~= seq![toks@[0]]);
                lemma_full_none(toks@, 1);
            }
            return Err(ParseError::MisplacedOperator);
        },
    };
    proof {
        assert(toks@.take(1) =~= seq![toks@[0]]);
    }
    let mut i: usize = 1;
    while i < n
        invariant
            n == toks@.len(),
            1 <= i <= n,
            i % 2 == 1,
            spec_parse_tokens(toks@.take(i as int)) == Some(acc),
        decreases n - i,
    {
        if i + 1 >= n {
            proof {
                assert(n == i + 1);
                lemma_even_none(toks@, n as int);
                assert(toks@.take(n as int) =~= toks@);
            }
            return Err(ParseError::MisplacedOperator);
        }
        let w = match &toks[i + 1] {
            QTok::Word(w) => w.clone(),
            _ => {
                proof {
                    assert(toks@.take(i + 2).last() == toks@[i + 1]);
                    assert(toks@.take(i + 2).len() == i + 2 >= 3);
                    assert(spec_parse_tokens(toks@.take(i + 2)) is None);
                    lemma_full_none(toks@, i + 2);
                }
                return Err(ParseError::MisplacedOperator);
            },
        };
        let next = match &toks[i] {
            QTok::OpAnd => Query::And(Box::new(acc), Box::new(Query::KeyWord(w))),
            QTok::OpOr => Query::Or(Box::new(acc), Box::new(Query::KeyWord(w))),
            QTok::OpDiff => Query::Diff(Box::new(acc), Box::new(Query::KeyWord(w))),
            QTok::Word(_) => {
                proof {
                    let p = toks@.take(i + 2);
                    assert(p[p.len() - 2] == toks@[i as int]);
                    assert(spec_parse_tokens(p) is None);
                    lemma_full_none(toks@, i + 2);
                }
                return Err(ParseError::MisplacedOperator);
            },
        };
        acc = next;
        proof {
            let p = toks@.take(i + 2);
            assert(p.take(p.len() - 2) =~= toks@.take(i as int));
            assert(p[p.len() - 2] == toks@[i as int]);
            assert(p.last() == toks@[i + 1]);
        }
        i += 2;
    }
    proof {
        assert(toks@.take(n as int) =~= toks@);
    }
    Ok(acc)
}

/// A prefix of even length never parses: the grammar alternates keywords
/// and operators, so every query has an odd number of tokens.
proof fn lemma_even_none(toks: Seq<QTok>, e: int)
    requires
        0 <= e <= toks.len(),
        e % 2 == 0,
    ensures
        spec_parse_tokens(toks.take(e)) is None,
    decreases e,
{
    if e >= 4 {
        assert(toks.take(e).take(e - 2) =~= toks.take(e - 2));
        lemma_even_none(toks, e - 2);
    }
}

/// Once an odd prefix fails to parse, every longer odd prefix fails too.
proof fn lemma_odd_propagate(toks: Seq<QTok>, j0: int, j: int)
    requires
        1 <= j0 <= j <= toks.len(),
        j0 % 2 == 1,
        j % 2 == 1,
        spec_parse_tokens(toks.take(j0)) is None,
    ensures
        spec_parse_tokens(toks.take(j)) is None,
    decreases j - j0,
{
    if j > j0 {
        lemma_odd_propagate(toks, j0, j - 2);
        assert(toks.take(j).take(j - 2) =~= toks.take(j - 2));
    }
}

/// Once a prefix of odd length fails to parse, the whole line fails.
proof fn lemma_full_none(toks: Seq<QTok>, j: int)
    requires
        1 <= j <= toks.len(),
        j % 2 == 1,
        spec_parse_tokens(toks.take(j)) is None,
    ensures
        spec_parse_tokens(toks) is None,
{
    let n = toks.len() as int;
    assert(toks.take(n) =~= toks);
    if n % 2 == 0 {
        lemma_even_none(toks, n);
    } else {
        lemma_odd_propagate(toks, j, n);
    }
}

/// Parses one query line: the lexing spec pins the tokens of the line, and
/// the token grammar pins the query they fold to. A word token holds a
/// `String`, which no spec function can build, so the successful result is
/// stated through a token sequence pinned up to its character views.
pub fn parse_query(s: &str) -> (r: Result<Query, ParseError>)
    ensures
        match r {
            Ok(q) => exists|toks: Seq<QTok>|
                spec_lex(s@) == Ok::<Seq<LexTok>, ParseError>(#[trigger] lex_views(toks))
                    && spec_parse_tokens(toks) == Some(q),
            Err(ParseError::UnterminatedQuote) => spec_lex(s@) == Err::<Seq<LexTok>, ParseError>(
                ParseError::UnterminatedQuote,
            ),
            Err(ParseError::EmptyQuery) => spec_lex(s@) == Ok::<Seq<LexTok>, ParseError>(
                Seq::empty(),
            ),
            Err(ParseError::MisplacedOperator) => exists|toks: Seq<QTok>|
                spec_lex(s@) == Ok::<Seq<LexTok>, ParseError>(#[trigger] lex_views(toks))
                    && spec_parse_tokens(toks) is None && toks.len() > 0,
        },
{
    let toks = match lex_query(s) {
        Ok(toks) => toks,
        Err(e) => {
            return Err(e);
        },
    };
    match parse_tokens(&toks) {
        Ok(q) => {
            proof {
                assert(spec_lex(s@) == Ok::<Seq<LexTok>, ParseError>(lex_views(toks@))
                    && spec_parse_tokens(toks@) == Some(q));
            }
            Ok(q)
        },
        Err(ParseError::EmptyQuery) => {
            proof {
                assert(lex_views(toks@) =~= Seq::<LexTok>::empty());
            }
            Err(ParseError::EmptyQuery)
        },
        Err(e) => {
            proof {
                assert(spec_lex(s@) == Ok::<Seq<LexTok>, ParseError>(lex_views(toks@))
                    && spec_parse_tokens(toks@) is None && toks@.len() > 0);
            }
            Err(e)
        },
    }
}

} // verus!
