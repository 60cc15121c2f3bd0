//! The parser: tokens to a sequence of `Code` trees, by recursive descent.
//!
//! ```text
//! expr      := atom | list | map
//! list      := '[' expr* ']'
//! map       := '{' headentry pair* '}'
//! headentry := expr (':' expr)?
//! pair      := expr ':' expr
//! ```
//!
//! Whitespace and comment tokens are skipped between all other tokens. A map
//! literal whose first entry has no `:` stores that expression under the key
//! `head_position_field`.
use vstd::prelude::*;

use crate::code::{Code, Expr, lemma_map_view, lemma_vec_view};
use crate::map::{CanonicalMap, insert_entry};
use crate::queue::Queue;
use crate::token::{Lexeme, Span, Token, TokenKind, spans};

verus! {

#[derive(Clone, Copy, Debug, PartialEq, Eq, Structural)]
pub enum ParseErrorKind {
    /// A token that cannot start an expression: `]`, `}`, `:` or a symbol.
    UnexpectedToken,
    UnterminatedList,
    UnterminatedMap,
    /// A map entry after the first whose key is not followed by `:`.
    MissingFieldDelimiter,
    /// Kept for the error taxonomy; the end of the input inside a list or a
    /// map is reported as an unterminated list or map.
    UnexpectedEndOfInput,
}

/// A parsing failure, with the index of the token where it was found.
#[derive(Clone, Copy, Debug, PartialEq, Eq, Structural)]
pub struct ParseError {
    pub kind: ParseErrorKind,
    pub position: usize,
}

/// The outcome of parsing one expression: its value and the position after
/// it and the trivia that follow it; the end of the input; or an error and
/// where it was found.
pub enum Step {
    Value(Expr, int),
    End(int),
    Fail(ParseErrorKind, int),
}

/// The outcome of parsing one `key: value` entry.
pub enum PairStep {
    Pair(Expr, Expr, int),
    Fail(ParseErrorKind, int),
}

pub open spec fn trivia(t: Span) -> bool {
    t.kind is Whitespace || t.kind is Comment
}

/// The first position at or after `i` that holds no whitespace or comment.
pub open spec fn skip_trivia(ts: Seq<Span>, i: int) -> int
    decreases ts.len() - i,
{
    if 0 <= i < ts.len() && trivia(ts[i]) {
        skip_trivia(ts, i + 1)
    } else {
        i
    }
}

pub proof fn lemma_skip_trivia(ts: Seq<Span>, i: int)
    requires
        0 <= i <= ts.len(),
    ensures
        i <= skip_trivia(ts, i) <= ts.len(),
        forall|k: int| i <= k < skip_trivia(ts, i) ==> trivia(#[trigger] ts[k]),
        skip_trivia(ts, i) < ts.len() ==> !trivia(ts[skip_trivia(ts, i)]),
    decreases ts.len() - i,
{
    if i < ts.len() && trivia(ts[i]) {
        lemma_skip_trivia(ts, i + 1);
    }
}

/// The value of a literal or identifier token.
pub open spec fn atom(k: Lexeme) -> Option<Expr> {
    match k {
        Lexeme::Integer(n) => Some(Expr::Integer(n)),
        Lexeme::Float(t) => Some(Expr::Float(t)),
        Lexeme::Character(c) => Some(Expr::Character(c)),
        Lexeme::StringLiteral(t) => Some(Expr::StringLiteral(t)),
        Lexeme::Identifier(t) => Some(Expr::Identifier(t)),
        _ => None,
    }
}

/// The key under which a map literal stores a first entry without `:`.
pub open spec fn head_field() -> Expr {
    Expr::Identifier("head_position_field"@)
}

// Each rule below takes at least one token before it recurses at a later
// position; the branches that test for that are never taken (see
// `lemma_code_at_advances`).

/// One expression at `i`, after skipping trivia.
pub open spec fn code_at(ts: Seq<Span>, i: int) -> Step
    decreases ts.len() - i, 0int,
{
    if i < 0 || i > ts.len() {
        Step::End(i)
    } else {
        proof {
            lemma_skip_trivia(ts, i);
        }
        let j = skip_trivia(ts, i);
        if j >= ts.len() {
            Step::End(j)
        } else {
            match atom(ts[j].kind) {
                Some(e) => Step::Value(e, skip_trivia(ts, j + 1)),
                None => if ts[j].kind is Lfn {
                    match list_at(ts, j + 1, Seq::empty()) {
                        Step::Value(e, k) => Step::Value(e, skip_trivia(ts, k)),
                        other => other,
                    }
                } else if ts[j].kind is Lcond {
                    match map_at(ts, j + 1) {
                        Step::Value(e, k) => Step::Value(e, skip_trivia(ts, k)),
                        other => other,
                    }
                } else {
                    Step::Fail(ParseErrorKind::UnexpectedToken, j)
                },
            }
        }
    }
}

/// The rest of a list whose elements so far are `items`, from `i`.
pub open spec fn list_at(ts: Seq<Span>, i: int, items: Seq<Expr>) -> Step
    decreases ts.len() - i, 2int,
{
    if i < 0 || i > ts.len() {
        Step::Fail(ParseErrorKind::UnterminatedList, i)
    } else {
        proof {
            lemma_skip_trivia(ts, i);
        }
        let j = skip_trivia(ts, i);
        if j >= ts.len() {
            Step::Fail(ParseErrorKind::UnterminatedList, j)
        } else if ts[j].kind is Rfn {
            Step::Value(Expr::List(items), j + 1)
        } else {
            match code_at(ts, j) {
                Step::Value(e, k) => if i < k <= ts.len() {
                    list_at(ts, k, items.push(e))
                } else {
                    Step::Fail(ParseErrorKind::UnexpectedToken, j)
                },
                Step::End(k) => Step::Fail(ParseErrorKind::UnterminatedList, k),
                Step::Fail(kind, p) => Step::Fail(kind, p),
            }
        }
    }
}

/// One `key: value` entry at `i`.
pub open spec fn pair_at(ts: Seq<Span>, i: int) -> PairStep
    decreases ts.len() - i, 1int,
{
    match code_at(ts, i) {
        Step::End(k) => PairStep::Fail(ParseErrorKind::UnterminatedMap, k),
        Step::Fail(kind, p) => PairStep::Fail(kind, p),
        Step::Value(key, k) => if k < 0 || k >= ts.len() {
            PairStep::Fail(ParseErrorKind::UnterminatedMap, k)
        } else if !(ts[k].kind is FieldDelim) {
            PairStep::Fail(ParseErrorKind::MissingFieldDelimiter, k)
        } else if k < i {
            PairStep::Fail(ParseErrorKind::UnexpectedToken, k)
        } else {
            match code_at(ts, k + 1) {
                Step::End(m) => PairStep::Fail(ParseErrorKind::UnterminatedMap, m),
                Step::Fail(kind, p) => PairStep::Fail(kind, p),
                Step::Value(v, m) => PairStep::Pair(key, v, m),
            }
        },
    }
}

/// The rest of a map literal whose entries so far are `m`, from `i`.
pub open spec fn entries_at(ts: Seq<Span>, i: int, m: Seq<(Expr, Expr)>) -> Step
    decreases ts.len() - i, 2int,
{
    if i < 0 || i > ts.len() {
        Step::Fail(ParseErrorKind::UnterminatedMap, i)
    } else {
        proof {
            lemma_skip_trivia(ts, i);
        }
        let j = skip_trivia(ts, i);
        if j >= ts.len() {
            Step::Fail(ParseErrorKind::UnterminatedMap, j)
        } else if ts[j].kind is Rcond {
            Step::Value(Expr::Dict(m), j + 1)
        } else {
            match pair_at(ts, j) {
                PairStep::Fail(kind, p) => Step::Fail(kind, p),
                PairStep::Pair(key, v, k) => if i < k <= ts.len() {
                    entries_at(ts, k, insert_entry::<Code, Expr>(m, key, v))
                } else {
                    Step::Fail(ParseErrorKind::UnexpectedToken, j)
                },
            }
        }
    }
}

/// A map literal after its `{`, from `i`: the head entry, then the pairs.
pub open spec fn map_at(ts: Seq<Span>, i: int) -> Step
    decreases ts.len() - i, 3int,
{
    match code_at(ts, i) {
        Step::End(k) => Step::Fail(ParseErrorKind::UnterminatedMap, k),
        Step::Fail(kind, p) => Step::Fail(kind, p),
        Step::Value(first, k) => if k < 0 || k >= ts.len() {
            Step::Fail(ParseErrorKind::UnterminatedMap, k)
        } else if k <= i {
            Step::Fail(ParseErrorKind::UnexpectedToken, k)
        } else if ts[k].kind is FieldDelim {
            match code_at(ts, k + 1) {
                Step::End(m) => Step::Fail(ParseErrorKind::UnterminatedMap, m),
                Step::Fail(kind, p) => Step::Fail(kind, p),
                Step::Value(v, m) => if i < m <= ts.len() {
                    entries_at(ts, m, insert_entry::<Code, Expr>(Seq::empty(), first, v))
                } else {
                    Step::Fail(ParseErrorKind::UnexpectedToken, m)
                },
            }
        } else {
            entries_at(ts, k, insert_entry::<Code, Expr>(Seq::empty(), head_field(), first))
        },
    }
}

/// The expressions from `i` on, after those already read (`done`), or the
/// first error.
pub open spec fn program_from(ts: Seq<Span>, i: int, done: Seq<Expr>) -> Result<Seq<Expr>, ParseError>
    decreases ts.len() - i,
{
    match code_at(ts, i) {
        Step::End(_) => Ok(done),
        Step::Fail(kind, p) => Err(ParseError { kind, position: p as usize }),
        Step::Value(e, k) => if i < k <= ts.len() {
            program_from(ts, k, done.push(e))
        } else {
            Err(ParseError { kind: ParseErrorKind::UnexpectedToken, position: i as usize })
        },
    }
}

/// The top-level expressions of a token sequence, or the first error.
pub open spec fn parse_tokens(ts: Seq<Span>) -> Result<Seq<Expr>, ParseError> {
    program_from(ts, 0, Seq::empty())
}

/// The views of a sequence of codes.
pub open spec fn views(cs: Seq<Code>) -> Seq<Expr> {
    cs.map_values(|c: Code| c@)
}

/// Each rule that succeeds takes at least one token and stays within the
/// input, so the progress tests in the rules always pass.
pub proof fn lemma_code_at_advances(ts: Seq<Span>, i: int)
    requires
        0 <= i <= ts.len(),
    ensures
        code_at(ts, i) matches Step::Value(_, k) ==> i < k <= ts.len(),
        code_at(ts, i) matches Step::End(k) ==> k == ts.len(),
    decreases ts.len() - i, 0int,
{
    lemma_skip_trivia(ts, i);
    let j = skip_trivia(ts, i);
    if j < ts.len() && atom(ts[j].kind) is None {
        if ts[j].kind is Lfn {
            lemma_list_at_advances(ts, j + 1, Seq::empty());
            if let Step::Value(_, k) = list_at(ts, j + 1, Seq::empty()) {
                lemma_skip_trivia(ts, k);
            }
        } else if ts[j].kind is Lcond {
            lemma_map_at_advances(ts, j + 1);
            if let Step::Value(_, k) = map_at(ts, j + 1) {
                lemma_skip_trivia(ts, k);
            }
        }
    } else if j < ts.len() {
        lemma_skip_trivia(ts, j + 1);
    }
}

pub proof fn lemma_list_at_advances(ts: Seq<Span>, i: int, items: Seq<Expr>)
    requires
        0 <= i <= ts.len(),
    ensures
        list_at(ts, i, items) matches Step::Value(_, k) ==> i < k <= ts.len(),
        !(list_at(ts, i, items) is End),
    decreases ts.len() - i, 2int,
{
    lemma_skip_trivia(ts, i);
    let j = skip_trivia(ts, i);
    if j < ts.len() && !(ts[j].kind is Rfn) {
        lemma_code_at_advances(ts, j);
        if let Step::Value(e, k) = code_at(ts, j) {
            lemma_list_at_advances(ts, k, items.push(e));
        }
    }
}

pub proof fn lemma_pair_at_advances(ts: Seq<Span>, i: int)
    requires
        0 <= i <= ts.len(),
    ensures
        pair_at(ts, i) matches PairStep::Pair(_, _, k) ==> i < k <= ts.len(),
    decreases ts.len() - i, 1int,
{
    lemma_code_at_advances(ts, i);
    if let Step::Value(_, k) = code_at(ts, i) {
        if k < ts.len() {
            lemma_code_at_advances(ts, k + 1);
        }
    }
}

pub proof fn lemma_entries_at_advances(ts: Seq<Span>, i: int, m: Seq<(Expr, Expr)>)
    requires
        0 <= i <= ts.len(),
    ensures
        entries_at(ts, i, m) matches Step::Value(_, k) ==> i < k <= ts.len(),
        !(entries_at(ts, i, m) is End),
    decreases ts.len() - i, 2int,
{
    lemma_skip_trivia(ts, i);
    let j = skip_trivia(ts, i);
    if j < ts.len() && !(ts[j].kind is Rcond) {
        lemma_pair_at_advances(ts, j);
        if let PairStep::Pair(key, v, k) = pair_at(ts, j) {
            lemma_entries_at_advances(ts, k, insert_entry::<Code, Expr>(m, key, v));
        }
    }
}

pub proof fn lemma_map_at_advances(ts: Seq<Span>, i: int)
    requires
        0 <= i <= ts.len(),
    ensures
        map_at(ts, i) matches Step::Value(_, k) ==> i < k <= ts.len(),
        !(map_at(ts, i) is End),
    decreases ts.len() - i, 3int,
{
    lemma_code_at_advances(ts, i);
    if let Step::Value(first, k) = code_at(ts, i) {
        if k < ts.len() {
            if ts[k].kind is FieldDelim {
                lemma_code_at_advances(ts, k + 1);
                if let Step::Value(v, m) = code_at(ts, k + 1) {
                    lemma_entries_at_advances(ts, m, insert_entry::<Code, Expr>(Seq::empty(), first, v));
                }
            } else {
                lemma_entries_at_advances(ts, k, insert_entry::<Code, Expr>(Seq::empty(), head_field(), first));
            }
        }
    }
}

proof fn lemma_list_unclosed_from(ts: Seq<Span>, p: int, items: Seq<Expr>, done: Seq<Expr>)
    requires
        0 <= p <= ts.len(),
        program_from(ts, p, done) is Ok,
    ensures
        list_at(ts, p, items) == Step::Fail(ParseErrorKind::UnterminatedList, ts.len() as int),
    decreases ts.len() - p,
{
    lemma_skip_trivia(ts, p);
    lemma_code_at_advances(ts, p);
    let j = skip_trivia(ts, p);
    if j < ts.len() {
        lemma_skip_trivia(ts, j);
        lemma_skip_trivia_unique(ts, j, j);
        assert(code_at(ts, j) == code_at(ts, p));
        if let Step::Value(e, k) = code_at(ts, p) {
            lemma_list_unclosed_from(ts, k, items.push(e), done.push(e));
        }
    }
}

/// Input that ends inside an open list: a `[` after which the tokens read as
/// well-formed expressions (so nothing closes it) is reported as an
/// unterminated list at the end of the input.
pub proof fn lemma_unclosed_list(ts: Seq<Span>, i: int)
    requires
        0 <= i < ts.len(),
        ts[i].kind is Lfn,
        program_from(ts, i + 1, Seq::empty()) is Ok,
    ensures
        code_at(ts, i) == Step::Fail(ParseErrorKind::UnterminatedList, ts.len() as int),
{
    lemma_list_unclosed_from(ts, i + 1, Seq::empty(), Seq::empty());
}

/// From `p` on, the tokens read as complete `key: value` entries, up to the
/// end of the input.
pub open spec fn complete_pairs(ts: Seq<Span>, p: int) -> bool
    decreases ts.len() - p,
{
    if p < 0 || p > ts.len() {
        false
    } else if skip_trivia(ts, p) >= ts.len() {
        true
    } else {
        match pair_at(ts, skip_trivia(ts, p)) {
            PairStep::Pair(_, _, k) => p < k <= ts.len() && complete_pairs(ts, k),
            PairStep::Fail(_, _) => false,
        }
    }
}

/// From `p` on, the tokens read as the entries of a map literal (a head
/// entry, then `key: value` entries), up to the end of the input.
pub open spec fn complete_entries(ts: Seq<Span>, p: int) -> bool {
    match code_at(ts, p) {
        Step::Value(_, k) => k >= ts.len() || if ts[k].kind is FieldDelim {
            match code_at(ts, k + 1) {
                Step::Value(_, m) => complete_pairs(ts, m),
                Step::End(_) => true,
                Step::Fail(_, _) => false,
            }
        } else {
            complete_pairs(ts, k)
        },
        _ => false,
    }
}

proof fn lemma_map_unclosed_from(ts: Seq<Span>, p: int, m: Seq<(Expr, Expr)>)
    requires
        complete_pairs(ts, p),
    ensures
        entries_at(ts, p, m) == Step::Fail(ParseErrorKind::UnterminatedMap, ts.len() as int),
    decreases ts.len() - p,
{
    lemma_skip_trivia(ts, p);
    let j = skip_trivia(ts, p);
    if j < ts.len() {
        lemma_skip_trivia(ts, j);
        lemma_skip_trivia_unique(ts, j, j);
        if ts[j].kind is Rcond {
            assert(code_at(ts, j) == Step::Fail(ParseErrorKind::UnexpectedToken, j));
        }
        if let PairStep::Pair(key, v, k) = pair_at(ts, j) {
            lemma_map_unclosed_from(ts, k, insert_entry::<Code, Expr>(m, key, v));
        }
    }
}

/// Input that ends inside an open map: a `{` after which the tokens read as
/// complete entries (so nothing closes it) is reported as an unterminated
/// map at the end of the input.
pub proof fn lemma_unclosed_map(ts: Seq<Span>, i: int)
    requires
        0 <= i < ts.len(),
        ts[i].kind is Lcond,
        complete_entries(ts, i + 1),
    ensures
        code_at(ts, i) == Step::Fail(ParseErrorKind::UnterminatedMap, ts.len() as int),
{
    lemma_code_at_advances(ts, i + 1);
    if let Step::Value(first, k) = code_at(ts, i + 1) {
        if k < ts.len() {
            if ts[k].kind is FieldDelim {
                lemma_code_at_advances(ts, k + 1);
                if let Step::Value(v, m) = code_at(ts, k + 1) {
                    lemma_map_unclosed_from(ts, m, insert_entry::<Code, Expr>(Seq::empty(), first, v));
                }
            } else {
                lemma_map_unclosed_from(ts, k, insert_entry::<Code, Expr>(Seq::empty(), head_field(), first));
            }
        }
    }
}

fn is_trivia(t: &Token) -> (r: bool)
    ensures
        r == trivia(t@),
{
    t.is_whitespace()
}

impl<'a> Queue<'a, Token> {
    /// The views of the tokens.
    pub open spec fn spans(&self) -> Seq<Span> {
        spans(self.data@)
    }

    /// Skips whitespace and comment tokens.
    pub fn pop_whitespace(&mut self)
        requires
            old(self).cursor <= old(self).data@.len(),
        ensures
            final(self).data == old(self).data,
            final(self).cursor == skip_trivia(old(self).spans(), old(self).cursor as int),
    {
        let ghost ts = self.spans();
        let ghost start = self.cursor as int;
        self.pop_while(is_trivia);
        proof {
            lemma_skip_trivia(ts, start);
            lemma_skip_trivia_unique(ts, start, self.cursor as int);
        }
    }

    /// Parses the expression at the cursor, after skipping trivia, and skips
    /// the trivia after it; `Ok(None)` when only trivia remain.
    pub fn pop_code(&mut self) -> (r: Result<Option<Code>, ParseError>)
        requires
            old(self).cursor <= old(self).data@.len(),
        ensures
            final(self).data == old(self).data,
            match code_at(old(self).spans(), old(self).cursor as int) {
                Step::Value(e, k) => {
                    &&& r matches Ok(Some(c)) && c@ == e
                    &&& final(self).cursor == k
                    &&& old(self).cursor < k <= old(self).data@.len()
                },
                Step::End(k) => r matches Ok(None) && final(self).cursor == k && k == old(
                    self,
                ).data@.len(),
                Step::Fail(kind, p) => r == Err::<Option<Code>, ParseError>(
                    (ParseError { kind, position: p as usize }),
                ),
            },
        decreases old(self).data@.len() - old(self).cursor, 0int,
    {
        let ghost ts = self.spans();
        let ghost i = self.cursor as int;
        proof {
            lemma_skip_trivia(ts, i);
        }
        self.pop_whitespace();
        if self.empty() {
            return Ok(None);
        }
        let ghost j = self.cursor as int;
        let t = self.pop().unwrap();
        assert(ts[j] == t@);
        let code = match &t.kind {
            TokenKind::Integer(n) => Code::Integer(*n),
            TokenKind::Float(x) => Code::Float(x.clone()),
            TokenKind::Character(c) => Code::Character(*c),
            TokenKind::StringLiteral(x) => Code::StringLiteral(x.clone()),
            TokenKind::Identifier(x) => Code::Identifier(x.clone()),
            TokenKind::Lfn => match self.pop_list() {
                Ok(c) => c,
                Err(e) => {
                    return Err(e);
                },
            },
            TokenKind::Lcond => match self.pop_map() {
                Ok(c) => c,
                Err(e) => {
                    return Err(e);
                },
            },
            _ => {
                self.cursor = self.cursor - 1;
                return Err(ParseError { kind: ParseErrorKind::UnexpectedToken, position: self.cursor });
            },
        };
        proof {
            lemma_skip_trivia(ts, self.cursor as int);
        }
        self.pop_whitespace();
        Ok(Some(code))
    }

    /// Parses the rest of a list whose `[` has been taken, through its `]`.
    pub fn pop_list(&mut self) -> (r: Result<Code, ParseError>)
        requires
            old(self).cursor <= old(self).data@.len(),
        ensures
            final(self).data == old(self).data,
            match list_at(old(self).spans(), old(self).cursor as int, Seq::empty()) {
                Step::Value(e, k) => {
                    &&& r matches Ok(c) && c@ == e
                    &&& final(self).cursor == k
                    &&& old(self).cursor < k <= old(self).data@.len()
                },
                Step::Fail(kind, p) => r == Err::<Code, ParseError>(
                    (ParseError { kind, position: p as usize }),
                ),
                Step::End(_) => false,
            },
        decreases old(self).data@.len() - old(self).cursor, 2int,
    {
        let ghost ts = self.spans();
        let ghost start = self.cursor as int;
        let mut parsed: Vec<Code> = Vec::new();
        assert(views(parsed@) =~= Seq::<Expr>::empty());
        loop
            invariant
                self.data == old(self).data,
                ts == self.spans(),
                start == old(self).cursor,
                start <= self.cursor <= self.data@.len(),
                list_at(ts, start, Seq::empty()) == list_at(ts, self.cursor as int, views(parsed@)),
            decreases self.data@.len() - self.cursor,
        {
            let ghost i = self.cursor as int;
            proof {
                lemma_skip_trivia(ts, i);
            }
            self.pop_whitespace();
            let closing = match self.peak() {
                Some(t) => matches!(t.kind, TokenKind::Rfn),
                None => {
                    return Err(
                        ParseError { kind: ParseErrorKind::UnterminatedList, position: self.cursor },
                    );
                },
            };
            if closing {
                self.pop();
                proof {
                    lemma_vec_view(parsed);
                }
                return Ok(Code::List(parsed));
            }
            let ghost before = parsed@;
            match self.pop_code() {
                Ok(Some(c)) => {
                    parsed.push(c);
                    assert(views(parsed@) =~= views(before).push(c@));
                },
                Ok(None) => {
                    return Err(
                        ParseError { kind: ParseErrorKind::UnterminatedList, position: self.cursor },
                    );
                },
                Err(e) => {
                    return Err(e);
                },
            }
        }
    }

    /// Parses one `key: value` entry of a map literal.
    pub fn pop_map_pair(&mut self) -> (r: Result<(Code, Code), ParseError>)
        requires
            old(self).cursor <= old(self).data@.len(),
        ensures
            final(self).data == old(self).data,
            match pair_at(old(self).spans(), old(self).cursor as int) {
                PairStep::Pair(key, v, k) => {
                    &&& r matches Ok((a, b)) && a@ == key && b@ == v
                    &&& final(self).cursor == k
                    &&& old(self).cursor < k <= old(self).data@.len()
                },
                PairStep::Fail(kind, p) => r == Err::<(Code, Code), ParseError>(
                    (ParseError { kind, position: p as usize }),
                ),
            },
        decreases old(self).data@.len() - old(self).cursor, 1int,
    {
        let field = match self.pop_code() {
            Ok(Some(c)) => c,
            Ok(None) => {
                return Err(ParseError { kind: ParseErrorKind::UnterminatedMap, position: self.cursor });
            },
            Err(e) => {
                return Err(e);
            },
        };
        let delimited = match self.peak() {
            Some(t) => matches!(t.kind, TokenKind::FieldDelim),
            None => {
                return Err(ParseError { kind: ParseErrorKind::UnterminatedMap, position: self.cursor });
            },
        };
        if !delimited {
            return Err(
                ParseError { kind: ParseErrorKind::MissingFieldDelimiter, position: self.cursor },
            );
        }
        self.pop();
        let value = match self.pop_code() {
            Ok(Some(c)) => c,
            Ok(None) => {
                return Err(ParseError { kind: ParseErrorKind::UnterminatedMap, position: self.cursor });
            },
            Err(e) => {
                return Err(e);
            },
        };
        Ok((field, value))
    }

    /// Parses the rest of a map literal whose `{` has been taken, through its
    /// `}`.
    pub fn pop_map(&mut self) -> (r: Result<Code, ParseError>)
        requires
            old(self).cursor <= old(self).data@.len(),
        ensures
            final(self).data == old(self).data,
            match map_at(old(self).spans(), old(self).cursor as int) {
                Step::Value(e, k) => {
                    &&& r matches Ok(c) && c@ == e
                    &&& final(self).cursor == k
                    &&& old(self).cursor < k <= old(self).data@.len()
                },
                Step::Fail(kind, p) => r == Err::<Code, ParseError>(
                    (ParseError { kind, position: p as usize }),
                ),
                Step::End(_) => false,
            },
        decreases old(self).data@.len() - old(self).cursor, 3int,
    {
        let ghost ts = self.spans();
        let ghost start = self.cursor as int;
        let first = match self.pop_code() {
            Ok(Some(c)) => c,
            Ok(None) => {
                return Err(ParseError { kind: ParseErrorKind::UnterminatedMap, position: self.cursor });
            },
            Err(e) => {
                return Err(e);
            },
        };
        let delimited = match self.peak() {
            Some(t) => matches!(t.kind, TokenKind::FieldDelim),
            None => {
                return Err(ParseError { kind: ParseErrorKind::UnterminatedMap, position: self.cursor });
            },
        };
        let mut parsed: CanonicalMap<Code, Code> = CanonicalMap::new();
        if delimited {
            self.pop();
            let value = match self.pop_code() {
                Ok(Some(c)) => c,
                Ok(None) => {
                    return Err(
                        ParseError { kind: ParseErrorKind::UnterminatedMap, position: self.cursor },
                    );
                },
                Err(e) => {
                    return Err(e);
                },
            };
            parsed.insert(first, value);
        } else {
            parsed.insert(Code::Identifier("head_position_field".to_owned()), first);
        }
        loop
            invariant
                self.data == old(self).data,
                ts == self.spans(),
                start == old(self).cursor,
                start < self.cursor <= self.data@.len(),
                parsed.wf(),
                map_at(ts, start) == entries_at(ts, self.cursor as int, parsed@),
            decreases self.data@.len() - self.cursor,
        {
            let ghost i = self.cursor as int;
            proof {
                lemma_skip_trivia(ts, i);
            }
            self.pop_whitespace();
            let closing = match self.peak() {
                Some(t) => matches!(t.kind, TokenKind::Rcond),
                None => {
                    return Err(
                        ParseError { kind: ParseErrorKind::UnterminatedMap, position: self.cursor },
                    );
                },
            };
            if closing {
                self.pop();
                proof {
                    lemma_map_view(parsed);
                }
                return Ok(Code::Dict(parsed));
            }
            match self.pop_map_pair() {
                Ok((k, v)) => {
                    parsed.insert(k, v);
                },
                Err(e) => {
                    return Err(e);
                },
            }
        }
    }
}

/// The top-level expressions of `tokens`, or the first error.
pub fn parse(tokens: &[Token]) -> (r: Result<Vec<Code>, ParseError>)
    ensures
        r is Ok <==> parse_tokens(spans(tokens@)) is Ok,
        r matches Ok(v) ==> views(v@) == parse_tokens(spans(tokens@))->Ok_0,
        r matches Err(e) ==> e == parse_tokens(spans(tokens@))->Err_0,
{
    let mut queue = Queue::new(tokens);
    let ghost ts = spans(tokens@);
    let mut exprs: Vec<Code> = Vec::new();
    assert(views(exprs@) =~= Seq::<Expr>::empty());
    loop
        invariant
            queue.data@ == tokens@,
            ts == queue.spans(),
            queue.cursor <= tokens@.len(),
            parse_tokens(ts) == program_from(ts, queue.cursor as int, views(exprs@)),
        decreases tokens@.len() - queue.cursor,
    {
        let ghost before = exprs@;
        match queue.pop_code() {
            Ok(Some(c)) => {
                exprs.push(c);
                assert(views(exprs@) =~= views(before).push(c@));
            },
            Ok(None) => {
                return Ok(exprs);
            },
            Err(e) => {
                return Err(e);
            },
        }
    }
}

/// The top-level expressions of `tokens` as one list headed by the
/// identifier `pgm`.
pub fn parse_to_pgm(tokens: &[Token]) -> (r: Result<Code, ParseError>)
    ensures
        r is Ok <==> parse_tokens(spans(tokens@)) is Ok,
        r matches Ok(c) ==> c@ == Expr::List(
            seq![Expr::Identifier("pgm"@)] + parse_tokens(spans(tokens@))->Ok_0,
        ),
        r matches Err(e) ==> e == parse_tokens(spans(tokens@))->Err_0,
{
    let rest = match parse(tokens) {
        Ok(v) => v,
        Err(e) => {
            return Err(e);
        },
    };
    let mut rest = rest;
    let mut pgm: Vec<Code> = Vec::new();
    pgm.push(Code::Identifier("pgm".to_owned()));
    let ghost head = pgm@;
    let ghost tail = rest@;
    pgm.append(&mut rest);
    proof {
        lemma_vec_view(pgm);
        assert(views(pgm@) =~= seq![Expr::Identifier("pgm"@)] + views(tail));
    }
    Ok(Code::List(pgm))
}

/// A run of trivia that stops at a token that is not trivia (or at the end)
/// ends where `skip_trivia` says.
pub proof fn lemma_skip_trivia_unique(ts: Seq<Span>, i: int, j: int)
    requires
        0 <= i <= j <= ts.len(),
        forall|k: int| i <= k < j ==> trivia(#[trigger] ts[k]),
        j < ts.len() ==> !trivia(ts[j]),
    ensures
        skip_trivia(ts, i) == j,
    decreases j - i,
{
    if i < j {
        lemma_skip_trivia_unique(ts, i + 1, j);
    }
}

} // verus!
