//! The expression tree that is both the syntax and the data of the language.
use std::cmp::Ordering;
use vstd::prelude::*;

use crate::map::CanonicalMap;
use crate::order::{
    Canonical,
    char_order,
    int_order,
    lemma_lex,
    lemma_order_fn,
    lex_cmp,
    lex_from,
    order_fn,
    ordering_of,
    same_from,
};
use crate::parse::{ParseError, parse, parse_tokens, views};
use crate::text::chars_of;
use crate::token::{LexError, lex, tokenize_from_str};

verus! {

/// A code value. Equality, order and hash are structural; maps are kept in
/// canonical form, so they take part in all three as their entries do.
#[derive(Debug, PartialEq, Eq, PartialOrd, Ord, Hash)]
pub enum Code {
    Integer(i128),
    /// The exact decimal text of the literal.
    Float(String),
    Character(char),
    StringLiteral(String),
    Identifier(String),
    List(Vec<Code>),
    Dict(CanonicalMap<Code, Code>),
}

/// The mathematical value of a `Code`.
pub enum Expr {
    Integer(int),
    Float(Seq<char>),
    Character(char),
    StringLiteral(Seq<char>),
    Identifier(Seq<char>),
    List(Seq<Expr>),
    /// The entries, sorted by key.
    Dict(Seq<(Expr, Expr)>),
}

pub open spec fn code_view(c: Code) -> Expr
    decreases c, 0int,
{
    match c {
        Code::Integer(n) => Expr::Integer(n as int),
        Code::Float(t) => Expr::Float(t@),
        Code::Character(ch) => Expr::Character(ch),
        Code::StringLiteral(t) => Expr::StringLiteral(t@),
        Code::Identifier(t) => Expr::Identifier(t@),
        Code::List(v) => Expr::List(list_view(v@, v@.len() as int)),
        Code::Dict(m) => Expr::Dict(entries_view(m.entries@, m.entries@.len() as int)),
    }
}

/// The views of the first `n` elements of `s`.
pub open spec fn list_view(s: Seq<Code>, n: int) -> Seq<Expr>
    decreases s, n,
{
    if n <= 0 || n > s.len() {
        Seq::empty()
    } else {
        list_view(s, n - 1).push(code_view(s[n - 1]))
    }
}

/// The views of the first `n` entries of `s`.
pub open spec fn entries_view(s: Seq<(Code, Code)>, n: int) -> Seq<(Expr, Expr)>
    decreases s, n,
{
    if n <= 0 || n > s.len() {
        Seq::empty()
    } else {
        entries_view(s, n - 1).push((code_view(s[n - 1].0), code_view(s[n - 1].1)))
    }
}

impl View for Code {
    type V = Expr;

    open spec fn view(&self) -> Expr {
        code_view(*self)
    }
}

pub proof fn lemma_list_view(s: Seq<Code>, n: int)
    requires
        0 <= n <= s.len(),
    ensures
        list_view(s, n).len() == n,
        forall|i: int| 0 <= i < n ==> #[trigger] list_view(s, n)[i] == s[i]@,
    decreases n,
{
    if n > 0 {
        lemma_list_view(s, n - 1);
    }
}

pub proof fn lemma_entries_view(s: Seq<(Code, Code)>, n: int)
    requires
        0 <= n <= s.len(),
    ensures
        entries_view(s, n).len() == n,
        forall|i: int| 0 <= i < n ==> #[trigger] entries_view(s, n)[i] == (s[i].0@, s[i].1@),
    decreases n,
{
    if n > 0 {
        lemma_entries_view(s, n - 1);
    }
}

/// The view of a map of codes is the sequence of its entries' views.
pub proof fn lemma_map_view(m: CanonicalMap<Code, Code>)
    ensures
        Code::Dict(m)@ == Expr::Dict(m@),
{
    lemma_entries_view(m.entries@, m.entries@.len() as int);
    assert(entries_view(m.entries@, m.entries@.len() as int) =~= m@);
}

pub proof fn lemma_vec_view(v: Vec<Code>)
    ensures
        Code::List(v)@ == Expr::List(v@.map_values(|c: Code| c@)),
{
    lemma_list_view(v@, v@.len() as int);
    assert(list_view(v@, v@.len() as int) =~= v@.map_values(|c: Code| c@));
}

// ---------------------------------------------------------------------------
// Order

/// The place of each variant in the order of variants.
pub open spec fn rank(e: Expr) -> int {
    match e {
        Expr::Integer(_) => 0,
        Expr::Float(_) => 1,
        Expr::Character(_) => 2,
        Expr::StringLiteral(_) => 3,
        Expr::Identifier(_) => 4,
        Expr::List(_) => 5,
        Expr::Dict(_) => 6,
    }
}

/// Texts compare by characters, lexicographically.
pub open spec fn text_order(x: Seq<char>, y: Seq<char>) -> int {
    lex_cmp(x, y, order_fn::<char>())
}

/// Variants compare by rank; within a variant the payloads compare: numbers
/// and characters by value, texts and lists lexicographically, maps by their
/// sorted entries, lexicographically, key first.
pub open spec fn expr_order(a: Expr, b: Expr) -> int
    decreases a, 0int,
{
    if rank(a) != rank(b) {
        int_order(rank(a), rank(b))
    } else {
        match (a, b) {
            (Expr::Integer(x), Expr::Integer(y)) => int_order(x, y),
            (Expr::Float(x), Expr::Float(y)) => text_order(x, y),
            (Expr::Character(x), Expr::Character(y)) => char_order(x, y),
            (Expr::StringLiteral(x), Expr::StringLiteral(y)) => text_order(x, y),
            (Expr::Identifier(x), Expr::Identifier(y)) => text_order(x, y),
            (Expr::List(x), Expr::List(y)) => list_order(x, y, 0),
            (Expr::Dict(x), Expr::Dict(y)) => entries_order(x, y, 0),
            _ => 0,
        }
    }
}

pub open spec fn list_order(x: Seq<Expr>, y: Seq<Expr>, i: int) -> int
    decreases x, x.len() - i,
{
    if i < 0 || i >= x.len() || i >= y.len() {
        int_order(x.len() as int, y.len() as int)
    } else if expr_order(x[i], y[i]) != 0 {
        expr_order(x[i], y[i])
    } else {
        list_order(x, y, i + 1)
    }
}

pub open spec fn entries_order(x: Seq<(Expr, Expr)>, y: Seq<(Expr, Expr)>, i: int) -> int
    decreases x, x.len() - i,
{
    if i < 0 || i >= x.len() || i >= y.len() {
        int_order(x.len() as int, y.len() as int)
    } else if expr_order(x[i].0, y[i].0) != 0 {
        expr_order(x[i].0, y[i].0)
    } else if expr_order(x[i].1, y[i].1) != 0 {
        expr_order(x[i].1, y[i].1)
    } else {
        entries_order(x, y, i + 1)
    }
}

pub proof fn lemma_text_order(x: Seq<char>, y: Seq<char>, z: Seq<char>)
    ensures
        -1 <= text_order(x, y) <= 1,
        (text_order(x, y) == 0) == (x == y),
        text_order(x, y) == -text_order(y, x),
        text_order(x, y) < 0 && text_order(y, z) < 0 ==> text_order(x, z) < 0,
{
    lemma_order_fn::<char>();
    lemma_lex(order_fn::<char>());
    let f = |p: Seq<char>, q: Seq<char>| lex_cmp(p, q, order_fn::<char>());
    assert(f(x, y) == text_order(x, y));
    assert(f(y, x) == text_order(y, x));
    assert(f(y, z) == text_order(y, z));
    assert(f(x, z) == text_order(x, z));
}

/// `expr_order` is antisymmetric, and is zero exactly on equal values.
pub proof fn lemma_expr_order_basic(a: Expr, b: Expr)
    ensures
        -1 <= expr_order(a, b) <= 1,
        (expr_order(a, b) == 0) == (a == b),
        expr_order(a, b) == -expr_order(b, a),
    decreases a, 0int,
{
    if rank(a) == rank(b) {
        match (a, b) {
            (Expr::Float(x), Expr::Float(y)) => lemma_text_order(x, y, x),
            (Expr::StringLiteral(x), Expr::StringLiteral(y)) => lemma_text_order(x, y, x),
            (Expr::Identifier(x), Expr::Identifier(y)) => lemma_text_order(x, y, x),
            (Expr::List(x), Expr::List(y)) => {
                lemma_list_order_basic(x, y, 0);
                if same_from(x, y, 0) {
                    assert(x =~= y);
                }
            },
            (Expr::Dict(x), Expr::Dict(y)) => {
                lemma_entries_order_basic(x, y, 0);
                if same_from(x, y, 0) {
                    assert(x =~= y);
                }
            },
            _ => {},
        }
    }
}

pub proof fn lemma_list_order_basic(x: Seq<Expr>, y: Seq<Expr>, i: int)
    requires
        0 <= i,
    ensures
        -1 <= list_order(x, y, i) <= 1,
        (list_order(x, y, i) == 0) == same_from(x, y, i),
        list_order(x, y, i) == -list_order(y, x, i),
    decreases x, x.len() - i,
{
    if i < x.len() && i < y.len() {
        lemma_list_order_basic(x, y, i + 1);
        lemma_expr_order_basic(x[i], y[i]);
        if !same_from(x, y, i + 1) && same_from(x, y, i) {
            assert(false) by {
                assert forall|j: int| i + 1 <= j < x.len() implies x[j] == y[j] by {}
            }
        }
    }
}

pub proof fn lemma_entries_order_basic(x: Seq<(Expr, Expr)>, y: Seq<(Expr, Expr)>, i: int)
    requires
        0 <= i,
    ensures
        -1 <= entries_order(x, y, i) <= 1,
        (entries_order(x, y, i) == 0) == same_from(x, y, i),
        entries_order(x, y, i) == -entries_order(y, x, i),
    decreases x, x.len() - i,
{
    if i < x.len() && i < y.len() {
        lemma_entries_order_basic(x, y, i + 1);
        lemma_expr_order_basic(x[i].0, y[i].0);
        lemma_expr_order_basic(x[i].1, y[i].1);
        if !same_from(x, y, i + 1) && same_from(x, y, i) {
            assert(false) by {
                assert forall|j: int| i + 1 <= j < x.len() implies x[j] == y[j] by {}
            }
        }
    }
}

/// `expr_order` is transitive.
pub proof fn lemma_expr_order_trans(a: Expr, b: Expr, c: Expr)
    ensures
        expr_order(a, b) < 0 && expr_order(b, c) < 0 ==> expr_order(a, c) < 0,
    decreases a, 0int,
{
    if rank(a) == rank(b) && rank(b) == rank(c) {
        match (a, b, c) {
            (Expr::Float(x), Expr::Float(y), Expr::Float(z)) => lemma_text_order(x, y, z),
            (Expr::StringLiteral(x), Expr::StringLiteral(y), Expr::StringLiteral(z)) => lemma_text_order(x, y, z),
            (Expr::Identifier(x), Expr::Identifier(y), Expr::Identifier(z)) => lemma_text_order(x, y, z),
            (Expr::List(x), Expr::List(y), Expr::List(z)) => lemma_list_order_trans(x, y, z, 0),
            (Expr::Dict(x), Expr::Dict(y), Expr::Dict(z)) => lemma_entries_order_trans(x, y, z, 0),
            _ => {},
        }
    }
}

pub proof fn lemma_list_order_trans(x: Seq<Expr>, y: Seq<Expr>, z: Seq<Expr>, i: int)
    requires
        0 <= i,
    ensures
        list_order(x, y, i) < 0 && list_order(y, z, i) < 0 ==> list_order(x, z, i) < 0,
    decreases x, x.len() - i,
{
    if i < x.len() && i < y.len() && i < z.len() {
        lemma_list_order_trans(x, y, z, i + 1);
        lemma_expr_order_trans(x[i], y[i], z[i]);
        lemma_expr_order_basic(x[i], y[i]);
        lemma_expr_order_basic(y[i], z[i]);
        lemma_expr_order_basic(x[i], z[i]);
    }
}

pub proof fn lemma_entries_order_trans(x: Seq<(Expr, Expr)>, y: Seq<(Expr, Expr)>, z: Seq<(Expr, Expr)>, i: int)
    requires
        0 <= i,
    ensures
        entries_order(x, y, i) < 0 && entries_order(y, z, i) < 0 ==> entries_order(x, z, i) < 0,
    decreases x, x.len() - i,
{
    if i < x.len() && i < y.len() && i < z.len() {
        lemma_entries_order_trans(x, y, z, i + 1);
        lemma_expr_order_trans(x[i].0, y[i].0, z[i].0);
        lemma_expr_order_trans(x[i].1, y[i].1, z[i].1);
        lemma_expr_order_basic(x[i].0, y[i].0);
        lemma_expr_order_basic(y[i].0, z[i].0);
        lemma_expr_order_basic(x[i].0, z[i].0);
        lemma_expr_order_basic(x[i].1, y[i].1);
        lemma_expr_order_basic(y[i].1, z[i].1);
        lemma_expr_order_basic(x[i].1, z[i].1);
    }
}

// ---------------------------------------------------------------------------
// Executable comparison

fn compare_text(a: &String, b: &String) -> (r: Ordering)
    ensures
        r == ordering_of(text_order(a@, b@)),
{
    let x = chars_of(a.as_str());
    let y = chars_of(b.as_str());
    let ghost f = order_fn::<char>();
    let mut i: usize = 0;
    while i < x.len() && i < y.len()
        invariant
            x@ == a@,
            y@ == b@,
            f == order_fn::<char>(),
            i <= x@.len() && i <= y@.len(),
            lex_from(a@, b@, 0, f) == lex_from(a@, b@, i as int, f),
        decreases x@.len() - i,
    {
        if x[i] < y[i] {
            return Ordering::Less;
        }
        if x[i] > y[i] {
            return Ordering::Greater;
        }
        i = i + 1;
    }
    if x.len() == y.len() {
        Ordering::Equal
    } else if x.len() < y.len() {
        Ordering::Less
    } else {
        Ordering::Greater
    }
}

impl Code {
    fn rank_of(&self) -> (r: u8)
        ensures
            r as int == rank(self@),
    {
        match self {
            Code::Integer(_) => 0,
            Code::Float(_) => 1,
            Code::Character(_) => 2,
            Code::StringLiteral(_) => 3,
            Code::Identifier(_) => 4,
            Code::List(_) => 5,
            Code::Dict(_) => 6,
        }
    }
}

impl Canonical for Code {
    open spec fn order(a: Expr, b: Expr) -> int {
        expr_order(a, b)
    }

    proof fn lemma_order(a: Expr, b: Expr, c: Expr) {
        lemma_expr_order_basic(a, b);
        lemma_expr_order_trans(a, b, c);
    }

    fn compare(&self, other: &Code) -> (r: Ordering)
        decreases self,
    {
        let ra = self.rank_of();
        let rb = other.rank_of();
        if ra < rb {
            return Ordering::Less;
        }
        if ra > rb {
            return Ordering::Greater;
        }
        match (self, other) {
            (Code::Integer(x), Code::Integer(y)) => {
                if *x < *y {
                    Ordering::Less
                } else if *x == *y {
                    Ordering::Equal
                } else {
                    Ordering::Greater
                }
            },
            (Code::Float(x), Code::Float(y)) => compare_text(x, y),
            (Code::Character(x), Code::Character(y)) => x.compare(y),
            (Code::StringLiteral(x), Code::StringLiteral(y)) => compare_text(x, y),
            (Code::Identifier(x), Code::Identifier(y)) => compare_text(x, y),
            (Code::List(x), Code::List(y)) => {
                let ghost xs = list_view(x@, x@.len() as int);
                let ghost ys = list_view(y@, y@.len() as int);
                proof {
                    lemma_list_view(x@, x@.len() as int);
                    lemma_list_view(y@, y@.len() as int);
                }
                let mut i: usize = 0;
                while i < x.len() && i < y.len()
                    invariant
                        *self == Code::List(*x),
                        expr_order(self@, other@) == list_order(xs, ys, 0),
                        xs == list_view(x@, x@.len() as int),
                        ys == list_view(y@, y@.len() as int),
                        xs.len() == x@.len() && ys.len() == y@.len(),
                        forall|k: int| 0 <= k < x@.len() ==> #[trigger] xs[k] == x@[k]@,
                        forall|k: int| 0 <= k < y@.len() ==> #[trigger] ys[k] == y@[k]@,
                        i <= x@.len() && i <= y@.len(),
                        list_order(xs, ys, 0) == list_order(xs, ys, i as int),
                    decreases x@.len() - i,
                {
                    let c = x[i].compare(&y[i]);
                    match c {
                        Ordering::Equal => {},
                        _ => {
                            return c;
                        },
                    }
                    i = i + 1;
                }
                if x.len() == y.len() {
                    Ordering::Equal
                } else if x.len() < y.len() {
                    Ordering::Less
                } else {
                    Ordering::Greater
                }
            },
            (Code::Dict(mx), Code::Dict(my)) => {
                let x = &mx.entries;
                let y = &my.entries;
                let ghost xs = entries_view(x@, x@.len() as int);
                let ghost ys = entries_view(y@, y@.len() as int);
                proof {
                    lemma_entries_view(x@, x@.len() as int);
                    lemma_entries_view(y@, y@.len() as int);
                }
                let mut i: usize = 0;
                while i < x.len() && i < y.len()
                    invariant
                        *self == Code::Dict(*mx),
                        expr_order(self@, other@) == entries_order(xs, ys, 0),
                        *x == mx.entries,
                        xs == entries_view(x@, x@.len() as int),
                        ys == entries_view(y@, y@.len() as int),
                        xs.len() == x@.len() && ys.len() == y@.len(),
                        forall|k: int| 0 <= k < x@.len() ==> #[trigger] xs[k] == (x@[k].0@, x@[k].1@),
                        forall|k: int| 0 <= k < y@.len() ==> #[trigger] ys[k] == (y@[k].0@, y@[k].1@),
                        i <= x@.len() && i <= y@.len(),
                        entries_order(xs, ys, 0) == entries_order(xs, ys, i as int),
                    decreases x@.len() - i,
                {
                    let c = x[i].0.compare(&y[i].0);
                    match c {
                        Ordering::Equal => {},
                        _ => {
                            return c;
                        },
                    }
                    let d = x[i].1.compare(&y[i].1);
                    match d {
                        Ordering::Equal => {},
                        _ => {
                            return d;
                        },
                    }
                    i = i + 1;
                }
                if x.len() == y.len() {
                    Ordering::Equal
                } else if x.len() < y.len() {
                    Ordering::Less
                } else {
                    Ordering::Greater
                }
            },
            _ => Ordering::Equal,
        }
    }
}

// ---------------------------------------------------------------------------
// Reading and evaluating

/// Why reading source text failed.
#[derive(Clone, Copy, Debug, PartialEq, Eq, Structural)]
pub enum Error {
    Lex(LexError),
    Parse(ParseError),
}

/// Why an evaluation failed.
#[derive(Clone, Copy, Debug, PartialEq, Eq, Structural)]
pub enum EvalError {
    /// Calls and maps have no meaning yet.
    Unimplemented,
}

/// The top-level expressions of source text, or the first error.
pub open spec fn read(s: Seq<char>) -> Result<Seq<Expr>, Error> {
    match lex(s) {
        Err(e) => Err(Error::Lex(e)),
        Ok(ts) => match parse_tokens(ts) {
            Ok(es) => Ok(es),
            Err(e) => Err(Error::Parse(e)),
        },
    }
}

/// Whether `e` evaluates to itself.
pub open spec fn self_evaluating(e: Expr) -> bool {
    match e {
        Expr::List(items) => items.len() == 0,
        Expr::Dict(_) => false,
        _ => true,
    }
}

impl Code {
    /// Scans and parses source text.
    pub fn from_str(code: &str) -> (r: Result<Vec<Code>, Error>)
        ensures
            r is Ok <==> read(code@) is Ok,
            r matches Ok(v) ==> views(v@) == read(code@)->Ok_0,
            r matches Err(e) ==> e == read(code@)->Err_0,
    {
        let tokens = match tokenize_from_str(code) {
            Ok(ts) => ts,
            Err(e) => {
                return Err(Error::Lex(e));
            },
        };
        match parse(tokens.as_slice()) {
            Ok(v) => Ok(v),
            Err(e) => Err(Error::Parse(e)),
        }
    }

    /// Evaluates an expression: literals, identifiers and the empty list
    /// stand for themselves; calls and maps are not implemented.
    pub fn eval(&self) -> (r: Result<Code, EvalError>)
        ensures
            r is Ok <==> self_evaluating(self@),
            r matches Ok(c) ==> c@ == self@,
            r matches Err(e) ==> e == EvalError::Unimplemented,
    {
        match self {
            Code::Integer(n) => Ok(Code::Integer(*n)),
            Code::Float(t) => Ok(Code::Float(t.clone())),
            Code::Character(c) => Ok(Code::Character(*c)),
            Code::StringLiteral(t) => Ok(Code::StringLiteral(t.clone())),
            Code::Identifier(t) => Ok(Code::Identifier(t.clone())),
            Code::List(items) => {
                proof {
                    lemma_list_view(items@, items@.len() as int);
                }
                if items.len() == 0 {
                    let empty: Vec<Code> = Vec::new();
                    proof {
                        lemma_list_view(empty@, 0);
                        assert(list_view(empty@, 0) =~= list_view(items@, 0));
                    }
                    Ok(Code::List(empty))
                } else {
                    Err(EvalError::Unimplemented)
                }
            },
            Code::Dict(_) => Err(EvalError::Unimplemented),
        }
    }
}

/// Reading is a function of the text: equal texts read to equal trees (or
/// to the same error).
pub proof fn lemma_read_deterministic(s1: Seq<char>, s2: Seq<char>)
    requires
        s1 == s2,
    ensures
        read(s1) == read(s2),
{
}

/// Empty text reads to no expressions.
pub proof fn lemma_read_empty()
    ensures
        read(Seq::empty()) == Ok::<Seq<Expr>, Error>(Seq::empty()),
{
    let s = Seq::<char>::empty();
    assert(lex(s) == Ok::<Seq<crate::token::Span>, LexError>(Seq::empty()));
    let ts = Seq::<crate::token::Span>::empty();
    assert(crate::parse::code_at(ts, 0) == crate::parse::Step::End(0));
}

} // verus!
