//! The scanner: source characters to a sequence of located tokens.
use vstd::prelude::*;

use crate::queue::Queue;
use crate::text::{CharInfo, chars_of, classify_all, infos_of, push_char};

verus! {

/// What went wrong while scanning a literal.
#[derive(Clone, Copy, Debug, PartialEq, Eq, Structural)]
pub enum LexErrorKind {
    UnterminatedString,
    UnterminatedChar,
    InvalidCharLiteralLength,
    NumberOverflow,
    /// Kept for the error taxonomy; a decimal accepted by the scanner
    /// (digits, `.`, digits) always has a valid exact text.
    DecimalParseFailure,
}

/// A scanning failure, with the character offsets of the partial token.
#[derive(Clone, Copy, Debug, PartialEq, Eq, Structural)]
pub struct LexError {
    pub kind: LexErrorKind,
    pub start: usize,
    pub end: usize,
}

/// The kind of a token, with the value it carries.
#[derive(Clone, Debug, PartialEq)]
pub enum TokenKind {
    Lfn,
    Rfn,
    Lcond,
    Rcond,
    FieldDelim,
    Whitespace(String),
    Integer(i128),
    /// The exact decimal text of the literal.
    Float(String),
    Character(char),
    /// The text with escapes resolved.
    StringLiteral(String),
    Identifier(String),
    /// A run of characters that are neither whitespace, alphanumeric nor reserved.
    Symbol(String),
    Comment(String),
}

/// A token: its kind and the range of characters it covers.
#[derive(Clone, Debug, PartialEq)]
pub struct Token {
    pub start: usize,
    pub length: usize,
    pub kind: TokenKind,
}

/// The mathematical value of a `TokenKind`.
pub enum Lexeme {
    Lfn,
    Rfn,
    Lcond,
    Rcond,
    FieldDelim,
    Whitespace(Seq<char>),
    Integer(int),
    Float(Seq<char>),
    Character(char),
    StringLiteral(Seq<char>),
    Identifier(Seq<char>),
    Symbol(Seq<char>),
    Comment(Seq<char>),
}

/// The mathematical value of a `Token`: a kind and a range of the input.
pub struct Span {
    pub kind: Lexeme,
    pub start: int,
    pub length: int,
}

impl View for TokenKind {
    type V = Lexeme;

    open spec fn view(&self) -> Lexeme {
        match self {
            TokenKind::Lfn => Lexeme::Lfn,
            TokenKind::Rfn => Lexeme::Rfn,
            TokenKind::Lcond => Lexeme::Lcond,
            TokenKind::Rcond => Lexeme::Rcond,
            TokenKind::FieldDelim => Lexeme::FieldDelim,
            TokenKind::Whitespace(t) => Lexeme::Whitespace(t@),
            TokenKind::Integer(n) => Lexeme::Integer(*n as int),
            TokenKind::Float(t) => Lexeme::Float(t@),
            TokenKind::Character(c) => Lexeme::Character(*c),
            TokenKind::StringLiteral(t) => Lexeme::StringLiteral(t@),
            TokenKind::Identifier(t) => Lexeme::Identifier(t@),
            TokenKind::Symbol(t) => Lexeme::Symbol(t@),
            TokenKind::Comment(t) => Lexeme::Comment(t@),
        }
    }
}

impl View for Token {
    type V = Span;

    open spec fn view(&self) -> Span {
        Span { kind: self.kind@, start: self.start as int, length: self.length as int }
    }
}

/// The views of a sequence of tokens.
pub open spec fn spans(ts: Seq<Token>) -> Seq<Span> {
    ts.map_values(|t: Token| t@)
}

// ---------------------------------------------------------------------------
// Character classes

pub open spec fn is_digit(c: char) -> bool {
    '0' <= c <= '9'
}

/// The characters that never belong to a symbol run.
pub open spec fn reserved(c: char) -> bool {
    c == '[' || c == ']' || c == '{' || c == '}' || c == '#' || c == ':' || c == '"' || c == '\''
}

/// Whether a character with classes `info` may stand in a symbol run.
pub open spec fn symbol_char(c: char, info: CharInfo) -> bool {
    !info.white_space && !info.alphanumeric && !reserved(c)
}

/// The classes of characters that the scanner takes in maximal runs.
#[derive(Clone, Copy)]
pub enum CharClass {
    Word,
    Space,
    Digit,
    Hash,
    Symbol,
}

/// Whether the character `c`, whose classes are `info`, is of `class`.
pub open spec fn in_class(class: CharClass, c: char, info: CharInfo) -> bool {
    match class {
        CharClass::Word => info.alphanumeric || c == '_',
        CharClass::Space => info.white_space,
        CharClass::Digit => is_digit(c),
        CharClass::Hash => c == '#',
        CharClass::Symbol => symbol_char(c, info),
    }
}

/// The end of the maximal run of `class` characters that starts at `i`;
/// `cl` gives the classes of each character of `s`.
pub open spec fn run_end(s: Seq<char>, cl: Seq<CharInfo>, i: int, class: CharClass) -> int
    decreases s.len() - i,
{
    if 0 <= i < s.len() && in_class(class, s[i], cl[i]) {
        run_end(s, cl, i + 1, class)
    } else {
        i
    }
}

pub open spec fn starts_at(s: Seq<char>, i: int, pat: Seq<char>) -> bool {
    i + pat.len() <= s.len() && s.subrange(i, i + pat.len()) == pat
}

/// The first position at or after `i` where `pat` occurs, or the end of `s`.
pub open spec fn first_match(s: Seq<char>, i: int, pat: Seq<char>) -> int
    decreases s.len() - i,
{
    if i < 0 || i >= s.len() || starts_at(s, i, pat) {
        i
    } else {
        first_match(s, i + 1, pat)
    }
}

/// The number written by a sequence of decimal digits.
pub open spec fn digits_value(d: Seq<char>) -> int
    decreases d.len(),
{
    if d.len() == 0 {
        0
    } else {
        digits_value(d.drop_last()) * 10 + (d.last() as int - '0' as int)
    }
}

/// The character that an escape `\c` stands for.
pub open spec fn unescape(c: char) -> char {
    if c == 'n' {
        '\n'
    } else if c == 'r' {
        '\r'
    } else if c == 't' {
        '\t'
    } else {
        c
    }
}

/// One step of reading a quoted literal whose closing quote is `close`.
pub enum LitStep {
    /// The closing quote stands at the position read.
    Close,
    /// A character, and the position after it (after its escape, if any).
    Char(char, int),
    /// The input ends before a character could be read.
    Eof,
}

pub open spec fn lit_step(s: Seq<char>, i: int, close: char) -> LitStep {
    if i < 0 || i >= s.len() {
        LitStep::Eof
    } else if s[i] == '\\' {
        if i + 1 >= s.len() {
            LitStep::Eof
        } else {
            LitStep::Char(unescape(s[i + 1]), i + 2)
        }
    } else if s[i] == close {
        LitStep::Close
    } else {
        LitStep::Char(s[i], i + 1)
    }
}

/// The decoded body of a string literal whose content starts at `i`, and the
/// position after its closing quote; `None` when the input ends first.
pub open spec fn string_body(s: Seq<char>, i: int) -> Option<(Seq<char>, int)>
    decreases s.len() - i,
{
    match lit_step(s, i, '"') {
        LitStep::Eof => None,
        LitStep::Close => Some((Seq::empty(), i + 1)),
        LitStep::Char(c, j) => match string_body(s, j) {
            Some((t, e)) => Some((seq![c] + t, e)),
            None => None,
        },
    }
}

/// The outcome of scanning one token: its value and where it ends, or the
/// error and where the partial token ends.
pub enum Scan {
    Token(Lexeme, int),
    Fail(LexErrorKind, int),
}

pub open spec fn scan_number(s: Seq<char>, cl: Seq<CharInfo>, p: int) -> Scan {
    let d = run_end(s, cl, p, CharClass::Digit);
    if d + 1 < s.len() && s[d] == '.' && is_digit(s[d + 1]) {
        let e = run_end(s, cl, d + 1, CharClass::Digit);
        Scan::Token(Lexeme::Float(s.subrange(p, e)), e)
    } else if digits_value(s.subrange(p, d)) <= i128::MAX {
        Scan::Token(Lexeme::Integer(digits_value(s.subrange(p, d))), d)
    } else {
        Scan::Fail(LexErrorKind::NumberOverflow, d)
    }
}

pub open spec fn scan_comment(s: Seq<char>, cl: Seq<CharInfo>, p: int) -> Scan {
    if p + 1 < s.len() && s[p + 1] == '#' {
        let body = run_end(s, cl, p, CharClass::Hash);
        let close = first_match(s, body, seq!['#', '#']);
        let e = run_end(s, cl, close, CharClass::Hash);
        Scan::Token(Lexeme::Comment(s.subrange(p, e)), e)
    } else {
        let nl = first_match(s, p + 1, seq!['\n']);
        let e = if nl < s.len() { nl + 1 } else { nl };
        Scan::Token(Lexeme::Comment(s.subrange(p, e)), e)
    }
}

pub open spec fn scan_string(s: Seq<char>, p: int) -> Scan {
    match string_body(s, p + 1) {
        Some((t, e)) => Scan::Token(Lexeme::StringLiteral(t), e),
        None => Scan::Fail(LexErrorKind::UnterminatedString, s.len() as int),
    }
}

pub open spec fn scan_char(s: Seq<char>, p: int) -> Scan {
    match lit_step(s, p + 1, '\'') {
        LitStep::Eof => Scan::Fail(LexErrorKind::UnterminatedChar, s.len() as int),
        LitStep::Close => Scan::Fail(LexErrorKind::InvalidCharLiteralLength, p + 2),
        LitStep::Char(c, j) => if j >= s.len() {
            Scan::Fail(LexErrorKind::UnterminatedChar, s.len() as int)
        } else if s[j] == '\'' {
            Scan::Token(Lexeme::Character(c), j + 1)
        } else {
            Scan::Fail(LexErrorKind::InvalidCharLiteralLength, j + 1)
        },
    }
}

/// The token that starts at `p`, by the first rule that applies to `s[p]`;
/// `cl` gives the classes of each character of `s`.
pub open spec fn scan(s: Seq<char>, cl: Seq<CharInfo>, p: int) -> Scan {
    let c = s[p];
    if cl[p].alphabetic {
        // The alphabetic first character, then the run of word characters
        // (alphanumeric or `_`) after it.
        let e = run_end(s, cl, p + 1, CharClass::Word);
        Scan::Token(Lexeme::Identifier(s.subrange(p, e)), e)
    } else if cl[p].white_space {
        let e = run_end(s, cl, p, CharClass::Space);
        Scan::Token(Lexeme::Whitespace(s.subrange(p, e)), e)
    } else if is_digit(c) {
        scan_number(s, cl, p)
    } else if c == '[' {
        Scan::Token(Lexeme::Lfn, p + 1)
    } else if c == ']' {
        Scan::Token(Lexeme::Rfn, p + 1)
    } else if c == '{' {
        Scan::Token(Lexeme::Lcond, p + 1)
    } else if c == '}' {
        Scan::Token(Lexeme::Rcond, p + 1)
    } else if c == ':' {
        Scan::Token(Lexeme::FieldDelim, p + 1)
    } else if c == '#' {
        scan_comment(s, cl, p)
    } else if c == '"' {
        scan_string(s, p)
    } else if c == '\'' {
        scan_char(s, p)
    } else {
        let e = run_end(s, cl, p + 1, CharClass::Symbol);
        Scan::Token(Lexeme::Symbol(s.subrange(p, e)), e)
    }
}

/// The tokens of `s` from position `p` on, or the first error.
pub open spec fn tokens_from(s: Seq<char>, cl: Seq<CharInfo>, p: int) -> Result<Seq<Span>, LexError>
    decreases s.len() - p,
{
    if p < 0 || p >= s.len() {
        Ok(Seq::empty())
    } else {
        proof {
            lemma_scan_bounds(s, cl, p);
        }
        match scan(s, cl, p) {
            Scan::Token(k, e) => match tokens_from(s, cl, e) {
                Ok(rest) => Ok(seq![Span { kind: k, start: p, length: e - p }] + rest),
                Err(err) => Err(err),
            },
            Scan::Fail(kind, e) => Err(LexError { kind, start: p as usize, end: e as usize }),
        }
    }
}

/// The tokens of `s`, whose characters have the classes `cl`, or the first
/// error.
pub open spec fn lex_with(s: Seq<char>, cl: Seq<CharInfo>) -> Result<Seq<Span>, LexError> {
    tokens_from(s, cl, 0)
}

/// The tokens of `s`, or the first error.
pub open spec fn lex(s: Seq<char>) -> Result<Seq<Span>, LexError> {
    lex_with(s, infos_of(s))
}

// ---------------------------------------------------------------------------
// Lemmas

pub proof fn lemma_run_end(s: Seq<char>, cl: Seq<CharInfo>, i: int, class: CharClass)
    requires
        0 <= i <= s.len(),
    ensures
        i <= run_end(s, cl, i, class) <= s.len(),
        forall|k: int| i <= k < run_end(s, cl, i, class) ==> in_class(class, #[trigger] s[k], cl[k]),
    decreases s.len() - i,
{
    if i < s.len() && in_class(class, s[i], cl[i]) {
        lemma_run_end(s, cl, i + 1, class);
    }
}

/// A run that is all of `class` and stops at a character outside it (or at
/// the end) is the maximal run.
pub proof fn lemma_run_end_unique(s: Seq<char>, cl: Seq<CharInfo>, i: int, j: int, class: CharClass)
    requires
        0 <= i <= j <= s.len(),
        forall|k: int| i <= k < j ==> in_class(class, #[trigger] s[k], cl[k]),
        j < s.len() ==> !in_class(class, s[j], cl[j]),
    ensures
        run_end(s, cl, i, class) == j,
    decreases j - i,
{
    if i < j {
        lemma_run_end_unique(s, cl, i + 1, j, class);
    }
}

pub proof fn lemma_first_match(s: Seq<char>, i: int, pat: Seq<char>)
    requires
        0 <= i <= s.len(),
    ensures
        i <= first_match(s, i, pat) <= s.len(),
    decreases s.len() - i,
{
    if i < s.len() && !starts_at(s, i, pat) {
        lemma_first_match(s, i + 1, pat);
    }
}

pub proof fn lemma_string_body(s: Seq<char>, i: int)
    requires
        0 <= i,
    ensures
        string_body(s, i) matches Some((_, e)) ==> i < e <= s.len(),
    decreases s.len() - i,
{
    if let LitStep::Char(_, j) = lit_step(s, i, '"') {
        lemma_string_body(s, j);
    }
}

/// Every token takes at least one character and stays within the input.
pub proof fn lemma_scan_bounds(s: Seq<char>, cl: Seq<CharInfo>, p: int)
    requires
        0 <= p < s.len(),
    ensures
        scan(s, cl, p) matches Scan::Token(_, e) ==> p < e <= s.len(),
        scan(s, cl, p) matches Scan::Fail(_, e) ==> p < e <= s.len(),
{
    lemma_run_end(s, cl, p + 1, CharClass::Word);
    lemma_run_end(s, cl, p, CharClass::Space);
    lemma_run_end(s, cl, p, CharClass::Digit);
    if cl[p].white_space {
        lemma_run_end(s, cl, p + 1, CharClass::Space);
        assert(run_end(s, cl, p, CharClass::Space) == run_end(s, cl, p + 1, CharClass::Space));
    }
    if is_digit(s[p]) {
        lemma_run_end(s, cl, p + 1, CharClass::Digit);
        assert(run_end(s, cl, p, CharClass::Digit) == run_end(s, cl, p + 1, CharClass::Digit));
    }
    if s[p] == '#' {
        lemma_run_end(s, cl, p + 1, CharClass::Hash);
        assert(run_end(s, cl, p, CharClass::Hash) == run_end(s, cl, p + 1, CharClass::Hash));
    }
    lemma_run_end(s, cl, p + 1, CharClass::Symbol);
    let d = run_end(s, cl, p, CharClass::Digit);
    if d + 1 < s.len() {
        lemma_run_end(s, cl, d + 1, CharClass::Digit);
    }
    if p + 1 < s.len() && s[p + 1] == '#' {
        let body = run_end(s, cl, p, CharClass::Hash);
        lemma_run_end(s, cl, p, CharClass::Hash);
        lemma_first_match(s, body, seq!['#', '#']);
        let close = first_match(s, body, seq!['#', '#']);
        lemma_run_end(s, cl, close, CharClass::Hash);
    } else {
        lemma_first_match(s, p + 1, seq!['\n']);
    }
    lemma_string_body(s, p + 1);
}

// ---------------------------------------------------------------------------
// Executable scanner

/// `r` with `acc` put in front of the decoded text, if there is one.
pub open spec fn prefixed(acc: Seq<char>, r: Option<(Seq<char>, int)>) -> Option<(Seq<char>, int)> {
    match r {
        Some((t, e)) => Some((acc + t, e)),
        None => None,
    }
}

/// `r` with `done` put in front of the tokens, if there are any.
pub open spec fn after(done: Seq<Span>, r: Result<Seq<Span>, LexError>) -> Result<Seq<Span>, LexError> {
    match r {
        Ok(rest) => Ok(done + rest),
        Err(e) => Err(e),
    }
}

impl Token {
    pub fn new(kind: TokenKind, start: usize, length: usize) -> (r: Token)
        ensures
            r == (Token { start, length, kind }),
    {
        Token { start, length, kind }
    }

    /// Whether the token is one that the parser skips.
    pub fn is_whitespace(&self) -> (r: bool)
        ensures
            r == (self.kind is Whitespace || self.kind is Comment),
    {
        match self.kind {
            TokenKind::Whitespace(_) => true,
            TokenKind::Comment(_) => true,
            _ => false,
        }
    }

    pub fn end(&self) -> (r: usize)
        requires
            self.start + self.length <= usize::MAX,
        ensures
            r == self.start + self.length,
    {
        self.start + self.length
    }
}

/// The characters of `chars` as a string.
fn collect_string(chars: &[char]) -> (r: String)
    ensures
        r@ == chars@,
{
    let mut r = String::new();
    let mut i: usize = 0;
    while i < chars.len()
        invariant
            i <= chars@.len(),
            r@ == chars@.subrange(0, i as int),
        decreases chars@.len() - i,
    {
        push_char(&mut r, chars[i]);
        i = i + 1;
        assert(r@ =~= chars@.subrange(0, i as int));
    }
    assert(r@ =~= chars@);
    r
}

/// Whether `pat` occurs in `data` at position `i`.
fn matches_at(data: &[char], i: usize, pat: &[char]) -> (r: bool)
    requires
        i <= data@.len(),
    ensures
        r == starts_at(data@, i as int, pat@),
{
    if pat.len() > data.len() - i {
        return false;
    }
    let mut k: usize = 0;
    while k < pat.len()
        invariant
            i + pat@.len() <= data@.len(),
            k <= pat@.len(),
            data@.len() <= usize::MAX,
            forall|m: int| 0 <= m < k ==> data@[i + m] == pat@[m],
        decreases pat@.len() - k,
    {
        if data[i + k] != pat[k] {
            assert(data@.subrange(i as int, i + pat@.len())[k as int] != pat@[k as int]);
            return false;
        }
        k = k + 1;
    }
    assert(data@.subrange(i as int, i + pat@.len()) =~= pat@);
    true
}

impl<'a> Queue<'a, char> {
    /// Takes characters while `f` accepts them and returns them as a string.
    pub fn s_pop_while(&mut self, f: impl Fn(char) -> bool) -> (r: String)
        requires
            forall|c: char| #[trigger] f.requires((c,)),
            old(self).cursor <= old(self).data@.len(),
        ensures
            final(self).data == old(self).data,
            old(self).cursor <= final(self).cursor <= old(self).data@.len(),
            r@ == old(self).data@.subrange(old(self).cursor as int, final(self).cursor as int),
            forall|i: int|
                old(self).cursor <= i < final(self).cursor ==> f.ensures(
                    (#[trigger] old(self).data@[i],),
                    true,
                ),
            final(self).cursor < old(self).data@.len() ==> f.ensures(
                (old(self).data@[final(self).cursor as int],),
                false,
            ),
    {
        let start = self.cursor;
        while self.cursor < self.data.len() && f(self.data[self.cursor])
            invariant
                forall|c: char| #[trigger] f.requires((c,)),
                self.data == old(self).data,
                start == old(self).cursor,
                start <= self.cursor <= self.data@.len(),
                forall|i: int| start <= i < self.cursor ==> f.ensures((#[trigger] self.data@[i],), true),
            decreases self.data@.len() - self.cursor,
        {
            self.cursor = self.cursor + 1;
        }
        self.range_string(start)
    }

    /// The characters from `start` up to the cursor, as a string.
    pub fn range_string(&self, start: usize) -> (r: String)
        requires
            start <= self.cursor <= self.data@.len(),
        ensures
            r@ == self.data@.subrange(start as int, self.cursor as int),
    {
        collect_string(&self.data[start..self.cursor])
    }

    /// Reads one character of a quoted literal that `end` closes: `Ok(None)`
    /// at the closing quote, `Ok(Some(c))` for a character (an escape already
    /// resolved), and an error when the input ends first: `UnterminatedChar`
    /// where `end` is `'`, else `UnterminatedString`.
    pub fn pop_char(&mut self, end: char) -> (r: Result<Option<char>, LexErrorKind>)
        requires
            old(self).cursor <= old(self).data@.len(),
        ensures
            final(self).data == old(self).data,
            match lit_step(old(self).data@, old(self).cursor as int, end) {
                LitStep::Eof => {
                    &&& r == Err::<Option<char>, LexErrorKind>(
                        if end == '\'' {
                            LexErrorKind::UnterminatedChar
                        } else {
                            LexErrorKind::UnterminatedString
                        },
                    )
                    &&& final(self).cursor == old(self).data@.len()
                },
                LitStep::Close => r == Ok::<Option<char>, LexErrorKind>(None) && final(self).cursor
                    == old(self).cursor + 1,
                LitStep::Char(c, j) => r == Ok::<Option<char>, LexErrorKind>(Some(c))
                    && final(self).cursor == j,
            },
    {
        let eof = if end == '\'' {
            LexErrorKind::UnterminatedChar
        } else {
            LexErrorKind::UnterminatedString
        };
        match self.pop() {
            Some(c) => {
                if *c == '\\' {
                    match self.pop() {
                        Some(e) => {
                            let d = if *e == 'n' {
                                '\n'
                            } else if *e == 'r' {
                                '\r'
                            } else if *e == 't' {
                                '\t'
                            } else {
                                *e
                            };
                            Ok(Some(d))
                        },
                        None => Err(eof),
                    }
                } else if *c == end {
                    Ok(None)
                } else {
                    Ok(Some(*c))
                }
            },
            None => Err(eof),
        }
    }

    /// Moves the cursor to the first place where `pattern` occurs, or to the
    /// end, and returns what it passed over.
    pub fn pop_until(&mut self, pattern: &[char]) -> (r: &'a [char])
        requires
            old(self).cursor <= old(self).data@.len(),
        ensures
            final(self).data == old(self).data,
            final(self).cursor == first_match(old(self).data@, old(self).cursor as int, pattern@),
            r@ == old(self).data@.subrange(old(self).cursor as int, final(self).cursor as int),
    {
        let start = self.cursor;
        while self.cursor < self.data.len() && !matches_at(self.data, self.cursor, pattern)
            invariant
                self.data == old(self).data,
                start == old(self).cursor,
                start <= self.cursor <= self.data@.len(),
                first_match(self.data@, start as int, pattern@) == first_match(
                    self.data@,
                    self.cursor as int,
                    pattern@,
                ),
            decreases self.data@.len() - self.cursor,
        {
            self.cursor = self.cursor + 1;
        }
        &self.data[start..self.cursor]
    }
}

/// Whether `c`, whose classes are `info`, may stand in a symbol run.
fn is_symbol(c: char, info: CharInfo) -> (r: bool)
    ensures
        r == symbol_char(c, info),
{
    !info.white_space && !info.alphanumeric && match c {
        '[' => false,
        ']' => false,
        '{' => false,
        '}' => false,
        '#' => false,
        ':' => false,
        '"' => false,
        '\'' => false,
        _ => true,
    }
}

fn class_at(class: CharClass, c: char, info: CharInfo) -> (r: bool)
    ensures
        r == in_class(class, c, info),
{
    match class {
        CharClass::Word => info.alphanumeric || c == '_',
        CharClass::Space => info.white_space,
        CharClass::Digit => '0' <= c && c <= '9',
        CharClass::Hash => c == '#',
        CharClass::Symbol => is_symbol(c, info),
    }
}

/// Moves the cursor over the maximal run of `class` characters.
fn take_run(queue: &mut Queue<char>, classes: &[CharInfo], class: CharClass)
    requires
        old(queue).cursor <= old(queue).data@.len(),
        classes@.len() == old(queue).data@.len(),
    ensures
        final(queue).data == old(queue).data,
        final(queue).cursor == run_end(old(queue).data@, classes@, old(queue).cursor as int, class),
{
    let ghost start = queue.cursor as int;
    while queue.cursor < queue.data.len() && class_at(class, queue.data[queue.cursor], classes[queue.cursor])
        invariant
            queue.data == old(queue).data,
            classes@.len() == queue.data@.len(),
            start <= queue.cursor <= queue.data@.len(),
            forall|k: int| start <= k < queue.cursor ==> in_class(class, #[trigger] queue.data@[k], classes@[k]),
        decreases queue.data@.len() - queue.cursor,
    {
        queue.cursor = queue.cursor + 1;
    }
    proof {
        lemma_run_end_unique(queue.data@, classes@, start, queue.cursor as int, class);
    }
}

pub proof fn lemma_digits_value_nonneg(d: Seq<char>)
    requires
        forall|k: int| 0 <= k < d.len() ==> is_digit(#[trigger] d[k]),
    ensures
        digits_value(d) >= 0,
    decreases d.len(),
{
    if d.len() > 0 {
        lemma_digits_value_nonneg(d.drop_last());
    }
}

/// A longer prefix of a digit run never writes a smaller number.
pub proof fn lemma_digits_value_prefix(d: Seq<char>, i: int, j: int)
    requires
        0 <= i <= j <= d.len(),
        forall|k: int| 0 <= k < d.len() ==> is_digit(#[trigger] d[k]),
    ensures
        digits_value(d.subrange(0, i)) <= digits_value(d.subrange(0, j)),
    decreases j - i,
{
    if i < j {
        lemma_digits_value_prefix(d, i, j - 1);
        let a = d.subrange(0, j);
        assert(a.drop_last() =~= d.subrange(0, j - 1));
        lemma_digits_value_nonneg(a.drop_last());
    }
}

/// The number that a run of decimal digits writes, or `None` where it does
/// not fit in an `i128`.
fn parse_integer(digits: &[char]) -> (r: Option<i128>)
    requires
        forall|k: int| 0 <= k < digits@.len() ==> is_digit(#[trigger] digits@[k]),
    ensures
        r is Some <==> digits_value(digits@) <= i128::MAX,
        r matches Some(n) ==> n == digits_value(digits@),
{
    let mut acc: i128 = 0;
    let mut i: usize = 0;
    while i < digits.len()
        invariant
            i <= digits@.len(),
            forall|k: int| 0 <= k < digits@.len() ==> is_digit(#[trigger] digits@[k]),
            acc == digits_value(digits@.subrange(0, i as int)),
        decreases digits@.len() - i,
    {
        let ghost d = digits@;
        proof {
            lemma_digits_value_nonneg(d.subrange(0, i as int));
            assert(d.subrange(0, i + 1).drop_last() =~= d.subrange(0, i as int));
        }
        let v = ((digits[i] as u32) - ('0' as u32)) as i128;
        if acc > (i128::MAX - v) / 10 {
            proof {
                lemma_digits_value_prefix(d, i + 1, d.len() as int);
                assert(d.subrange(0, d.len() as int) =~= d);
            }
            return None;
        }
        acc = acc * 10 + v;
        i = i + 1;
    }
    assert(digits@.subrange(0, digits@.len() as int) =~= digits@);
    Some(acc)
}

/// Scans the token at the cursor and moves the cursor past it; `Ok(None)` at
/// the end of the input. `classes` gives the classes of each character.
pub fn pop_token(queue: &mut Queue<char>, classes: &[CharInfo]) -> (r: Result<Option<TokenKind>, LexError>)
    requires
        old(queue).cursor <= old(queue).data@.len(),
        classes@.len() == old(queue).data@.len(),
    ensures
        final(queue).data == old(queue).data,
        old(queue).cursor == old(queue).data@.len() ==> r == Ok::<Option<TokenKind>, LexError>(
            None,
        ),
        old(queue).cursor < old(queue).data@.len() ==> match scan(
            old(queue).data@,
            classes@,
            old(queue).cursor as int,
        ) {
            Scan::Token(k, e) => r matches Ok(Some(t)) && t@ == k && final(queue).cursor == e,
            Scan::Fail(kind, e) => r == Err::<Option<TokenKind>, LexError>(
                (LexError { kind, start: old(queue).cursor, end: e as usize }),
            ),
        },
{
    if queue.empty() {
        return Ok(None);
    }
    let ghost s = queue.data@;
    let ghost cl = classes@;
    let ghost p = queue.cursor as int;
    proof {
        lemma_scan_bounds(s, cl, p);
    }
    let start = queue.cursor;
    let c = *queue.head();
    let info = classes[start];
    if info.alphabetic {
        queue.pop();
        take_run(queue, classes, CharClass::Word);
        return Ok(Some(TokenKind::Identifier(queue.range_string(start))));
    }
    if info.white_space {
        take_run(queue, classes, CharClass::Space);
        return Ok(Some(TokenKind::Whitespace(queue.range_string(start))));
    }
    if '0' <= c && c <= '9' {
        take_run(queue, classes, CharClass::Digit);
        let d = queue.cursor;
        proof {
            lemma_run_end(s, cl, p, CharClass::Digit);
        }
        if queue.len() - d > 1 && queue.data[d] == '.' && '0' <= queue.data[d + 1]
            && queue.data[d + 1] <= '9' {
            queue.cursor = d + 1;
            take_run(queue, classes, CharClass::Digit);
            return Ok(Some(TokenKind::Float(queue.range_string(start))));
        }
        return match parse_integer(&queue.data[start..d]) {
            Some(n) => Ok(Some(TokenKind::Integer(n))),
            None => Err(LexError { kind: LexErrorKind::NumberOverflow, start, end: d }),
        };
    }
    queue.pop();
    if c == '[' {
        return Ok(Some(TokenKind::Lfn));
    }
    if c == ']' {
        return Ok(Some(TokenKind::Rfn));
    }
    if c == '{' {
        return Ok(Some(TokenKind::Lcond));
    }
    if c == '}' {
        return Ok(Some(TokenKind::Rcond));
    }
    if c == ':' {
        return Ok(Some(TokenKind::FieldDelim));
    }
    if c == '#' {
        let block = match queue.peak() {
            Some(h) => *h == '#',
            None => false,
        };
        if block {
            take_run(queue, classes, CharClass::Hash);
            proof {
                lemma_run_end(s, cl, p + 1, CharClass::Hash);
            }
            let close = ['#', '#'];
            proof {
                assert(close@ =~= seq!['#', '#']);
            }
            queue.pop_until(&close);
            proof {
                lemma_first_match(s, run_end(s, cl, p, CharClass::Hash), seq!['#', '#']);
            }
            take_run(queue, classes, CharClass::Hash);
        } else {
            let newline = ['\n'];
            proof {
                assert(newline@ =~= seq!['\n']);
            }
            queue.pop_until(&newline);
            proof {
                lemma_first_match(s, p + 1, seq!['\n']);
            }
            queue.pop();
        }
        return Ok(Some(TokenKind::Comment(queue.range_string(start))));
    }
    if c == '"' {
        let mut text = String::new();
        loop
            invariant_except_break
                string_body(s, p + 1) == prefixed(text@, string_body(s, queue.cursor as int)),
            invariant
                queue.data == old(queue).data,
                s == old(queue).data@,
                p == old(queue).cursor,
                start == old(queue).cursor,
                cl == classes@,
                scan(s, cl, p) == scan_string(s, p),
                p + 1 <= queue.cursor <= s.len(),
            ensures
                string_body(s, p + 1) == Some((text@, queue.cursor as int)),
            decreases s.len() - queue.cursor,
        {
            match queue.pop_char('"') {
                Err(kind) => {
                    return Err(LexError { kind, start, end: queue.len() });
                },
                Ok(None) => {
                    assert(text@ + Seq::<char>::empty() =~= text@);
                    break ;
                },
                Ok(Some(ch)) => {
                    let ghost before = text@;
                    push_char(&mut text, ch);
                    proof {
                        lemma_string_body(s, queue.cursor as int);
                        match string_body(s, queue.cursor as int) {
                            Some((t, e)) => {
                                assert(before + (seq![ch] + t) =~= text@ + t);
                            },
                            None => {},
                        }
                    }
                },
            }
        }
        return Ok(Some(TokenKind::StringLiteral(text)));
    }
    if c == '\'' {
        return match queue.pop_char('\'') {
            Err(kind) => Err(LexError { kind, start, end: queue.len() }),
            Ok(None) => Err(
                LexError { kind: LexErrorKind::InvalidCharLiteralLength, start, end: queue.cursor },
            ),
            Ok(Some(ch)) => match queue.pop() {
                Some(q) => {
                    if *q == '\'' {
                        Ok(Some(TokenKind::Character(ch)))
                    } else {
                        Err(
                            LexError {
                                kind: LexErrorKind::InvalidCharLiteralLength,
                                start,
                                end: queue.cursor,
                            },
                        )
                    }
                },
                None => Err(LexError { kind: LexErrorKind::UnterminatedChar, start, end: queue.len() }),
            },
        };
    }
    take_run(queue, classes, CharClass::Symbol);
    Ok(Some(TokenKind::Symbol(queue.range_string(start))))
}

/// The tokens of `code`, whose characters have the classes `classes`, or the
/// first error.
pub fn tokenize_classified(code: &[char], classes: &[CharInfo]) -> (r: Result<Vec<Token>, LexError>)
    requires
        classes@.len() == code@.len(),
    ensures
        r is Ok <==> lex_with(code@, classes@) is Ok,
        r matches Ok(ts) ==> spans(ts@) == lex_with(code@, classes@)->Ok_0,
        r matches Err(e) ==> e == lex_with(code@, classes@)->Err_0,
{
    let ghost cl = classes@;
    let mut queue = Queue::new(code);
    let mut tokens: Vec<Token> = Vec::new();
    let mut start: usize = 0;
    loop
        invariant
            queue.data@ == code@,
            classes@ == cl,
            cl.len() == code@.len(),
            start == queue.cursor,
            start <= code@.len(),
            lex_with(code@, cl) == after(spans(tokens@), tokens_from(code@, cl, start as int)),
        decreases code@.len() - queue.cursor,
    {
        let ghost before = tokens@;
        match pop_token(&mut queue, classes) {
            Ok(Some(kind)) => {
                proof {
                    lemma_scan_bounds(code@, cl, start as int);
                }
                let t = Token::new(kind, start, queue.cursor - start);
                tokens.push(t);
                proof {
                    assert(spans(tokens@) =~= spans(before).push(t@));
                    match tokens_from(code@, cl, queue.cursor as int) {
                        Ok(rest) => {
                            assert(spans(before) + (seq![t@] + rest) =~= spans(tokens@) + rest);
                        },
                        Err(_) => {},
                    }
                }
                start = queue.cursor;
            },
            Ok(None) => {
                assert(spans(tokens@) + Seq::<Span>::empty() =~= spans(tokens@));
                return Ok(tokens);
            },
            Err(e) => {
                return Err(e);
            },
        }
    }
}

/// The tokens of `code`, whose spans cover it in order, or the first error.
pub fn tokenize(code: &[char]) -> (r: Result<Vec<Token>, LexError>)
    ensures
        r is Ok <==> lex(code@) is Ok,
        r matches Ok(ts) ==> spans(ts@) == lex(code@)->Ok_0,
        r matches Err(e) ==> e == lex(code@)->Err_0,
{
    let classes = classify_all(code);
    tokenize_classified(code, classes.as_slice())
}

/// The tokens of the characters of `code`, or the first error.
pub fn tokenize_from_str(code: &str) -> (r: Result<Vec<Token>, LexError>)
    ensures
        r is Ok <==> lex(code@) is Ok,
        r matches Ok(ts) ==> spans(ts@) == lex(code@)->Ok_0,
        r matches Err(e) ==> e == lex(code@)->Err_0,
{
    let chars = chars_of(code);
    tokenize(chars.as_slice())
}

/// The characters that the tokens' spans cover, one span after another.
pub open spec fn covered(s: Seq<char>, ts: Seq<Span>) -> Seq<char>
    decreases ts.len(),
{
    if ts.len() == 0 {
        Seq::empty()
    } else {
        s.subrange(ts[0].start, ts[0].start + ts[0].length) + covered(s, ts.drop_first())
    }
}

proof fn lemma_tokens_from_cover(s: Seq<char>, cl: Seq<CharInfo>, p: int)
    requires
        0 <= p <= s.len(),
        tokens_from(s, cl, p) is Ok,
    ensures
        covered(s, tokens_from(s, cl, p)->Ok_0) == s.subrange(p, s.len() as int),
        forall|i: int|
            0 <= i < tokens_from(s, cl, p)->Ok_0.len() ==> (#[trigger] tokens_from(
                s,
                cl,
                p,
            )->Ok_0[i]).length > 0,
    decreases s.len() - p,
{
    if p < s.len() {
        lemma_scan_bounds(s, cl, p);
        if let Scan::Token(k, e) = scan(s, cl, p) {
            lemma_tokens_from_cover(s, cl, e);
            let ts = tokens_from(s, cl, p)->Ok_0;
            assert(ts.drop_first() =~= tokens_from(s, cl, e)->Ok_0);
            assert(s.subrange(p, e) + s.subrange(e, s.len() as int) =~= s.subrange(p, s.len() as int));
        }
    } else {
        assert(s.subrange(p, s.len() as int) =~= Seq::<char>::empty());
    }
}

/// Concatenating the spans of the tokens, in order, gives back the input
/// exactly, and no token is empty; whatever the classes of the characters.
pub proof fn lemma_spans_cover_input(s: Seq<char>, cl: Seq<CharInfo>)
    requires
        lex_with(s, cl) is Ok,
    ensures
        covered(s, lex_with(s, cl)->Ok_0) == s,
        forall|i: int| 0 <= i < lex_with(s, cl)->Ok_0.len() ==> (#[trigger] lex_with(s, cl)->Ok_0[i]).length > 0,
{
    lemma_tokens_from_cover(s, cl, 0);
    assert(s.subrange(0, s.len() as int) =~= s);
}

} // verus!
