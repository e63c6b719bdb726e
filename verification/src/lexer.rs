//! Backtracking lexer: turns a source text into an ordered sequence of
//! located tokens, interning identifier and literal text into the symbol
//! table as a side effect. Each matching rule is stated as a spec function
//! over the character sequence, and the lexer is proved to produce exactly
//! the greedy, first-match tokenization those rules describe.

use crate::chars::{is_alpha, is_lower, is_upper, is_ws, string_of_range};
use crate::span::{Located, Source, Span};
use crate::table::{Symbol, SymbolTable, Type};
use vstd::prelude::*;
use vstd::string::StrSliceExecFns;
use vstd::string::StringExecFns;

verus! {

#[derive(Debug, Clone, Copy, PartialEq, Eq, Structural)]
pub enum Keyword {
    SOME,
    ALL,
    VALUE,
    MIN,
    MAX,
    EXACTLY,
    THAT,
    ONLY,
    NOT,
    AND,
    OR,
}

#[derive(Debug, Clone, Copy, PartialEq, Eq, Structural)]
pub enum Datatype {
    Integer,
    Decimal,
    Float,
    Str,
}

#[derive(Debug, Clone, Copy, PartialEq, Eq, Structural)]
pub enum Punctuation {
    OpenParen,
    CloseParen,
    OpenBrace,
    CloseBrace,
    OpenBracket,
    CloseBracket,
    Comma,
    LessThanEqual,
    GreaterThanEqual,
    LessThan,
    GreaterThan,
}

/// A token as first matched, identifier and literal text still unresolved.
pub enum TokenType {
    Keyword(Keyword),
    Datatype(Datatype),
    Punctuation(Punctuation),
    ClassIdentifier(String),
    PropertyIdentifier(String),
    Cardinality(usize),
    Literal(String),
}

#[derive(Debug, Clone, Copy, PartialEq, Eq, Structural)]
pub enum LexerErr {
    UnrecognizedToken,
}

/// A token after interning: identifiers and literals carry their symbol index.
#[derive(Debug, Clone, Copy, PartialEq, Eq, Structural)]
pub enum Token {
    Keyword(Keyword),
    Datatype(Datatype),
    Punctuation(Punctuation),
    Cardinality(usize),
    ClassIdentifier { index: usize },
    PropertyIdentifier { index: usize },
    Literal { index: usize },
}

/// What remains of the input after a matching attempt, and its outcome.
/// A failed attempt leaves `remaining` exactly where it started.
pub struct LexerResult<T> {
    pub remaining: Span,
    pub result: Result<T, LexerErr>,
}

impl<T> LexerResult<T> {
    pub fn new(remaining: Span, result: Result<T, LexerErr>) -> (r: LexerResult<T>)
        ensures
            r.remaining == remaining,
            r.result == result,
    {
        LexerResult { remaining, result }
    }

    pub fn ok(remaining: Span, value: T) -> (r: LexerResult<T>)
        ensures
            r.remaining == remaining,
            r.result == Result::<T, LexerErr>::Ok(value),
    {
        LexerResult { remaining, result: Ok(value) }
    }

    pub fn err(remaining: Span, err: LexerErr) -> (r: LexerResult<T>)
        ensures
            r.remaining == remaining,
            r.result == Result::<T, LexerErr>::Err(err),
    {
        LexerResult { remaining, result: Err(err) }
    }

    /// Applies `f` to a successful value, keeping the remaining input.
    pub fn map<U, F: FnOnce(T) -> U>(self, f: F) -> (r: LexerResult<U>)
        requires
            self.result matches Ok(v) ==> f.requires((v,)),
        ensures
            r.remaining == self.remaining,
            match self.result {
                Ok(v) => r.result matches Ok(u) && f.ensures((v,), u),
                Err(e) => r.result == Result::<U, LexerErr>::Err(e),
            },
    {
        match self.result {
            Ok(value) => LexerResult { remaining: self.remaining, result: Ok(f(value)) },
            Err(err) => LexerResult { remaining: self.remaining, result: Err(err) },
        }
    }

    pub fn result(self) -> (r: Result<(Span, T), (Span, LexerErr)>)
        ensures
            match self.result {
                Ok(v) => r == Result::<(Span, T), (Span, LexerErr)>::Ok((self.remaining, v)),
                Err(e) => r == Result::<(Span, T), (Span, LexerErr)>::Err((self.remaining, e)),
            },
    {
        match self.result {
            Ok(value) => Ok((self.remaining, value)),
            Err(err) => Err((self.remaining, err)),
        }
    }
}

/// The remaining input runs from `span.start` to the end of the buffer.
pub open spec fn span_rest(span: Span, s: Seq<char>) -> bool {
    span.start <= span.end == s.len()
}

/// First offset at or after `pos` that does not hold whitespace.
pub open spec fn ws_end(s: Seq<char>, pos: int) -> int
    decreases s.len() - pos,
{
    if pos < 0 || pos >= s.len() || !is_ws(s[pos]) {
        pos
    } else {
        ws_end(s, pos + 1)
    }
}

pub proof fn lemma_ws_end_bounds(s: Seq<char>, pos: int)
    requires
        0 <= pos <= s.len(),
    ensures
        pos <= ws_end(s, pos) <= s.len(),
        ws_end(s, ws_end(s, pos)) == ws_end(s, pos),
    decreases s.len() - pos,
{
    if pos < s.len() && is_ws(s[pos]) {
        lemma_ws_end_bounds(s, pos + 1);
    }
}

/// The characters of `w` occur in `s` starting at `pos`.
pub open spec fn seq_matches(s: Seq<char>, pos: int, w: Seq<char>) -> bool {
    &&& 0 <= pos
    &&& pos + w.len() <= s.len()
    &&& forall|k: int| 0 <= k < w.len() ==> s[pos + k] == w[k]
}

/// A keyword or datatype must not run into a longer identifier: at `pos`
/// the input has ended or continues with a non-alphabetic, non-underscore
/// character.
pub open spec fn boundary_ok(s: Seq<char>, pos: int) -> bool {
    pos >= s.len() || (!is_alpha(s[pos]) && s[pos] != '_')
}

/// A case-insensitive word match: the input holds the word fully lowercased
/// or fully uppercased (mixed case does not match), followed by a boundary.
pub open spec fn kw_ci_at(s: Seq<char>, pos: int, lower: Seq<char>, upper: Seq<char>) -> bool {
    &&& (seq_matches(s, pos, lower) || seq_matches(s, pos, upper))
    &&& boundary_ok(s, pos + lower.len())
}

/// Which keyword, if any, is matched at `pos`, and its length.
pub open spec fn keyword_at(s: Seq<char>, pos: int) -> Option<(Keyword, int)> {
    if kw_ci_at(s, pos, "some"@, "SOME"@) {
        Some((Keyword::SOME, "some"@.len() as int))
    } else if kw_ci_at(s, pos, "all"@, "ALL"@) {
        Some((Keyword::ALL, "all"@.len() as int))
    } else if kw_ci_at(s, pos, "value"@, "VALUE"@) {
        Some((Keyword::VALUE, "value"@.len() as int))
    } else if kw_ci_at(s, pos, "min"@, "MIN"@) {
        Some((Keyword::MIN, "min"@.len() as int))
    } else if kw_ci_at(s, pos, "max"@, "MAX"@) {
        Some((Keyword::MAX, "max"@.len() as int))
    } else if kw_ci_at(s, pos, "exactly"@, "EXACTLY"@) {
        Some((Keyword::EXACTLY, "exactly"@.len() as int))
    } else if kw_ci_at(s, pos, "that"@, "THAT"@) {
        Some((Keyword::THAT, "that"@.len() as int))
    } else if kw_ci_at(s, pos, "only"@, "ONLY"@) {
        Some((Keyword::ONLY, "only"@.len() as int))
    } else if kw_ci_at(s, pos, "not"@, "NOT"@) {
        Some((Keyword::NOT, "not"@.len() as int))
    } else if kw_ci_at(s, pos, "and"@, "AND"@) {
        Some((Keyword::AND, "and"@.len() as int))
    } else if kw_ci_at(s, pos, "or"@, "OR"@) {
        Some((Keyword::OR, "or"@.len() as int))
    } else {
        None
    }
}

/// Which datatype word, if any, is matched at `pos`, and its length.
pub open spec fn datatype_at(s: Seq<char>, pos: int) -> Option<(Datatype, int)> {
    if kw_ci_at(s, pos, "integer"@, "INTEGER"@) {
        Some((Datatype::Integer, "integer"@.len() as int))
    } else if kw_ci_at(s, pos, "decimal"@, "DECIMAL"@) {
        Some((Datatype::Decimal, "decimal"@.len() as int))
    } else if kw_ci_at(s, pos, "float"@, "FLOAT"@) {
        Some((Datatype::Float, "float"@.len() as int))
    } else if kw_ci_at(s, pos, "string"@, "STRING"@) {
        Some((Datatype::Str, "string"@.len() as int))
    } else {
        None
    }
}

/// Which punctuation token starts at `pos`; two-character comparators are
/// matched before their one-character prefixes.
pub open spec fn punct_at(s: Seq<char>, pos: int) -> Option<(Punctuation, int)> {
    if pos < 0 || pos >= s.len() {
        None
    } else if s[pos] == '(' {
        Some((Punctuation::OpenParen, 1))
    } else if s[pos] == ')' {
        Some((Punctuation::CloseParen, 1))
    } else if s[pos] == '{' {
        Some((Punctuation::OpenBrace, 1))
    } else if s[pos] == '}' {
        Some((Punctuation::CloseBrace, 1))
    } else if s[pos] == '[' {
        Some((Punctuation::OpenBracket, 1))
    } else if s[pos] == ']' {
        Some((Punctuation::CloseBracket, 1))
    } else if s[pos] == ',' {
        Some((Punctuation::Comma, 1))
    } else if s[pos] == '<' && pos + 1 < s.len() && s[pos + 1] == '=' {
        Some((Punctuation::LessThanEqual, 2))
    } else if s[pos] == '>' && pos + 1 < s.len() && s[pos + 1] == '=' {
        Some((Punctuation::GreaterThanEqual, 2))
    } else if s[pos] == '<' {
        Some((Punctuation::LessThan, 1))
    } else if s[pos] == '>' {
        Some((Punctuation::GreaterThan, 1))
    } else {
        None
    }
}

/// Continuation rule for an identifier run: the same PascalCase rule as a
/// class identifier's, underscores included.
pub open spec fn ident_cont(prev: char, c: char) -> bool {
    class_cont(prev, c)
}

/// End of the longest identifier run from `pos` whose previous character
/// was `prev`.
pub open spec fn ident_run_end(s: Seq<char>, pos: int, prev: char) -> int
    decreases s.len() - pos,
{
    if pos < 0 || pos >= s.len() || !ident_cont(prev, s[pos]) {
        pos
    } else {
        ident_run_end(s, pos + 1, s[pos])
    }
}

/// End of an identifier token at `pos`: an uppercase first character, the
/// longest continuation run, then a boundary.
pub open spec fn ident_end_at(s: Seq<char>, pos: int) -> Option<int> {
    if 0 <= pos < s.len() && is_upper(s[pos]) {
        let e = ident_run_end(s, pos + 1, s[pos]);
        if boundary_ok(s, e) {
            Some(e)
        } else {
            None
        }
    } else {
        None
    }
}

/// Continuation rule for a class identifier run; underscores may continue
/// a run and an uppercase letter may follow an underscore.
pub open spec fn class_cont(prev: char, c: char) -> bool {
    ||| (is_upper(prev) && (is_lower(c) || c == '_'))
    ||| (is_lower(prev) && (is_alpha(c) || c == '_'))
    ||| (prev == '_' && is_upper(c))
}

/// End of the longest class identifier run from `pos` whose previous
/// character was `prev`.
pub open spec fn class_run_end(s: Seq<char>, pos: int, prev: char) -> int
    decreases s.len() - pos,
{
    if pos < 0 || pos >= s.len() || !class_cont(prev, s[pos]) {
        pos
    } else {
        class_run_end(s, pos + 1, s[pos])
    }
}

/// End of a class identifier token at `pos`.
pub open spec fn class_end_at(s: Seq<char>, pos: int) -> Option<int> {
    if 0 <= pos < s.len() && is_upper(s[pos]) {
        let e = class_run_end(s, pos, '_');
        if boundary_ok(s, e) {
            Some(e)
        } else {
            None
        }
    } else {
        None
    }
}

/// The word ends in the two characters `Of`.
pub open spec fn ends_with_of(w: Seq<char>) -> bool {
    w.len() >= 2 && w[w.len() - 2] == 'O' && w[w.len() - 1] == 'f'
}

/// End of a property identifier token at `pos`: `has` followed by an
/// identifier, or `is` followed by an identifier that ends in `Of`.
pub open spec fn prop_end_at(s: Seq<char>, pos: int) -> Option<int> {
    if seq_matches(s, pos, "has"@) && ident_end_at(s, pos + "has"@.len()) is Some {
        ident_end_at(s, pos + "has"@.len())
    } else if seq_matches(s, pos, "is"@) && ident_end_at(s, pos + "is"@.len()) is Some
        && ends_with_of(
        s.subrange(pos + "is"@.len(), ident_end_at(s, pos + "is"@.len())->Some_0),
    ) {
        ident_end_at(s, pos + "is"@.len())
    } else {
        None
    }
}

/// `c` is a decimal digit.
pub open spec fn is_digit(c: char) -> bool {
    '0' <= c && c <= '9'
}

/// Numeric value of a digit character.
pub open spec fn digit_val(c: char) -> int {
    c as int - '0' as int
}

/// End of the digit run starting at `pos`.
pub open spec fn digit_run_end(s: Seq<char>, pos: int) -> int
    decreases s.len() - pos,
{
    if pos < 0 || pos >= s.len() || !is_digit(s[pos]) {
        pos
    } else {
        digit_run_end(s, pos + 1)
    }
}

/// The number a digit string denotes, most significant digit first.
pub open spec fn dec_value(w: Seq<char>) -> int
    decreases w.len(),
{
    if w.len() == 0 {
        0
    } else {
        dec_value(w.drop_last()) * 10 + digit_val(w.last())
    }
}

/// A cardinality token at `pos`: a non-empty digit run whose value fits in
/// a machine word; its value and end.
pub open spec fn card_at(s: Seq<char>, pos: int) -> Option<(int, int)> {
    if 0 <= pos < s.len() && is_digit(s[pos]) {
        let e = digit_run_end(s, pos);
        if dec_value(s.subrange(pos, e)) <= usize::MAX {
            Some((dec_value(s.subrange(pos, e)), e))
        } else {
            None
        }
    } else {
        None
    }
}

/// A literal character: anything but a closing quote or a newline.
pub open spec fn lit_char_ok(c: char) -> bool {
    c != '"' && c != '\n'
}

/// End of the literal body starting at `pos`.
pub open spec fn lit_run_end(s: Seq<char>, pos: int) -> int
    decreases s.len() - pos,
{
    if pos < 0 || pos >= s.len() || !lit_char_ok(s[pos]) {
        pos
    } else {
        lit_run_end(s, pos + 1)
    }
}

/// A string literal token at `pos`: one past its closing quote.
pub open spec fn lit_at(s: Seq<char>, pos: int) -> Option<int> {
    if 0 <= pos < s.len() && s[pos] == '"' {
        let e = lit_run_end(s, pos + 1);
        if e < s.len() && s[e] == '"' {
            Some(e + 1)
        } else {
            None
        }
    } else {
        None
    }
}

/// A token as the matching rules see it, identifier and literal text spelled
/// out.
pub enum SpecTokenValue {
    Keyword(Keyword),
    Datatype(Datatype),
    Punctuation(Punctuation),
    Cardinality(int),
    ClassIdentifier(Seq<char>),
    PropertyIdentifier(Seq<char>),
    Literal(Seq<char>),
}

/// The token matched at `pos`, if any, with its length: alternatives are
/// tried in a fixed order and the first that matches wins.
pub open spec fn token_at(s: Seq<char>, pos: int) -> Option<(SpecTokenValue, int)> {
    if keyword_at(s, pos) is Some {
        let (k, l) = keyword_at(s, pos)->Some_0;
        Some((SpecTokenValue::Keyword(k), l))
    } else if datatype_at(s, pos) is Some {
        let (d, l) = datatype_at(s, pos)->Some_0;
        Some((SpecTokenValue::Datatype(d), l))
    } else if punct_at(s, pos) is Some {
        let (p, l) = punct_at(s, pos)->Some_0;
        Some((SpecTokenValue::Punctuation(p), l))
    } else if class_end_at(s, pos) is Some {
        let e = class_end_at(s, pos)->Some_0;
        Some((SpecTokenValue::ClassIdentifier(s.subrange(pos, e)), e - pos))
    } else if prop_end_at(s, pos) is Some {
        let e = prop_end_at(s, pos)->Some_0;
        Some((SpecTokenValue::PropertyIdentifier(s.subrange(pos, e)), e - pos))
    } else if card_at(s, pos) is Some {
        let (v, e) = card_at(s, pos)->Some_0;
        Some((SpecTokenValue::Cardinality(v), e - pos))
    } else if lit_at(s, pos) is Some {
        let e = lit_at(s, pos)->Some_0;
        Some((SpecTokenValue::Literal(s.subrange(pos + 1, e - 1)), e - pos))
    } else {
        None
    }
}

/// Advances past leading whitespace.
pub fn skip_whitespace(chars: &Vec<char>, span: Span) -> (r: Span)
    requires
        span_rest(span, chars@),
    ensures
        r.start == ws_end(chars@, span.start as int),
        r.end == span.end,
        span_rest(r, chars@),
{
    let mut i: usize = span.start;
    while i < span.end && chars[i].is_whitespace()
        invariant
            span.start <= i <= span.end,
            span_rest(span, chars@),
            ws_end(chars@, span.start as int) == ws_end(chars@, i as int),
        decreases span.end - i,
    {
        i = i + 1;
    }
    Span { start: i, end: span.end }
}

/// Matches exactly the character `c` at the start of the remaining input.
pub fn parse_char(chars: &Vec<char>, span: Span, c: char) -> (r: LexerResult<Located<char>>)
    requires
        span_rest(span, chars@),
    ensures
        span_rest(r.remaining, chars@),
        if span.start < span.end && chars@[span.start as int] == c {
            &&& r.result matches Ok(l) && l.value == c && l.span == (Span {
                start: span.start,
                end: (span.start + 1) as usize,
            })
            &&& r.remaining == (Span { start: (span.start + 1) as usize, end: span.end })
        } else {
            &&& r.result is Err
            &&& r.remaining == span
        },
{
    if span.start < span.end && chars[span.start] == c {
        let (remaining, taken) = span.split(1);
        LexerResult::ok(remaining, Located::new(c, taken))
    } else {
        LexerResult::err(span, LexerErr::UnrecognizedToken)
    }
}

/// Matches the exact character sequence of `sequence` at the start of the
/// remaining input.
pub fn parse_seq(chars: &Vec<char>, span: Span, sequence: &str) -> (r: LexerResult<
    Located<String>,
>)
    requires
        span_rest(span, chars@),
    ensures
        span_rest(r.remaining, chars@),
        if seq_matches(chars@, span.start as int, sequence@) {
            &&& r.result matches Ok(l) && l.value@ == sequence@ && l.span == (Span {
                start: span.start,
                end: (span.start + sequence@.len()) as usize,
            })
            &&& r.remaining == (Span {
                start: (span.start + sequence@.len()) as usize,
                end: span.end,
            })
        } else {
            &&& r.result is Err
            &&& r.remaining == span
        },
{
    let n = sequence.unicode_len();
    if n > span.end - span.start {
        return LexerResult::err(span, LexerErr::UnrecognizedToken);
    }
    let mut k: usize = 0;
    while k < n
        invariant
            0 <= k <= n,
            span_rest(span, chars@),
            n == sequence@.len(),
            span.start + n <= span.end,
            forall|j: int| 0 <= j < k ==> chars@[span.start + j] == sequence@[j],
        decreases n - k,
    {
        if chars[span.start + k] != sequence.get_char(k) {
            return LexerResult::err(span, LexerErr::UnrecognizedToken);
        }
        k = k + 1;
    }
    let (remaining, taken) = span.split(n);
    LexerResult::ok(remaining, Located::new(String::from_str(sequence), taken))
}

/// Matches `lower` or `upper` (the fully lowercased and fully uppercased
/// forms of one word; mixed case matches neither).
pub fn parse_seq_any_casing(chars: &Vec<char>, span: Span, lower: &str, upper: &str) -> (r:
    LexerResult<Located<String>>)
    requires
        span_rest(span, chars@),
        lower@.len() == upper@.len(),
    ensures
        span_rest(r.remaining, chars@),
        if seq_matches(chars@, span.start as int, lower@) || seq_matches(
            chars@,
            span.start as int,
            upper@,
        ) {
            &&& r.result matches Ok(l) && (l.value@ == lower@ || l.value@ == upper@) && l.span
                == (Span { start: span.start, end: (span.start + lower@.len()) as usize })
            &&& r.remaining == (Span {
                start: (span.start + lower@.len()) as usize,
                end: span.end,
            })
        } else {
            &&& r.result is Err
            &&& r.remaining == span
        },
{
    let attempt = parse_seq(chars, span, lower);
    match attempt.result {
        Ok(l) => LexerResult::ok(attempt.remaining, l),
        Err(_) => parse_seq(chars, span, upper),
    }
}

/// Whether the input at `pos` satisfies the keyword boundary rule.
fn boundary_check(chars: &Vec<char>, pos: usize) -> (r: bool)
    ensures
        r == boundary_ok(chars@, pos as int),
{
    pos >= chars.len() || (!chars[pos].is_alphabetic() && chars[pos] != '_')
}

/// One case-insensitive keyword attempt including its boundary.
fn try_word(chars: &Vec<char>, span: Span, lower: &str, upper: &str) -> (r: Option<usize>)
    requires
        span_rest(span, chars@),
        lower@.len() == upper@.len(),
    ensures
        match r {
            Some(e) => kw_ci_at(chars@, span.start as int, lower@, upper@) && e == span.start
                + lower@.len(),
            None => !kw_ci_at(chars@, span.start as int, lower@, upper@),
        },
{
    let attempt = parse_seq_any_casing(chars, span, lower, upper);
    match attempt.result {
        Ok(_) => {
            if boundary_check(chars, attempt.remaining.start) {
                Some(attempt.remaining.start)
            } else {
                None
            }
        },
        Err(_) => None,
    }
}

/// Matches one of the fixed keywords, case-insensitively, with a boundary.
pub fn parse_keyword(chars: &Vec<char>, span: Span) -> (r: LexerResult<Located<Keyword>>)
    requires
        span_rest(span, chars@),
    ensures
        span_rest(r.remaining, chars@),
        match keyword_at(chars@, span.start as int) {
            Some((k, l)) => {
                &&& r.result matches Ok(loc) && loc.value == k && loc.span == (Span {
                    start: span.start,
                    end: (span.start + l) as usize,
                })
                &&& r.remaining == (Span { start: (span.start + l) as usize, end: span.end })
            },
            None => r.result is Err && r.remaining == span,
        },
{
    proof {
        reveal_strlit("some");
        reveal_strlit("SOME");
        reveal_strlit("all");
        reveal_strlit("ALL");
        reveal_strlit("value");
        reveal_strlit("VALUE");
        reveal_strlit("min");
        reveal_strlit("MIN");
        reveal_strlit("max");
        reveal_strlit("MAX");
        reveal_strlit("exactly");
        reveal_strlit("EXACTLY");
        reveal_strlit("that");
        reveal_strlit("THAT");
        reveal_strlit("only");
        reveal_strlit("ONLY");
        reveal_strlit("not");
        reveal_strlit("NOT");
        reveal_strlit("and");
        reveal_strlit("AND");
        reveal_strlit("or");
        reveal_strlit("OR");
    }
    if let Some(e) = try_word(chars, span, "some", "SOME") {
        return LexerResult::ok(
            Span { start: e, end: span.end },
            Located::new(Keyword::SOME, Span { start: span.start, end: e }),
        );
    }
    if let Some(e) = try_word(chars, span, "all", "ALL") {
        return LexerResult::ok(
            Span { start: e, end: span.end },
            Located::new(Keyword::ALL, Span { start: span.start, end: e }),
        );
    }
    if let Some(e) = try_word(chars, span, "value", "VALUE") {
        return LexerResult::ok(
            Span { start: e, end: span.end },
            Located::new(Keyword::VALUE, Span { start: span.start, end: e }),
        );
    }
    if let Some(e) = try_word(chars, span, "min", "MIN") {
        return LexerResult::ok(
            Span { start: e, end: span.end },
            Located::new(Keyword::MIN, Span { start: span.start, end: e }),
        );
    }
    if let Some(e) = try_word(chars, span, "max", "MAX") {
        return LexerResult::ok(
            Span { start: e, end: span.end },
            Located::new(Keyword::MAX, Span { start: span.start, end: e }),
        );
    }
    if let Some(e) = try_word(chars, span, "exactly", "EXACTLY") {
        return LexerResult::ok(
            Span { start: e, end: span.end },
            Located::new(Keyword::EXACTLY, Span { start: span.start, end: e }),
        );
    }
    if let Some(e) = try_word(chars, span, "that", "THAT") {
        return LexerResult::ok(
            Span { start: e, end: span.end },
            Located::new(Keyword::THAT, Span { start: span.start, end: e }),
        );
    }
    if let Some(e) = try_word(chars, span, "only", "ONLY") {
        return LexerResult::ok(
            Span { start: e, end: span.end },
            Located::new(Keyword::ONLY, Span { start: span.start, end: e }),
        );
    }
    if let Some(e) = try_word(chars, span, "not", "NOT") {
        return LexerResult::ok(
            Span { start: e, end: span.end },
            Located::new(Keyword::NOT, Span { start: span.start, end: e }),
        );
    }
    if let Some(e) = try_word(chars, span, "and", "AND") {
        return LexerResult::ok(
            Span { start: e, end: span.end },
            Located::new(Keyword::AND, Span { start: span.start, end: e }),
        );
    }
    if let Some(e) = try_word(chars, span, "or", "OR") {
        return LexerResult::ok(
            Span { start: e, end: span.end },
            Located::new(Keyword::OR, Span { start: span.start, end: e }),
        );
    }
    LexerResult::err(span, LexerErr::UnrecognizedToken)
}

/// Matches one of the fixed datatype words, case-insensitively, with a
/// boundary.
pub fn parse_datatype(chars: &Vec<char>, span: Span) -> (r: LexerResult<Located<Datatype>>)
    requires
        span_rest(span, chars@),
    ensures
        span_rest(r.remaining, chars@),
        match datatype_at(chars@, span.start as int) {
            Some((d, l)) => {
                &&& r.result matches Ok(loc) && loc.value == d && loc.span == (Span {
                    start: span.start,
                    end: (span.start + l) as usize,
                })
                &&& r.remaining == (Span { start: (span.start + l) as usize, end: span.end })
            },
            None => r.result is Err && r.remaining == span,
        },
{
    proof {
        reveal_strlit("integer");
        reveal_strlit("INTEGER");
        reveal_strlit("decimal");
        reveal_strlit("DECIMAL");
        reveal_strlit("float");
        reveal_strlit("FLOAT");
        reveal_strlit("string");
        reveal_strlit("STRING");
    }
    if let Some(e) = try_word(chars, span, "integer", "INTEGER") {
        return LexerResult::ok(
            Span { start: e, end: span.end },
            Located::new(Datatype::Integer, Span { start: span.start, end: e }),
        );
    }
    if let Some(e) = try_word(chars, span, "decimal", "DECIMAL") {
        return LexerResult::ok(
            Span { start: e, end: span.end },
            Located::new(Datatype::Decimal, Span { start: span.start, end: e }),
        );
    }
    if let Some(e) = try_word(chars, span, "float", "FLOAT") {
        return LexerResult::ok(
            Span { start: e, end: span.end },
            Located::new(Datatype::Float, Span { start: span.start, end: e }),
        );
    }
    if let Some(e) = try_word(chars, span, "string", "STRING") {
        return LexerResult::ok(
            Span { start: e, end: span.end },
            Located::new(Datatype::Str, Span { start: span.start, end: e }),
        );
    }
    LexerResult::err(span, LexerErr::UnrecognizedToken)
}

/// Matches one punctuation token, trying two-character comparators first.
pub fn parse_punctuation(chars: &Vec<char>, span: Span) -> (r: LexerResult<
    Located<Punctuation>,
>)
    requires
        span_rest(span, chars@),
    ensures
        span_rest(r.remaining, chars@),
        match punct_at(chars@, span.start as int) {
            Some((p, l)) => {
                &&& r.result matches Ok(loc) && loc.value == p && loc.span == (Span {
                    start: span.start,
                    end: (span.start + l) as usize,
                })
                &&& r.remaining == (Span { start: (span.start + l) as usize, end: span.end })
            },
            None => r.result is Err && r.remaining == span,
        },
{
    let i = span.start;
    if i >= span.end {
        return LexerResult::err(span, LexerErr::UnrecognizedToken);
    }
    let c = chars[i];
    let p1: Option<Punctuation> = if c == '(' {
        Some(Punctuation::OpenParen)
    } else if c == ')' {
        Some(Punctuation::CloseParen)
    } else if c == '{' {
        Some(Punctuation::OpenBrace)
    } else if c == '}' {
        Some(Punctuation::CloseBrace)
    } else if c == '[' {
        Some(Punctuation::OpenBracket)
    } else if c == ']' {
        Some(Punctuation::CloseBracket)
    } else if c == ',' {
        Some(Punctuation::Comma)
    } else {
        None
    };
    if let Some(p) = p1 {
        return LexerResult::ok(
            Span { start: i + 1, end: span.end },
            Located::new(p, Span { start: i, end: i + 1 }),
        );
    }
    if c == '<' && i + 1 < span.end && chars[i + 1] == '=' {
        return LexerResult::ok(
            Span { start: i + 2, end: span.end },
            Located::new(Punctuation::LessThanEqual, Span { start: i, end: i + 2 }),
        );
    }
    if c == '>' && i + 1 < span.end && chars[i + 1] == '=' {
        return LexerResult::ok(
            Span { start: i + 2, end: span.end },
            Located::new(Punctuation::GreaterThanEqual, Span { start: i, end: i + 2 }),
        );
    }
    if c == '<' {
        return LexerResult::ok(
            Span { start: i + 1, end: span.end },
            Located::new(Punctuation::LessThan, Span { start: i, end: i + 1 }),
        );
    }
    if c == '>' {
        return LexerResult::ok(
            Span { start: i + 1, end: span.end },
            Located::new(Punctuation::GreaterThan, Span { start: i, end: i + 1 }),
        );
    }
    LexerResult::err(span, LexerErr::UnrecognizedToken)
}

/// Executable form of the identifier continuation rule.
fn ident_cont_exec(prev: char, c: char) -> (r: bool)
    ensures
        r == ident_cont(prev, c),
{
    class_cont_exec(prev, c)
}

/// Executable form of the class identifier continuation rule.
fn class_cont_exec(prev: char, c: char) -> (r: bool)
    ensures
        r == class_cont(prev, c),
{
    (prev.is_uppercase() && (c.is_lowercase() || c == '_')) || (prev.is_lowercase() && (
    c.is_alphabetic() || c == '_')) || (prev == '_' && c.is_uppercase())
}

pub proof fn lemma_ident_run_bounds(s: Seq<char>, pos: int, prev: char)
    requires
        0 <= pos <= s.len(),
    ensures
        pos <= ident_run_end(s, pos, prev) <= s.len(),
    decreases s.len() - pos,
{
    if pos < s.len() && ident_cont(prev, s[pos]) {
        lemma_ident_run_bounds(s, pos + 1, s[pos]);
    }
}

pub proof fn lemma_class_run_bounds(s: Seq<char>, pos: int, prev: char)
    requires
        0 <= pos <= s.len(),
    ensures
        pos <= class_run_end(s, pos, prev) <= s.len(),
    decreases s.len() - pos,
{
    if pos < s.len() && class_cont(prev, s[pos]) {
        lemma_class_run_bounds(s, pos + 1, s[pos]);
    }
}

pub proof fn lemma_lit_run_bounds(s: Seq<char>, pos: int)
    requires
        0 <= pos <= s.len(),
    ensures
        pos <= lit_run_end(s, pos) <= s.len(),
    decreases s.len() - pos,
{
    if pos < s.len() && lit_char_ok(s[pos]) {
        lemma_lit_run_bounds(s, pos + 1);
    }
}

/// Matches a plain identifier: uppercase start, then the longest
/// continuation run, then a boundary.
pub fn parse_identifier(chars: &Vec<char>, span: Span) -> (r: LexerResult<Located<String>>)
    requires
        span_rest(span, chars@),
    ensures
        span_rest(r.remaining, chars@),
        match ident_end_at(chars@, span.start as int) {
            Some(e) => {
                &&& r.result matches Ok(loc) && loc.value@ == chars@.subrange(
                    span.start as int,
                    e,
                ) && loc.span == (Span { start: span.start, end: e as usize })
                &&& r.remaining == (Span { start: e as usize, end: span.end })
            },
            None => r.result is Err && r.remaining == span,
        },
{
    let i0 = span.start;
    if i0 >= span.end || !chars[i0].is_uppercase() {
        return LexerResult::err(span, LexerErr::UnrecognizedToken);
    }
    let mut prev = chars[i0];
    let mut i = i0 + 1;
    while i < span.end && ident_cont_exec(prev, chars[i])
        invariant
            i0 + 1 <= i <= span.end,
            span_rest(span, chars@),
            i0 < chars@.len(),
            ident_run_end(chars@, i0 + 1, chars@[i0 as int]) == ident_run_end(
                chars@,
                i as int,
                prev,
            ),
        decreases span.end - i,
    {
        prev = chars[i];
        i = i + 1;
    }
    if boundary_check(chars, i) {
        LexerResult::ok(
            Span { start: i, end: span.end },
            Located::new(string_of_range(chars, i0, i), Span { start: i0, end: i }),
        )
    } else {
        LexerResult::err(span, LexerErr::UnrecognizedToken)
    }
}

/// Matches a class identifier token.
pub fn parse_class(chars: &Vec<char>, span: Span) -> (r: LexerResult<Located<String>>)
    requires
        span_rest(span, chars@),
    ensures
        span_rest(r.remaining, chars@),
        match class_end_at(chars@, span.start as int) {
            Some(e) => {
                &&& r.result matches Ok(loc) && loc.value@ == chars@.subrange(
                    span.start as int,
                    e,
                ) && loc.span == (Span { start: span.start, end: e as usize })
                &&& r.remaining == (Span { start: e as usize, end: span.end })
            },
            None => r.result is Err && r.remaining == span,
        },
{
    let i0 = span.start;
    if i0 >= span.end || !chars[i0].is_uppercase() {
        return LexerResult::err(span, LexerErr::UnrecognizedToken);
    }
    let mut prev = '_';
    let mut i = i0;
    while i < span.end && class_cont_exec(prev, chars[i])
        invariant
            i0 <= i <= span.end,
            span_rest(span, chars@),
            class_run_end(chars@, i0 as int, '_') == class_run_end(chars@, i as int, prev),
        decreases span.end - i,
    {
        prev = chars[i];
        i = i + 1;
    }
    if boundary_check(chars, i) {
        LexerResult::ok(
            Span { start: i, end: span.end },
            Located::new(string_of_range(chars, i0, i), Span { start: i0, end: i }),
        )
    } else {
        LexerResult::err(span, LexerErr::UnrecognizedToken)
    }
}

/// Matches a property identifier: `has` plus an identifier, or `is` plus an
/// identifier ending in `Of`; the token's text is the whole matched span.
pub fn parse_property(chars: &Vec<char>, span: Span) -> (r: LexerResult<Located<String>>)
    requires
        span_rest(span, chars@),
    ensures
        span_rest(r.remaining, chars@),
        match prop_end_at(chars@, span.start as int) {
            Some(e) => {
                &&& r.result matches Ok(loc) && loc.value@ == chars@.subrange(
                    span.start as int,
                    e,
                ) && loc.span == (Span { start: span.start, end: e as usize })
                &&& r.remaining == (Span { start: e as usize, end: span.end })
            },
            None => r.result is Err && r.remaining == span,
        },
{
    proof {
        reveal_strlit("has");
        reveal_strlit("is");
    }
    let has_attempt = parse_seq(chars, span, "has");
    if let Ok(_) = has_attempt.result {
        let id = parse_identifier(chars, has_attempt.remaining);
        if let Ok(loc) = id.result {
            let e = loc.span.end;
            proof {
                lemma_ident_run_bounds(
                    chars@,
                    has_attempt.remaining.start + 1,
                    chars@[has_attempt.remaining.start as int],
                );
            }
            return LexerResult::ok(
                Span { start: e, end: span.end },
                Located::new(
                    string_of_range(chars, span.start, e),
                    Span { start: span.start, end: e },
                ),
            );
        }
        proof {
            if seq_matches(chars@, span.start as int, "is"@) {
                assert(chars@[span.start + 0] == "is"@[0]);
                assert(chars@[span.start + 0] == "has"@[0]);
                assert(false);
            }
        }
        return LexerResult::err(span, LexerErr::UnrecognizedToken);
    }
    let is_attempt = parse_seq(chars, span, "is");
    if let Ok(_) = is_attempt.result {
        let id = parse_identifier(chars, is_attempt.remaining);
        if let Ok(loc) = id.result {
            let st = is_attempt.remaining.start;
            let e = loc.span.end;
            proof {
                lemma_ident_run_bounds(chars@, st + 1, chars@[st as int]);
            }
            if e - st >= 2 && chars[e - 2] == 'O' && chars[e - 1] == 'f' {
                proof {
                    let s = chars@;
                    let w = s.subrange(st as int, e as int);
                    assert(w[w.len() - 2] == s[e - 2]);
                    assert(w[w.len() - 1] == s[e - 1]);
                }
                return LexerResult::ok(
                    Span { start: e, end: span.end },
                    Located::new(
                        string_of_range(chars, span.start, e),
                        Span { start: span.start, end: e },
                    ),
                );
            }
            proof {
                let s = chars@;
                let w = s.subrange(st as int, e as int);
                if w.len() >= 2 {
                    assert(w[w.len() - 2] == s[e - 2]);
                    assert(w[w.len() - 1] == s[e - 1]);
                }
            }
            return LexerResult::err(span, LexerErr::UnrecognizedToken);
        }
    }
    LexerResult::err(span, LexerErr::UnrecognizedToken)
}

/// `c` is a decimal digit.
fn is_digit_exec(c: char) -> (r: bool)
    ensures
        r == is_digit(c),
{
    '0' <= c && c <= '9'
}

/// The digits of `w` are all decimal digits.
pub open spec fn all_digits(w: Seq<char>) -> bool {
    forall|k: int| 0 <= k < w.len() ==> is_digit(#[trigger] w[k])
}

proof fn lemma_dec_value_nonneg(w: Seq<char>)
    requires
        all_digits(w),
    ensures
        dec_value(w) >= 0,
    decreases w.len(),
{
    if w.len() > 0 {
        assert(all_digits(w.drop_last())) by {
            assert(forall|k: int|
                0 <= k < w.len() - 1 ==> is_digit(#[trigger] w.drop_last()[k]));
        }
        lemma_dec_value_nonneg(w.drop_last());
    }
}

/// Digit runs only grow in value: a prefix of a digit string never exceeds
/// the whole.
proof fn lemma_dec_value_mono(s: Seq<char>, i0: int, a: int, b: int)
    requires
        0 <= i0 <= a <= b <= s.len(),
        forall|k: int| i0 <= k < b ==> is_digit(#[trigger] s[k]),
    ensures
        dec_value(s.subrange(i0, a)) <= dec_value(s.subrange(i0, b)),
    decreases b - a,
{
    if a < b {
        lemma_dec_value_mono(s, i0, a, b - 1);
        let w = s.subrange(i0, b);
        assert(w.drop_last() =~= s.subrange(i0, b - 1));
        assert(all_digits(s.subrange(i0, b - 1))) by {
            assert(forall|k: int|
                0 <= k < b - 1 - i0 ==> is_digit(#[trigger] s.subrange(i0, b - 1)[k]));
        }
        lemma_dec_value_nonneg(s.subrange(i0, b - 1));
        assert(dec_value(w) == dec_value(s.subrange(i0, b - 1)) * 10 + digit_val(w.last()));
        assert(dec_value(s.subrange(i0, b - 1)) * 10 >= dec_value(s.subrange(i0, b - 1)));
    }
}

proof fn lemma_digit_run_props(s: Seq<char>, pos: int)
    requires
        0 <= pos <= s.len(),
    ensures
        pos <= digit_run_end(s, pos) <= s.len(),
        forall|k: int| pos <= k < digit_run_end(s, pos) ==> is_digit(#[trigger] s[k]),
    decreases s.len() - pos,
{
    if pos < s.len() && is_digit(s[pos]) {
        lemma_digit_run_props(s, pos + 1);
    }
}

/// Matches a non-empty digit run as an unsigned cardinality; a run whose
/// value does not fit in a machine word is not a token.
#[verifier::rlimit(100)]
pub fn parse_cardinality(chars: &Vec<char>, span: Span) -> (r: LexerResult<Located<usize>>)
    requires
        span_rest(span, chars@),
    ensures
        span_rest(r.remaining, chars@),
        match card_at(chars@, span.start as int) {
            Some((v, e)) => {
                &&& r.result matches Ok(loc) && loc.value == v && loc.span == (Span {
                    start: span.start,
                    end: e as usize,
                })
                &&& r.remaining == (Span { start: e as usize, end: span.end })
            },
            None => r.result is Err && r.remaining == span,
        },
{
    let i0 = span.start;
    if i0 >= span.end || !is_digit_exec(chars[i0]) {
        return LexerResult::err(span, LexerErr::UnrecognizedToken);
    }
    proof {
        lemma_digit_run_props(chars@, i0 as int);
    }
    let mut i = i0;
    let mut value: usize = 0;
    while i < span.end && is_digit_exec(chars[i])
        invariant
            i0 == span.start,
            i0 <= i <= span.end,
            i0 < chars@.len(),
            is_digit(chars@[i0 as int]),
            span_rest(span, chars@),
            digit_run_end(chars@, i0 as int) == digit_run_end(chars@, i as int),
            forall|k: int| i0 <= k < i ==> is_digit(#[trigger] chars@[k]),
            value == dec_value(chars@.subrange(i0 as int, i as int)),
        decreases span.end - i,
    {
        let c = chars[i];
        let d = (c as u32 - 48) as usize;
        proof {
            let w = chars@.subrange(i0 as int, i + 1);
            assert(w.drop_last() =~= chars@.subrange(i0 as int, i as int));
            assert(w.last() == chars@[i as int]);
            assert(digit_val(c) == d);
            assert(dec_value(w) == value * 10 + d);
        }
        let limit = usize::MAX / 10;
        let rem = usize::MAX % 10;
        if value > limit || (value == limit && d > rem) {
            proof {
                let s = chars@;
                let e = digit_run_end(s, i0 as int);
                assert(value * 10 + d > usize::MAX);
                assert(dec_value(s.subrange(i0 as int, i + 1)) > usize::MAX);
                assert(e == digit_run_end(s, i as int));
                assert(is_digit(s[i as int]));
                assert(digit_run_end(s, i as int) == digit_run_end(s, i + 1));
                lemma_digit_run_props(s, i + 1);
                assert(i + 1 <= e);
                lemma_digit_run_props(s, i0 as int);
                lemma_dec_value_mono(s, i0 as int, i + 1, e);
                assert(dec_value(s.subrange(i0 as int, e)) > usize::MAX);
                assert(card_at(s, i0 as int) is None);
            }
            return LexerResult::err(span, LexerErr::UnrecognizedToken);
        }
        value = value * 10 + d;
        i = i + 1;
    }
    LexerResult::ok(
        Span { start: i, end: span.end },
        Located::new(value, Span { start: i0, end: i }),
    )
}

/// `c` may stand inside a string literal.
fn lit_char_exec(c: char) -> (r: bool)
    ensures
        r == lit_char_ok(c),
{
    c != '"' && c != '\n'
}

/// Matches a double-quoted literal on one line; the captured text excludes
/// the quotes, the span includes them.
pub fn parse_literal(chars: &Vec<char>, span: Span) -> (r: LexerResult<Located<String>>)
    requires
        span_rest(span, chars@),
    ensures
        span_rest(r.remaining, chars@),
        match lit_at(chars@, span.start as int) {
            Some(e) => {
                &&& r.result matches Ok(loc) && loc.value@ == chars@.subrange(
                    span.start + 1,
                    e - 1,
                ) && loc.span == (Span { start: span.start, end: e as usize })
                &&& r.remaining == (Span { start: e as usize, end: span.end })
            },
            None => r.result is Err && r.remaining == span,
        },
{
    if span.start >= span.end || chars[span.start] != '"' {
        return LexerResult::err(span, LexerErr::UnrecognizedToken);
    }
    let mut i = span.start + 1;
    while i < span.end && lit_char_exec(chars[i])
        invariant
            span.start + 1 <= i <= span.end,
            span_rest(span, chars@),
            lit_run_end(chars@, span.start + 1) == lit_run_end(chars@, i as int),
        decreases span.end - i,
    {
        i = i + 1;
    }
    if i < span.end && chars[i] == '"' {
        LexerResult::ok(
            Span { start: i + 1, end: span.end },
            Located::new(
                string_of_range(chars, span.start + 1, i),
                Span { start: span.start, end: i + 1 },
            ),
        )
    } else {
        LexerResult::err(span, LexerErr::UnrecognizedToken)
    }
}

/// An unresolved token agrees with a token of the matching rules.
pub open spec fn token_type_matches(t: TokenType, st: SpecTokenValue) -> bool {
    match (t, st) {
        (TokenType::Keyword(k), SpecTokenValue::Keyword(k2)) => k == k2,
        (TokenType::Datatype(d), SpecTokenValue::Datatype(d2)) => d == d2,
        (TokenType::Punctuation(p), SpecTokenValue::Punctuation(p2)) => p == p2,
        (TokenType::ClassIdentifier(w), SpecTokenValue::ClassIdentifier(t2)) => w@ == t2,
        (TokenType::PropertyIdentifier(w), SpecTokenValue::PropertyIdentifier(t2)) => w@ == t2,
        (TokenType::Cardinality(n), SpecTokenValue::Cardinality(v)) => n == v,
        (TokenType::Literal(w), SpecTokenValue::Literal(t2)) => w@ == t2,
        _ => false,
    }
}

/// Matches one token at the start of the remaining input, trying keyword,
/// datatype, punctuation, class identifier, property identifier,
/// cardinality, and literal in that order; the first that matches wins.
pub fn parse_token(chars: &Vec<char>, span: Span) -> (r: LexerResult<Located<TokenType>>)
    requires
        span_rest(span, chars@),
    ensures
        span_rest(r.remaining, chars@),
        match token_at(chars@, span.start as int) {
            Some((st, l)) => {
                &&& r.result matches Ok(loc) && token_type_matches(loc.value, st) && loc.span
                    == (Span { start: span.start, end: (span.start + l) as usize })
                &&& r.remaining == (Span { start: (span.start + l) as usize, end: span.end })
            },
            None => r.result is Err && r.remaining == span,
        },
{
    let kw = parse_keyword(chars, span);
    if let Ok(loc) = kw.result {
        return LexerResult::ok(
            kw.remaining,
            Located::new(TokenType::Keyword(loc.value), loc.span),
        );
    }
    let dt = parse_datatype(chars, span);
    if let Ok(loc) = dt.result {
        return LexerResult::ok(
            dt.remaining,
            Located::new(TokenType::Datatype(loc.value), loc.span),
        );
    }
    let p = parse_punctuation(chars, span);
    if let Ok(loc) = p.result {
        return LexerResult::ok(
            p.remaining,
            Located::new(TokenType::Punctuation(loc.value), loc.span),
        );
    }
    let cl = parse_class(chars, span);
    if let Ok(loc) = cl.result {
        let sp = loc.span;
        return LexerResult::ok(
            cl.remaining,
            Located::new(TokenType::ClassIdentifier(loc.value), sp),
        );
    }
    let pr = parse_property(chars, span);
    if let Ok(loc) = pr.result {
        let sp = loc.span;
        return LexerResult::ok(
            pr.remaining,
            Located::new(TokenType::PropertyIdentifier(loc.value), sp),
        );
    }
    let ca = parse_cardinality(chars, span);
    if let Ok(loc) = ca.result {
        let sp = loc.span;
        return LexerResult::ok(
            ca.remaining,
            Located::new(TokenType::Cardinality(loc.value), sp),
        );
    }
    let li = parse_literal(chars, span);
    if let Ok(loc) = li.result {
        let sp = loc.span;
        return LexerResult::ok(
            li.remaining,
            Located::new(TokenType::Literal(loc.value), sp),
        );
    }
    LexerResult::err(span, LexerErr::UnrecognizedToken)
}

/// Any token occupies at least one character and stays within the input.
pub proof fn lemma_token_at_bounds(s: Seq<char>, pos: int)
    requires
        0 <= pos <= s.len(),
        token_at(s, pos) is Some,
    ensures
        1 <= token_at(s, pos)->Some_0.1,
        pos + token_at(s, pos)->Some_0.1 <= s.len(),
{
    reveal_strlit("some");
    reveal_strlit("SOME");
    reveal_strlit("all");
    reveal_strlit("ALL");
    reveal_strlit("value");
    reveal_strlit("VALUE");
    reveal_strlit("min");
    reveal_strlit("MIN");
    reveal_strlit("max");
    reveal_strlit("MAX");
    reveal_strlit("exactly");
    reveal_strlit("EXACTLY");
    reveal_strlit("that");
    reveal_strlit("THAT");
    reveal_strlit("only");
    reveal_strlit("ONLY");
    reveal_strlit("not");
    reveal_strlit("NOT");
    reveal_strlit("and");
    reveal_strlit("AND");
    reveal_strlit("or");
    reveal_strlit("OR");
    reveal_strlit("integer");
    reveal_strlit("INTEGER");
    reveal_strlit("decimal");
    reveal_strlit("DECIMAL");
    reveal_strlit("float");
    reveal_strlit("FLOAT");
    reveal_strlit("string");
    reveal_strlit("STRING");
    reveal_strlit("has");
    reveal_strlit("is");
    if keyword_at(s, pos) is Some {
    } else if datatype_at(s, pos) is Some {
    } else if punct_at(s, pos) is Some {
    } else if class_end_at(s, pos) is Some {
        assert(class_cont('_', s[pos]));
        assert(class_run_end(s, pos, '_') == class_run_end(s, pos + 1, s[pos]));
        lemma_class_run_bounds(s, pos + 1, s[pos]);
    } else if prop_end_at(s, pos) is Some {
        if seq_matches(s, pos, "has"@) && ident_end_at(s, pos + 3) is Some {
            assert(ident_end_at(s, pos + 3)->Some_0 == ident_run_end(s, pos + 4, s[pos + 3]));
            lemma_ident_run_bounds(s, pos + 4, s[pos + 3]);
        } else {
            assert(ident_end_at(s, pos + 2)->Some_0 == ident_run_end(s, pos + 3, s[pos + 2]));
            lemma_ident_run_bounds(s, pos + 3, s[pos + 2]);
        }
    } else if card_at(s, pos) is Some {
        assert(digit_run_end(s, pos) == digit_run_end(s, pos + 1));
        lemma_digit_run_props(s, pos + 1);
    } else {
        lemma_lit_run_bounds(s, pos + 1);
    }
}

/// A located token of the matching rules.
pub struct SpecLocTok {
    pub tok: SpecTokenValue,
    pub start: int,
    pub end: int,
}

/// The tokenization of the input from `pos` on: skip whitespace, take the
/// first matching token, repeat; `None` when some non-whitespace rest
/// matches no token.
pub open spec fn spec_lex_from(s: Seq<char>, pos: int) -> Option<Seq<SpecLocTok>>
    decreases s.len() - pos
        when 0 <= pos <= s.len()
        via spec_lex_from_decreases
{
    let p = ws_end(s, pos);
    if p >= s.len() {
        Some(Seq::empty())
    } else {
        match token_at(s, p) {
            None => None,
            Some((t, l)) => if l < 1 {
                None
            } else {
                match spec_lex_from(s, p + l) {
                    None => None,
                    Some(rest) => Some(
                        seq![SpecLocTok { tok: t, start: p, end: p + l }] + rest,
                    ),
                }
            },
        }
    }
}

#[via_fn]
proof fn spec_lex_from_decreases(s: Seq<char>, pos: int) {
    lemma_ws_end_bounds(s, pos);
    let p = ws_end(s, pos);
    if p < s.len() && token_at(s, p) is Some {
        lemma_token_at_bounds(s, p);
    }
}

/// Where the greedy run from `pos` stops: the first position, reached by
/// skipping whitespace and whole tokens, that holds neither (the input's
/// end when every character is consumed).
pub open spec fn stuck_at(s: Seq<char>, pos: int) -> int
    decreases s.len() - pos
        when 0 <= pos <= s.len()
        via stuck_at_decreases
{
    let p = ws_end(s, pos);
    if p >= s.len() {
        p
    } else {
        match token_at(s, p) {
            None => p,
            Some((t, l)) => if l < 1 {
                p
            } else {
                stuck_at(s, p + l)
            },
        }
    }
}

#[via_fn]
proof fn stuck_at_decreases(s: Seq<char>, pos: int) {
    lemma_ws_end_bounds(s, pos);
    let p = ws_end(s, pos);
    if p < s.len() && token_at(s, p) is Some {
        lemma_token_at_bounds(s, p);
    }
}

/// An interned token stands for a token of the matching rules: same span,
/// same value, and its symbol index resolves to the matched text.
pub open spec fn tok_corresponds(syms: Seq<Symbol>, t: Located<Token>, st: SpecLocTok) -> bool {
    &&& t.span.start == st.start
    &&& t.span.end == st.end
    &&& match (t.value, st.tok) {
        (Token::Keyword(k), SpecTokenValue::Keyword(k2)) => k == k2,
        (Token::Datatype(d), SpecTokenValue::Datatype(d2)) => d == d2,
        (Token::Punctuation(p), SpecTokenValue::Punctuation(p2)) => p == p2,
        (Token::Cardinality(n), SpecTokenValue::Cardinality(v)) => n == v,
        (Token::ClassIdentifier { index }, SpecTokenValue::ClassIdentifier(w)) => index
            < syms.len() && syms[index as int].text() == w,
        (Token::PropertyIdentifier { index }, SpecTokenValue::PropertyIdentifier(w)) => index
            < syms.len() && syms[index as int].text() == w,
        (Token::Literal { index }, SpecTokenValue::Literal(w)) => index < syms.len()
            && syms[index as int].text() == w,
        _ => false,
    }
}

/// Every symbol the lexer creates is a class, a property of unknown kind,
/// or a literal.
pub open spec fn lex_table_types(syms: Seq<Symbol>) -> bool {
    forall|j: int|
        0 <= j < syms.len() ==> {
            let t = (#[trigger] syms[j]).spec_type();
            t == Type::Class || t == Type::Property(None) || t == Type::Literal
        }
}

/// The symbol index an interned token carries, if any.
pub open spec fn token_index(t: Token) -> Option<usize> {
    match t {
        Token::ClassIdentifier { index } => Some(index),
        Token::PropertyIdentifier { index } => Some(index),
        Token::Literal { index } => Some(index),
        _ => None,
    }
}

/// The symbol category a token's own lexical class assigns on first
/// sighting.
pub open spec fn lexical_type(t: Token) -> Type {
    match t {
        Token::PropertyIdentifier { .. } => Type::Property(None),
        Token::Literal { .. } => Type::Literal,
        _ => Type::Class,
    }
}

/// Some token carries symbol index `j`.
pub open spec fn carried(tokens: Seq<Located<Token>>, j: int) -> bool {
    exists|i: int| 0 <= i < tokens.len() && token_index(tokens[i].value) == Some(j as usize)
}

/// No token before position `i` carries symbol index `idx`.
pub open spec fn no_earlier_use(tokens: Seq<Located<Token>>, i: int, idx: usize) -> bool {
    forall|k: int| 0 <= k < i ==> token_index(#[trigger] tokens[k].value) != Some(idx)
}

/// If the token at `i` is the first to carry its symbol index, the symbol's
/// category is the one that token's lexical class assigns.
pub open spec fn first_use_ok(syms: Seq<Symbol>, tokens: Seq<Located<Token>>, i: int) -> bool {
    match token_index(tokens[i].value) {
        Some(idx) => no_earlier_use(tokens, i, idx) ==> idx < syms.len()
            && syms[idx as int].spec_type() == lexical_type(tokens[i].value),
        None => true,
    }
}

/// Each symbol was created by some token, and its category was assigned by
/// the first token that carried it.
pub open spec fn table_from_tokens(syms: Seq<Symbol>, tokens: Seq<Located<Token>>) -> bool {
    &&& forall|j: int| 0 <= j < syms.len() ==> #[trigger] carried(tokens, j)
    &&& forall|i: int| 0 <= i < tokens.len() ==> #[trigger] first_use_ok(syms, tokens, i)
}

/// What one interning step did to the table, as seen from the token it
/// produced: either the text was known and the table is unchanged, or one
/// symbol was appended with the token's lexical category.
pub open spec fn interned_fact(old_syms: Seq<Symbol>, new_syms: Seq<Symbol>, t: Token) -> bool {
    match token_index(t) {
        Some(idx) => idx < new_syms.len() && ((new_syms == old_syms && idx < old_syms.len()) || (
        idx == old_syms.len() && new_syms.len() == old_syms.len() + 1 && (forall|j: int|
            0 <= j < old_syms.len() ==> #[trigger] new_syms[j] == old_syms[j])
            && new_syms[idx as int].spec_type() == lexical_type(t))),
        None => new_syms == old_syms,
    }
}

/// The characters of `content`, one by one.
fn to_char_vec(content: &String) -> (r: Vec<char>)
    ensures
        r@ == content@,
{
    let s = content.as_str();
    let n = s.unicode_len();
    let mut v: Vec<char> = Vec::new();
    let mut i: usize = 0;
    while i < n
        invariant
            0 <= i <= n,
            n == s@.len(),
            s@ == content@,
            v@ == content@.subrange(0, i as int),
        decreases n - i,
    {
        v.push(s.get_char(i));
        proof {
            assert(v@ =~= content@.subrange(0, i + 1));
        }
        i = i + 1;
    }
    proof {
        assert(v@ =~= content@);
    }
    v
}

/// Lexes a whole source: returns the interned token sequence and the symbol
/// table it populated, or the position at which no token matches.
pub fn parse(src: &Source) -> (r: Result<(SymbolTable, Vec<Located<Token>>), Located<LexerErr>>)
    ensures
        match r {
            Ok((table, tokens)) => {
                &&& table.wf()
                &&& lex_table_types(table@)
                &&& spec_lex_from(src.content@, 0) is Some
                &&& {
                    let toks = spec_lex_from(src.content@, 0)->Some_0;
                    &&& tokens@.len() == toks.len()
                    &&& forall|i: int|
                        0 <= i < toks.len() ==> tok_corresponds(table@, tokens@[i], toks[i])
                }
                &&& table_from_tokens(table@, tokens@)
            },
            Err(e) => {
                &&& spec_lex_from(src.content@, 0) is None
                &&& e.value == LexerErr::UnrecognizedToken
                &&& e.span.start == stuck_at(src.content@, 0)
                &&& e.span.end == src.content@.len()
                &&& e.span.start < src.content@.len()
                &&& ws_end(src.content@, e.span.start as int) == e.span.start as int
                &&& token_at(src.content@, e.span.start as int) is None
            },
        },
{
    let chars = to_char_vec(&src.content);
    let n = chars.len();
    let mut table = SymbolTable::new();
    let mut tokens: Vec<Located<Token>> = Vec::new();
    let ghost mut prod: Seq<SpecLocTok> = Seq::empty();
    let mut span = Span { start: 0, end: n };
    loop
        invariant
            chars@ == src.content@,
            n == chars@.len(),
            span_rest(span, chars@),
            table.wf(),
            lex_table_types(table@),
            tokens@.len() == prod.len(),
            forall|i: int| 0 <= i < prod.len() ==> tok_corresponds(table@, tokens@[i], prod[i]),
            table_from_tokens(table@, tokens@),
            stuck_at(chars@, 0) == stuck_at(chars@, span.start as int),
            match spec_lex_from(chars@, span.start as int) {
                Some(rest) => spec_lex_from(chars@, 0) == Some(prod + rest),
                None => spec_lex_from(chars@, 0) is None,
            },
        decreases n - span.start,
    {
        let here = skip_whitespace(&chars, span);
        proof {
            lemma_ws_end_bounds(chars@, span.start as int);
        }
        if here.start >= n {
            proof {
                assert(spec_lex_from(chars@, span.start as int) == Some(
                    Seq::<SpecLocTok>::empty(),
                ));
                assert(prod + Seq::<SpecLocTok>::empty() =~= prod);
            }
            return Ok((table, tokens));
        }
        let res = parse_token(&chars, here);
        match res.result {
            Err(_) => {
                proof {
                    assert(spec_lex_from(chars@, span.start as int) is None);
                }
                return Err(Located::new(LexerErr::UnrecognizedToken, here));
            },
            Ok(loc) => {
                proof {
                    lemma_token_at_bounds(chars@, here.start as int);
                }
                let ghost st = token_at(chars@, here.start as int)->Some_0.0;
                let ghost l = token_at(chars@, here.start as int)->Some_0.1;
                let ghost old_table = table@;
                let ghost old_tokens = tokens@;
                let sp = loc.span;
                let tok: Token = match loc.value {
                    TokenType::Keyword(k) => Token::Keyword(k),
                    TokenType::Datatype(d) => Token::Datatype(d),
                    TokenType::Punctuation(p) => Token::Punctuation(p),
                    TokenType::Cardinality(c) => Token::Cardinality(c),
                    TokenType::ClassIdentifier(text) => {
                        let index = table.get_or_insert(Type::Class, text);
                        Token::ClassIdentifier { index }
                    },
                    TokenType::PropertyIdentifier(text) => {
                        let index = table.get_or_insert(Type::Property(None), text);
                        Token::PropertyIdentifier { index }
                    },
                    TokenType::Literal(text) => {
                        let index = table.get_or_insert(Type::Literal, text);
                        Token::Literal { index }
                    },
                };
                tokens.push(Located::new(tok, sp));
                proof {
                    assert(interned_fact(old_table, table@, tok));
                    assert(forall|j: int|
                        0 <= j < old_table.len() ==> table@[j] == old_table[j]);
                    let new_tokens = tokens@;
                    let ni = old_tokens.len() as int;
                    assert(new_tokens.len() == ni + 1);
                    assert(forall|i: int| 0 <= i < ni ==> new_tokens[i] == old_tokens[i]);
                    assert(new_tokens[ni].value == tok);
                    assert forall|j: int| 0 <= j < table@.len() implies carried(
                        new_tokens,
                        j,
                    ) by {
                        if j < old_table.len() {
                            assert(carried(old_tokens, j));
                            let wi = choose|i: int|
                                0 <= i < old_tokens.len() && token_index(old_tokens[i].value)
                                    == Some(j as usize);
                            assert(token_index(new_tokens[wi].value) == Some(j as usize));
                        } else {
                            assert(token_index(new_tokens[ni].value) == Some(j as usize));
                        }
                    }
                    assert forall|i: int| 0 <= i < new_tokens.len() implies first_use_ok(
                        table@,
                        new_tokens,
                        i,
                    ) by {
                        if i < ni {
                            assert(first_use_ok(old_table, old_tokens, i));
                            match token_index(new_tokens[i].value) {
                                Some(idx) => {
                                    if no_earlier_use(new_tokens, i, idx) {
                                        assert(forall|k: int|
                                            0 <= k < i ==> token_index(
                                                #[trigger] old_tokens[k].value,
                                            ) != Some(idx));
                                        assert(idx < old_table.len());
                                        assert(table@[idx as int] == old_table[idx as int]);
                                    }
                                },
                                None => {},
                            }
                        } else {
                            match token_index(tok) {
                                Some(idx) => {
                                    if idx < old_table.len() {
                                        assert(carried(old_tokens, idx as int));
                                        let wi = choose|k: int|
                                            0 <= k < old_tokens.len() && token_index(
                                                old_tokens[k].value,
                                            ) == Some((idx as int) as usize);
                                        assert(token_index(new_tokens[wi].value) == Some(idx));
                                        assert(!no_earlier_use(new_tokens, i, idx));
                                    } else {
                                        assert(table@[idx as int].spec_type() == lexical_type(
                                            tok,
                                        ));
                                    }
                                },
                                None => {},
                            }
                        }
                    }
                    assert(forall|i: int|
                        0 <= i < prod.len() ==> tok_corresponds(
                            table@,
                            tokens@[i],
                            prod[i],
                        ));
                    let nt = SpecLocTok { tok: st, start: here.start as int, end: here.start + l };
                    assert(tok_corresponds(table@, tokens@[prod.len() as int], nt));
                    let old_prod = prod;
                    prod = prod.push(nt);
                    match spec_lex_from(chars@, here.start + l) {
                        Some(rest2) => {
                            assert(spec_lex_from(chars@, span.start as int) == Some(
                                seq![nt] + rest2,
                            ));
                            assert(old_prod + (seq![nt] + rest2) =~= prod + rest2);
                        },
                        None => {
                            assert(spec_lex_from(chars@, span.start as int) is None);
                        },
                    }
                }
                span = res.remaining;
            },
        }
    }
}

/// The text a matched token carries, if any.
pub open spec fn spec_token_text(st: SpecTokenValue) -> Option<Seq<char>> {
    match st {
        SpecTokenValue::ClassIdentifier(w) => Some(w),
        SpecTokenValue::PropertyIdentifier(w) => Some(w),
        SpecTokenValue::Literal(w) => Some(w),
        _ => None,
    }
}

/// Interning is a round trip: among the tokens of one lex run, two
/// identifier or literal tokens carry the same symbol index exactly when
/// they carry the same text.
pub proof fn lemma_interning_round_trip(
    syms: Seq<Symbol>,
    tokens: Seq<Located<Token>>,
    toks: Seq<SpecLocTok>,
    i: int,
    j: int,
)
    requires
        tokens.len() == toks.len(),
        forall|k: int| 0 <= k < toks.len() ==> tok_corresponds(syms, tokens[k], toks[k]),
        forall|a: int, b: int|
            0 <= a < b < syms.len() ==> (#[trigger] syms[a]).text() != (#[trigger] syms[b]).text(),
        0 <= i < toks.len(),
        0 <= j < toks.len(),
        token_index(tokens[i].value) is Some,
        token_index(tokens[j].value) is Some,
    ensures
        token_index(tokens[i].value) == token_index(tokens[j].value) <==> spec_token_text(
            toks[i].tok,
        ) == spec_token_text(toks[j].tok),
{
    assert(tok_corresponds(syms, tokens[i], toks[i]));
    assert(tok_corresponds(syms, tokens[j], toks[j]));
    let ii = token_index(tokens[i].value)->Some_0;
    let ij = token_index(tokens[j].value)->Some_0;
    if ii != ij {
        if ii < ij {
            assert(syms[ii as int].text() != syms[ij as int].text());
        } else {
            assert(syms[ij as int].text() != syms[ii as int].text());
        }
    }
}

} // verus!
