//! Source text and spans: an immutable buffer plus half-open ranges into it,
//! from which substrings and 1-indexed line/column locations are derived.
//! Offsets count characters of the content.

use vstd::prelude::*;
use vstd::string::StrSliceExecFns;
use vstd::string::StringExecFns;

verus! {

/// One file's text, owned once and never mutated; all spans index into it.
#[derive(Debug, Clone)]
pub struct Source {
    pub filename: String,
    pub content: String,
}

/// A half-open range `[start, end)` of character offsets into one `Source`.
#[derive(Debug, Clone, Copy, PartialEq, Eq, Structural)]
pub struct Span {
    pub start: usize,
    pub end: usize,
}

/// Number of newline characters in `s` strictly before offset `end`.
pub open spec fn count_newlines(s: Seq<char>, end: int) -> nat
    decreases end,
{
    if end <= 0 {
        0
    } else {
        count_newlines(s, end - 1) + (if s[end - 1] == '\n' {
            1nat
        } else {
            0nat
        })
    }
}

/// Offset just after the last newline strictly before `end` (0 if none).
pub open spec fn line_start_before(s: Seq<char>, end: int) -> int
    decreases end,
{
    if end <= 0 {
        0
    } else if s[end - 1] == '\n' {
        end
    } else {
        line_start_before(s, end - 1)
    }
}

pub proof fn lemma_count_newlines_bound(s: Seq<char>, end: int)
    requires
        0 <= end,
    ensures
        count_newlines(s, end) <= end,
    decreases end,
{
    if end > 0 {
        lemma_count_newlines_bound(s, end - 1);
    }
}

pub proof fn lemma_line_start_before_bounds(s: Seq<char>, end: int)
    requires
        0 <= end,
    ensures
        0 <= line_start_before(s, end) <= end,
    decreases end,
{
    if end > 0 && s[end - 1] != '\n' {
        lemma_line_start_before_bounds(s, end - 1);
    }
}

/// The decimal digit character for `d`.
pub open spec fn dec_digit(d: int) -> char {
    if d == 0 {
        '0'
    } else if d == 1 {
        '1'
    } else if d == 2 {
        '2'
    } else if d == 3 {
        '3'
    } else if d == 4 {
        '4'
    } else if d == 5 {
        '5'
    } else if d == 6 {
        '6'
    } else if d == 7 {
        '7'
    } else if d == 8 {
        '8'
    } else {
        '9'
    }
}

/// The decimal representation of `n`, most significant digit first.
pub open spec fn dec_rep(n: nat) -> Seq<char>
    decreases n,
{
    if n < 10 {
        seq![dec_digit(n as int)]
    } else {
        dec_rep(n / 10).push(dec_digit((n % 10) as int))
    }
}

/// What `Span::location` returns: `"filename:line:column"`.
pub open spec fn location_spec(filename: Seq<char>, line: nat, column: nat) -> Seq<char> {
    filename + seq![':'] + dec_rep(line) + seq![':'] + dec_rep(column)
}

impl Span {
    /// The span lies within a buffer of `len` characters.
    pub open spec fn wf(self, len: int) -> bool {
        self.start <= self.end <= len
    }

    /// The prefix of length `n` of this span.
    pub fn take(&self, n: usize) -> (r: Span)
        requires
            n <= self.end - self.start,
        ensures
            r.start == self.start,
            r.end == self.start + n,
    {
        Span { start: self.start, end: self.start + n }
    }

    /// This span with its first `n` characters dropped.
    pub fn shift(&self, n: usize) -> (r: Span)
        requires
            n <= self.end - self.start,
        ensures
            r.start == self.start + n,
            r.end == self.end,
    {
        Span { start: self.start + n, end: self.end }
    }

    /// Splits off the prefix of length `n`: `(remaining, taken)`.
    pub fn split(&self, n: usize) -> (r: (Span, Span))
        requires
            n <= self.end - self.start,
        ensures
            r.0.start == self.start + n,
            r.0.end == self.end,
            r.1.start == self.start,
            r.1.end == self.start + n,
    {
        (self.shift(n), self.take(n))
    }

    /// The smallest span beginning where `self` does and ending where `other` does.
    pub fn merge(&self, other: &Span) -> (r: Span)
        requires
            self.start <= other.end,
        ensures
            r.start == self.start,
            r.end == other.end,
    {
        Span { start: self.start, end: other.end }
    }

    /// The span covering all of `src`.
    pub fn whole(src: &Source) -> (r: Span)
        ensures
            r.start == 0,
            r.end == src.content@.len(),
    {
        Span { start: 0, end: src.content.as_str().unicode_len() }
    }

    /// The exact substring of the source that this span covers.
    pub fn fragment<'a>(&self, src: &'a Source) -> (r: &'a str)
        requires
            self.wf(src.content@.len() as int),
        ensures
            r@ == src.content@.subrange(self.start as int, self.end as int),
    {
        src.content.as_str().substring_char(self.start, self.end)
    }

    /// 1-indexed line of the span's start: newlines before it, plus one.
    pub fn line(&self, src: &Source) -> (r: usize)
        requires
            self.wf(src.content@.len() as int),
            src.content@.len() < usize::MAX,
        ensures
            r == 1 + count_newlines(src.content@, self.start as int),
    {
        let content = src.content.as_str();
        let mut count: usize = 0;
        let mut i: usize = 0;
        while i < self.start
            invariant
                i <= self.start,
                self.wf(src.content@.len() as int),
                src.content@.len() < usize::MAX,
                content@ == src.content@,
                count == count_newlines(src.content@, i as int),
                count <= i,
            decreases self.start - i,
        {
            proof {
                lemma_count_newlines_bound(src.content@, i + 1);
            }
            if content.get_char(i) == '\n' {
                count = count + 1;
            }
            i = i + 1;
        }
        count + 1
    }

    /// 1-indexed column of the span's start within its line.
    pub fn column(&self, src: &Source) -> (r: usize)
        requires
            self.wf(src.content@.len() as int),
            src.content@.len() < usize::MAX,
        ensures
            r == self.start - line_start_before(src.content@, self.start as int) + 1,
    {
        let content = src.content.as_str();
        let mut i: usize = self.start;
        while i > 0 && content.get_char(i - 1) != '\n'
            invariant
                i <= self.start,
                self.wf(src.content@.len() as int),
                content@ == src.content@,
                line_start_before(src.content@, self.start as int) == line_start_before(
                    src.content@,
                    i as int,
                ),
            decreases i,
        {
            i = i - 1;
        }
        proof {
            lemma_line_start_before_bounds(src.content@, i as int);
        }
        self.start - i + 1
    }

    /// Human-readable `"filename:line:column"` of the span's start.
    pub fn location(&self, src: &Source) -> (r: String)
        requires
            self.wf(src.content@.len() as int),
            src.content@.len() < usize::MAX,
        ensures
            r@ == location_spec(
                src.filename@,
                1 + count_newlines(src.content@, self.start as int),
                (self.start - line_start_before(src.content@, self.start as int) + 1) as nat,
            ),
    {
        let line = self.line(src);
        let column = self.column(src);
        let mut out = src.filename.clone();
        out.append(":");
        let line_str = usize_to_string(line);
        out.append(line_str.as_str());
        out.append(":");
        let column_str = usize_to_string(column);
        out.append(column_str.as_str());
        proof {
            reveal_strlit(":");
        }
        out
    }
}

/// The single decimal digit `d` as a string.
fn digit_string(d: usize) -> (r: String)
    requires
        d < 10,
    ensures
        r@ == seq![dec_digit(d as int)],
{
    proof {
        reveal_strlit("0");
        reveal_strlit("1");
        reveal_strlit("2");
        reveal_strlit("3");
        reveal_strlit("4");
        reveal_strlit("5");
        reveal_strlit("6");
        reveal_strlit("7");
        reveal_strlit("8");
        reveal_strlit("9");
    }
    let r = match d {
        0 => String::from_str("0"),
        1 => String::from_str("1"),
        2 => String::from_str("2"),
        3 => String::from_str("3"),
        4 => String::from_str("4"),
        5 => String::from_str("5"),
        6 => String::from_str("6"),
        7 => String::from_str("7"),
        8 => String::from_str("8"),
        _ => String::from_str("9"),
    };
    proof {
        assert(r@ =~= seq![dec_digit(d as int)]);
    }
    r
}

/// Decimal rendering of `n`.
pub fn usize_to_string(n: usize) -> (r: String)
    ensures
        r@ == dec_rep(n as nat),
    decreases n,
{
    if n < 10 {
        digit_string(n)
    } else {
        let mut prefix = usize_to_string(n / 10);
        let last = digit_string(n % 10);
        prefix.append(last.as_str());
        proof {
            assert(prefix@ =~= dec_rep(n as nat));
        }
        prefix
    }
}

/// A value paired with the span of source text it came from.
#[derive(Debug, Clone)]
pub struct Located<T> {
    pub value: T,
    pub span: Span,
}

impl<T> Located<T> {
    pub fn new(value: T, span: Span) -> (r: Located<T>)
        ensures
            r.value == value,
            r.span == span,
    {
        Located { value, span }
    }

    /// Applies `f` to the carried value, keeping the span.
    pub fn map<U, F: FnOnce(T) -> U>(self, f: F) -> (r: Located<U>)
        requires
            f.requires((self.value,)),
        ensures
            r.span == self.span,
            f.ensures((self.value,), r.value),
    {
        let span = self.span;
        Located { value: f(self.value), span }
    }
}

} // verus!
