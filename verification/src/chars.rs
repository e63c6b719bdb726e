//! Character classification relied on by the lexer, and one string
//! primitive. The Unicode tables behind `char`'s classification methods are
//! not restated here: each method's result is given a name, pinned down
//! exactly on the ASCII range.

use vstd::prelude::*;

verus! {

/// `c` has the Unicode White_Space property.
pub uninterp spec fn is_ws(c: char) -> bool;

/// `c` has the Unicode Alphabetic property.
pub uninterp spec fn is_alpha(c: char) -> bool;

/// `c` has the Unicode Uppercase property.
pub uninterp spec fn is_upper(c: char) -> bool;

/// `c` has the Unicode Lowercase property.
pub uninterp spec fn is_lower(c: char) -> bool;

/// Relies on char::is_whitespace: true exactly for White_Space characters;
/// on ASCII those are space, tab, newline, carriage return, and form feed,
/// so every other ASCII character is not whitespace.
pub assume_specification[ char::is_whitespace ](c: char) -> (r: bool)
    ensures
        r == is_ws(c),
        (c == ' ' || c == '\t' || c == '\n' || c == '\r' || c == '\u{c}') ==> r,
        ('!' <= c && c <= '~') ==> !r,
;

/// Relies on char::is_alphabetic: true exactly for Alphabetic characters;
/// on the ASCII range those are the letters `a..z` and `A..Z`.
pub assume_specification[ char::is_alphabetic ](c: char) -> (r: bool)
    ensures
        r == is_alpha(c),
        c < '\u{80}' ==> (r <==> (('a' <= c && c <= 'z') || ('A' <= c && c <= 'Z'))),
;

/// Relies on char::is_uppercase: true exactly for Uppercase characters;
/// on the ASCII range those are `A..Z`, and every Uppercase character is
/// Alphabetic.
pub assume_specification[ char::is_uppercase ](c: char) -> (r: bool)
    ensures
        r == is_upper(c),
        c < '\u{80}' ==> (r <==> ('A' <= c && c <= 'Z')),
        r ==> is_alpha(c),
;

/// Relies on char::is_lowercase: true exactly for Lowercase characters;
/// on the ASCII range those are `a..z`, and every Lowercase character is
/// Alphabetic.
pub assume_specification[ char::is_lowercase ](c: char) -> (r: bool)
    ensures
        r == is_lower(c),
        c < '\u{80}' ==> (r <==> ('a' <= c && c <= 'z')),
        r ==> is_alpha(c),
;

/// Relies on String::push: appends the given character to the end.
pub assume_specification[ String::push ](s: &mut String, c: char)
    ensures
        final(s)@ == old(s)@.push(c),
;

/// The characters `chars[start..end]`, collected into an owned string.
pub fn string_of_range(chars: &Vec<char>, start: usize, end: usize) -> (r: String)
    requires
        start <= end <= chars@.len(),
    ensures
        r@ == chars@.subrange(start as int, end as int),
{
    let mut r = String::new();
    let mut i: usize = start;
    while i < end
        invariant
            start <= i <= end <= chars@.len(),
            r@ == chars@.subrange(start as int, i as int),
        decreases end - i,
    {
        r.push(chars[i]);
        proof {
            assert(chars@.subrange(start as int, i + 1) =~= chars@.subrange(
                start as int,
                i as int,
            ).push(chars@[i as int]));
        }
        i = i + 1;
    }
    r
}

} // verus!
