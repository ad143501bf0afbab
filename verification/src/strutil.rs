//! Small string helpers over the characters of a text.

use vstd::prelude::*;

verus! {

/// Whether the character has the Unicode white-space property.
pub uninterp spec fn white_space(c: char) -> bool;

/// Relies on `char::is_whitespace`: true exactly on characters with the
/// Unicode white-space property, which depends on the character alone;
/// blank, tab, line feed and carriage return are documented examples.
#[verifier::external_body]
pub(crate) fn is_white_space(c: char) -> (r: bool)
    ensures
        r == white_space(c),
        (c == ' ' || c == '\t' || c == '\n' || c == '\r') ==> r,
{
    c.is_whitespace()
}

/// Relies on `String::push`: appends the given character to the end of the
/// string.
#[verifier::external_body]
pub(crate) fn push_char(s: &mut String, c: char)
    ensures
        final(s)@ == old(s)@.push(c),
{
    s.push(c);
}

/// Whether every character of `s` is white space.  An empty text counts
/// as white.
pub open spec fn all_white(s: Seq<char>) -> bool {
    forall|i: int| 0 <= i < s.len() ==> white_space(#[trigger] s[i])
}

/// Whether every character of `s` is white space.
pub fn is_all_white(s: &str) -> (r: bool)
    ensures
        r == all_white(s@),
{
    let n = s.unicode_len();
    let mut i: usize = 0;
    while i < n
        invariant
            i <= n,
            n == s@.len(),
            forall|j: int| 0 <= j < i ==> white_space(#[trigger] s@[j]),
        decreases n - i,
    {
        if !is_white_space(s.get_char(i)) {
            return false;
        }
        i = i + 1;
    }
    true
}

/// The first position at or past `i` holding a character that is not
/// white space; the length of `s` when there is none.
pub open spec fn skip_white(s: Seq<char>, i: int) -> int
    recommends
        0 <= i <= s.len(),
    decreases s.len() - i + 1,
{
    if i >= s.len() {
        s.len() as int
    } else if white_space(s[i]) {
        skip_white(s, i + 1)
    } else {
        i
    }
}

/// What [`skip_white`] returns, read off a scan that stopped at `j`.
pub proof fn lemma_skip_white_stops(s: Seq<char>, i0: int, j: int)
    requires
        0 <= i0 <= j <= s.len(),
        forall|m: int| i0 <= m < j ==> white_space(#[trigger] s[m]),
        j < s.len() ==> !white_space(s[j]),
    ensures
        skip_white(s, i0) == j,
    decreases j - i0,
{
    if i0 < j {
        lemma_skip_white_stops(s, i0 + 1, j);
    }
}

/// The number of characters of `s` left when trailing white space goes.
pub open spec fn rtrim_len(s: Seq<char>) -> int
    decreases s.len(),
{
    if s.len() == 0 {
        0
    } else if white_space(s.last()) {
        rtrim_len(s.drop_last())
    } else {
        s.len() as int
    }
}

/// What [`rtrim_len`] returns, read off a scan that stopped at `j`.
pub proof fn lemma_rtrim_stops(s: Seq<char>, j: int)
    requires
        0 <= j <= s.len(),
        forall|m: int| j <= m < s.len() ==> white_space(#[trigger] s[m]),
        j > 0 ==> !white_space(s[j - 1]),
    ensures
        rtrim_len(s) == j,
    decreases s.len(),
{
    if s.len() > 0 {
        if j == s.len() {
        } else {
            assert(white_space(s.last()));
            assert forall|m: int| j <= m < s.drop_last().len() implies white_space(
                #[trigger] s.drop_last()[m],
            ) by {
                assert(s.drop_last()[m] == s[m]);
            }
            assert(j > 0 ==> s.drop_last()[j - 1] == s[j - 1]);
            lemma_rtrim_stops(s.drop_last(), j);
        }
    }
}

/// `s` with white space removed from both ends.
pub open spec fn trim(s: Seq<char>) -> Seq<char> {
    if skip_white(s, 0) <= rtrim_len(s) {
        s.subrange(skip_white(s, 0), rtrim_len(s))
    } else {
        Seq::<char>::empty()
    }
}

/// Trims white space from both ends of `s`.
pub fn trim_slice<'a>(s: &'a str) -> (r: &'a str)
    ensures
        r@ == trim(s@),
{
    let n = s.unicode_len();
    let mut a: usize = 0;
    while a < n && is_white_space(s.get_char(a))
        invariant
            a <= n,
            n == s@.len(),
            forall|m: int| 0 <= m < a ==> white_space(#[trigger] s@[m]),
        decreases n - a,
    {
        a = a + 1;
    }
    proof {
        lemma_skip_white_stops(s@, 0, a as int);
    }
    let mut b: usize = n;
    while b > a && is_white_space(s.get_char(b - 1))
        invariant
            a <= b <= n,
            n == s@.len(),
            forall|m: int| b <= m < n ==> white_space(#[trigger] s@[m]),
        decreases b,
    {
        b = b - 1;
    }
    if b == a {
        proof {
            if a < n {
                assert(white_space(s@[a as int]));
            }
            assert(a == n);
            lemma_rtrim_stops(s@, 0);
        }
        let r = s.substring_char(a, a);
        proof {
            assert(r@ =~= trim(s@));
        }
        r
    } else {
        proof {
            lemma_rtrim_stops(s@, b as int);
        }
        let r = s.substring_char(a, b);
        proof {
            assert(r@ =~= trim(s@));
        }
        r
    }
}

} // verus!
