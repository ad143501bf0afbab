//! Word-list definitions: the records a dictionary is built from, and the
//! reader for the word-list text format.
//!
//! A word list is line oriented.  A line starting with `#` or `  #`, or
//! holding only white space, is skipped.  A line indented by two blanks
//! adds one meaning to the entry begun above it; any other line begins a
//! new entry: a head of `|`-separated word forms, optionally followed by
//! a parenthesised Chinese-character annotation, where each word form may
//! carry one leading `-` or `~` and is trimmed.

use crate::strutil::all_white;
use crate::strutil::is_all_white;
use crate::strutil::is_white_space;
use crate::strutil::lemma_skip_white_stops;
use crate::strutil::skip_white;
use crate::strutil::trim;
use crate::strutil::trim_slice;
use crate::strutil::white_space;
use vstd::prelude::*;

verus! {

/// One dictionary entry, as parsed from a word list.
pub struct Def {
    /// Canonical citation form, e.g. a verb ending in "다".
    pub hangeul: String,
    /// Alternate spellings or forms sharing the same meaning.
    pub aliases: Vec<String>,
    /// Chinese-character annotation; display only, never matched on.
    pub hanja: Option<String>,
    /// Gloss lines, in order; the first is the primary meaning used in
    /// rendered output.
    pub meanings: Vec<String>,
}

/// The mathematical value of a [`Def`]: its four fields as sequences of
/// characters.
pub ghost struct DefView {
    pub hangeul: Seq<char>,
    pub aliases: Seq<Seq<char>>,
    pub hanja: Option<Seq<char>>,
    pub meanings: Seq<Seq<char>>,
}

impl View for Def {
    type V = DefView;

    open spec fn view(&self) -> DefView {
        DefView {
            hangeul: self.hangeul@,
            aliases: self.aliases.deep_view(),
            hanja: self.hanja.deep_view(),
            meanings: self.meanings.deep_view(),
        }
    }
}

impl DeepView for Def {
    type V = DefView;

    open spec fn deep_view(&self) -> DefView {
        self.view()
    }
}

/// Copies each string of `v`.
fn clone_strings(v: &Vec<String>) -> (r: Vec<String>)
    ensures
        r.deep_view() == v.deep_view(),
{
    let mut r: Vec<String> = Vec::new();
    let n = v.len();
    let mut i: usize = 0;
    proof {
        assert(r.deep_view() =~= v.deep_view().take(0));
    }
    while i < n
        invariant
            i <= n,
            n == v@.len(),
            r.deep_view() == v.deep_view().take(i as int),
        decreases n - i,
    {
        let x = v[i].clone();
        proof {
            assert(x == v@[i as int]);
        }
        let ghost prevv = r@;
        let ghost prev = r.deep_view();
        r.push(x);
        proof {
            assert(r@ == prevv.push(x));
            assert(prev == v.deep_view().take(i as int));
            assert(prev.len() == prevv.len());
            assert(prev.len() == i);
            assert forall|j: int|
                0 <= j < r@.len() implies r.deep_view()[j] == v.deep_view().take(
                    i as int + 1,
                )[j] by {
                assert(r.deep_view()[j] == r@[j].deep_view());
                if j < i {
                    assert(r@[j] == prevv[j]);
                    assert(prev[j] == prevv[j].deep_view());
                    assert(prev[j] == v.deep_view().take(i as int)[j]);
                } else {
                    assert(r@[j] == x);
                }
            }
            assert(r.deep_view().len() == i + 1);
            assert(r.deep_view() =~= v.deep_view().take(i as int + 1));
        }
        i = i + 1;
    }
    proof {
        assert(v.deep_view().take(n as int) =~= v.deep_view());
    }
    r
}

impl Clone for Def {
    /// Copies the definition; the copy has the same value.
    fn clone(&self) -> (res: Self)
        ensures
            res@ == self@,
    {
        let res = Def {
            hangeul: self.hangeul.clone(),
            aliases: clone_strings(&self.aliases),
            hanja: match &self.hanja {
                Some(h) => Some(h.clone()),
                None => None,
            },
            meanings: clone_strings(&self.meanings),
        };
        res
    }
}

/// Appends one string.
fn push_string(out: &mut Vec<String>, s: String)
    ensures
        final(out).deep_view() == old(out).deep_view().push(s@),
{
    let ghost prevv = out@;
    let ghost prev = out.deep_view();
    out.push(s);
    proof {
        assert(out@ == prevv.push(s));
        assert(prev.len() == prevv.len());
        assert forall|i: int| 0 <= i < out@.len() implies out.deep_view()[i] == prev.push(s@)[i] by {
            assert(out.deep_view()[i] == out@[i]@);
            if i < prevv.len() {
                assert(out@[i] == prevv[i]);
                assert(prev[i] == prevv[i]@);
            } else {
                assert(out@[i] == s);
            }
        }
        assert(out.deep_view() =~= prev.push(s@));
    }
}

/// Appends one definition.
fn push_def(out: &mut Vec<Def>, d: Def)
    ensures
        final(out).deep_view() == old(out).deep_view().push(d@),
{
    let ghost prevv = out@;
    let ghost prev = out.deep_view();
    out.push(d);
    proof {
        assert(out@ == prevv.push(d));
        assert(prev.len() == prevv.len());
        assert forall|i: int| 0 <= i < out@.len() implies out.deep_view()[i] == prev.push(d@)[i] by {
            assert(out.deep_view()[i] == out@[i]@);
            if i < prevv.len() {
                assert(out@[i] == prevv[i]);
                assert(prev[i] == prevv[i]@);
            } else {
                assert(out@[i] == d);
            }
        }
        assert(out.deep_view() =~= prev.push(d@));
    }
}

/// The first position at or past `i` holding the character `c`; the
/// length of `s` when there is none.
pub open spec fn find_from(s: Seq<char>, c: char, i: int) -> int
    recommends
        0 <= i <= s.len(),
    decreases s.len() - i + 1,
{
    if i >= s.len() {
        s.len() as int
    } else if s[i] == c {
        i
    } else {
        find_from(s, c, i + 1)
    }
}

/// What [`find_from`] returns, read off a scan that stopped at `j`.
proof fn lemma_find_from_stops(s: Seq<char>, c: char, i0: int, j: int)
    requires
        0 <= i0 <= j <= s.len(),
        forall|m: int| i0 <= m < j ==> #[trigger] s[m] != c,
        j < s.len() ==> s[j] == c,
    ensures
        find_from(s, c, i0) == j,
    decreases j - i0,
{
    if i0 < j {
        lemma_find_from_stops(s, c, i0 + 1, j);
    }
}

/// The line with one trailing carriage return removed.
pub open spec fn strip_cr(l: Seq<char>) -> Seq<char> {
    if l.len() > 0 && l.last() == '\r' {
        l.drop_last()
    } else {
        l
    }
}

/// The lines of `s` from position `i` on: split at each line feed, a
/// trailing carriage return stripped from each line, and no final empty
/// line when the text ends with a line feed.
pub open spec fn lines_from(s: Seq<char>, i: int) -> Seq<Seq<char>>
    recommends
        0 <= i <= s.len(),
    decreases s.len() - i + 1,
{
    if i >= s.len() {
        Seq::<Seq<char>>::empty()
    } else {
        let j0 = find_from(s, '\n', i);
        let j = if i <= j0 <= s.len() {
            j0
        } else {
            s.len() as int
        };
        let line = strip_cr(s.subrange(i, j));
        if j >= s.len() {
            seq![line]
        } else {
            seq![line] + lines_from(s, j + 1)
        }
    }
}

/// The lines of the text.
pub open spec fn spec_lines(s: Seq<char>) -> Seq<Seq<char>> {
    lines_from(s, 0)
}

/// Splits the text into its lines.
fn split_lines(text: &str) -> (r: Vec<String>)
    ensures
        r.deep_view() == spec_lines(text@),
{
    let n = text.unicode_len();
    let mut out: Vec<String> = Vec::new();
    let mut start: usize = 0;
    proof {
        assert(out.deep_view() =~= Seq::<Seq<char>>::empty());
        assert(Seq::<Seq<char>>::empty() + lines_from(text@, 0) =~= lines_from(text@, 0));
    }
    while start < n
        invariant
            start <= n,
            n == text@.len(),
            out.deep_view() + lines_from(text@, start as int) == lines_from(text@, 0),
        decreases n - start,
    {
        let mut j = start;
        while j < n && text.get_char(j) != '\n'
            invariant
                start <= j <= n,
                n == text@.len(),
                forall|m: int| start <= m < j ==> #[trigger] text@[m] != '\n',
            decreases n - j,
        {
            j = j + 1;
        }
        proof {
            lemma_find_from_stops(text@, '\n', start as int, j as int);
        }
        let mut e = j;
        if e > start && text.get_char(e - 1) == '\r' {
            e = e - 1;
        }
        let line = text.substring_char(start, e).to_owned();
        proof {
            let piece = text@.subrange(start as int, j as int);
            if j > start && text@[j as int - 1] == '\r' {
                assert(piece.last() == '\r');
                assert(line@ =~= strip_cr(piece));
            } else {
                if piece.len() > 0 && piece.last() == '\r' {
                    assert(text@[j as int - 1] == '\r');
                }
                assert(line@ =~= strip_cr(piece));
            }
        }
        let ghost prev = out.deep_view();
        push_string(&mut out, line);
        if j == n {
            proof {
                assert(lines_from(text@, start as int) =~= seq![line@]);
                assert(out.deep_view() =~= (prev + lines_from(text@, start as int)));
            }
            return out;
        }
        proof {
            assert(lines_from(text@, start as int) =~= seq![line@] + lines_from(
                text@,
                j as int + 1,
            ));
            assert(out.deep_view() + lines_from(text@, j as int + 1) =~= (prev + lines_from(
                text@,
                start as int,
            )));
        }
        start = j + 1;
    }
    proof {
        assert(lines_from(text@, start as int) =~= Seq::<Seq<char>>::empty());
        assert(out.deep_view() =~= out.deep_view() + lines_from(text@, start as int));
    }
    out
}

/// An opening parenthesis, plain or fullwidth.
pub open spec fn is_open_paren(c: char) -> bool {
    c == '(' || c == '（'
}

/// A closing parenthesis, plain or fullwidth.
pub open spec fn is_close_paren(c: char) -> bool {
    c == ')' || c == '）'
}

/// A closing parenthesis at `j` followed by white space only.
pub open spec fn close_cond(l: Seq<char>, j: int) -> bool
    recommends
        0 <= j < l.len(),
{
    is_close_paren(l[j]) && all_white(l.skip(j + 1))
}

/// The first position at or past `j` where the annotation can close: a
/// closing parenthesis followed only by white space; the length of `l`
/// when there is none.
pub open spec fn close_from(l: Seq<char>, j: int) -> int
    recommends
        0 <= j,
    decreases l.len() - j + 1,
{
    if j >= l.len() {
        l.len() as int
    } else if close_cond(l, j) {
        j
    } else {
        close_from(l, j + 1)
    }
}

/// What [`close_from`] returns, read off a scan that stopped at `j`.
proof fn lemma_close_from_stops(l: Seq<char>, j0: int, j: int)
    requires
        0 <= j0 <= j <= l.len(),
        forall|m: int| j0 <= m < j ==> !#[trigger] close_cond(l, m),
        j < l.len() ==> close_cond(l, j),
    ensures
        close_from(l, j0) == j,
    decreases j - j0,
{
    if j0 < j {
        lemma_close_from_stops(l, j0 + 1, j);
    }
}

/// Whether a well-formed annotation opens after position `i`: white
/// space, an opening parenthesis, and, past at least one content
/// character, a closing parenthesis followed only by white space.
pub open spec fn valid_open(l: Seq<char>, i: int) -> bool
    recommends
        0 <= i <= l.len(),
{
    let p = skip_white(l, i);
    p < l.len() && is_open_paren(l[p]) && close_from(l, skip_white(l, p + 1) + 1) < l.len()
}

/// Where the head of a definition line ends: the first position from 1
/// on where a well-formed annotation opens or only white space is left.
pub open spec fn head_end(l: Seq<char>, i: int) -> int
    recommends
        1 <= i,
    decreases l.len() - i + 1,
{
    if i >= l.len() {
        l.len() as int
    } else if valid_open(l, i) || all_white(l.skip(i)) {
        i
    } else {
        head_end(l, i + 1)
    }
}

/// What [`head_end`] returns, read off a scan that stopped at `j`.
proof fn lemma_head_end_stops(l: Seq<char>, i0: int, j: int)
    requires
        1 <= i0 <= j <= l.len(),
        forall|m: int| i0 <= m < j ==> !(#[trigger] valid_open(l, m)),
        forall|m: int| i0 <= m < j ==> !all_white(#[trigger] l.skip(m)),
        j < l.len() ==> valid_open(l, j) || all_white(l.skip(j)),
    ensures
        head_end(l, i0) == j,
    decreases j - i0,
{
    if i0 < j {
        lemma_head_end_stops(l, i0 + 1, j);
    }
}

/// The `|`-separated parts of `s` from position `i` on.
pub open spec fn bars_from(s: Seq<char>, i: int) -> Seq<Seq<char>>
    recommends
        0 <= i <= s.len(),
    decreases s.len() - i + 1,
{
    let j0 = find_from(s, '|', i);
    let j = if i <= j0 <= s.len() {
        j0
    } else {
        s.len() as int
    };
    if j >= s.len() {
        seq![s.subrange(i, s.len() as int)]
    } else {
        seq![s.subrange(i, j)] + bars_from(s, j + 1)
    }
}

/// One raw word form, cleaned: an optional single leading `-` or `~`
/// dropped, then white space trimmed from both ends.
pub open spec fn spec_clean(s: Seq<char>) -> Seq<char> {
    if s.len() > 0 && (s[0] == '-' || s[0] == '~') {
        trim(s.drop_first())
    } else {
        trim(s)
    }
}

/// What reading one definition line yields: the cleaned head parts as
/// citation form and aliases, the annotation when one closes the line,
/// and no meanings yet.  Only an empty line yields nothing.
pub open spec fn spec_read_definition(l: Seq<char>) -> Option<DefView> {
    if l.len() == 0 {
        None
    } else {
        let e = head_end(l, 1);
        let head = l.take(e);
        let hanja = if e < l.len() && valid_open(l, e) {
            let p = skip_white(l, e);
            let q = skip_white(l, p + 1);
            Some(l.subrange(q, close_from(l, q + 1)))
        } else {
            None
        };
        let parts = bars_from(head, 0);
        Some(
            DefView {
                hangeul: spec_clean(parts[0]),
                aliases: Seq::new((parts.len() - 1) as nat, |i: int| spec_clean(parts[i + 1])),
                hanja,
                meanings: Seq::<Seq<char>>::empty(),
            },
        )
    }
}

/// Finds [`skip_white`] of `s` at `i`.
fn skip_white_from(s: &str, i: usize) -> (r: usize)
    requires
        i <= s@.len(),
    ensures
        r == skip_white(s@, i as int),
        i <= r <= s@.len(),
{
    let n = s.unicode_len();
    let mut a = i;
    while a < n && is_white_space(s.get_char(a))
        invariant
            i <= a <= n,
            n == s@.len(),
            forall|m: int| i <= m < a ==> white_space(#[trigger] s@[m]),
        decreases n - a,
    {
        a = a + 1;
    }
    proof {
        lemma_skip_white_stops(s@, i as int, a as int);
    }
    a
}

/// Finds [`close_from`] of `s` at `j`.
fn close_from_at(s: &str, j: usize) -> (r: usize)
    ensures
        r == close_from(s@, j as int),
        r <= s@.len(),
        j as int <= r || r == s@.len(),
{
    let n = s.unicode_len();
    if j >= n {
        return n;
    }
    let mut m = j;
    while m < n
        invariant
            j <= m <= n,
            n == s@.len(),
            forall|l2: int| j <= l2 < m ==> !#[trigger] close_cond(s@, l2),
        decreases n - m,
    {
        let c = s.get_char(m);
        if c == ')' || c == '）' {
            if is_all_white(s.substring_char(m + 1, n)) {
                proof {
                    assert(s@.subrange(m as int + 1, n as int) =~= s@.skip(m as int + 1));
                    assert(close_cond(s@, m as int));
                    lemma_close_from_stops(s@, j as int, m as int);
                }
                return m;
            }
        }
        proof {
            if close_cond(s@, m as int) {
                assert(all_white(s@.skip(m as int + 1)));
                assert(s@.subrange(m as int + 1, n as int) =~= s@.skip(m as int + 1));
            }
        }
        m = m + 1;
    }
    proof {
        lemma_close_from_stops(s@, j as int, n as int);
    }
    n
}

/// Decides [`valid_open`] of `s` at `i`.
fn valid_open_at(s: &str, i: usize) -> (r: bool)
    requires
        i <= s@.len(),
    ensures
        r == valid_open(s@, i as int),
{
    let n = s.unicode_len();
    let p = skip_white_from(s, i);
    if p >= n {
        return false;
    }
    let c = s.get_char(p);
    if !(c == '(' || c == '（') {
        return false;
    }
    let q = skip_white_from(s, p + 1);
    if q >= n {
        proof {
            assert(close_from(s@, q as int + 1) == n as int);
        }
        return false;
    }
    let j = close_from_at(s, q + 1);
    j < n
}

/// Cleans the hangeul part of a word-list definition: drops one leading
/// `-` or `~` and trims white space.
pub fn clean_hangeul<'a>(s: &'a str) -> (r: &'a str)
    ensures
        r@ == spec_clean(s@),
{
    let n = s.unicode_len();
    if n > 0 {
        let c = s.get_char(0);
        if c == '-' || c == '~' {
            let rest = s.substring_char(1, n);
            proof {
                assert(rest@ =~= s@.drop_first());
            }
            return trim_slice(rest);
        }
    }
    trim_slice(s)
}

/// Splits `s` at each `|`.
fn split_bars(s: &str) -> (r: Vec<String>)
    ensures
        r.deep_view() == bars_from(s@, 0),
        r@.len() >= 1,
{
    let n = s.unicode_len();
    let mut out: Vec<String> = Vec::new();
    let mut start: usize = 0;
    proof {
        assert(out.deep_view() =~= Seq::<Seq<char>>::empty());
        assert(Seq::<Seq<char>>::empty() + bars_from(s@, 0) =~= bars_from(s@, 0));
    }
    loop
        invariant
            start <= n,
            n == s@.len(),
            out.deep_view() + bars_from(s@, start as int) == bars_from(s@, 0),
        decreases n - start,
    {
        let mut j = start;
        while j < n && s.get_char(j) != '|'
            invariant
                start <= j <= n,
                n == s@.len(),
                forall|m: int| start <= m < j ==> #[trigger] s@[m] != '|',
            decreases n - j,
        {
            j = j + 1;
        }
        proof {
            lemma_find_from_stops(s@, '|', start as int, j as int);
        }
        let piece = s.substring_char(start, j).to_owned();
        let ghost prev = out.deep_view();
        push_string(&mut out, piece);
        if j == n {
            proof {
                assert(bars_from(s@, start as int) =~= seq![s@.subrange(start as int, n as int)]);
                assert(out.deep_view() =~= (prev + bars_from(s@, start as int)));
                assert(out.deep_view().len() >= 1);
            }
            return out;
        }
        proof {
            assert(bars_from(s@, start as int) =~= seq![s@.subrange(start as int, j as int)]
                + bars_from(s@, j as int + 1));
            assert(out.deep_view() + bars_from(s@, j as int + 1) =~= (prev + bars_from(
                s@,
                start as int,
            )));
        }
        start = j + 1;
    }
}

/// Reads the first line of a word-list definition; `None` only on an
/// empty line.
pub fn read_definition(line: &str) -> (r: Option<Def>)
    ensures
        r.deep_view() == spec_read_definition(line@),
{
    let n = line.unicode_len();
    if n == 0 {
        return None;
    }
    let mut i: usize = 1;
    while i < n && !valid_open_at(line, i) && !is_all_white(line.substring_char(i, n))
        invariant
            1 <= i <= n,
            n == line@.len(),
            forall|m: int| 1 <= m < i ==> !(#[trigger] valid_open(line@, m)),
            forall|m: int| 1 <= m < i ==> !all_white(#[trigger] line@.skip(m)),
        decreases n - i,
    {
        proof {
            assert(line@.subrange(i as int, n as int) =~= line@.skip(i as int));
        }
        i = i + 1;
    }
    let e = i;
    proof {
        assert(line@.subrange(e as int, n as int) =~= line@.skip(e as int));
        lemma_head_end_stops(line@, 1, e as int);
    }
    let head = line.substring_char(0, e);
    let hanja: Option<String> = if e < n && valid_open_at(line, e) {
        let p = skip_white_from(line, e);
        let q = skip_white_from(line, p + 1);
        proof {
            if q >= n {
                assert(close_from(line@, q as int + 1) == n as int);
            }
            assert(q < n);
        }
        let j = close_from_at(line, q + 1);
        proof {
            assert(j < n);
            assert(q as int + 1 <= j);
        }
        Some(line.substring_char(q, j).to_owned())
    } else {
        None
    };
    let parts = split_bars(head);
    let ghost pspec = bars_from(head@, 0);
    let hangeul = clean_hangeul(parts[0].as_str()).to_owned();
    proof {
        assert(parts.deep_view()[0] == parts@[0]@);
        assert(hangeul@ == spec_clean(pspec[0]));
    }
    let ghost atgt = Seq::new((pspec.len() - 1) as nat, |i: int| spec_clean(pspec[i + 1]));
    let mut aliases: Vec<String> = Vec::new();
    let np = parts.len();
    let mut ai: usize = 1;
    proof {
        assert(aliases.deep_view() =~= atgt.take(0));
    }
    while ai < np
        invariant
            1 <= ai <= np,
            np == parts@.len(),
            parts.deep_view() == pspec,
            atgt == Seq::new((pspec.len() - 1) as nat, |i: int| spec_clean(pspec[i + 1])),
            np == pspec.len(),
            aliases.deep_view() == atgt.take(ai as int - 1),
        decreases np - ai,
    {
        let a = clean_hangeul(parts[ai].as_str()).to_owned();
        proof {
            assert(parts.deep_view()[ai as int] == parts@[ai as int]@);
            assert(a@ == atgt[ai as int - 1]);
        }
        let ghost prev = aliases.deep_view();
        push_string(&mut aliases, a);
        proof {
            assert(aliases.deep_view() =~= atgt.take(ai as int));
        }
        ai = ai + 1;
    }
    proof {
        assert(atgt.take(np as int - 1) =~= atgt);
    }
    let d = Def { hangeul, aliases, hanja, meanings: Vec::new() };
    proof {
        assert(head@ == line@.take(e as int));
        assert(d.meanings.deep_view() =~= Seq::<Seq<char>>::empty());
        assert(d@ == spec_read_definition(line@).unwrap());
    }
    Some(d)
}

/// Reads a meaning from an indented line: the line, trimmed.
pub fn read_meaning(line: &str) -> (r: String)
    ensures
        r@ == trim(line@),
{
    trim_slice(line).to_owned()
}

/// A comment line: starting with `#`, or with `  #`.
pub open spec fn is_comment_line(l: Seq<char>) -> bool {
    (l.len() >= 1 && l[0] == '#') || (l.len() >= 3 && l[0] == ' ' && l[1] == ' ' && l[2] == '#')
}

/// A meaning line: indented by two blanks.
pub open spec fn is_meaning_line(l: Seq<char>) -> bool {
    l.len() >= 2 && l[0] == ' ' && l[1] == ' '
}

/// One line fed to the reader state: the entry under construction and
/// the finished entries.  A skipped line changes nothing; a new entry
/// line finishes the current entry and begins reading a new one; a
/// meaning line extends the current entry, or is dropped when there is
/// none.
pub open spec fn feed_line(cur: Option<DefView>, out: Seq<DefView>, l: Seq<char>) -> (
    Option<DefView>,
    Seq<DefView>,
) {
    if is_comment_line(l) || all_white(l) {
        (cur, out)
    } else if !is_meaning_line(l) {
        let out2 = match cur {
            Some(d) => out.push(d),
            None => out,
        };
        (spec_read_definition(l), out2)
    } else {
        match cur {
            Some(d) => (Some(DefView { meanings: d.meanings.push(trim(l)), ..d }), out),
            None => (None, out),
        }
    }
}

/// The reader state after all of `ls`.
pub open spec fn run_lines(cur: Option<DefView>, out: Seq<DefView>, ls: Seq<Seq<char>>) -> (
    Option<DefView>,
    Seq<DefView>,
)
    decreases ls.len(),
{
    if ls.len() == 0 {
        (cur, out)
    } else {
        let st = feed_line(cur, out, ls[0]);
        run_lines(st.0, st.1, ls.drop_first())
    }
}

/// Feeding one more line is feeding it last.
proof fn lemma_run_lines_push(
    cur: Option<DefView>,
    out: Seq<DefView>,
    ls: Seq<Seq<char>>,
    l: Seq<char>,
)
    ensures
        run_lines(cur, out, ls.push(l)) == {
            let st = run_lines(cur, out, ls);
            feed_line(st.0, st.1, l)
        },
    decreases ls.len(),
{
    if ls.len() == 0 {
        assert(ls.push(l)[0] == l);
        assert(ls.push(l).drop_first() =~= Seq::<Seq<char>>::empty());
        let st = feed_line(cur, out, l);
        assert(run_lines(st.0, st.1, Seq::<Seq<char>>::empty()) == st);
        assert(run_lines(cur, out, ls) == (cur, out));
    } else {
        assert(ls.push(l)[0] == ls[0]);
        assert(ls.push(l).drop_first() =~= ls.drop_first().push(l));
        let st = feed_line(cur, out, ls[0]);
        lemma_run_lines_push(st.0, st.1, ls.drop_first(), l);
    }
}

/// The definitions read from the whole text: the finished entries, with
/// the entry still under construction at the end closed after them.
pub open spec fn spec_read_definitions(text: Seq<char>) -> Seq<DefView> {
    let st = run_lines(None, Seq::<DefView>::empty(), spec_lines(text));
    match st.0 {
        Some(d) => st.1.push(d),
        None => st.1,
    }
}

/// Reads the word definitions from the given word-list text, in order.
pub fn read_definitions_iter(text: &str) -> (r: Vec<Def>)
    ensures
        r.deep_view() == spec_read_definitions(text@),
{
    let lines = split_lines(text);
    let ghost ls = spec_lines(text@);
    let mut cur: Option<Def> = None;
    let mut out: Vec<Def> = Vec::new();
    let nl = lines.len();
    let mut i: usize = 0;
    proof {
        assert(ls.take(0) =~= Seq::<Seq<char>>::empty());
        assert(out.deep_view() =~= Seq::<DefView>::empty());
        assert(run_lines(None, Seq::<DefView>::empty(), ls.take(0)) == (
            None::<DefView>,
            Seq::<DefView>::empty(),
        ));
    }
    while i < nl
        invariant
            i <= nl,
            nl == lines@.len(),
            lines.deep_view() == ls,
            (cur.deep_view(), out.deep_view()) == run_lines(
                None,
                Seq::<DefView>::empty(),
                ls.take(i as int),
            ),
        decreases nl - i,
    {
        let line = &lines[i];
        let ghost lv = ls[i as int];
        proof {
            assert(lines.deep_view()[i as int] == lines@[i as int]@);
            assert(line@ == lv);
            lemma_run_lines_push(None, Seq::<DefView>::empty(), ls.take(i as int), lv);
            assert(ls.take(i as int).push(lv) =~= ls.take(i as int + 1));
        }
        let n = line.as_str().unicode_len();
        let is_comment = (n >= 1 && line.as_str().get_char(0) == '#') || (n >= 3
            && line.as_str().get_char(0) == ' ' && line.as_str().get_char(1) == ' '
            && line.as_str().get_char(2) == '#');
        if is_comment || is_all_white(line.as_str()) {
            proof {
                assert(is_comment_line(lv) || all_white(lv));
                assert(feed_line(cur.deep_view(), out.deep_view(), lv) == (
                    cur.deep_view(),
                    out.deep_view(),
                ));
            }
        } else if !(n >= 2 && line.as_str().get_char(0) == ' ' && line.as_str().get_char(1)
            == ' ') {
            proof {
                assert(!is_comment_line(lv) && !all_white(lv) && !is_meaning_line(lv));
            }
            let prev = cur;
            cur = read_definition(line.as_str());
            match prev {
                Some(d) => {
                    push_def(&mut out, d);
                },
                None => {},
            }
        } else {
            proof {
                assert(!is_comment_line(lv) && !all_white(lv) && is_meaning_line(lv));
            }
            let m = read_meaning(line.as_str());
            cur = match cur {
                Some(d) => {
                    let mut d2 = d;
                    let ghost prevm = d2.meanings.deep_view();
                    d2.meanings.push(m);
                    proof {
                        assert forall|q: int|
                            0 <= q < d2.meanings@.len() implies d2.meanings.deep_view()[q]
                            == prevm.push(m@)[q] by {
                            assert(d2.meanings.deep_view()[q] == d2.meanings@[q]@);
                            if q < prevm.len() {
                                assert(prevm[q] == d2.meanings@[q]@);
                            }
                        }
                        assert(d2.meanings.deep_view() =~= prevm.push(m@));
                    }
                    Some(d2)
                },
                None => None,
            };
        }
        i = i + 1;
    }
    proof {
        assert(ls.take(nl as int) =~= ls);
    }
    match cur {
        Some(d) => {
            push_def(&mut out, d);
        },
        None => {},
    }
    out
}

/// Reads the word definitions in the given text and returns them in a
/// vector.
pub fn read_definitions(text: &str) -> (r: Vec<Def>)
    ensures
        r.deep_view() == spec_read_definitions(text@),
{
    read_definitions_iter(text)
}

} // verus!
