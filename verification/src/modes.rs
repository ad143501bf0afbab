//! Per-line output rules for the document modes: translating a document
//! line by line with room for a manual translation, retranslating such a
//! document, and cleaning it down to the final text.
//!
//! An automatically translated line is marked `-> `; a line left for the
//! human translator is marked `-| `.

use crate::strutil::all_white;
use crate::strutil::is_all_white;
use crate::strutil::push_char;
use crate::strutil::trim;
use crate::strutil::trim_slice;
use vstd::prelude::*;

verus! {

/// How a document is translated: as one text, line by line with room
/// left for a manual translation, or retranslating while keeping the
/// manually translated lines.
#[derive(Debug, Clone, Copy, PartialEq, Eq, Structural)]
pub enum TranslationMode {
    Normal,
    LineByLineWithSpace,
    Retranslate,
}

/// The mark of an automatically translated line, with its blank.
pub open spec fn auto_marked(l: Seq<char>) -> Seq<char> {
    seq!['-', '>', ' '] + l
}

/// Whether the line starts with the mark of an automatic translation.
pub open spec fn starts_auto(l: Seq<char>) -> bool {
    l.len() >= 2 && l[0] == '-' && l[1] == '>'
}

/// Whether the line starts with the mark of a manual translation.
pub open spec fn starts_manual(l: Seq<char>) -> bool {
    l.len() >= 2 && l[0] == '-' && l[1] == '|'
}

/// The empty manual-translation line, `-| `.
pub open spec fn manual_blank() -> Seq<char> {
    seq!['-', '|', ' ']
}

/// The lines written for one source line in line-by-line mode: the line
/// itself, its automatic translation when that differs from the line,
/// and three blank manual-translation lines; a white-space line passes
/// through alone.
pub open spec fn spec_line_by_line(l: Seq<char>, t: Seq<char>) -> Seq<Seq<char>> {
    if all_white(l) {
        seq![l]
    } else {
        let auto = if t != l {
            seq![auto_marked(t)]
        } else {
            Seq::<Seq<char>>::empty()
        };
        seq![l] + auto + seq![manual_blank(), manual_blank(), manual_blank()]
    }
}

/// The lines written for one source line when retranslating: white-space
/// and manually translated lines pass through, old automatic
/// translations are dropped, and any other line is followed by its new
/// automatic translation when that differs from it.
pub open spec fn spec_retranslate(l: Seq<char>, t: Seq<char>) -> Seq<Seq<char>> {
    if all_white(l) {
        seq![l]
    } else if starts_manual(l) {
        seq![l]
    } else if starts_auto(l) {
        Seq::<Seq<char>>::empty()
    } else if t != l {
        seq![l, auto_marked(t)]
    } else {
        seq![l]
    }
}

/// The lines written for one source line when cleaning: a white-space
/// line becomes empty, a manually translated line is kept without its
/// mark (or, still empty, as the bare mark), and everything else is
/// dropped.
pub open spec fn spec_clean_line(l: Seq<char>) -> Seq<Seq<char>> {
    if all_white(l) {
        seq![trim(l)]
    } else if starts_manual(l) {
        if all_white(trim(l.skip(2))) {
            seq![manual_blank()]
        } else {
            seq![trim(l.skip(2))]
        }
    } else {
        Seq::<Seq<char>>::empty()
    }
}

/// Whether the line starts with the two given characters.
fn starts_with_two(l: &str, a: char, b: char) -> (r: bool)
    ensures
        r == (l@.len() >= 2 && l@[0] == a && l@[1] == b),
{
    let n = l.unicode_len();
    n >= 2 && l.get_char(0) == a && l.get_char(1) == b
}

/// Builds the automatic-translation line `-> ` followed by `t`.
fn make_auto_marked(t: &str) -> (r: String)
    ensures
        r@ == auto_marked(t@),
{
    let mut r = String::new();
    push_char(&mut r, '-');
    push_char(&mut r, '>');
    push_char(&mut r, ' ');
    r.append(t);
    proof {
        assert(r@ =~= auto_marked(t@));
    }
    r
}

/// Builds the empty manual-translation line `-| `.
fn make_manual_blank() -> (r: String)
    ensures
        r@ == manual_blank(),
{
    let mut r = String::new();
    push_char(&mut r, '-');
    push_char(&mut r, '|');
    push_char(&mut r, ' ');
    proof {
        assert(r@ =~= manual_blank());
    }
    r
}

/// Appends one string.
fn push_string(out: &mut Vec<String>, s: String)
    ensures
        final(out).deep_view() == old(out).deep_view().push(s@),
{
    let ghost prevv = out@;
    let ghost prev = out.deep_view();
    out.push(s);
    proof {
        assert(out@ == prevv.push(s));
        assert(prev.len() == prevv.len());
        assert forall|i: int| 0 <= i < out@.len() implies out.deep_view()[i] == prev.push(s@)[i] by {
            assert(out.deep_view()[i] == out@[i]@);
            if i < prevv.len() {
                assert(out@[i] == prevv[i]);
                assert(prev[i] == prevv[i]@);
            } else {
                assert(out@[i] == s);
            }
        }
        assert(out.deep_view() =~= prev.push(s@));
    }
}

/// The lines to write for one source line and its automatic translation
/// in line-by-line mode.
pub fn line_by_line_output(line: &str, translated: &str) -> (r: Vec<String>)
    ensures
        r.deep_view() == spec_line_by_line(line@, translated@),
{
    let mut out: Vec<String> = Vec::new();
    if is_all_white(line) {
        push_string(&mut out, line.to_owned());
        proof {
            assert(out.deep_view() =~= spec_line_by_line(line@, translated@));
        }
        return out;
    }
    push_string(&mut out, line.to_owned());
    if !str_eq(translated, line) {
        push_string(&mut out, make_auto_marked(translated));
    }
    push_string(&mut out, make_manual_blank());
    push_string(&mut out, make_manual_blank());
    push_string(&mut out, make_manual_blank());
    proof {
        assert(out.deep_view() =~= spec_line_by_line(line@, translated@));
    }
    out
}

/// The lines to write for one source line and its automatic translation
/// when retranslating.
pub fn retranslate_output(line: &str, translated: &str) -> (r: Vec<String>)
    ensures
        r.deep_view() == spec_retranslate(line@, translated@),
{
    let mut out: Vec<String> = Vec::new();
    if is_all_white(line) {
        push_string(&mut out, line.to_owned());
    } else if starts_with_two(line, '-', '|') {
        push_string(&mut out, line.to_owned());
    } else if starts_with_two(line, '-', '>') {
    } else if !str_eq(translated, line) {
        push_string(&mut out, line.to_owned());
        push_string(&mut out, make_auto_marked(translated));
    } else {
        push_string(&mut out, line.to_owned());
    }
    proof {
        assert(out.deep_view() =~= spec_retranslate(line@, translated@));
    }
    out
}

/// The lines to write for one source line when cleaning a line-by-line
/// document down to the final text.
pub fn clean_output(line: &str) -> (r: Vec<String>)
    ensures
        r.deep_view() == spec_clean_line(line@),
{
    let mut out: Vec<String> = Vec::new();
    if is_all_white(line) {
        push_string(&mut out, trim_slice(line).to_owned());
    } else if starts_with_two(line, '-', '|') {
        let n = line.unicode_len();
        let rem = trim_slice(line.substring_char(2, n));
        proof {
            assert(line@.subrange(2, line@.len() as int) =~= line@.skip(2));
        }
        if is_all_white(rem) {
            push_string(&mut out, make_manual_blank());
        } else {
            push_string(&mut out, rem.to_owned());
        }
    }
    proof {
        assert(out.deep_view() =~= spec_clean_line(line@));
    }
    out
}

/// Whether the two texts hold the same characters.
fn str_eq(a: &str, b: &str) -> (r: bool)
    ensures
        r == (a@ == b@),
{
    let na = a.unicode_len();
    let nb = b.unicode_len();
    if na != nb {
        proof {
            assert(a@ != b@);
        }
        return false;
    }
    let mut i: usize = 0;
    while i < na
        invariant
            i <= na,
            na == a@.len(),
            na == b@.len(),
            forall|j: int| 0 <= j < i ==> a@[j] == b@[j],
        decreases na - i,
    {
        if a.get_char(i) != b.get_char(i) {
            proof {
                assert(a@ != b@);
            }
            return false;
        }
        i = i + 1;
    }
    proof {
        assert(a@ =~= b@);
    }
    true
}

} // verus!
