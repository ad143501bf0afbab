//! Conjugation of a Korean verb or adjective stem to the common surface
//! forms a reader will encounter in text.
//!
//! Only the last syllable block of the stem is rewritten, according to its
//! final-consonant class; the unmodified stem itself is always among the
//! forms.  A stem whose last character is not a Hangul syllable degrades
//! gracefully: only the stem itself comes back.

use crate::hangul::Block;
use crate::hangul::is_syllable;
use crate::hangul::spec_compose;
use crate::hangul::syl_final;
use crate::hangul::syl_initial;
use crate::hangul::syl_vowel;
use crate::strutil::push_char;
use vstd::prelude::*;

verus! {

/// Final-consonant class of an open syllable (no final consonant).
pub const FINAL_EMPTY: u8 = 0;

/// Final-consonant class of "ㄴ".
pub const FINAL_N: u8 = 4;

/// Final-consonant class of "ㄹ".
pub const FINAL_L: u8 = 8;

/// Final-consonant class of "ㅂ".
pub const FINAL_B: u8 = 17;

/// Final-consonant class of "ㅆ".
pub const FINAL_SS: u8 = 20;

/// Vowel class of "ㅏ".
pub const VOWEL_A: u8 = 0;

/// Vowel class of "ㅐ".
pub const VOWEL_AE: u8 = 1;

/// Vowel class of "ㅓ".
pub const VOWEL_EO: u8 = 4;

/// Vowel class of "ㅕ".
pub const VOWEL_YEO: u8 = 6;

/// Vowel class of "ㅜ".
pub const VOWEL_U: u8 = 13;

/// Vowel class of "ㅝ".
pub const VOWEL_WEO: u8 = 14;

/// Vowel class of "ㅡ".
pub const VOWEL_EU: u8 = 18;

/// Vowel class of "ㅣ".
pub const VOWEL_I: u8 = 20;

/// Initial-consonant class of the silent "ㅇ".
pub const INITIAL_IEUNG: u8 = 11;

/// The stem with the final-consonant class of its last block replaced by
/// `f` (and, where given, the vowel class replaced by `v`).
pub open spec fn with_last(stem: Seq<char>, v: int, f: int) -> Seq<char> {
    stem.drop_last().push(
        spec_compose(syl_initial(stem.last()), v, f),
    )
}

/// The conjugated surface forms of `stem`, in the order they are
/// generated: the stem itself, then rewrites of its last syllable block
/// according to that block's final-consonant class.
pub open spec fn spec_conjugations(stem: Seq<char>) -> Seq<Seq<char>> {
    if stem.len() == 0 || !is_syllable(stem.last()) {
        seq![stem]
    } else {
        let last = stem.last();
        let v = syl_vowel(last);
        let f = syl_final(last);
        if f == FINAL_EMPTY as int {
            let base = seq![
                stem,
                with_last(stem, v, FINAL_N as int),
                with_last(stem, v, FINAL_L as int),
                with_last(stem, v, FINAL_B as int),
            ];
            if v == VOWEL_A as int {
                base + seq![
                    with_last(stem, VOWEL_AE as int, FINAL_EMPTY as int),
                    with_last(stem, VOWEL_AE as int, FINAL_SS as int),
                ]
            } else if v == VOWEL_I as int {
                base + seq![
                    with_last(stem, VOWEL_YEO as int, FINAL_EMPTY as int),
                    with_last(stem, VOWEL_YEO as int, FINAL_SS as int),
                ]
            } else if v == VOWEL_EU as int {
                base + seq![
                    with_last(stem, VOWEL_EO as int, FINAL_EMPTY as int),
                    with_last(stem, VOWEL_EO as int, FINAL_SS as int),
                ]
            } else {
                base + seq![
                    with_last(stem, v, FINAL_L as int),
                    with_last(stem, v, FINAL_SS as int),
                ]
            }
        } else if f == FINAL_L as int {
            seq![
                stem,
                with_last(stem, v, FINAL_EMPTY as int),
                with_last(stem, v, FINAL_N as int),
            ]
        } else if f == FINAL_B as int {
            let open = with_last(stem, v, FINAL_EMPTY as int);
            seq![
                stem,
                open.push(spec_compose(INITIAL_IEUNG as int, VOWEL_U as int, FINAL_EMPTY as int)),
                open.push(spec_compose(INITIAL_IEUNG as int, VOWEL_U as int, FINAL_N as int)),
                open.push(spec_compose(INITIAL_IEUNG as int, VOWEL_U as int, FINAL_L as int)),
                open.push(spec_compose(INITIAL_IEUNG as int, VOWEL_WEO as int, FINAL_EMPTY as int)),
                open.push(spec_compose(INITIAL_IEUNG as int, VOWEL_WEO as int, FINAL_SS as int)),
            ]
        } else {
            seq![stem]
        }
    }
}

/// Appends `prefix` followed by the character of `b` to `out`.
fn push_form(out: &mut Vec<String>, prefix: &str, b: Block)
    requires
        b.wf(),
    ensures
        final(out).deep_view() == old(out).deep_view().push(prefix@.push(b.spec_char())),
{
    let mut t = prefix.to_owned();
    push_char(&mut t, b.to_char());
    out.push(t);
    proof {
        assert(out.deep_view() =~= old(out).deep_view().push(prefix@.push(b.spec_char())));
    }
}

/// Conjugates the given stem to the list of common surface forms, the
/// unmodified stem first: exactly [`spec_conjugations`] of the stem.
pub fn simple_conjugations_iter(stem: &str) -> (r: Vec<String>)
    ensures
        r.deep_view() == spec_conjugations(stem@),
{
    let mut out: Vec<String> = Vec::new();
    out.push(stem.to_owned());
    proof {
        assert(out.deep_view() =~= seq![stem@]);
    }
    let n = stem.unicode_len();
    if n == 0 {
        return out;
    }
    let last = stem.get_char(n - 1);
    let block = match Block::new(last) {
        Some(block) => block,
        None => {
            proof {
                assert(stem@.last() == last);
            }
            return out;
        },
    };
    let prefix = stem.substring_char(0, n - 1);
    proof {
        assert(prefix@ =~= stem@.drop_last());
        assert(stem@.drop_last().push(last) =~= stem@);
    }
    if block.final_ == FINAL_EMPTY {
        push_form(&mut out, prefix, block.with_final(FINAL_N));
        push_form(&mut out, prefix, block.with_final(FINAL_L));
        push_form(&mut out, prefix, block.with_final(FINAL_B));
        if block.vowel == VOWEL_A {
            push_form(&mut out, prefix, block.with_vowel(VOWEL_AE));
            push_form(&mut out, prefix, block.with_vowel(VOWEL_AE).with_final(FINAL_SS));
        } else if block.vowel == VOWEL_I {
            push_form(&mut out, prefix, block.with_vowel(VOWEL_YEO));
            push_form(&mut out, prefix, block.with_vowel(VOWEL_YEO).with_final(FINAL_SS));
        } else if block.vowel == VOWEL_EU {
            push_form(&mut out, prefix, block.with_vowel(VOWEL_EO));
            push_form(&mut out, prefix, block.with_vowel(VOWEL_EO).with_final(FINAL_SS));
        } else {
            push_form(&mut out, prefix, block.with_final(FINAL_L));
            push_form(&mut out, prefix, block.with_final(FINAL_SS));
        }
    } else if block.final_ == FINAL_L {
        push_form(&mut out, prefix, block.with_final(FINAL_EMPTY));
        push_form(&mut out, prefix, block.with_final(FINAL_N));
    } else if block.final_ == FINAL_B {
        let mut open_end = prefix.to_owned();
        push_char(&mut open_end, block.with_final(FINAL_EMPTY).to_char());
        push_form(&mut out, open_end.as_str(), Block::from_parts(INITIAL_IEUNG, VOWEL_U, FINAL_EMPTY));
        push_form(&mut out, open_end.as_str(), Block::from_parts(INITIAL_IEUNG, VOWEL_U, FINAL_N));
        push_form(&mut out, open_end.as_str(), Block::from_parts(INITIAL_IEUNG, VOWEL_U, FINAL_L));
        push_form(&mut out, open_end.as_str(), Block::from_parts(INITIAL_IEUNG, VOWEL_WEO, FINAL_EMPTY));
        push_form(&mut out, open_end.as_str(), Block::from_parts(INITIAL_IEUNG, VOWEL_WEO, FINAL_SS));
    }
    proof {
        assert(out.deep_view() =~= spec_conjugations(stem@));
    }
    out
}

} // verus!
