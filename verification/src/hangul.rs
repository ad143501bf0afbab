//! Hangul syllable blocks.
//!
//! A precomposed Hangul syllable is a single code point in the range
//! `U+AC00 ..= U+D7A3`, determined by an initial consonant (19 classes), a
//! vowel (21 classes) and a final consonant (28 classes, class 0 meaning no
//! final consonant): the code point is
//! `0xAC00 + (initial * 21 + vowel) * 28 + final`.

use vstd::prelude::*;

verus! {

/// Number of initial consonant classes.
pub const INITIAL_COUNT: u32 = 19;

/// Number of vowel classes.
pub const VOWEL_COUNT: u32 = 21;

/// Number of final consonant classes, the class "no final consonant" included.
pub const FINAL_COUNT: u32 = 28;

/// Code point of the first precomposed Hangul syllable, "가".
pub const FIRST_SYLLABLE: u32 = 0xAC00;

/// Code point of the last precomposed Hangul syllable, "힣".
pub const LAST_SYLLABLE: u32 = 0xD7A3;

/// Whether `u` is the code point of a precomposed Hangul syllable.
pub open spec fn is_syllable_code(u: int) -> bool {
    FIRST_SYLLABLE <= u <= LAST_SYLLABLE
}

/// Whether `c` is a precomposed Hangul syllable.
pub open spec fn is_syllable(c: char) -> bool {
    is_syllable_code(c as u32 as int)
}

/// The initial-consonant class of the syllable `c`.
pub open spec fn syl_initial(c: char) -> int {
    (c as u32 - FIRST_SYLLABLE) / (VOWEL_COUNT * FINAL_COUNT) as int
}

/// The vowel class of the syllable `c`.
pub open spec fn syl_vowel(c: char) -> int {
    ((c as u32 - FIRST_SYLLABLE) / FINAL_COUNT as int) % VOWEL_COUNT as int
}

/// The final-consonant class of the syllable `c`.
pub open spec fn syl_final(c: char) -> int {
    (c as u32 - FIRST_SYLLABLE) % FINAL_COUNT as int
}

/// The syllable with initial-consonant class `i`, vowel class `v` and
/// final-consonant class `f`.
pub open spec fn spec_compose(i: int, v: int, f: int) -> char
    recommends
        0 <= i < INITIAL_COUNT,
        0 <= v < VOWEL_COUNT,
        0 <= f < FINAL_COUNT,
{
    ((FIRST_SYLLABLE + (i * VOWEL_COUNT + v) * FINAL_COUNT + f) as u32) as char
}

/// A Hangul syllable block, decomposed into its three components.
#[derive(Clone, Copy, PartialEq, Eq, Structural, Debug)]
pub struct Block {
    /// Initial-consonant class, below [`INITIAL_COUNT`].
    pub initial: u8,
    /// Vowel class, below [`VOWEL_COUNT`].
    pub vowel: u8,
    /// Final-consonant class, below [`FINAL_COUNT`]; `0` means no final
    /// consonant.
    pub final_: u8,
}

/// Relies on `char::from_u32`: for a code point in the Hangul syllable
/// range, which holds no surrogate, it returns the character with exactly
/// that code point.
#[verifier::external_body]
fn syllable_code_to_char(u: u32) -> (c: char)
    requires
        is_syllable_code(u as int),
    ensures
        c as u32 == u,
{
    char::from_u32(u).unwrap()
}

/// Whether `c` is a precomposed Hangul syllable.
pub fn is_hangeul(c: char) -> (r: bool)
    ensures
        r == is_syllable(c),
{
    let u = c as u32;
    FIRST_SYLLABLE <= u && u <= LAST_SYLLABLE
}

impl Block {
    /// The components are within their class counts.
    pub open spec fn wf(self) -> bool {
        self.initial < INITIAL_COUNT && self.vowel < VOWEL_COUNT && self.final_ < FINAL_COUNT
    }

    /// The syllable character this block composes to.
    pub open spec fn spec_char(self) -> char {
        spec_compose(self.initial as int, self.vowel as int, self.final_ as int)
    }

    /// Decomposes a syllable character into its block; `None` when `c` is
    /// not a precomposed Hangul syllable.
    pub fn new(c: char) -> (r: Option<Block>)
        ensures
            r is Some <==> is_syllable(c),
            r matches Some(b) ==> {
                &&& b.wf()
                &&& b.initial == syl_initial(c)
                &&& b.vowel == syl_vowel(c)
                &&& b.final_ == syl_final(c)
                &&& b.spec_char() == c
            },
    {
        let u = c as u32;
        if u < FIRST_SYLLABLE || u > LAST_SYLLABLE {
            None
        } else {
            let rel = u - FIRST_SYLLABLE;
            let initial = rel / (VOWEL_COUNT * FINAL_COUNT);
            let vowel = (rel / FINAL_COUNT) % VOWEL_COUNT;
            let final_ = rel % FINAL_COUNT;
            proof {
                assert(initial < 19 && vowel < 21 && final_ < 28) by (nonlinear_arith)
                    requires
                        rel == u - 0xAC00,
                        0xAC00 <= u <= 0xD7A3,
                        initial == rel / 588,
                        vowel == (rel / 28) % 21,
                        final_ == rel % 28,
                {}
                assert(rel == (initial * 21 + vowel) * 28 + final_) by (nonlinear_arith)
                    requires
                        rel < 11172,
                        initial == rel / 588,
                        vowel == (rel / 28) % 21,
                        final_ == rel % 28,
                {}
                vstd::utf8::char_u32_cast(c, u);
            }
            Some(Block { initial: initial as u8, vowel: vowel as u8, final_: final_ as u8 })
        }
    }

    /// Builds a block from its three components.
    pub fn from_parts(initial: u8, vowel: u8, final_: u8) -> (b: Block)
        requires
            initial < INITIAL_COUNT,
            vowel < VOWEL_COUNT,
            final_ < FINAL_COUNT,
        ensures
            b == (Block { initial, vowel, final_ }),
            b.wf(),
    {
        Block { initial, vowel, final_ }
    }

    /// A copy of this block with the final-consonant class replaced.
    pub fn with_final(self, final_: u8) -> (b: Block)
        requires
            self.wf(),
            final_ < FINAL_COUNT,
        ensures
            b == (Block { final_, ..self }),
            b.wf(),
    {
        Block { final_, ..self }
    }

    /// A copy of this block with the vowel class replaced.
    pub fn with_vowel(self, vowel: u8) -> (b: Block)
        requires
            self.wf(),
            vowel < VOWEL_COUNT,
        ensures
            b == (Block { vowel, ..self }),
            b.wf(),
    {
        Block { vowel, ..self }
    }

    /// Composes this block back into its syllable character.
    pub fn to_char(self) -> (c: char)
        requires
            self.wf(),
        ensures
            c == self.spec_char(),
            is_syllable(c),
            syl_initial(c) == self.initial,
            syl_vowel(c) == self.vowel,
            syl_final(c) == self.final_,
    {
        let u = FIRST_SYLLABLE + (self.initial as u32 * VOWEL_COUNT + self.vowel as u32)
            * FINAL_COUNT + self.final_ as u32;
        proof {
            let rel = (self.initial as int * 21 + self.vowel as int) * 28 + self.final_ as int;
            assert(0 <= rel < 11172 && rel / 588 == self.initial as int && (rel / 28) % 21
                == self.vowel as int && rel % 28 == self.final_ as int) by (nonlinear_arith)
                requires
                    rel == (self.initial as int * 21 + self.vowel as int) * 28 + self.final_ as int,
                    self.initial < 19,
                    self.vowel < 21,
                    self.final_ < 28,
            {}
        }
        syllable_code_to_char(u)
    }
}

} // verus!
