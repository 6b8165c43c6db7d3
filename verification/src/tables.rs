//! The fixed Bubble Babble alphabet: six vowels and seventeen consonants.

use vstd::prelude::*;

verus! {

/// The vowel table, by index. Indices outside [0, 6) are never used by the
/// encoder; the function is total for convenience.
pub open spec fn vowel(i: int) -> char {
    if i == 0 {
        'a'
    } else if i == 1 {
        'e'
    } else if i == 2 {
        'i'
    } else if i == 3 {
        'o'
    } else if i == 4 {
        'u'
    } else {
        'y'
    }
}

/// The consonant table, by index. Index 16 is the sentinel 'x', used only for
/// framing and for the terminal round; data rounds only produce indices
/// below 16.
pub open spec fn consonant(i: int) -> char {
    if i == 0 {
        'b'
    } else if i == 1 {
        'c'
    } else if i == 2 {
        'd'
    } else if i == 3 {
        'f'
    } else if i == 4 {
        'g'
    } else if i == 5 {
        'h'
    } else if i == 6 {
        'k'
    } else if i == 7 {
        'l'
    } else if i == 8 {
        'm'
    } else if i == 9 {
        'n'
    } else if i == 10 {
        'p'
    } else if i == 11 {
        'r'
    } else if i == 12 {
        's'
    } else if i == 13 {
        't'
    } else if i == 14 {
        'v'
    } else if i == 15 {
        'z'
    } else {
        'x'
    }
}

/// Whether a character is a decimal digit, as produced by the run-length
/// counters of the stable encoding.
pub open spec fn is_dec_digit(c: char) -> bool {
    c == '0' || c == '1' || c == '2' || c == '3' || c == '4' || c == '5' || c == '6' || c == '7'
        || c == '8' || c == '9'
}

/// The decimal digit character for a value below ten. Values outside [0, 10)
/// are never used; the function is total for convenience.
pub open spec fn digit_char(d: int) -> char {
    if d == 0 {
        '0'
    } else if d == 1 {
        '1'
    } else if d == 2 {
        '2'
    } else if d == 3 {
        '3'
    } else if d == 4 {
        '4'
    } else if d == 5 {
        '5'
    } else if d == 6 {
        '6'
    } else if d == 7 {
        '7'
    } else if d == 8 {
        '8'
    } else {
        '9'
    }
}

/// Look up a decimal digit character.
pub fn digit_char_of(d: usize) -> (c: char)
    requires
        d < 10,
    ensures
        c == digit_char(d as int),
{
    if d == 0 {
        '0'
    } else if d == 1 {
        '1'
    } else if d == 2 {
        '2'
    } else if d == 3 {
        '3'
    } else if d == 4 {
        '4'
    } else if d == 5 {
        '5'
    } else if d == 6 {
        '6'
    } else if d == 7 {
        '7'
    } else if d == 8 {
        '8'
    } else {
        '9'
    }
}

/// Look up a vowel.
pub fn vowel_char(i: usize) -> (c: char)
    requires
        i < 6,
    ensures
        c == vowel(i as int),
{
    if i == 0 {
        'a'
    } else if i == 1 {
        'e'
    } else if i == 2 {
        'i'
    } else if i == 3 {
        'o'
    } else if i == 4 {
        'u'
    } else {
        'y'
    }
}

/// Look up a consonant.
pub fn consonant_char(i: usize) -> (c: char)
    requires
        i < 17,
    ensures
        c == consonant(i as int),
{
    if i == 0 {
        'b'
    } else if i == 1 {
        'c'
    } else if i == 2 {
        'd'
    } else if i == 3 {
        'f'
    } else if i == 4 {
        'g'
    } else if i == 5 {
        'h'
    } else if i == 6 {
        'k'
    } else if i == 7 {
        'l'
    } else if i == 8 {
        'm'
    } else if i == 9 {
        'n'
    } else if i == 10 {
        'p'
    } else if i == 11 {
        'r'
    } else if i == 12 {
        's'
    } else if i == 13 {
        't'
    } else if i == 14 {
        'v'
    } else if i == 15 {
        'z'
    } else {
        'x'
    }
}

/// No letter of either table is the separator '-'.
pub proof fn lemma_alphabet_not_dash(i: int)
    ensures
        vowel(i) != '-',
        consonant(i) != '-',
{
}

/// No letter of either table is a decimal digit.
pub proof fn lemma_alphabet_not_digit(i: int)
    ensures
        !is_dec_digit(vowel(i)),
        !is_dec_digit(consonant(i)),
{
}

/// Only the sentinel index 16 maps to 'x'; data rounds never produce it.
pub proof fn lemma_consonant_not_x(i: int)
    requires
        0 <= i < 16,
    ensures
        consonant(i) != 'x',
{
}

} // verus!
