//! The raw Bubble Babble encoding: the per-round syllable construction and
//! the checksum seed recurrence, before any stable-mode post-processing.

use vstd::prelude::*;
use crate::tables::{consonant, consonant_char, is_dec_digit, lemma_alphabet_not_dash,
    lemma_alphabet_not_digit, vowel, vowel_char};

verus! {

/// Number of encoding rounds for an input of the given length: one round per
/// byte pair, plus one for the odd tail byte or the terminal syllable.
pub open spec fn rounds_of(len: nat) -> nat {
    len / 2 + 1
}

/// The checksum recurrence: a completed full round tumbles its two bytes into
/// the seed.
pub open spec fn seed_next(seed: int, b0: u8, b1: u8) -> int {
    (seed * 5 + b0 * 7 + b1) % 36
}

/// The seed entering round `i`. It starts at 1; in checksum mode every
/// completed full round tumbles it, while in stable mode it is pinned to 0
/// from the second round on.
pub open spec fn seed_at(bytes: Seq<u8>, use_seed: bool, i: int) -> int
    decreases i,
{
    if i <= 0 {
        1
    } else if use_seed {
        seed_next(seed_at(bytes, use_seed, i - 1), bytes[2 * (i - 1)], bytes[2 * (i - 1) + 1])
    } else {
        0
    }
}

/// The seed always stays in [0, 36), so its two digits index the vowel table.
pub proof fn lemma_seed_in_range(bytes: Seq<u8>, use_seed: bool, i: int)
    ensures
        0 <= seed_at(bytes, use_seed, i) < 36,
    decreases i,
{
    if i <= 0 {
    } else if use_seed {
        lemma_seed_in_range(bytes, use_seed, i - 1);
    }
}

/// The three letters every data round opens with: vowel, consonant, vowel,
/// sliced out of the round's first byte and mixed with the seed.
pub open spec fn syl_open(b0: u8, seed: int) -> Seq<char> {
    seq![
        vowel((((b0 >> 6) & 3) + seed) % 6),
        consonant(((b0 >> 2) & 15) as int),
        vowel(((b0 & 3) + seed / 6) % 6),
    ]
}

/// The closing letters of a full round, from its second byte: consonant,
/// separator, consonant.
pub open spec fn syl_close(b1: u8) -> Seq<char> {
    seq![consonant(((b1 >> 4) & 15) as int), '-', consonant((b1 & 15) as int)]
}

/// The terminal syllable emitted when the length is even: a pure function of
/// the seed, marked by the sentinel consonant 'x'.
pub open spec fn syl_terminal(seed: int) -> Seq<char> {
    seq![vowel(seed % 6), consonant(16), vowel(seed / 6)]
}

/// The letters contributed by round `i` alone: a full round for a byte pair,
/// the three-letter tail for an odd final byte, or the terminal syllable.
pub open spec fn round_chars(bytes: Seq<u8>, use_seed: bool, i: int) -> Seq<char> {
    let rounds = rounds_of(bytes.len()) as int;
    if i < 0 || i >= rounds {
        Seq::empty()
    } else if i + 1 < rounds {
        syl_open(bytes[2 * i], seed_at(bytes, use_seed, i)) + syl_close(bytes[2 * i + 1])
    } else if bytes.len() % 2 == 1 {
        syl_open(bytes[2 * i], seed_at(bytes, use_seed, i))
    } else {
        syl_terminal(seed_at(bytes, use_seed, i))
    }
}

/// The letters contributed by rounds `i`, `i + 1`, ... of the raw encoding.
pub open spec fn raw_from(bytes: Seq<u8>, use_seed: bool, i: int) -> Seq<char>
    decreases rounds_of(bytes.len()) - i,
{
    let rounds = rounds_of(bytes.len()) as int;
    if i < 0 || i >= rounds {
        Seq::empty()
    } else {
        round_chars(bytes, use_seed, i) + raw_from(bytes, use_seed, i + 1)
    }
}

/// The full raw Bubble Babble string: every round's letters, framed by 'x'.
pub open spec fn raw_babble(bytes: Seq<u8>, use_seed: bool) -> Seq<char> {
    seq!['x'] + raw_from(bytes, use_seed, 0) + seq!['x']
}

/// The hyphen-delimited tokens of the raw encoding from round `i` on, with
/// `p` the characters carried since the last separator. The leading frame
/// character fuses into the first real token, and the final round's letters
/// fuse with the trailing frame character into the last one.
pub open spec fn tok_from(bytes: Seq<u8>, use_seed: bool, i: int, p: Seq<char>) -> Seq<Seq<char>>
    decreases rounds_of(bytes.len()) - i,
{
    let rounds = rounds_of(bytes.len()) as int;
    if i < 0 || i >= rounds {
        seq![p + seq!['x']]
    } else if i + 1 < rounds {
        seq![p + syl_open(bytes[2 * i], seed_at(bytes, use_seed, i)) + seq![consonant(
            ((bytes[2 * i + 1] >> 4) & 15) as int,
        )]] + tok_from(bytes, use_seed, i + 1, seq![consonant((bytes[2 * i + 1] & 15) as int)])
    } else {
        tok_from(bytes, use_seed, i + 1, p + round_chars(bytes, use_seed, i))
    }
}

/// The token view of the whole raw encoding.
pub open spec fn raw_tokens(bytes: Seq<u8>, use_seed: bool) -> Seq<Seq<char>> {
    tok_from(bytes, use_seed, 0, seq!['x'])
}

/// Build the raw encoding of `bytes` as a character vector.
pub fn raw_chars(bytes: &[u8], use_seed: bool) -> (out: Vec<char>)
    ensures
        out@ == raw_babble(bytes@, use_seed),
{
    let len = bytes.len();
    let rounds: usize = len / 2 + 1;
    let mut out: Vec<char> = Vec::new();
    let mut seed: usize = 1;
    out.push('x');
    let mut i: usize = 0;
    while i < rounds
        invariant
            len == bytes@.len(),
            rounds == rounds_of(bytes@.len()),
            i <= rounds,
            i < rounds ==> seed == seed_at(bytes@, use_seed, i as int),
            out@ + raw_from(bytes@, use_seed, i as int) == seq!['x'] + raw_from(
                bytes@,
                use_seed,
                0,
            ),
        decreases rounds - i,
    {
        proof {
            lemma_seed_in_range(bytes@, use_seed, i as int);
            assert(raw_from(bytes@, use_seed, i as int) == round_chars(bytes@, use_seed, i as int)
                + raw_from(bytes@, use_seed, i as int + 1));
        }
        let ghost out_entry = out@;
        if i + 1 < rounds || len % 2 == 1 {
            let b0 = bytes[2 * i];
            proof {
                assert(((b0 >> 2) & 15) < 16) by (bit_vector);
            }
            let v0 = ((((b0 >> 6) & 3) as usize) + seed) % 6;
            let c0 = ((b0 >> 2) & 15) as usize;
            let v1 = (((b0 & 3) as usize) + seed / 6) % 6;
            out.push(vowel_char(v0));
            out.push(consonant_char(c0));
            out.push(vowel_char(v1));
            if i + 1 < rounds {
                let b1 = bytes[2 * i + 1];
                proof {
                    assert(((b1 >> 4) & 15) < 16 && (b1 & 15) < 16) by (bit_vector);
                }
                out.push(consonant_char(((b1 >> 4) & 15) as usize));
                out.push('-');
                out.push(consonant_char((b1 & 15) as usize));
                proof {
                    assert(out@ =~= out_entry + syl_open(bytes@[2 * i as int], seed_at(
                        bytes@,
                        use_seed,
                        i as int,
                    )) + syl_close(bytes@[2 * i as int + 1]));
                }
                seed = if use_seed {
                    (seed * 5 + (b0 as usize) * 7 + (b1 as usize)) % 36
                } else {
                    0
                };
            } else {
                proof {
                    assert(out@ =~= out_entry + syl_open(bytes@[2 * i as int], seed_at(
                        bytes@,
                        use_seed,
                        i as int,
                    )));
                }
            }
        } else {
            out.push(vowel_char(seed % 6));
            out.push(consonant_char(16));
            out.push(vowel_char(seed / 6));
            proof {
                assert(out@ =~= out_entry + syl_terminal(seed_at(bytes@, use_seed, i as int)));
            }
        }
        proof {
            assert(out@ + raw_from(bytes@, use_seed, i as int + 1) =~= out_entry + raw_from(
                bytes@,
                use_seed,
                i as int,
            ));
        }
        i = i + 1;
    }
    proof {
        assert(raw_from(bytes@, use_seed, rounds as int) == Seq::<char>::empty());
        assert(out@ =~= seq!['x'] + raw_from(bytes@, use_seed, 0));
    }
    out.push('x');
    proof {
        assert(out@ =~= raw_babble(bytes@, use_seed));
    }
    out
}

} // verus!
