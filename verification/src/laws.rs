//! The library's general laws, proved once and for all inputs: framing,
//! syllable counts, the fidelity of the token view to hyphen splitting,
//! stable-mode positional independence, compression soundness, and the
//! absence of the null word from stable output.

use vstd::prelude::*;
use crate::encoder::{bubble_spec, stable_spec};
use crate::raw::{raw_babble, raw_from, raw_tokens, round_chars, rounds_of, seed_at, syl_open,
    syl_terminal, tok_from};
use crate::stable::{collapse, collapsed_token, decimal, join_dash, lemma_decimal_digits,
    lemma_run_len, lemma_split_dash_concat, lemma_split_dash_whole, no_dash,
    null_word, replace_null, run_len, split_dash};
use crate::tables::{consonant, is_dec_digit, lemma_alphabet_not_dash, lemma_alphabet_not_digit,
    lemma_consonant_not_x, vowel};

verus! {

/// A character sequence free of decimal digits.
pub open spec fn no_digit(s: Seq<char>) -> bool {
    forall|j: int| 0 <= j < s.len() ==> !is_dec_digit(s[j])
}

/// The letters any single round contributes contain no separator and no
/// digit.
proof fn lemma_round_chars_plain(bytes: Seq<u8>, use_seed: bool, i: int)
    ensures
        i + 1 >= rounds_of(bytes.len()) ==> no_dash(round_chars(bytes, use_seed, i)),
        no_dash(syl_open(bytes[2 * i], seed_at(bytes, use_seed, i))),
        no_dash(syl_terminal(seed_at(bytes, use_seed, i))),
        no_digit(round_chars(bytes, use_seed, i)),
        no_digit(syl_open(bytes[2 * i], seed_at(bytes, use_seed, i))),
        no_digit(syl_terminal(seed_at(bytes, use_seed, i))),
{
    assert forall|j: int| true implies !is_dec_digit(vowel(j)) && !is_dec_digit(consonant(j))
        && vowel(j) != '-' && consonant(j) != '-' by {
        lemma_alphabet_not_dash(j);
        lemma_alphabet_not_digit(j);
    }
}

/// Splitting the raw string on '-' yields exactly the token view: each full
/// round ends one token just before its separator, and the frame characters
/// fuse into the first and last tokens.
proof fn lemma_tok_from_split(bytes: Seq<u8>, use_seed: bool, i: int, p: Seq<char>)
    requires
        0 <= i,
        no_dash(p),
    ensures
        split_dash(p + raw_from(bytes, use_seed, i) + seq!['x']) == tok_from(
            bytes,
            use_seed,
            i,
            p,
        ),
    decreases rounds_of(bytes.len()) - i,
{
    let rounds = rounds_of(bytes.len()) as int;
    lemma_round_chars_plain(bytes, use_seed, i);
    if i >= rounds {
        assert(raw_from(bytes, use_seed, i) == Seq::<char>::empty());
        let s = p + raw_from(bytes, use_seed, i) + seq!['x'];
        assert(s =~= p + seq!['x']);
        assert(no_dash(p + seq!['x']));
        lemma_split_dash_whole(p + seq!['x']);
        assert(split_dash(s) =~~= tok_from(bytes, use_seed, i, p));
    } else if i + 1 < rounds {
        let b0 = bytes[2 * i];
        let b1 = bytes[2 * i + 1];
        let seed = seed_at(bytes, use_seed, i);
        let c1 = consonant(((b1 >> 4) & 15) as int);
        let c2 = consonant((b1 & 15) as int);
        let a = p + syl_open(b0, seed) + seq![c1];
        let b = seq![c2] + raw_from(bytes, use_seed, i + 1) + seq!['x'];
        assert(no_dash(a)) by {
            lemma_alphabet_not_dash(((b1 >> 4) & 15) as int);
        }
        assert(no_dash(seq![c2])) by {
            lemma_alphabet_not_dash((b1 & 15) as int);
        }
        assert(p + raw_from(bytes, use_seed, i) + seq!['x'] =~= a + seq!['-'] + b);
        lemma_split_dash_concat(a, b);
        lemma_tok_from_split(bytes, use_seed, i + 1, seq![c2]);
        assert(split_dash(p + raw_from(bytes, use_seed, i) + seq!['x']) =~~= tok_from(
            bytes,
            use_seed,
            i,
            p,
        ));
    } else {
        let p2 = p + round_chars(bytes, use_seed, i);
        assert(no_dash(p2));
        lemma_tok_from_split(bytes, use_seed, i + 1, p2);
        assert(raw_from(bytes, use_seed, i + 1) == Seq::<char>::empty());
        assert(p + raw_from(bytes, use_seed, i) + seq!['x'] =~= p2 + raw_from(
            bytes,
            use_seed,
            i + 1,
        ) + seq!['x']);
    }
}

/// Splitting the raw Bubble Babble string on '-' yields the token view.
/// This pins the stable pipeline's tokenization to the raw string itself.
pub proof fn lemma_raw_tokens_split(bytes: Seq<u8>, use_seed: bool)
    ensures
        split_dash(raw_babble(bytes, use_seed)) == raw_tokens(bytes, use_seed),
{
    lemma_tok_from_split(bytes, use_seed, 0, seq!['x']);
    assert(raw_babble(bytes, use_seed) =~= seq!['x'] + raw_from(bytes, use_seed, 0) + seq!['x']);
}

/// Shape of the token view: one token per remaining round, every token
/// nonempty and digit-free, the first beginning with the carried prefix,
/// the last ending in the frame character, and after a full round the next
/// token beginning with that round's carried consonant.
proof fn lemma_tok_from_shape(bytes: Seq<u8>, use_seed: bool, i: int, p: Seq<char>)
    requires
        0 <= i,
        p.len() >= 1,
        no_digit(p),
    ensures
        tok_from(bytes, use_seed, i, p).len() == (if i < rounds_of(bytes.len()) {
            rounds_of(bytes.len()) - i
        } else {
            1
        }),
        forall|m: int|
            0 <= m < tok_from(bytes, use_seed, i, p).len() ==> (#[trigger] tok_from(
                bytes,
                use_seed,
                i,
                p,
            )[m]).len() >= 1,
        forall|m: int|
            0 <= m < tok_from(bytes, use_seed, i, p).len() ==> no_digit(
                #[trigger] tok_from(bytes, use_seed, i, p)[m],
            ),
        tok_from(bytes, use_seed, i, p)[0][0] == p[0],
        tok_from(bytes, use_seed, i, p).last().last() == 'x',
        i + 1 < rounds_of(bytes.len()) ==> tok_from(bytes, use_seed, i, p)[1][0] == consonant(
            (bytes[2 * i + 1] & 15) as int,
        ),
    decreases rounds_of(bytes.len()) - i,
{
    let rounds = rounds_of(bytes.len()) as int;
    lemma_round_chars_plain(bytes, use_seed, i);
    if i >= rounds {
        assert(no_digit(p + seq!['x']));
        assert((p + seq!['x'])[0] == p[0]);
        assert((p + seq!['x']).last() == 'x');
    } else if i + 1 < rounds {
        let b1 = bytes[2 * i + 1];
        let c2 = consonant((b1 & 15) as int);
        let t0 = p + syl_open(bytes[2 * i], seed_at(bytes, use_seed, i)) + seq![consonant(
            ((b1 >> 4) & 15) as int,
        )];
        assert(no_digit(t0)) by {
            lemma_alphabet_not_digit(((b1 >> 4) & 15) as int);
        }
        assert(no_digit(seq![c2])) by {
            lemma_alphabet_not_digit((b1 & 15) as int);
        }
        lemma_tok_from_shape(bytes, use_seed, i + 1, seq![c2]);
        let rest = tok_from(bytes, use_seed, i + 1, seq![c2]);
        let whole = tok_from(bytes, use_seed, i, p);
        assert(whole == seq![t0] + rest);
        assert(whole[0] == t0);
        assert(whole[0][0] == p[0]);
        assert(whole.last() == rest.last());
        assert(whole[1] == rest[0]);
        assert(whole[1][0] == c2);
        assert forall|m: int| 0 <= m < whole.len() implies (#[trigger] whole[m]).len() >= 1
            && no_digit(whole[m]) by {
            if m >= 1 {
                assert(whole[m] == rest[m - 1]);
            }
        }
    } else {
        let p2 = p + round_chars(bytes, use_seed, i);
        assert(no_digit(p2));
        assert(p2[0] == p[0]);
        lemma_tok_from_shape(bytes, use_seed, i + 1, p2);
    }
}

/// Framing: the checksummed encoding always starts and ends with 'x'.
pub proof fn lemma_bubble_framed(bytes: Seq<u8>)
    ensures
        bubble_spec(bytes).len() >= 2,
        bubble_spec(bytes)[0] == 'x',
        bubble_spec(bytes).last() == 'x',
{
    assert(bubble_spec(bytes)[0] == 'x');
    assert(bubble_spec(bytes).last() == 'x');
}

/// The number of raw syllables (hyphen-split tokens of the raw string,
/// before any stable-mode compression) is exactly `len / 2 + 1`, which is
/// the rounded-up half of `len + 1`.
pub proof fn lemma_syllable_count(bytes: Seq<u8>, use_seed: bool)
    ensures
        split_dash(raw_babble(bytes, use_seed)).len() == bytes.len() / 2 + 1,
        split_dash(raw_babble(bytes, use_seed)).len() == (bytes.len() + 2) / 2,
{
    lemma_raw_tokens_split(bytes, use_seed);
    lemma_tok_from_shape(bytes, use_seed, 0, seq!['x']);
}

/// Stable mode pins the seed: from the second round on it is zero, so no
/// round's letters depend on it.
pub proof fn lemma_stable_seed_zero(bytes: Seq<u8>, i: int)
    requires
        1 <= i,
    ensures
        seed_at(bytes, false, i) == 0,
{
}

/// Positional independence of stable mode: the letters a round contributes
/// depend only on that round's own bytes, never on what precedes them. Two
/// inputs that agree on a round's bytes (and on whether the round is full)
/// get identical letters for it.
pub proof fn lemma_stable_round_content_only(b1: Seq<u8>, b2: Seq<u8>, i: int)
    requires
        0 <= i,
        2 * i < b1.len(),
        2 * i < b2.len(),
        b1[2 * i] == b2[2 * i],
        (2 * i + 1 < b1.len()) <==> (2 * i + 1 < b2.len()),
        2 * i + 1 < b1.len() ==> b1[2 * i + 1] == b2[2 * i + 1],
    ensures
        round_chars(b1, false, i) == round_chars(b2, false, i),
{
    if i >= 1 {
        lemma_stable_seed_zero(b1, i);
        lemma_stable_seed_zero(b2, i);
    }
    let r1 = rounds_of(b1.len()) as int;
    let r2 = rounds_of(b2.len()) as int;
    assert(i < r1 && i < r2);
    assert((i + 1 < r1) <==> (2 * i + 1 < b1.len()));
    assert((i + 1 < r2) <==> (2 * i + 1 < b2.len()));
    if !(2 * i + 1 < b1.len()) {
        assert(2 * i + 1 == b1.len() && b1.len() % 2 == 1);
        assert(2 * i + 1 == b2.len() && b2.len() % 2 == 1);
    }
}

/// Joining keeps the first token's first character in front.
proof fn lemma_join_dash_first(cs: Seq<Seq<char>>)
    requires
        cs.len() >= 1,
        cs[0].len() >= 1,
    ensures
        join_dash(cs).len() >= 1,
        join_dash(cs)[0] == cs[0][0],
{
}

/// Joining keeps the last token's last character at the end.
proof fn lemma_join_dash_last(cs: Seq<Seq<char>>)
    requires
        cs.len() >= 1,
        cs.last().len() >= 1,
    ensures
        join_dash(cs).len() >= 1,
        join_dash(cs).last() == cs.last().last(),
    decreases cs.len(),
{
    if cs.len() > 1 {
        let d = cs.drop_first();
        assert(d.last() == cs.last());
        lemma_join_dash_last(d);
    }
}

/// Collapsing keeps the last token's last character: a count prefix only
/// ever goes in front.
proof fn lemma_collapse_last(ts: Seq<Seq<char>>)
    requires
        ts.len() >= 1,
        ts.last().len() >= 1,
    ensures
        collapse(ts).len() >= 1,
        collapse(ts).last().len() >= 1,
        collapse(ts).last().last() == ts.last().last(),
    decreases ts.len(),
{
    lemma_run_len(ts);
    let k = run_len(ts) as int;
    let e0 = collapsed_token(k, ts[0]);
    let rest = ts.skip(k);
    if k == ts.len() {
        assert(ts[ts.len() - 1] == ts[0]);
        assert(ts.last() == ts[0]);
        assert(rest.len() == 0);
        assert(collapse(rest) == Seq::<Seq<char>>::empty());
        assert(collapse(ts) =~~= seq![e0]);
        if k > 1 {
            assert(e0 == decimal(k) + ts[0]);
            assert(e0.last() == ts[0].last());
        }
    } else {
        assert(rest.last() == ts.last());
        lemma_collapse_last(rest);
        assert(collapse(ts).last() == collapse(rest).last());
    }
}

/// Replacement keeps a first character other than 'b' in place: the null
/// word starts with 'b', so no match can begin there.
proof fn lemma_replace_first(s: Seq<char>)
    requires
        s.len() >= 1,
        s[0] != 'b',
    ensures
        replace_null(s).len() >= 1,
        replace_null(s)[0] == s[0],
{
    if s.len() >= 5 {
        assert(s.subrange(0, 5)[0] == s[0]);
        assert(s.subrange(0, 5) != null_word());
    }
}

/// Replacement keeps a last character other than 'b' in place: the null
/// word ends with 'b', so no match can reach it.
proof fn lemma_replace_last(s: Seq<char>)
    requires
        s.len() >= 1,
        s.last() != 'b',
    ensures
        replace_null(s).len() >= 1,
        replace_null(s).last() == s.last(),
    decreases s.len(),
{
    if s.len() < 5 {
    } else if s.subrange(0, 5) == null_word() {
        if s.len() == 5 {
            assert(s.subrange(0, 5)[4] == s.last());
            assert(false);
        }
        let rest = s.skip(5);
        assert(rest.last() == s.last());
        lemma_replace_last(rest);
        assert(replace_null(s).last() == replace_null(rest).last());
    } else {
        let rest = s.skip(1);
        assert(rest.last() == s.last());
        lemma_replace_last(rest);
        assert(replace_null(s).last() == replace_null(rest).last());
    }
}

/// Framing: the stable encoding always starts and ends with 'x'. The first
/// token keeps the leading frame character because its run never extends (a
/// second token starts with a data consonant, never 'x'), and neither a
/// count prefix nor the null-word substitution touches either end.
pub proof fn lemma_stable_framed(bytes: Seq<u8>)
    ensures
        stable_spec(bytes).len() >= 1,
        stable_spec(bytes)[0] == 'x',
        stable_spec(bytes).last() == 'x',
{
    let ts = raw_tokens(bytes, false);
    lemma_raw_tokens_split(bytes, false);
    lemma_tok_from_shape(bytes, false, 0, seq!['x']);
    assert(ts[0][0] == 'x');
    assert(ts.last().last() == 'x');
    if ts.len() >= 2 {
        let bv = bytes[1];
        let ci = (bv & 15) as int;
        assert(bv & 15 < 16) by (bit_vector);
        lemma_consonant_not_x(ci);
        assert(ts[1][0] == consonant(ci));
        assert(ts[1] != ts[0]);
    }
    assert(run_len(ts) == 1);
    let cs = collapse(ts);
    assert(cs[0] == collapsed_token(1, ts[0]));
    assert(cs[0] == ts[0]);
    lemma_collapse_last(ts);
    lemma_join_dash_first(cs);
    lemma_join_dash_last(cs);
    let joined = join_dash(cs);
    lemma_replace_first(joined);
    lemma_replace_last(joined);
}

/// Every maximal run of equal tokens shows up in the collapsed sequence as
/// exactly its collapsed token: the run's count, then the token.
proof fn lemma_collapse_run(ts: Seq<Seq<char>>, r: int)
    requires
        0 <= r < ts.len(),
        r == 0 || ts[r] != ts[r - 1],
    ensures
        collapse(ts).contains(collapsed_token(run_len(ts.skip(r)) as int, ts[r])),
    decreases ts.len(),
{
    lemma_run_len(ts);
    let k = run_len(ts) as int;
    if r == 0 {
        assert(ts.skip(0) =~~= ts);
        assert(collapse(ts)[0] == collapsed_token(k, ts[0]));
        assert(collapse(ts).contains(collapsed_token(run_len(ts.skip(r)) as int, ts[r])));
    } else {
        if r < k {
            assert(ts[r] == ts[0]);
            assert(ts[r - 1] == ts[0]);
            assert(false);
        }
        let rest = ts.skip(k);
        assert(rest[r - k] == ts[r]);
        if r - k > 0 {
            assert(rest[r - k - 1] == ts[r - 1]);
        }
        lemma_collapse_run(rest, r - k);
        assert(rest.skip(r - k) =~~= ts.skip(r));
        let x = collapsed_token(run_len(ts.skip(r)) as int, ts[r]);
        let widx = choose|idx: int| 0 <= idx < collapse(rest).len() && collapse(rest)[idx] == x;
        assert(collapse(ts)[widx + 1] == x);
        assert(collapse(ts).contains(x));
    }
}

/// Two adjacent maximal runs collapse to different tokens: the underlying
/// tokens differ, and a digit count prefix can never mask that against
/// digit-free tokens.
proof fn lemma_collapsed_token_ne(k0: int, u0: Seq<char>, k1: int, u1: Seq<char>)
    requires
        k0 >= 1,
        k1 >= 1,
        u0.len() >= 1,
        u1.len() >= 1,
        !is_dec_digit(u0[0]),
        !is_dec_digit(u1[0]),
        u0 != u1,
    ensures
        collapsed_token(k0, u0) != collapsed_token(k1, u1),
{
    let e0 = collapsed_token(k0, u0);
    let e1 = collapsed_token(k1, u1);
    lemma_decimal_digits(k0);
    lemma_decimal_digits(k1);
    if e0 == e1 {
        if k0 > 1 && k1 > 1 {
            let d0 = decimal(k0).len() as int;
            let d1 = decimal(k1).len() as int;
            if d0 == d1 {
                assert(e0.skip(d0) =~= u0);
                assert(e1.skip(d1) =~= u1);
                assert(false);
            } else if d0 < d1 {
                assert(e0[d0] == u0[0]);
                assert(e1[d0] == decimal(k1)[d0]);
                assert(false);
            } else {
                assert(e1[d1] == u1[0]);
                assert(e0[d1] == decimal(k0)[d1]);
                assert(false);
            }
        } else if k0 > 1 {
            assert(e0[0] == decimal(k0)[0]);
            assert(e1[0] == u1[0]);
            assert(false);
        } else if k1 > 1 {
            assert(e1[0] == decimal(k1)[0]);
            assert(e0[0] == u0[0]);
            assert(false);
        }
    }
}

/// After collapsing, no two adjacent tokens are equal: every run is
/// maximal, so compression leaves nothing adjacent uncompressed.
proof fn lemma_collapse_no_adjacent(ts: Seq<Seq<char>>)
    requires
        forall|m: int|
            0 <= m < ts.len() ==> (#[trigger] ts[m]).len() >= 1 && !is_dec_digit(ts[m][0]),
    ensures
        forall|m: int|
            0 <= m && m + 1 < collapse(ts).len() ==> #[trigger] collapse(ts)[m] != collapse(
                ts,
            )[m + 1],
    decreases ts.len(),
{
    if ts.len() > 0 {
        lemma_run_len(ts);
        let k = run_len(ts) as int;
        let rest = ts.skip(k);
        assert forall|m: int|
            0 <= m < rest.len() implies (#[trigger] rest[m]).len() >= 1 && !is_dec_digit(
            rest[m][0],
        ) by {
            assert(rest[m] == ts[m + k]);
        }
        lemma_collapse_no_adjacent(rest);
        assert forall|m: int|
            0 <= m && m + 1 < collapse(ts).len() implies #[trigger] collapse(ts)[m] != collapse(
            ts,
        )[m + 1] by {
            if m == 0 {
                if rest.len() == 0 {
                    assert(collapse(rest) =~~= Seq::<Seq<char>>::empty());
                    assert(false);
                }
                lemma_run_len(rest);
                assert(collapse(rest)[0] == collapsed_token(run_len(rest) as int, rest[0]));
                assert(rest[0] == ts[k]);
                assert(ts[k] != ts[0]);
                lemma_collapsed_token_ne(k, ts[0], run_len(rest) as int, rest[0]);
                assert(collapse(ts)[1] == collapse(rest)[0]);
            } else {
                assert(collapse(ts)[m] == collapse(rest)[m - 1]);
                assert(collapse(ts)[m + 1] == collapse(rest)[m]);
            }
        }
    }
}

/// Compression correctness for the stable encoding: over the raw tokens of
/// any input, each maximal run of equal syllables appears collapsed as its
/// count followed by the syllable, and no two adjacent collapsed tokens are
/// equal.
pub proof fn lemma_stable_compression(bytes: Seq<u8>, r: int)
    requires
        0 <= r < split_dash(raw_babble(bytes, false)).len(),
        r == 0 || split_dash(raw_babble(bytes, false))[r] != split_dash(
            raw_babble(bytes, false),
        )[r - 1],
    ensures
        collapse(split_dash(raw_babble(bytes, false))).contains(
            collapsed_token(
                run_len(split_dash(raw_babble(bytes, false)).skip(r)) as int,
                split_dash(raw_babble(bytes, false))[r],
            ),
        ),
        forall|m: int|
            0 <= m && m + 1 < collapse(split_dash(raw_babble(bytes, false))).len()
                ==> #[trigger] collapse(split_dash(raw_babble(bytes, false)))[m] != collapse(
                split_dash(raw_babble(bytes, false)),
            )[m + 1],
{
    let ts = split_dash(raw_babble(bytes, false));
    lemma_raw_tokens_split(bytes, false);
    lemma_tok_from_shape(bytes, false, 0, seq!['x']);
    assert forall|m: int|
        0 <= m < ts.len() implies (#[trigger] ts[m]).len() >= 1 && !is_dec_digit(ts[m][0]) by {
        assert(no_digit(ts[m]));
    }
    lemma_collapse_run(ts, r);
    lemma_collapse_no_adjacent(ts);
}

/// Every token appears in the joined string as a contiguous substring.
proof fn lemma_join_dash_contains(cs: Seq<Seq<char>>, m: int)
    requires
        0 <= m < cs.len(),
    ensures
        exists|off: int|
            0 <= off && off + cs[m].len() <= join_dash(cs).len() && #[trigger] join_dash(
                cs,
            ).subrange(off, off + cs[m].len()) == cs[m],
    decreases cs.len(),
{
    if m == 0 {
        assert(join_dash(cs).subrange(0, 0 + cs[0].len() as int) =~= cs[0]);
        assert(join_dash(cs).subrange(0, 0 + cs[m].len() as int) == cs[m]);
    } else {
        let df = cs.drop_first();
        lemma_join_dash_contains(df, m - 1);
        let off1 = choose|off: int|
            0 <= off && off + df[m - 1].len() <= join_dash(df).len() && #[trigger] join_dash(
                df,
            ).subrange(off, off + df[m - 1].len()) == df[m - 1];
        let off = cs[0].len() + 1 + off1;
        assert(df[m - 1] == cs[m]);
        assert(join_dash(cs).subrange(off, off + cs[m].len()) =~= join_dash(df).subrange(
            off1,
            off1 + df[m - 1].len(),
        ));
        assert(join_dash(cs).subrange(off, off + cs[m].len()) == cs[m]);
    }
}

/// Compression correctness on the joined string: each maximal run's
/// collapsed word — its count, then its syllable — stands in the compressed
/// output as a contiguous substring.
pub proof fn lemma_stable_run_substring(bytes: Seq<u8>, r: int)
    requires
        0 <= r < split_dash(raw_babble(bytes, false)).len(),
        r == 0 || split_dash(raw_babble(bytes, false))[r] != split_dash(
            raw_babble(bytes, false),
        )[r - 1],
    ensures
        exists|off: int|
            0 <= off && off + collapsed_token(
                run_len(split_dash(raw_babble(bytes, false)).skip(r)) as int,
                split_dash(raw_babble(bytes, false))[r],
            ).len() <= join_dash(collapse(split_dash(raw_babble(bytes, false)))).len()
                && #[trigger] join_dash(collapse(split_dash(raw_babble(bytes, false)))).subrange(
                off,
                off + collapsed_token(
                    run_len(split_dash(raw_babble(bytes, false)).skip(r)) as int,
                    split_dash(raw_babble(bytes, false))[r],
                ).len(),
            ) == collapsed_token(
                run_len(split_dash(raw_babble(bytes, false)).skip(r)) as int,
                split_dash(raw_babble(bytes, false))[r],
            ),
{
    let ts = split_dash(raw_babble(bytes, false));
    let x = collapsed_token(run_len(ts.skip(r)) as int, ts[r]);
    lemma_stable_compression(bytes, r);
    let m = choose|m: int| 0 <= m < collapse(ts).len() && collapse(ts)[m] == x;
    lemma_join_dash_contains(collapse(ts), m);
    let off = choose|off: int|
        0 <= off && off + collapse(ts)[m].len() <= join_dash(collapse(ts)).len()
            && #[trigger] join_dash(collapse(ts)).subrange(off, off + collapse(ts)[m].len())
            == collapse(ts)[m];
    assert(join_dash(collapse(ts)).subrange(off, off + x.len()) == x);
}

/// If the head of a replacement result contains no 'w', it is an untouched
/// copy of the input's head: any match would have placed a 'w' there.
proof fn lemma_replace_head(t: Seq<char>, k: int)
    requires
        0 <= k,
    ensures
        replace_null(t).len() >= k ==> (exists|j: int|
            0 <= j < k && #[trigger] replace_null(t)[j] == 'w') || (t.len() >= k && replace_null(
            t,
        ).subrange(0, k) == t.subrange(0, k)),
    decreases t.len(),
{
    if k == 0 {
        assert(replace_null(t).subrange(0, 0) =~= t.subrange(0, 0));
    } else if t.len() < 5 {
        assert(replace_null(t) == t);
        if replace_null(t).len() >= k {
            assert(t.len() >= k);
            assert(replace_null(t).subrange(0, k) == t.subrange(0, k));
        }
    } else if t.subrange(0, 5) == null_word() {
        assert(replace_null(t)[0] == 'w');
    } else {
        let t1 = t.skip(1);
        lemma_replace_head(t1, k - 1);
        if replace_null(t).len() >= k {
            assert(replace_null(t) == seq![t[0]] + replace_null(t1));
            assert(replace_null(t1).len() >= k - 1);
            if exists|j: int| 0 <= j < k - 1 && #[trigger] replace_null(t1)[j] == 'w' {
                let j = choose|j: int| 0 <= j < k - 1 && #[trigger] replace_null(t1)[j] == 'w';
                assert(replace_null(t)[j + 1] == 'w');
            } else {
                assert(t1.len() >= k - 1 && replace_null(t1).subrange(0, k - 1) == t1.subrange(
                    0,
                    k - 1,
                ));
                assert forall|j: int| 0 <= j < k implies replace_null(t)[j] == t[j] by {
                    if j >= 1 {
                        assert(replace_null(t1).subrange(0, k - 1)[j - 1] == replace_null(
                            t1,
                        )[j - 1]);
                        assert(t1.subrange(0, k - 1)[j - 1] == t1[j - 1]);
                        assert(t1[j - 1] == t[j]);
                    }
                }
                assert(replace_null(t).subrange(0, k) =~= t.subrange(0, k));
            }
        }
    }
}

/// The replacement result never contains the null word: matches are
/// consumed, and the shorthand's 'w' cannot take part in one.
proof fn lemma_replace_no_null(s: Seq<char>)
    ensures
        forall|p: int|
            0 <= p && p + 5 <= replace_null(s).len() ==> #[trigger] replace_null(s).subrange(
                p,
                p + 5,
            ) != null_word(),
    decreases s.len(),
{
    let r = replace_null(s);
    if s.len() < 5 {
    } else if s.subrange(0, 5) == null_word() {
        let rest = s.skip(5);
        lemma_replace_no_null(rest);
        assert forall|p: int| 0 <= p && p + 5 <= r.len() implies #[trigger] r.subrange(p, p + 5)
            != null_word() by {
            if p == 0 {
                assert(r.subrange(0, 5)[0] == 'w');
            } else if p == 1 {
                assert(r.subrange(1, 6)[0] == 'a');
            } else {
                assert(r.subrange(p, p + 5) =~= replace_null(rest).subrange(p - 2, p - 2 + 5));
            }
        }
    } else {
        let s1 = s.skip(1);
        lemma_replace_no_null(s1);
        assert forall|p: int| 0 <= p && p + 5 <= r.len() implies #[trigger] r.subrange(p, p + 5)
            != null_word() by {
            if p >= 1 {
                assert(r.subrange(p, p + 5) =~= replace_null(s1).subrange(p - 1, p - 1 + 5));
            } else {
                if r.subrange(0, 5) == null_word() {
                    assert(r[0] == s[0]);
                    assert(r.subrange(0, 5)[0] == 'b');
                    lemma_replace_head(s1, 4);
                    assert(replace_null(s1).len() >= 4);
                    if exists|j: int| 0 <= j < 4 && #[trigger] replace_null(s1)[j] == 'w' {
                        let j = choose|j: int|
                            0 <= j < 4 && #[trigger] replace_null(s1)[j] == 'w';
                        assert(r.subrange(0, 5)[j + 1] == 'w');
                        assert(false);
                    } else {
                        assert(s1.len() >= 4);
                        assert(replace_null(s1).subrange(0, 4) == s1.subrange(0, 4));
                        assert(s.subrange(0, 5) =~= seq![s[0]] + s1.subrange(0, 4));
                        assert(r.subrange(0, 5) =~= seq![s[0]] + replace_null(s1).subrange(0, 4));
                        assert(s.subrange(0, 5) == null_word());
                        assert(false);
                    }
                }
            }
        }
    }
}

/// The literal "babab" never appears in final stable-mode output: every
/// occurrence has been replaced by "wa".
pub proof fn lemma_stable_no_null_word(bytes: Seq<u8>)
    ensures
        forall|p: int|
            0 <= p && p + 5 <= stable_spec(bytes).len() ==> #[trigger] stable_spec(bytes).subrange(
                p,
                p + 5,
            ) != null_word(),
{
    lemma_replace_no_null(join_dash(collapse(split_dash(raw_babble(bytes, false)))));
}

} // verus!
