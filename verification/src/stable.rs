//! Stable-mode post-processing: split the raw string on '-', run-length
//! collapse equal tokens with a decimal count prefix, rejoin, and replace
//! every "babab" null word with the "wa" shorthand.

use vstd::prelude::*;
use crate::tables::{digit_char, is_dec_digit};

verus! {

/// A character sequence free of the separator.
pub open spec fn no_dash(s: Seq<char>) -> bool {
    forall|j: int| 0 <= j < s.len() ==> s[j] != '-'
}

/// Split a character sequence on '-' separators. Splitting always yields at
/// least one (possibly empty) token.
pub open spec fn split_dash(s: Seq<char>) -> Seq<Seq<char>>
    decreases s.len(),
{
    if s.len() == 0 {
        seq![Seq::<char>::empty()]
    } else {
        let rest = split_dash(s.drop_last());
        if s.last() == '-' {
            rest.push(Seq::<char>::empty())
        } else {
            rest.update(rest.len() - 1, rest.last().push(s.last()))
        }
    }
}

pub proof fn lemma_split_dash_len_pos(s: Seq<char>)
    ensures
        split_dash(s).len() >= 1,
    decreases s.len(),
{
    if s.len() > 0 {
        lemma_split_dash_len_pos(s.drop_last());
    }
}

/// A separator-free sequence is a single token.
pub proof fn lemma_split_dash_whole(s: Seq<char>)
    requires
        no_dash(s),
    ensures
        split_dash(s) == seq![s],
    decreases s.len(),
{
    if s.len() == 0 {
        assert(split_dash(s) =~~= seq![s]);
    } else {
        assert(no_dash(s.drop_last()));
        lemma_split_dash_whole(s.drop_last());
        assert(s.drop_last().push(s.last()) =~= s);
        assert(split_dash(s) =~~= seq![s]);
    }
}

/// Splitting distributes over a separator that follows a separator-free
/// prefix.
pub proof fn lemma_split_dash_concat(a: Seq<char>, b: Seq<char>)
    requires
        no_dash(a),
    ensures
        split_dash(a + seq!['-'] + b) == seq![a] + split_dash(b),
    decreases b.len(),
{
    if b.len() == 0 {
        assert((a + seq!['-'] + b) =~= a.push('-'));
        assert(a.push('-').drop_last() =~= a);
        lemma_split_dash_whole(a);
        assert(split_dash(a + seq!['-'] + b) =~~= seq![a] + split_dash(b));
    } else {
        let s = a + seq!['-'] + b;
        assert(s.last() == b.last());
        assert(s.drop_last() =~= a + seq!['-'] + b.drop_last());
        lemma_split_dash_concat(a, b.drop_last());
        lemma_split_dash_len_pos(b.drop_last());
        if b.last() == '-' {
            assert(split_dash(s) =~~= seq![a] + split_dash(b));
        } else {
            let rest = split_dash(b.drop_last());
            assert((seq![a] + rest).last() == rest.last());
            assert(split_dash(s) =~~= seq![a] + split_dash(b));
        }
    }
}

/// Length of the leading run of equal tokens.
pub open spec fn run_len(ts: Seq<Seq<char>>) -> nat
    decreases ts.len(),
{
    if ts.len() == 0 {
        0
    } else if ts.len() >= 2 && ts[1] == ts[0] {
        1 + run_len(ts.drop_first())
    } else {
        1
    }
}

/// The leading run is nonempty, consists of copies of the first token, and is
/// maximal.
pub proof fn lemma_run_len(ts: Seq<Seq<char>>)
    requires
        ts.len() > 0,
    ensures
        1 <= run_len(ts) <= ts.len(),
        forall|j: int| 0 <= j < run_len(ts) ==> #[trigger] ts[j] == ts[0],
        run_len(ts) < ts.len() ==> ts[run_len(ts) as int] != ts[0],
    decreases ts.len(),
{
    if ts.len() >= 2 && ts[1] == ts[0] {
        lemma_run_len(ts.drop_first());
        assert forall|j: int| 0 <= j < run_len(ts) implies #[trigger] ts[j] == ts[0] by {
            if j >= 1 {
                assert(ts.drop_first()[j - 1] == ts[j]);
            }
        }
        if run_len(ts) < ts.len() {
            assert(ts.drop_first()[run_len(ts) as int - 1] == ts[run_len(ts) as int]);
        }
    }
}

/// The leading run length is determined by the run's extent.
pub proof fn lemma_run_len_is(ts: Seq<Seq<char>>, k: int)
    requires
        1 <= k <= ts.len(),
        forall|j: int| 0 <= j < k ==> #[trigger] ts[j] == ts[0],
        k < ts.len() ==> ts[k] != ts[0],
    ensures
        run_len(ts) == k,
    decreases ts.len(),
{
    if k == 1 {
        if ts.len() >= 2 {
            assert(ts[1] != ts[0]);
        }
    } else {
        assert(ts[1] == ts[0]);
        let d = ts.drop_first();
        assert forall|j: int| 0 <= j < k - 1 implies #[trigger] d[j] == d[0] by {
            assert(d[j] == ts[j + 1]);
            assert(d[0] == ts[1]);
        }
        if k - 1 < d.len() {
            assert(d[k - 1] == ts[k]);
        }
        lemma_run_len_is(d, k - 1);
    }
}

/// Decimal representation of a count, most significant digit first.
pub open spec fn decimal(n: int) -> Seq<char>
    decreases n,
{
    if n < 10 {
        seq![digit_char(n)]
    } else {
        decimal(n / 10).push(digit_char(n % 10))
    }
}

/// A decimal representation is nonempty and made of digits only.
pub proof fn lemma_decimal_digits(n: int)
    ensures
        decimal(n).len() >= 1,
        forall|j: int| 0 <= j < decimal(n).len() ==> is_dec_digit(#[trigger] decimal(n)[j]),
    decreases n,
{
    if n >= 10 {
        lemma_decimal_digits(n / 10);
    }
}

/// One collapsed token: a run of `k` equal tokens becomes the token with a
/// leading decimal count when `k > 1`, or the bare token for a run of one.
pub open spec fn collapsed_token(k: int, t: Seq<char>) -> Seq<char> {
    if k > 1 {
        decimal(k) + t
    } else {
        t
    }
}

/// Run-length collapse: each maximal run of adjacent equal tokens becomes a
/// single collapsed token.
pub open spec fn collapse(ts: Seq<Seq<char>>) -> Seq<Seq<char>>
    decreases ts.len(),
    via collapse_decreases
{
    if ts.len() == 0 {
        Seq::empty()
    } else {
        seq![collapsed_token(run_len(ts) as int, ts[0])] + collapse(ts.skip(run_len(ts) as int))
    }
}

#[via_fn]
proof fn collapse_decreases(ts: Seq<Seq<char>>) {
    if ts.len() > 0 {
        lemma_run_len(ts);
    }
}

/// Join tokens with '-' separators.
pub open spec fn join_dash(ts: Seq<Seq<char>>) -> Seq<char>
    decreases ts.len(),
{
    if ts.len() == 0 {
        Seq::empty()
    } else if ts.len() == 1 {
        ts[0]
    } else {
        ts[0] + seq!['-'] + join_dash(ts.drop_first())
    }
}

/// The syllable a zero byte pair produces under a zero seed.
pub open spec fn null_word() -> Seq<char> {
    seq!['b', 'a', 'b', 'a', 'b']
}

/// The shorthand that stands in for the null word.
pub open spec fn null_shorthand() -> Seq<char> {
    seq!['w', 'a']
}

/// Replace every occurrence of the null word with its shorthand, leftmost
/// first and without overlap, as a textual substitution over the whole
/// joined string.
pub open spec fn replace_null(s: Seq<char>) -> Seq<char>
    decreases s.len(),
{
    if s.len() < 5 {
        s
    } else if s.subrange(0, 5) == null_word() {
        null_shorthand() + replace_null(s.skip(5))
    } else {
        seq![s[0]] + replace_null(s.skip(1))
    }
}

/// The token sequences a vector of token vectors stands for.
pub open spec fn token_views(ts: Seq<Vec<char>>) -> Seq<Seq<char>> {
    Seq::new(ts.len(), |i: int| ts[i]@)
}

/// Appending one token to the joined string extends it by a separator and
/// the token.
pub proof fn lemma_join_dash_snoc(ts: Seq<Seq<char>>, e: Seq<char>)
    ensures
        join_dash(ts.push(e)) == (if ts.len() == 0 {
            e
        } else {
            join_dash(ts) + seq!['-'] + e
        }),
    decreases ts.len(),
{
    if ts.len() == 0 {
        assert(ts.push(e)[0] == e);
    } else {
        assert(ts.push(e).drop_first() =~~= ts.drop_first().push(e));
        lemma_join_dash_snoc(ts.drop_first(), e);
        assert(ts.push(e)[0] == ts[0]);
    }
}

/// Split a character vector on '-' separators.
pub fn split_tokens(chars: &Vec<char>) -> (toks: Vec<Vec<char>>)
    ensures
        token_views(toks@) == split_dash(chars@),
{
    let mut toks: Vec<Vec<char>> = Vec::new();
    let mut cur: Vec<char> = Vec::new();
    let mut i: usize = 0;
    proof {
        assert(split_dash(chars@.take(0)) =~~= token_views(toks@).push(cur@));
    }
    while i < chars.len()
        invariant
            i <= chars@.len(),
            split_dash(chars@.take(i as int)) == token_views(toks@).push(cur@),
        decreases chars@.len() - i,
    {
        let c = chars[i];
        proof {
            assert(chars@.take(i as int + 1).drop_last() =~= chars@.take(i as int));
            assert(chars@.take(i as int + 1).last() == chars@[i as int]);
            lemma_split_dash_len_pos(chars@.take(i as int));
        }
        if c == '-' {
            toks.push(cur);
            cur = Vec::new();
            proof {
                assert(split_dash(chars@.take(i as int + 1)) =~~= token_views(toks@).push(cur@));
            }
        } else {
            cur.push(c);
            proof {
                assert(split_dash(chars@.take(i as int + 1)) =~~= token_views(toks@).push(cur@));
            }
        }
        i = i + 1;
    }
    proof {
        assert(chars@.take(chars@.len() as int) =~= chars@);
    }
    toks.push(cur);
    proof {
        assert(token_views(toks@) =~~= split_dash(chars@));
    }
    toks
}

/// Compare two tokens character by character.
fn eq_tokens(a: &Vec<char>, b: &Vec<char>) -> (r: bool)
    ensures
        r == (a@ == b@),
{
    if a.len() != b.len() {
        return false;
    }
    let mut j: usize = 0;
    while j < a.len()
        invariant
            j <= a@.len(),
            a@.len() == b@.len(),
            forall|m: int| 0 <= m < j ==> a@[m] == b@[m],
        decreases a@.len() - j,
    {
        if a[j] != b[j] {
            return false;
        }
        j = j + 1;
    }
    proof {
        assert(a@ =~= b@);
    }
    true
}

/// Index just past the run of tokens equal to the one at `i`.
fn run_end(toks: &Vec<Vec<char>>, i: usize) -> (j: usize)
    requires
        i < toks@.len(),
    ensures
        i < j <= toks@.len(),
        forall|m: int| i < m < j ==> token_views(toks@)[m] == token_views(toks@)[i as int],
        j < toks@.len() ==> token_views(toks@)[j as int] != token_views(toks@)[i as int],
{
    let n = toks.len();
    let mut j: usize = i + 1;
    while j < n
        invariant
            n == toks@.len(),
            i < j <= toks@.len(),
            forall|m: int| i < m < j ==> token_views(toks@)[m] == token_views(toks@)[i as int],
        decreases toks@.len() - j,
    {
        if !eq_tokens(&toks[j], &toks[i]) {
            proof {
                assert(token_views(toks@)[j as int] == toks@[j as int]@);
                assert(token_views(toks@)[i as int] == toks@[i as int]@);
            }
            return j;
        }
        j = j + 1;
    }
    j
}

/// Append the decimal representation of `n` to `out`.
pub fn push_decimal(out: &mut Vec<char>, n: usize)
    ensures
        final(out)@ == old(out)@ + decimal(n as int),
    decreases n,
{
    if n >= 10 {
        push_decimal(out, n / 10);
        out.push(crate::tables::digit_char_of(n % 10));
        proof {
            assert(out@ =~= old(out)@ + decimal(n as int));
        }
    } else {
        out.push(crate::tables::digit_char_of(n));
        proof {
            assert(out@ =~= old(out)@ + decimal(n as int));
        }
    }
}

/// Run-length collapse the tokens and join them with '-' separators.
pub fn collapse_join(toks: &Vec<Vec<char>>) -> (out: Vec<char>)
    ensures
        out@ == join_dash(collapse(token_views(toks@))),
{
    let ghost dv = token_views(toks@);
    let mut out: Vec<char> = Vec::new();
    let ghost mut done: Seq<Seq<char>> = Seq::empty();
    let mut i: usize = 0;
    proof {
        assert(dv.skip(0) =~~= dv);
        assert(done + collapse(dv) =~~= collapse(dv));
    }
    while i < toks.len()
        invariant
            dv == token_views(toks@),
            dv.len() == toks@.len(),
            i <= toks@.len(),
            collapse(dv) == done + collapse(dv.skip(i as int)),
            out@ == join_dash(done),
            (done.len() == 0) <==> (i == 0),
        decreases toks@.len() - i,
    {
        let j = run_end(toks, i);
        let k = j - i;
        proof {
            let ts = dv.skip(i as int);
            assert forall|m: int| 0 <= m < k implies #[trigger] ts[m] == ts[0] by {
                assert(ts[m] == dv[i + m]);
                assert(ts[0] == dv[i as int]);
            }
            if k < ts.len() {
                assert(ts[k as int] == dv[j as int]);
            }
            lemma_run_len_is(ts, k as int);
            assert(collapse(ts) == seq![collapsed_token(k as int, ts[0])] + collapse(
                ts.skip(k as int),
            ));
        }
        let ghost run_start_out = out@;
        if i > 0 {
            out.push('-');
        }
        if k > 1 {
            push_decimal(&mut out, k);
        }
        let ghost tok_start_out = out@;
        let ti = &toks[i];
        let mut m: usize = 0;
        while m < ti.len()
            invariant
                m <= ti@.len(),
                out@ == tok_start_out + ti@.take(m as int),
            decreases ti@.len() - m,
        {
            out.push(ti[m]);
            proof {
                assert(out@ =~= tok_start_out + ti@.take(m as int + 1));
            }
            m = m + 1;
        }
        proof {
            let ts = dv.skip(i as int);
            let e = collapsed_token(k as int, dv[i as int]);
            assert(ti@ =~= ti@.take(ti@.len() as int));
            assert(ti@ == dv[i as int]);
            if i > 0 {
                if k > 1 {
                    assert(out@ =~= join_dash(done) + seq!['-'] + e);
                } else {
                    assert(out@ =~= join_dash(done) + seq!['-'] + e);
                }
            } else {
                assert(out@ =~= join_dash(done) + e);
                assert(join_dash(done) =~= Seq::<char>::empty());
                assert(out@ =~= e);
            }
            lemma_join_dash_snoc(done, e);
            assert(ts[0] == dv[i as int]);
            assert(ts.skip(k as int) =~~= dv.skip(j as int));
            done = done.push(e);
            assert(collapse(dv) =~~= done + collapse(dv.skip(j as int)));
            assert(out@ == join_dash(done));
        }
        i = j;
    }
    proof {
        assert(dv.skip(i as int) =~~= Seq::<Seq<char>>::empty());
        assert(collapse(dv.skip(i as int)) =~~= Seq::<Seq<char>>::empty());
        assert(collapse(dv) =~~= done);
    }
    out
}

/// Replace every occurrence of the null word with its shorthand.
pub fn replace_null_chars(s: &Vec<char>) -> (out: Vec<char>)
    ensures
        out@ == replace_null(s@),
{
    let mut out: Vec<char> = Vec::new();
    let mut i: usize = 0;
    proof {
        assert(s@.skip(0) =~= s@);
        assert(out@ + replace_null(s@) =~= replace_null(s@));
    }
    while i < s.len()
        invariant
            i <= s@.len(),
            replace_null(s@) == out@ + replace_null(s@.skip(i as int)),
        decreases s@.len() - i,
    {
        let ghost t = s@.skip(i as int);
        proof {
            assert(t[0] == s@[i as int]);
        }
        if s.len() >= 5 && i <= s.len() - 5 && s[i] == 'b' && s[i + 1] == 'a' && s[i + 2] == 'b'
            && s[i + 3] == 'a' && s[i + 4] == 'b' {
            proof {
                assert(t.subrange(0, 5) =~= null_word());
                assert(t.skip(5) =~= s@.skip(i as int + 5));
                assert(replace_null(t) == null_shorthand() + replace_null(t.skip(5)));
            }
            out.push('w');
            out.push('a');
            proof {
                assert(replace_null(s@) =~= out@ + replace_null(s@.skip(i as int + 5)));
            }
            i = i + 5;
        } else {
            proof {
                if i + 5 <= s@.len() {
                    if t.subrange(0, 5) == null_word() {
                        assert(t.subrange(0, 5)[0] == s@[i as int]);
                        assert(t.subrange(0, 5)[1] == s@[i as int + 1]);
                        assert(t.subrange(0, 5)[2] == s@[i as int + 2]);
                        assert(t.subrange(0, 5)[3] == s@[i as int + 3]);
                        assert(t.subrange(0, 5)[4] == s@[i as int + 4]);
                        assert(false);
                    }
                    assert(replace_null(t) == seq![t[0]] + replace_null(t.skip(1)));
                } else {
                    assert(replace_null(t) == t);
                    assert(t =~= seq![t[0]] + t.skip(1));
                    assert(replace_null(t.skip(1)) == t.skip(1));
                }
                assert(t.skip(1) =~= s@.skip(i as int + 1));
            }
            out.push(s[i]);
            proof {
                assert(replace_null(s@) =~= out@ + replace_null(s@.skip(i as int + 1)));
            }
            i = i + 1;
        }
    }
    proof {
        assert(s@.skip(s@.len() as int) =~= Seq::<char>::empty());
        assert(replace_null(s@) =~= out@);
    }
    out
}

} // verus!
