//! The public encoder entry points.

use vstd::prelude::*;
use crate::raw::{raw_babble, raw_chars};
use crate::stable::{collapse, collapse_join, join_dash, replace_null, replace_null_chars,
    split_dash, split_tokens};

verus! {

/// The checksummed Bubble Babble encoding of a byte sequence.
pub open spec fn bubble_spec(bytes: Seq<u8>) -> Seq<char> {
    raw_babble(bytes, true)
}

/// The stable Bubble Babble encoding of a byte sequence: the raw seedless
/// encoding, split on '-', run-length collapsed, rejoined, with every
/// "babab" null word replaced by "wa".
pub open spec fn stable_spec(bytes: Seq<u8>) -> Seq<char> {
    replace_null(join_dash(collapse(split_dash(raw_babble(bytes, false)))))
}

/// Relies on `String: FromIterator<char>`: collecting characters yields the
/// string of exactly those characters, in order.
#[verifier::external_body]
fn chars_to_string(v: &Vec<char>) -> (s: String)
    ensures
        s@ == v@,
{
    v.iter().collect()
}

/// Convert bytes to their Bubble Babble `String`.
///
/// This is the standard, human-readable format: it carries a checksum seed
/// through each generated word, so the result is pinned down for every byte
/// of the input and every input length, and repeated calls on equal input
/// yield equal output.
pub fn bubblebabble(bytes: &[u8]) -> (res: String)
    ensures
        res@ == bubble_spec(bytes@),
{
    bubblebabble_impl(bytes, true)
}

/// Convert bytes to their stable Babble `String`.
///
/// This modified format lacks the checksum, so every word depends only on
/// the bytes of its own round. Repeated words are compressed by a prepended
/// decimal counter, and the all-zero word is shortened to "wa".
pub fn stablebabble(bytes: &[u8]) -> (res: String)
    ensures
        res@ == stable_spec(bytes@),
{
    bubblebabble_impl(bytes, false)
}

/// The shared encoding pass: the raw round loop, followed in stable mode by
/// the run-length compression pipeline.
fn bubblebabble_impl(bytes: &[u8], use_seed: bool) -> (res: String)
    ensures
        use_seed ==> res@ == bubble_spec(bytes@),
        !use_seed ==> res@ == stable_spec(bytes@),
{
    let raw = raw_chars(bytes, use_seed);
    if use_seed {
        chars_to_string(&raw)
    } else {
        let toks = split_tokens(&raw);
        let joined = collapse_join(&toks);
        let replaced = replace_null_chars(&joined);
        chars_to_string(&replaced)
    }
}

} // verus!
