//! Drawing the random symbols of a trial from a small, fast generator.
use vstd::prelude::*;
use rand::rngs::SmallRng;
use rand::Rng;
use crate::evaluator::{count_symbol, naive_trial_hits, TrialBits, TARGET_SYMBOL, TRIAL_SAMPLES};

verus! {

#[verifier::external_type_specification]
#[verifier::external_body]
pub struct ExSmallRng(SmallRng);

/// Relies on `rand::Rng::gen::<u64>` on a `SmallRng`: 64 fresh random bits.
/// Nothing is promised of their value.
#[verifier::external_body]
fn next_word(rng: &mut SmallRng) -> u64 {
    rng.gen::<u64>()
}

/// Relies on `rand::Rng::gen_range(0..4)`: a value of the range, which is not
/// empty and so does not panic.
#[verifier::external_body]
fn next_symbol(rng: &mut SmallRng) -> (r: u8)
    ensures
        r < 4,
{
    rng.gen_range(0..4u8)
}

/// Draws the 64-bit words of one packed trial: the head word first, then the
/// seven body words.
pub fn draw_trial_bits(rng: &mut SmallRng) -> (r: TrialBits) {
    let head = next_word(rng);
    let body = [
        next_word(rng),
        next_word(rng),
        next_word(rng),
        next_word(rng),
        next_word(rng),
        next_word(rng),
        next_word(rng),
    ];
    TrialBits { head, body }
}

/// Draws the 231 symbols of one naive trial, each in `0..4`.
pub fn draw_symbols(rng: &mut SmallRng) -> (r: Vec<u8>)
    ensures
        r@.len() == TRIAL_SAMPLES,
        forall|i: int| 0 <= i < r@.len() ==> r@[i] < 4,
{
    let mut v: Vec<u8> = Vec::new();
    let mut i: usize = 0;
    while i < TRIAL_SAMPLES
        invariant
            i <= TRIAL_SAMPLES,
            v@.len() == i,
            forall|j: int| 0 <= j < v@.len() ==> v@[j] < 4,
        decreases TRIAL_SAMPLES - i,
    {
        let s = next_symbol(rng);
        v.push(s);
        i = i + 1;
    }
    v
}

/// Runs one trial with the packed evaluator: its hit count is that of some
/// 231 drawn symbols.
pub fn packed_trial(rng: &mut SmallRng) -> (r: u32)
    ensures
        exists|b: TrialBits| r == count_symbol(#[trigger] b.symbols(), TARGET_SYMBOL),
        r <= TRIAL_SAMPLES,
{
    let bits = draw_trial_bits(rng);
    bits.packed_hits()
}

/// Runs one trial with the naive evaluator: its hit count is that of some
/// 231 symbols, each in `0..4`.
pub fn naive_trial(rng: &mut SmallRng) -> (r: u32)
    ensures
        exists|s: Seq<u8>|
            s.len() == TRIAL_SAMPLES && (forall|i: int| 0 <= i < s.len() ==> s[i] < 4) && r
                == #[trigger] count_symbol(s, TARGET_SYMBOL),
        r <= TRIAL_SAMPLES,
{
    let samples = draw_symbols(rng);
    let r = naive_trial_hits(&samples);
    proof {
        crate::evaluator::lemma_count_bound(samples@, TARGET_SYMBOL);
    }
    r
}

} // verus!
