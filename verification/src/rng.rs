use vstd::prelude::*;
use crate::text::seq_views;

verus! {

/// rand's thread-local generator handle, opaque to verification; every
/// engine holds one and all draws of a generation pass go through it.
#[verifier::external_type_specification]
#[verifier::external_body]
pub struct ExThreadRng(rand::rngs::ThreadRng);

/// Relies on rand::thread_rng: yields a handle to the thread-local
/// generator; nothing is assumed of the stream it produces.
#[verifier::external_body]
pub fn fresh_rng() -> rand::rngs::ThreadRng {
    rand::thread_rng()
}

/// Relies on Rng::gen_range on the inclusive range lo..=hi: the draw lies
/// between the bounds; it panics only on an empty range, which the
/// precondition rules out.
#[verifier::external_body]
pub fn rng_range(rng: &mut rand::rngs::ThreadRng, lo: usize, hi: usize) -> (r: usize)
    requires
        lo <= hi,
    ensures
        lo <= r <= hi,
{
    rand::Rng::gen_range(rng, lo..=hi)
}

/// Relies on Rng::gen_ratio: a Bernoulli draw that is true with
/// probability 1/denom; it panics only when denom is zero, which the
/// precondition rules out. Nothing is assumed of the outcome.
#[verifier::external_body]
pub fn rng_one_in(rng: &mut rand::rngs::ThreadRng, denom: u32) -> bool
    requires
        denom >= 1,
{
    rand::Rng::gen_ratio(rng, 1, denom)
}

/// Relies on SliceRandom::choose_multiple: it samples min(amount, len)
/// elements of the slice at distinct positions, so the result is a
/// sub-multiset of the list; nothing is assumed of the order.
#[verifier::external_body]
pub fn sample_words(list: &Vec<String>, amount: usize, rng: &mut rand::rngs::ThreadRng) -> (r:
    Vec<String>)
    ensures
        r@.len() == if amount <= list@.len() {
            amount as int
        } else {
            list@.len() as int
        },
        seq_views(r@).to_multiset().subset_of(seq_views(list@).to_multiset()),
{
    rand::seq::SliceRandom::choose_multiple(list.as_slice(), rng, amount).cloned().collect()
}

} // verus!
