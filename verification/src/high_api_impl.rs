//! The same matching on 16-bit integers, set up as a run of its own.
use vstd::prelude::*;
use crate::high_api::run_post;

verus! {

/// Generates keys with 16-bit integers enabled, encrypts the sell orders
/// `s_clear` and the buy orders `b_clear`, matches them as `high_api::run`
/// does, and writes the results back in place. The last argument is not used.
#[allow(non_snake_case)]
pub fn setup(s_clear: &mut Vec<u16>, b_clear: &mut Vec<u16>, _NUM_BLOCK: usize)
    requires
        old(b_clear).len() == old(s_clear).len(),
    ensures
        final(s_clear).len() == old(s_clear).len(),
        final(b_clear).len() == old(b_clear).len(),
        run_post(old(s_clear)@, old(b_clear)@, final(s_clear)@, final(b_clear)@),
{
    crate::high_api::run(s_clear, b_clear, _NUM_BLOCK)
}

} // verus!
