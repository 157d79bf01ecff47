//! A source of random volumes that keeps a record of what it drew.
use vstd::prelude::*;
use rand::rngs::ThreadRng;

verus! {

/// The random number generator of the thread, with the record of every
/// number drawn from it: for each draw, the bound asked for and the number
/// returned, in the order of the draws.
pub struct RandomSource {
    rng: ThreadRng,
    drawn: Ghost<Seq<(u16, u16)>>,
}

impl RandomSource {
    /// The draws made so far: the bound asked for and the number returned.
    pub closed spec fn draws(&self) -> Seq<(u16, u16)> {
        self.drawn@
    }

    /// A source on the generator of the thread, with nothing drawn yet.
    pub fn new() -> (r: Self)
        ensures
            r.draws() == Seq::<(u16, u16)>::empty(),
    {
        RandomSource { rng: crate::driver::thread_rng(), drawn: Ghost(Seq::empty()) }
    }

    /// A random number below `max`, recorded as the next draw.
    pub fn below(&mut self, max: u16) -> (x: u16)
        requires
            max > 0,
        ensures
            x < max,
            final(self).draws() == old(self).draws().push((max, x)),
    {
        let x = crate::driver::gen_below(&mut self.rng, max);
        self.drawn = Ghost(self.drawn@.push((max, x)));
        x
    }
}

} // verus!
