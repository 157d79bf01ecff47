//! Sets up a market of random orders and matches it on encrypted integers.
use vstd::prelude::*;
use rand::Rng;
use rand::rngs::ThreadRng;
use crate::full_paral;
use crate::random::RandomSource;

verus! {

#[verifier::external_type_specification]
#[verifier::external_body]
pub struct ExThreadRng(ThreadRng);

/// The number of 2-bit blocks of the plain order volumes; the encrypted
/// integers get twice as many, so that sums have room to grow.
pub const NUM_BLOCK: usize = 4;

/// A handle to the random number generator of the thread.
///
/// Calls `rand::thread_rng`. Nothing is stated of its state.
#[verifier::external_body]
pub(crate) fn thread_rng() -> ThreadRng {
    rand::thread_rng()
}

/// A random number below `max`.
///
/// Calls `Rng::gen_range(0..max)`, which panics on an empty range and
/// otherwise returns a number of the range.
#[verifier::external_body]
pub(crate) fn gen_below(rng: &mut ThreadRng, max: u16) -> (r: u16)
    requires
        max > 0,
    ensures
        r < max,
{
    rng.gen_range(0..max)
}

/// Every entry of `v` is a volume a seller or buyer may ask for: below `max`,
/// or 0 when `max` is 0.
pub open spec fn within_max_u64(v: Seq<u64>, max: nat) -> bool {
    forall|i: int| 0 <= i < v.len() ==> if max == 0 {
        #[trigger] v[i] == 0
    } else {
        v[i] < max
    }
}

/// Every entry of `v` is a volume a seller or buyer may ask for: below `max`,
/// or 0 when `max` is 0.
pub open spec fn within_max_u16(v: Seq<u16>, max: nat) -> bool {
    forall|i: int| 0 <= i < v.len() ==> if max == 0 {
        #[trigger] v[i] == 0
    } else {
        v[i] < max
    }
}

/// The entries of `v` are the draws of the record `draws` from `offset` on,
/// one draw for each entry in order, each asked below `max`.
pub open spec fn drawn_u64(draws: Seq<(u16, u16)>, offset: int, v: Seq<u64>, max: u16) -> bool {
    &&& offset + v.len() <= draws.len()
    &&& forall|i: int|
        0 <= i < v.len() ==> #[trigger] v[i] == draws[offset + i].1 as u64 && draws[offset
            + i].0 == max
}

/// The entries of `v` are the draws of the record `draws` from `offset` on,
/// one draw for each entry in order, each asked below `max`.
pub open spec fn drawn_u16(draws: Seq<(u16, u16)>, offset: int, v: Seq<u16>, max: u16) -> bool {
    &&& offset + v.len() <= draws.len()
    &&& forall|i: int|
        0 <= i < v.len() ==> #[trigger] v[i] == draws[offset + i].1 && draws[offset + i].0 == max
}

/// Fills `v` with random volumes below `max_value`, one draw of `src` per
/// entry in order (zeros, and no draw, when it is 0).
fn fill_u64(src: &mut RandomSource, v: &mut Vec<u64>, max_value: u16)
    ensures
        final(v).len() == old(v).len(),
        within_max_u64(final(v)@, max_value as nat),
        max_value == 0 ==> final(src).draws() == old(src).draws(),
        max_value > 0 ==> {
            &&& final(src).draws().len() == old(src).draws().len() + old(v).len()
            &&& final(src).draws().take(old(src).draws().len() as int) == old(src).draws()
            &&& drawn_u64(final(src).draws(), old(src).draws().len() as int, final(v)@, max_value)
        },
{
    let ghost start = src.draws();
    proof {
        assert(start.take(start.len() as int) =~= start);
    }
    let len = v.len();
    let mut i: usize = 0;
    while i < len
        invariant
            i <= len,
            len == v.len(),
            v.len() == old(v).len(),
            forall|j: int|
                0 <= j < i ==> if max_value == 0 {
                    #[trigger] v@[j] == 0
                } else {
                    v@[j] < max_value
                },
            max_value == 0 ==> src.draws() == start,
            max_value > 0 ==> src.draws().len() == start.len() + i,
            max_value > 0 ==> src.draws().take(start.len() as int) == start,
            max_value > 0 ==> forall|j: int|
                0 <= j < i ==> #[trigger] v@[j] == src.draws()[start.len() + j].1 as u64
                    && src.draws()[start.len() + j].0 == max_value,
        decreases len - i,
    {
        let ghost before = src.draws();
        let ghost vb = v@;
        if max_value == 0 {
            v.set(i, 0);
        } else {
            let d: u16 = src.below(max_value);
            v.set(i, d as u64);
        }
        proof {
            if max_value > 0 {
                assert(src.draws() == before.push((max_value, src.draws().last().1)));
                assert(src.draws().take(start.len() as int) =~= start) by {
                    assert forall|k: int| 0 <= k < start.len() implies src.draws()[k] == start[k] by {
                        assert(before.take(start.len() as int)[k] == start[k]);
                    }
                }
                assert forall|j: int| 0 <= j < i + 1 implies #[trigger] v@[j] == src.draws()[start.len()
                    + j].1 as u64 && src.draws()[start.len() + j].0 == max_value by {
                    if j < i {
                        assert(vb[j] == before[start.len() + j].1 as u64);
                        assert(v@[j] == vb[j]);
                    }
                }
                assert(max_value > 0 ==> forall|j: int|
                0 <= j < i + 1 ==> #[trigger] v@[j] == src.draws()[start.len() + j].1 as u64
                    && src.draws()[start.len() + j].0 == max_value);
            }
        }
        i = i + 1;
    }
}

/// Fills `v` with random volumes below `max_value`, one draw of `src` per
/// entry in order (zeros, and no draw, when it is 0).
fn fill_u16(src: &mut RandomSource, v: &mut Vec<u16>, max_value: u16)
    ensures
        final(v).len() == old(v).len(),
        within_max_u16(final(v)@, max_value as nat),
        max_value == 0 ==> final(src).draws() == old(src).draws(),
        max_value > 0 ==> {
            &&& final(src).draws().len() == old(src).draws().len() + old(v).len()
            &&& final(src).draws().take(old(src).draws().len() as int) == old(src).draws()
            &&& drawn_u16(final(src).draws(), old(src).draws().len() as int, final(v)@, max_value)
        },
{
    let ghost start = src.draws();
    proof {
        assert(start.take(start.len() as int) =~= start);
    }
    let len = v.len();
    let mut i: usize = 0;
    while i < len
        invariant
            i <= len,
            len == v.len(),
            v.len() == old(v).len(),
            forall|j: int|
                0 <= j < i ==> if max_value == 0 {
                    #[trigger] v@[j] == 0
                } else {
                    v@[j] < max_value
                },
            max_value == 0 ==> src.draws() == start,
            max_value > 0 ==> src.draws().len() == start.len() + i,
            max_value > 0 ==> src.draws().take(start.len() as int) == start,
            max_value > 0 ==> forall|j: int|
                0 <= j < i ==> #[trigger] v@[j] == src.draws()[start.len() + j].1
                    && src.draws()[start.len() + j].0 == max_value,
        decreases len - i,
    {
        let ghost before = src.draws();
        let ghost vb = v@;
        if max_value == 0 {
            v.set(i, 0);
        } else {
            let d: u16 = src.below(max_value);
            v.set(i, d);
        }
        proof {
            if max_value > 0 {
                assert(src.draws() == before.push((max_value, src.draws().last().1)));
                assert(src.draws().take(start.len() as int) =~= start) by {
                    assert forall|k: int| 0 <= k < start.len() implies src.draws()[k] == start[k] by {
                        assert(before.take(start.len() as int)[k] == start[k]);
                    }
                }
                assert forall|j: int| 0 <= j < i + 1 implies #[trigger] v@[j] == src.draws()[start.len()
                    + j].1 && src.draws()[start.len() + j].0 == max_value by {
                    if j < i {
                        assert(vb[j] == before[start.len() + j].1);
                        assert(v@[j] == vb[j]);
                    }
                }
            }
        }
        i = i + 1;
    }
}

/// Fills the sell orders `s` and the buy orders `b` with random volumes below
/// `max_value`; a maximum of 0 makes every order 0. Returns the generator it
/// drew from: its record holds one draw per sell order, then one per buy
/// order, and each order is the number drawn for it.
#[allow(non_snake_case)]
pub fn fillWithRandomu64(s: &mut Vec<u64>, b: &mut Vec<u64>, max_value: u16) -> (src:
    RandomSource)
    ensures
        final(s).len() == old(s).len(),
        final(b).len() == old(b).len(),
        within_max_u64(final(s)@, max_value as nat),
        within_max_u64(final(b)@, max_value as nat),
        max_value == 0 ==> src.draws().len() == 0,
        max_value > 0 ==> {
            &&& src.draws().len() == old(s).len() + old(b).len()
            &&& drawn_u64(src.draws(), 0, final(s)@, max_value)
            &&& drawn_u64(src.draws(), old(s).len() as int, final(b)@, max_value)
        },
{
    let mut src = RandomSource::new();
    fill_u64(&mut src, s, max_value);
    let ghost mid = src.draws();
    fill_u64(&mut src, b, max_value);
    proof {
        if max_value > 0 {
            assert forall|i: int| 0 <= i < s@.len() implies #[trigger] s@[i] == src.draws()[0
                + i].1 as u64 && src.draws()[0 + i].0 == max_value by {
                assert(mid.len() >= s@.len());
                assert(s@[i] == mid[0 + i].1 as u64);
                assert(mid.len() >= s@.len());
                assert(s@[i] == mid[0 + i].1);
                assert(src.draws().take(mid.len() as int)[i] == mid[i]);
            }
        }
    }
    src
}

/// Fills the sell orders `s` and the buy orders `b` with random volumes below
/// `max_value`; a maximum of 0 makes every order 0. Returns the generator it
/// drew from: its record holds one draw per sell order, then one per buy
/// order, and each order is the number drawn for it.
#[allow(non_snake_case)]
pub fn fillWithRandom(s: &mut Vec<u16>, b: &mut Vec<u16>, max_value: u16) -> (src: RandomSource)
    ensures
        final(s).len() == old(s).len(),
        final(b).len() == old(b).len(),
        within_max_u16(final(s)@, max_value as nat),
        within_max_u16(final(b)@, max_value as nat),
        max_value == 0 ==> src.draws().len() == 0,
        max_value > 0 ==> {
            &&& src.draws().len() == old(s).len() + old(b).len()
            &&& drawn_u16(src.draws(), 0, final(s)@, max_value)
            &&& drawn_u16(src.draws(), old(s).len() as int, final(b)@, max_value)
        },
{
    let mut src = RandomSource::new();
    fill_u16(&mut src, s, max_value);
    let ghost mid = src.draws();
    fill_u16(&mut src, b, max_value);
    proof {
        if max_value > 0 {
            assert forall|i: int| 0 <= i < s@.len() implies #[trigger] s@[i] == src.draws()[0
                + i].1 && src.draws()[0 + i].0 == max_value by {
                assert(mid.len() >= s@.len());
                assert(s@[i] == mid[0 + i].1 as u64);
                assert(mid.len() >= s@.len());
                assert(s@[i] == mid[0 + i].1);
                assert(src.draws().take(mid.len() as int)[i] == mid[i]);
            }
        }
    }
    src
}

/// `n` zeros.
pub fn zeros(n: usize) -> (v: Vec<u64>)
    ensures
        v@ == Seq::new(n as nat, |i: int| 0u64),
{
    let mut v: Vec<u64> = Vec::new();
    for i in 0..n
        invariant
            v@ == Seq::new(i as nat, |j: int| 0u64),
    {
        v.push(0);
        proof {
            assert(v@ =~= Seq::new((i + 1) as nat, |j: int| 0u64));
        }
    }
    v
}

/// A copy of `v`.
fn copy_u64(v: &Vec<u64>) -> (r: Vec<u64>)
    ensures
        r@ == v@,
{
    let mut r: Vec<u64> = Vec::new();
    for i in 0..v.len()
        invariant
            r@ == v@.take(i as int),
    {
        r.push(v[i]);
        proof {
            assert(r@ =~= v@.take(i + 1));
        }
    }
    assert(r@ =~= v@);
    r
}

/// The order books of a market: the sell orders and the buy orders.
pub type Books = (Vec<u64>, Vec<u64>);

/// Makes `list_length` sell and `list_length` buy orders of random volumes
/// below `max_value` (all 0 when it is 0), and matches them on integers of
/// `2 * NUM_BLOCK` blocks. Returns the books drawn, the books matched, and the
/// generator the orders were drawn from: its record holds one draw per sell
/// order, then one per buy order, and each drawn order is the number drawn
/// for it.
#[allow(non_snake_case)]
pub fn setupAndRun(max_value: u16, list_length: usize) -> (r: (Books, Books, RandomSource))
    ensures
        r.0.0.len() == list_length,
        r.0.1.len() == list_length,
        within_max_u64(r.0.0@, max_value as nat),
        within_max_u64(r.0.1@, max_value as nat),
        max_value == 0 ==> r.2.draws().len() == 0,
        max_value > 0 ==> {
            &&& r.2.draws().len() == 2 * list_length
            &&& drawn_u64(r.2.draws(), 0, r.0.0@, max_value)
            &&& drawn_u64(r.2.draws(), list_length as int, r.0.1@, max_value)
        },
        full_paral::run_post(r.0.0@, r.0.1@, r.1.0@, r.1.1@, 2 * NUM_BLOCK as nat),
{
    let mut s_clear64 = zeros(list_length);
    let mut b_clear64 = zeros(list_length);
    let src = fillWithRandomu64(&mut s_clear64, &mut b_clear64, max_value);
    let drawn = (copy_u64(&s_clear64), copy_u64(&b_clear64));
    full_paral::run(&mut s_clear64, &mut b_clear64, 2 * NUM_BLOCK);
    (drawn, (s_clear64, b_clear64), src)
}

// ----------------------------------------------------------------------------
// Laws of drawing
// ----------------------------------------------------------------------------

/// The numbers of the record `draws` from `from` on, `len` of them, as
/// 64-bit volumes.
pub open spec fn draw_values_u64(draws: Seq<(u16, u16)>, from: int, len: nat) -> Seq<u64> {
    Seq::new(len, |i: int| draws[from + i].1 as u64)
}

/// The numbers of the record `draws` from `from` on, `len` of them.
pub open spec fn draw_values_u16(draws: Seq<(u16, u16)>, from: int, len: nat) -> Seq<u16> {
    Seq::new(len, |i: int| draws[from + i].1)
}

/// Drawn books are what the generator returned: the sell book is the first
/// numbers drawn, one per order, the buy book the numbers drawn after them,
/// and every draw was asked below the maximum.
pub proof fn law_drawn_books_u64(draws: Seq<(u16, u16)>, s: Seq<u64>, b: Seq<u64>, max: u16)
    requires
        draws.len() == s.len() + b.len(),
        drawn_u64(draws, 0, s, max),
        drawn_u64(draws, s.len() as int, b, max),
    ensures
        s == draw_values_u64(draws, 0, s.len()),
        b == draw_values_u64(draws, s.len() as int, b.len()),
        forall|k: int| 0 <= k < draws.len() ==> (#[trigger] draws[k]).0 == max,
{
    assert forall|k: int| 0 <= k < draws.len() implies (#[trigger] draws[k]).0 == max by {
        if k < s.len() {
            assert(s[k] == draws[0 + k].1 as u64);
        } else {
            let j = k - s.len();
            assert(b[j] == draws[s.len() + j].1 as u64);
        }
    }
    assert forall|i: int| 0 <= i < s.len() implies s[i] == draw_values_u64(draws, 0, s.len())[i] by {
        assert(s[i] == draws[0 + i].1 as u64);
    }
    assert(s =~= draw_values_u64(draws, 0, s.len()));
    assert(b =~= draw_values_u64(draws, s.len() as int, b.len()));
}

/// Drawn books are what the generator returned: the sell book is the first
/// numbers drawn, one per order, the buy book the numbers drawn after them,
/// and every draw was asked below the maximum.
pub proof fn law_drawn_books_u16(draws: Seq<(u16, u16)>, s: Seq<u16>, b: Seq<u16>, max: u16)
    requires
        draws.len() == s.len() + b.len(),
        drawn_u16(draws, 0, s, max),
        drawn_u16(draws, s.len() as int, b, max),
    ensures
        s == draw_values_u16(draws, 0, s.len()),
        b == draw_values_u16(draws, s.len() as int, b.len()),
        forall|k: int| 0 <= k < draws.len() ==> (#[trigger] draws[k]).0 == max,
{
    assert forall|k: int| 0 <= k < draws.len() implies (#[trigger] draws[k]).0 == max by {
        if k < s.len() {
            assert(s[k] == draws[0 + k].1);
        } else {
            let j = k - s.len();
            assert(b[j] == draws[s.len() + j].1);
        }
    }
    assert forall|i: int| 0 <= i < s.len() implies s[i] == draw_values_u16(draws, 0, s.len())[i] by {
        assert(s[i] == draws[0 + i].1);
    }
    assert(s =~= draw_values_u16(draws, 0, s.len()));
    assert(b =~= draw_values_u16(draws, s.len() as int, b.len()));
}

/// Two fillings that drew the same numbers fill the same books: the books
/// depend on nothing but the draws.
pub proof fn law_same_draws_same_books_u64(
    draws: Seq<(u16, u16)>,
    s1: Seq<u64>,
    b1: Seq<u64>,
    s2: Seq<u64>,
    b2: Seq<u64>,
    max: u16,
)
    requires
        s1.len() == s2.len(),
        b1.len() == b2.len(),
        draws.len() == s1.len() + b1.len(),
        drawn_u64(draws, 0, s1, max),
        drawn_u64(draws, s1.len() as int, b1, max),
        drawn_u64(draws, 0, s2, max),
        drawn_u64(draws, s2.len() as int, b2, max),
    ensures
        s1 == s2,
        b1 == b2,
{
    law_drawn_books_u64(draws, s1, b1, max);
    law_drawn_books_u64(draws, s2, b2, max);
}

/// Two fillings that drew the same numbers fill the same books: the books
/// depend on nothing but the draws.
pub proof fn law_same_draws_same_books_u16(
    draws: Seq<(u16, u16)>,
    s1: Seq<u16>,
    b1: Seq<u16>,
    s2: Seq<u16>,
    b2: Seq<u16>,
    max: u16,
)
    requires
        s1.len() == s2.len(),
        b1.len() == b2.len(),
        draws.len() == s1.len() + b1.len(),
        drawn_u16(draws, 0, s1, max),
        drawn_u16(draws, s1.len() as int, b1, max),
        drawn_u16(draws, 0, s2, max),
        drawn_u16(draws, s2.len() as int, b2, max),
    ensures
        s1 == s2,
        b1 == b2,
{
    law_drawn_books_u16(draws, s1, b1, max);
    law_drawn_books_u16(draws, s2, b2, max);
}

/// A run of the market matches what the generator drew: the books it matched
/// are the first `n` numbers drawn (sell orders) and the next `n` (buy
/// orders), and the matched books are their matching.
pub proof fn law_setup_matches_the_draws(
    draws: Seq<(u16, u16)>,
    s: Seq<u64>,
    b: Seq<u64>,
    ms: Seq<u64>,
    mb: Seq<u64>,
    n: nat,
    max: u16,
)
    requires
        s.len() == n,
        b.len() == n,
        draws.len() == 2 * n,
        drawn_u64(draws, 0, s, max),
        drawn_u64(draws, n as int, b, max),
        full_paral::run_post(s, b, ms, mb, 2 * NUM_BLOCK as nat),
    ensures
        full_paral::run_post(
            draw_values_u64(draws, 0, n),
            draw_values_u64(draws, n as int, n),
            ms,
            mb,
            2 * NUM_BLOCK as nat,
        ),
{
    law_drawn_books_u64(draws, s, b, max);
}

} // verus!
