//! Volume matching on pairs of 4-block integers: every volume is held as a low
//! limb and a high limb of 8 bits each, a 16-bit integer. Additions carry from
//! the low limb into the high one, subtractions borrow from it, and the
//! smaller of two volumes is chosen limb by limb with comparisons and a
//! multiplication by the comparison's bit.
use vstd::prelude::*;
use crate::fhe::{
    Ciphertext, FheServerKey, bit_blocks, bit_of, bit_value, ct_clone, ct_value, ct_values,
    full_propagate, is_add_possible, is_bit, is_sub_possible, keyed, operand, radix_blocks,
    smart_bitand_assign, smart_bitor_assign, smart_eq, smart_gt, smart_lt, smart_mul, smart_sub,
    trivial_zero, unchecked_add, unchecked_add_assign, unchecked_sub, unchecked_sub_assign,
};
use crate::full_paral::{accumulator, lemma_accumulator_propagatable};
use crate::radix::{
    RadixBlock, blocks_value, clean, digit_blocks, has_carry_degree, neg_term, pow4, propagatable,
    well_formed,
};

verus! {

/// The number of blocks of a limb.
pub const LIMB_BLOCKS: usize = 4;

/// `2^8`, the modulus of a limb.
pub open spec fn limb_modulus() -> nat {
    pow4(LIMB_BLOCKS as nat)
}

/// `2^16`, the modulus of a pair of limbs.
pub open spec fn pair_modulus() -> nat {
    limb_modulus() * limb_modulus()
}

/// The 8-bit integer a limb stands for.
pub open spec fn limb(c: Ciphertext) -> nat {
    ct_value(c) % limb_modulus()
}

/// The 16-bit integer a low limb and a high limb stand for.
pub open spec fn pair_value(lo: Ciphertext, hi: Ciphertext) -> nat {
    limb(lo) + limb_modulus() * limb(hi)
}

/// A limb of the key pair `id`, on 4 blocks.
pub open spec fn limb_of(c: Ciphertext, id: int) -> bool {
    keyed(c, id) && radix_blocks(c).len() == LIMB_BLOCKS
}

/// A limb holding messages only, each block's degree saying so.
pub open spec fn clean_limb(c: Ciphertext, id: int) -> bool {
    limb_of(c, id) && clean(radix_blocks(c))
}

/// A limb holding the digits of an integer, each block of degree 3: what a
/// carry propagation leaves.
pub open spec fn digit_limb(c: Ciphertext, id: int) -> bool {
    &&& clean_limb(c, id)
    &&& forall|i: int| 0 <= i < LIMB_BLOCKS ==> (#[trigger] radix_blocks(c)[i]).1 == 3
}

/// A limb whose carries can be propagated exactly.
pub open spec fn open_limb(c: Ciphertext, id: int) -> bool {
    limb_of(c, id) && propagatable(radix_blocks(c))
}

/// A limb whose carries can be propagated exactly and which a smart
/// comparison leaves with every block of degree 3: it holds a carry, or it is
/// carry-propagated already.
pub open spec fn settling_limb(c: Ciphertext, id: int) -> bool {
    &&& open_limb(c, id)
    &&& has_carry_degree(radix_blocks(c)) || forall|i: int|
        0 <= i < LIMB_BLOCKS ==> (#[trigger] radix_blocks(c)[i]).1 == 3
}

/// An order as settled: a limb of degree 9 in every block, the sum of a
/// product and a carry-propagated limb.
pub open spec fn settled_order(c: Ciphertext, id: int) -> bool {
    &&& limb_of(c, id)
    &&& well_formed(radix_blocks(c))
    &&& forall|i: int| 0 <= i < LIMB_BLOCKS ==> (#[trigger] radix_blocks(c)[i]).1 == 9
}

// ----------------------------------------------------------------------------
// Lemmas
// ----------------------------------------------------------------------------

pub proof fn lemma_limb_constants()
    ensures
        pow4(3) == 64,
        limb_modulus() == 256,
        pair_modulus() == 65536,
{
    reveal_with_fuel(pow4, 5);
}

/// Clean blocks propagate exactly, hold no carry, and stand for less than the
/// modulus.
pub proof fn lemma_clean(bs: Seq<RadixBlock>)
    requires
        clean(bs),
    ensures
        well_formed(bs),
        propagatable(bs),
        !has_carry_degree(bs),
        crate::radix::no_carries(bs),
        blocks_value(bs) < pow4(bs.len()),
{
    assert forall|i: int| 0 <= i < bs.len() implies (#[trigger] bs[i]).0 <= bs[i].1 && bs[i].0
        <= 15 && bs[i].0 < 4 && bs[i].1 < 4 by {
        assert(bs[i].0 <= bs[i].1 && bs[i].1 <= 3);
    }
    crate::radix::lemma_clean_propagatable(bs);
    crate::radix::lemma_value_below_modulus(bs);
}

/// A smart operation leaves a propagatable operand clean, standing for it
/// modulo `4^n`; one that held a carry is left with every block of degree 3.
pub proof fn lemma_operand_after(bs: Seq<RadixBlock>)
    requires
        propagatable(bs),
    ensures
        clean(crate::fhe::smart_operand(bs)),
        crate::fhe::smart_operand(bs).len() == bs.len(),
        blocks_value(crate::fhe::smart_operand(bs)) == blocks_value(bs) % pow4(bs.len()),
        has_carry_degree(bs) ==> forall|i: int|
            0 <= i < bs.len() ==> (#[trigger] crate::fhe::smart_operand(bs)[i]).1 == 3,
        !has_carry_degree(bs) ==> crate::fhe::smart_operand(bs) == bs,
{
    crate::fhe::lemma_smart_operand(bs);
    crate::fhe::lemma_propagated_blocks(bs);
}

/// The correcting terms of the negation of a comparison result are all 4.
pub proof fn lemma_neg_term_bit(x: nat, n: nat, i: nat)
    requires
        i < n,
    ensures
        neg_term(bit_blocks(x, n), i) == 4,
    decreases i,
{
    if i > 0 {
        lemma_neg_term_bit(x, n, (i - 1) as nat);
    }
    assert(crate::radix::round_up4(1) == 4);
}

/// A comparison result stands for its bit, is clean and holds a bit.
pub proof fn lemma_bit_blocks(x: nat, n: nat)
    requires
        x <= 1,
        n > 0,
    ensures
        blocks_value(bit_blocks(x, n)) == x,
        clean(bit_blocks(x, n)),
        propagatable(bit_blocks(x, n)),
        bit_blocks(x, n).len() == n,
        bit_blocks(x, n)[0].0 == x,
    decreases n,
{
    let bs = bit_blocks(x, n);
    assert(clean(bs));
    crate::radix::lemma_clean_propagatable(bs);
    crate::radix::lemma_value_split(bs, 1);
    assert(bs.subrange(1, n as int) =~= crate::radix::zero_blocks((n - 1) as nat));
    crate::radix::lemma_zero_value((n - 1) as nat);
    assert(bs.subrange(0, 1).drop_first() =~= Seq::<RadixBlock>::empty());
    assert(blocks_value(bs.subrange(0, 1)) == x);
    assert forall|i: int| 0 <= i < n implies (#[trigger] bs[i]).0 <= bs[i].1 && bs[i].1 <= 3 by {}
}

/// Adding with a carry: the low limb of the sum, and the high limb with the
/// carry added, make the sum of the pair and the addend modulo `2^16`.
pub proof fn lemma_carry_pair(lo: nat, hi: nat, x: nat)
    requires
        lo < 256,
        x < 256,
    ensures
        (lo + x) % 256 + 256 * ((hi + bit_of(lo > (lo + x) % 256)) % 256) == (lo + 256 * (hi % 256)
            + x) % 65536,
{
    let t = lo + x;
    let h = hi % 256;
    let c = bit_of(lo > t % 256);
    if t < 256 {
        vstd::arithmetic::div_mod::lemma_small_mod(t, 256);
        assert(c == 0);
    } else {
        vstd::arithmetic::div_mod::lemma_fundamental_div_mod_converse(t as int, 256, 1, t - 256);
        assert(c == 1);
    }
    vstd::arithmetic::div_mod::lemma_add_mod_noop(hi as int, c as int, 256);
    vstd::arithmetic::div_mod::lemma_mod_twice(hi as int, 256);
    vstd::arithmetic::div_mod::lemma_small_mod(c, 256);
    let r = t % 256;
    assert(t == r + 256 * c) by {
        if t < 256 {
        } else {
        }
    }
    if h + c < 256 {
        vstd::arithmetic::div_mod::lemma_small_mod(h + c, 256);
        assert(r + 256 * (h + c) < 65536);
        vstd::arithmetic::div_mod::lemma_small_mod(r + 256 * (h + c), 65536);
    } else {
        assert(h + c == 256);
        vstd::arithmetic::div_mod::lemma_fundamental_div_mod_converse((h + c) as int, 256, 1, 0);
        vstd::arithmetic::div_mod::lemma_fundamental_div_mod_converse(
            (r + 256 * (h + c)) as int,
            65536,
            1,
            r as int,
        );
    }
}

/// Subtracting with a borrow: the low limb of the difference, and the high
/// limb with the borrow taken away, make the pair minus the subtrahend modulo
/// `2^16`.
pub proof fn lemma_borrow_pair(lo: nat, hi: nat, x: nat)
    requires
        lo < 256,
        x < 256,
    ensures
        ((lo + 256 - x) % 256) + 256 * ((hi % 256 + 256 - bit_of(lo < (lo + 256 - x) as nat % 256))
            as nat % 256) == (lo + 256 * (hi % 256) + 65536 - x) as nat % 65536,
{
    let h = hi % 256;
    let d = (lo + 256 - x) as nat;
    let b = bit_of(lo < d % 256);
    if x <= lo {
        vstd::arithmetic::div_mod::lemma_fundamental_div_mod_converse(d as int, 256, 1, lo - x);
        assert(b == 0);
        vstd::arithmetic::div_mod::lemma_fundamental_div_mod_converse(
            (h + 256) as int,
            256,
            1,
            h as int,
        );
        let v = lo - x + 256 * h;
        assert(v < 65536);
        vstd::arithmetic::div_mod::lemma_fundamental_div_mod_converse(
            (lo + 256 * h + 65536 - x),
            65536,
            1,
            v,
        );
    } else {
        vstd::arithmetic::div_mod::lemma_small_mod(d, 256);
        assert(b == 1);
        if h > 0 {
            vstd::arithmetic::div_mod::lemma_fundamental_div_mod_converse(
                (h + 255) as int,
                256,
                1,
                (h - 1) as int,
            );
            let v = d + 256 * (h - 1);
            assert(v < 65536);
            vstd::arithmetic::div_mod::lemma_fundamental_div_mod_converse(
                (lo + 256 * h + 65536 - x),
                65536,
                1,
                v,
            );
        } else {
            vstd::arithmetic::div_mod::lemma_small_mod(255, 256);
            let v = d + 256 * 255;
            assert(v < 65536);
            vstd::arithmetic::div_mod::lemma_small_mod(v, 65536);
        }
    }
}

/// Choosing by a bit: adding `(b - a) * x` to `a` gives `b` when the bit is set
/// and `a` otherwise, modulo `2^8`.
pub proof fn lemma_select(a: nat, b: nat, d: nat, e: nat, x: nat)
    requires
        a < 256,
        b < 256,
        x <= 1,
        (d + a) % 256 == b,
        e % 256 == (d * x) % 256,
    ensures
        (e + a) % 256 == (if x == 1 {
            b
        } else {
            a
        }),
{
    vstd::arithmetic::div_mod::lemma_add_mod_noop(e as int, a as int, 256);
    vstd::arithmetic::div_mod::lemma_add_mod_noop((d * x) as int, a as int, 256);
    if x == 1 {
        assert(d * x == d);
    } else {
        assert(d * x == 0);
        vstd::arithmetic::div_mod::lemma_small_mod(a, 256);
    }
}

// ----------------------------------------------------------------------------
// Adding an order
// ----------------------------------------------------------------------------

/// A limb that an addition takes: an 8-bit integer (below `2^8`, carries
/// included), well formed, every block of degree at most 8, so that it still
/// fits next to a carry-propagated limb.
pub open spec fn addend_limb(c: Ciphertext, id: int) -> bool {
    &&& limb_of(c, id)
    &&& well_formed(radix_blocks(c))
    &&& crate::radix::degrees_within(radix_blocks(c), 8)
    &&& ct_value(c) < limb_modulus()
}

/// Adds `b` to the pair `a1` (low limb), `a2` (high limb): the low limb takes
/// `b`, a comparison of the low limb before and after finds the carry, and the
/// high limb takes the carry; each limb is carry-propagated first when its
/// addition would overflow a block. The carries of both limbs can be
/// propagated exactly; `b` is an 8-bit integer whose block degrees are at
/// most 8 (the carry test compares 8-bit limbs).
fn add(a1: &mut Ciphertext, a2: &mut Ciphertext, b: &Ciphertext, server_key: &FheServerKey)
    requires
        open_limb(*old(a1), server_key.id()),
        open_limb(*old(a2), server_key.id()),
        addend_limb(*b, server_key.id()),
    ensures
        clean_limb(*final(a1), server_key.id()),
        limb_of(*final(a2), server_key.id()),
        accumulator(*final(a2), LIMB_BLOCKS as nat),
        pair_value(*final(a1), *final(a2)) == (pair_value(*old(a1), *old(a2)) + ct_value(*b))
            % pair_modulus(),
{
    let ghost id = server_key.id();
    let ghost n = LIMB_BLOCKS as nat;
    let ghost lo = limb(*a1);
    let ghost hi = ct_value(*a2);
    let ghost x = ct_value(*b);
    let ghost a0 = radix_blocks(*a1);
    proof {
        lemma_limb_constants();
        lemma_operand_after(a0);
    }
    let mut s = ct_clone(a1);
    if !is_add_possible(server_key, a1, b) {
        let ghost before = radix_blocks(*a1);
        full_propagate(server_key, a1);
        proof {
            crate::fhe::lemma_propagated_blocks(before);
        }
    }
    let ghost a1b = radix_blocks(*a1);
    proof {
        assert(blocks_value(a1b) % 256 == lo) by {
            if a1b != a0 {
                vstd::arithmetic::div_mod::lemma_mod_twice(blocks_value(a0) as int, 256);
            }
        }
        assert forall|i: int| 0 <= i < n implies (#[trigger] a1b[i]).0 <= a1b[i].1 && (a1b[i].1
            > 3 ==> a1b[i].1 + radix_blocks(*b)[i].1 <= 11) && (a1b[i].1 <= 3 ==> a1b[i].0 < 4) by {
            if a1b != a0 {
                assert(crate::radix::digit(blocks_value(a0), i as nat) < 4);
            }
        }
    }
    unchecked_add_assign(server_key, a1, b);
    proof {
        let (bb, br) = (radix_blocks(*b), radix_blocks(*a1));
        assert forall|i: int| 0 <= i < n implies #[trigger] br[i].0 == a1b[i].0 + bb[i].0 && br[i].0
            <= br[i].1 && br[i].0 <= 12 by {
            assert(a1b[i].0 <= a1b[i].1 && bb[i].0 <= bb[i].1 && bb[i].1 <= 8);
            if a1b[i].1 > 3 {
                assert(a1b[i].1 + bb[i].1 <= 11);
            }
        }
        crate::radix::lemma_value_add(a1b, bb, br);
        assert(propagatable(br)) by {
            assert forall|i: int| 1 <= i < br.len() implies (#[trigger] br[i]).0 <= 12 by {}
            crate::radix::lemma_propagatable_bounded(br);
        }
        lemma_operand_after(br);
        lemma_operand_after(radix_blocks(s));
        vstd::arithmetic::div_mod::lemma_add_mod_noop(blocks_value(a1b) as int, x as int, 256);
        vstd::arithmetic::div_mod::lemma_small_mod(x, 256);
        vstd::arithmetic::div_mod::lemma_mod_twice((lo + x) as int, 256);
    }
    let ghost mid = radix_blocks(*a1);
    let mut z1 = smart_gt(server_key, &mut s, a1);
    proof {
        assert(blocks_value(radix_blocks(s)) == lo);
        assert(ct_value(*a1) == (lo + x) % 256);
        lemma_bit_blocks(bit_of(lo > (lo + x) % 256), n);
    }
    let ghost hb = radix_blocks(*a2);
    if !is_add_possible(server_key, a2, &z1) {
        full_propagate(server_key, a2);
        proof {
            crate::fhe::lemma_propagated_blocks(hb);
        }
    }
    let ghost h2 = radix_blocks(*a2);
    proof {
        vstd::arithmetic::div_mod::lemma_mod_twice(hi as int, 256);
        assert(blocks_value(h2) % 256 == hi % 256);
        assert(well_formed(h2)) by {
            if h2 != hb {
                assert forall|i: int| 0 <= i < n implies (#[trigger] h2[i]).0 <= h2[i].1 && h2[i].0
                    <= 15 by {
                    assert(crate::radix::digit(hi, i as nat) < 4);
                }
            }
        }
    }
    unchecked_add_assign(server_key, a2, &z1);
    proof {
        let (zb, hr) = (radix_blocks(z1), radix_blocks(*a2));
        let c = bit_of(lo > (lo + x) % 256);
        assert forall|i: int| 0 <= i < n implies #[trigger] hr[i].0 == h2[i].0 + zb[i].0 && hr[i].0
            <= hr[i].1 && hr[i].1 <= 11 && hr[i].0 <= 15 by {
            assert(h2[i].0 <= h2[i].1);
            if h2 == hb {
                assert(h2[i].1 + zb[i].1 <= 11);
            } else {
                assert(h2[i].1 == 3);
            }
        }
        crate::radix::lemma_value_add(h2, zb, hr);
        assert(ct_value(*a2) == blocks_value(h2) + c);
        vstd::arithmetic::div_mod::lemma_add_mod_noop(blocks_value(h2) as int, c as int, 256);
        vstd::arithmetic::div_mod::lemma_add_mod_noop(hi as int, c as int, 256);
        lemma_carry_pair(lo, hi, x);
    }
}

// ----------------------------------------------------------------------------
// Choosing the smaller pair
// ----------------------------------------------------------------------------

/// What `smart_sub` leaves of two clean limbs: nothing is propagated, and the
/// difference stands for `b - a` modulo `2^8`, with every block of degree at
/// most 7.
proof fn lemma_clean_sub(a: Seq<RadixBlock>, b: Seq<RadixBlock>, r: Seq<RadixBlock>)
    requires
        clean(a),
        clean(b),
        a.len() == LIMB_BLOCKS,
        b.len() == LIMB_BLOCKS,
    ensures
        crate::fhe::smart_sub_operands(b, a) == (b, a),
        crate::fhe::sub_fits(b, a),
        crate::fhe::unchecked_sub_post(b, a, r) ==> {
            &&& propagatable(r)
            &&& crate::radix::degrees_within(r, 7)
            &&& (blocks_value(r) + blocks_value(a)) % limb_modulus() == blocks_value(b)
        },
{
    lemma_limb_constants();
    lemma_clean(a);
    lemma_clean(b);
    assert(crate::fhe::neg_possible(a)) by {
        assert forall|i: int| 0 <= i < a.len() implies #[trigger] crate::radix::round_up4(a[i].1)
            / 3 <= 11 by {
            assert(a[i].1 <= 3);
        }
    }
    assert(crate::fhe::sub_possible(b, a)) by {
        assert forall|i: int| 0 <= i < b.len() && i < a.len() implies #[trigger] b[i].1
            + crate::radix::round_up4(a[i].1) <= 11 by {
            assert(a[i].1 <= 3 && b[i].1 <= 3);
        }
    }
    assert forall|i: int| 0 <= i < a.len() implies #[trigger] b[i].0 + neg_term(a, i as nat)
        <= 15 by {
        crate::radix::lemma_neg_term_clean(a, i as nat);
    }
    if crate::fhe::unchecked_sub_post(b, a, r) {
        assert forall|i: int| 0 <= i < r.len() implies (#[trigger] r[i]).1 <= 7 && r[i].0 <= 12 by {
            crate::radix::lemma_neg_term_clean(a, i as nat);
            assert(r[i].0 <= r[i].1);
        }
        crate::radix::lemma_propagatable_bounded(r);
        let z = neg_term(a, 3);
        crate::radix::lemma_neg_term_clean(a, 3);
        assert(z == 0 || z == 4);
        assert(blocks_value(r) + blocks_value(a) == blocks_value(b) + z * 64);
        vstd::arithmetic::div_mod::lemma_small_mod(blocks_value(b), 256);
        if z == 4 {
            vstd::arithmetic::div_mod::lemma_mod_add_multiples_vanish(blocks_value(b) as int, 256);
        }
    }
}

/// Adding a product of degree 6 in every block to a clean limb: the sum is
/// exact, of degree 6 to 9 in every block.
proof fn lemma_product_plus_limb(e: Seq<RadixBlock>, a: Seq<RadixBlock>, r: Seq<RadixBlock>)
    requires
        well_formed(e),
        clean(a),
        e.len() == LIMB_BLOCKS,
        a.len() == LIMB_BLOCKS,
        forall|i: int| 0 <= i < LIMB_BLOCKS ==> (#[trigger] e[i]).1 == 6,
        crate::fhe::unchecked_add_post(e, a, r),
    ensures
        well_formed(r),
        propagatable(r),
        has_carry_degree(r),
        blocks_value(r) == blocks_value(e) + blocks_value(a),
        forall|i: int| 0 <= i < LIMB_BLOCKS ==> (#[trigger] r[i]).1 == 6 + a[i].1,
{
    assert forall|i: int| 0 <= i < LIMB_BLOCKS implies #[trigger] r[i].0 == e[i].0 + a[i].0
        && r[i].0 <= r[i].1 && r[i].0 <= 9 && r[i].1 == 6 + a[i].1 by {
        assert(e[i].0 <= e[i].1 && a[i].0 <= a[i].1 && a[i].1 <= 3);
    }
    crate::radix::lemma_value_add(e, a, r);
    assert(r[0].1 >= 4);
    assert(propagatable(r)) by {
        assert forall|i: int| 1 <= i < r.len() implies (#[trigger] r[i]).0 <= 12 by {}
        crate::radix::lemma_propagatable_bounded(r);
    }
}

/// The smaller of the pairs `a1`, `a2` and `b1`, `b2` (low limb first): the
/// high limbs are compared, and the low ones, the bit of `a > b` is formed, and
/// each limb of the result is `a + (b - a) * bit`.
fn min2(
    a1: &mut Ciphertext,
    a2: &mut Ciphertext,
    b1: &mut Ciphertext,
    b2: &mut Ciphertext,
    server_key: &FheServerKey,
) -> (c: (Ciphertext, Ciphertext))
    requires
        open_limb(*old(a1), server_key.id()),
        open_limb(*old(a2), server_key.id()),
        open_limb(*old(b1), server_key.id()),
        open_limb(*old(b2), server_key.id()),
    ensures
        clean_limb(*final(a1), server_key.id()),
        clean_limb(*final(a2), server_key.id()),
        clean_limb(*final(b1), server_key.id()),
        clean_limb(*final(b2), server_key.id()),
        limb(*final(a1)) == limb(*old(a1)),
        limb(*final(a2)) == limb(*old(a2)),
        limb(*final(b1)) == limb(*old(b1)),
        limb(*final(b2)) == limb(*old(b2)),
        settling_limb(c.0, server_key.id()),
        open_limb(c.1, server_key.id()),
        pair_value(c.0, c.1) == crate::matching::min_of(
            pair_value(*old(a1), *old(a2)),
            pair_value(*old(b1), *old(b2)),
        ),
{
    let ghost id = server_key.id();
    let ghost n = LIMB_BLOCKS as nat;
    let ghost la1 = limb(*a1);
    let ghost la2 = limb(*a2);
    let ghost lb1 = limb(*b1);
    let ghost lb2 = limb(*b2);
    proof {
        lemma_limb_constants();
        lemma_operand_after(radix_blocks(*a2));
        lemma_operand_after(radix_blocks(*b2));
        lemma_operand_after(radix_blocks(*a1));
        lemma_operand_after(radix_blocks(*b1));
    }
    let mut z1 = smart_gt(server_key, a2, b2);
    let ghost x1 = bit_of(la2 > lb2);
    proof {
        lemma_bit_blocks(x1, n);
        lemma_clean(radix_blocks(*a2));
        lemma_clean(radix_blocks(*b2));
        lemma_operand_after(radix_blocks(*a2));
        lemma_operand_after(radix_blocks(*b2));
    }
    let mut z2 = smart_eq(server_key, a2, b2);
    let ghost x2 = bit_of(la2 == lb2);
    let mut z3 = smart_gt(server_key, a1, b1);
    let ghost x3 = bit_of(la1 > lb1);
    proof {
        lemma_bit_blocks(x2, n);
        lemma_bit_blocks(x3, n);
        lemma_clean(radix_blocks(*a1));
        lemma_clean(radix_blocks(*b1));
        vstd::arithmetic::div_mod::lemma_small_mod(la1, 256);
        vstd::arithmetic::div_mod::lemma_small_mod(lb1, 256);
        assert(ct_value(*a1) == la1);
        assert(ct_value(*b1) == lb1);
    }
    smart_bitand_assign(server_key, &mut z2, &mut z3);
    let ghost x23 = bit_of(x2 == 1 && x3 == 1);
    proof {
        lemma_bit_blocks(x23, n);
    }
    smart_bitor_assign(server_key, &mut z1, &mut z2);
    let ghost x = bit_of(x1 == 1 || x23 == 1);
    proof {
        lemma_bit_blocks(x, n);
        assert(x == bit_of(la1 + 256 * la2 > lb1 + 256 * lb2));
        lemma_clean_sub(radix_blocks(*a1), radix_blocks(*b1), radix_blocks(*a1));
    }
    let ghost a1b = radix_blocks(*a1);
    let ghost b1b = radix_blocks(*b1);
    let mut d1 = smart_sub(server_key, b1, a1);
    proof {
        lemma_clean_sub(a1b, b1b, radix_blocks(d1));
        assert(radix_blocks(*a1) == a1b);
    }
    let ghost dv1 = ct_value(d1);
    let mut e1 = smart_mul(server_key, &mut d1, &mut z1);
    proof {
        crate::fhe::lemma_propagated_blocks(bit_blocks(x, n));
        crate::radix::lemma_digit_clean(x, n);
        crate::radix::lemma_digit_value(x, n);
        vstd::arithmetic::div_mod::lemma_small_mod(x, 256);
        assert(ct_value(z1) == x);
    }
    if !is_add_possible(server_key, &e1, a1) {
        full_propagate(server_key, a1);
        proof {
            crate::fhe::lemma_propagated_blocks(a1b);
            crate::radix::lemma_digit_clean(la1, n);
            crate::radix::lemma_digit_value(la1, n);
        }
    }
    proof {
        assert(clean(radix_blocks(*a1)));
        assert(ct_value(*a1) == la1);
    }
    let c1 = unchecked_add(server_key, &e1, a1);
    proof {
        lemma_product_plus_limb(radix_blocks(e1), radix_blocks(*a1), radix_blocks(c1));
        lemma_select(la1, lb1, dv1, ct_value(e1), x);
        assert(limb(c1) == (if x == 1 {
            lb1
        } else {
            la1
        }));
        lemma_clean_sub(radix_blocks(*a2), radix_blocks(*b2), radix_blocks(*a2));
    }
    let ghost a2b = radix_blocks(*a2);
    let ghost b2b = radix_blocks(*b2);
    let mut d2 = smart_sub(server_key, b2, a2);
    proof {
        lemma_clean_sub(a2b, b2b, radix_blocks(d2));
        assert(radix_blocks(*a2) == a2b);
        lemma_clean(radix_blocks(z1));
    }
    let ghost dv2 = ct_value(d2);
    let mut e2 = smart_mul(server_key, &mut d2, &mut z1);
    proof {
        crate::fhe::lemma_propagated_blocks(radix_blocks(z1));
    }
    if !is_add_possible(server_key, &e2, a2) {
        full_propagate(server_key, a2);
        proof {
            crate::fhe::lemma_propagated_blocks(a2b);
            crate::radix::lemma_digit_clean(la2, n);
            crate::radix::lemma_digit_value(la2, n);
            vstd::arithmetic::div_mod::lemma_small_mod(la2, 256);
        }
    }
    proof {
        assert(clean(radix_blocks(*a2)));
        assert(ct_value(*a2) == la2);
        vstd::arithmetic::div_mod::lemma_small_mod(la2, 256);
        vstd::arithmetic::div_mod::lemma_small_mod(lb2, 256);
    }
    let c2 = unchecked_add(server_key, &e2, a2);
    proof {
        lemma_product_plus_limb(radix_blocks(e2), radix_blocks(*a2), radix_blocks(c2));
        lemma_select(la2, lb2, dv2, ct_value(e2), x);
        assert(limb(c2) == (if x == 1 {
            lb2
        } else {
            la2
        }));
    }
    (c1, c2)
}

// ----------------------------------------------------------------------------
// Settling an order
// ----------------------------------------------------------------------------

/// A smart comparison leaves a settling limb carry-propagated: clean, every
/// block of degree 3, standing for its limb.
proof fn lemma_settling_after(c: Ciphertext, id: int)
    requires
        settling_limb(c, id),
    ensures
        clean(crate::fhe::smart_operand(radix_blocks(c))),
        crate::fhe::smart_operand(radix_blocks(c)).len() == LIMB_BLOCKS,
        forall|i: int|
            0 <= i < LIMB_BLOCKS ==> (#[trigger] crate::fhe::smart_operand(radix_blocks(c))[i]).1
                == 3,
        blocks_value(crate::fhe::smart_operand(radix_blocks(c))) == limb(c),
{
    lemma_operand_after(radix_blocks(c));
}

/// The smaller of the pair `a1`, `a2` and the limb `b`, on one limb: the bit
/// of `a > b` is formed from the high limb and the low one (the comparisons
/// propagate the carries of a limb that holds any), and the result is
/// `a1 + (b - a1) * bit`, not carry-propagated; `a1` is carry-propagated first
/// where a step would overflow a block. The carries of all three can be
/// propagated exactly. When `a1` holds a carry or is carry-propagated, the
/// result has degree 9 in every block.
fn min(a1: &mut Ciphertext, a2: &mut Ciphertext, b: &mut Ciphertext, server_key: &FheServerKey) -> (r:
    Ciphertext)
    requires
        open_limb(*old(a1), server_key.id()),
        open_limb(*old(a2), server_key.id()),
        open_limb(*old(b), server_key.id()),
    ensures
        clean_limb(*final(a1), server_key.id()),
        limb(*final(a1)) == limb(*old(a1)),
        settling_limb(*old(a1), server_key.id()) ==> digit_limb(*final(a1), server_key.id()),
        clean_limb(*final(a2), server_key.id()),
        limb(*final(a2)) == limb(*old(a2)),
        clean_limb(*final(b), server_key.id()),
        limb(*final(b)) == limb(*old(b)),
        clean(radix_blocks(*old(b))) ==> radix_blocks(*final(b)) == radix_blocks(*old(b)),
        limb_of(r, server_key.id()),
        well_formed(radix_blocks(r)),
        propagatable(radix_blocks(r)),
        settling_limb(*old(a1), server_key.id()) ==> settled_order(r, server_key.id()),
        limb(r) == crate::matching::min_of(pair_value(*old(a1), *old(a2)), limb(*old(b))),
        clean(radix_blocks(*old(b))) ==> limb(r) == crate::matching::min_of(
            pair_value(*old(a1), *old(a2)),
            ct_value(*old(b)),
        ),
{
    let ghost id = server_key.id();
    let ghost n = LIMB_BLOCKS as nat;
    let ghost la1 = limb(*a1);
    let ghost la2 = limb(*a2);
    let ghost bv = limb(*b);
    let ghost settling = settling_limb(*a1, id);
    proof {
        lemma_limb_constants();
        lemma_operand_after(radix_blocks(*a1));
        lemma_operand_after(radix_blocks(*a2));
        lemma_operand_after(radix_blocks(*b));
        if clean(radix_blocks(*b)) {
            lemma_clean(radix_blocks(*b));
            vstd::arithmetic::div_mod::lemma_small_mod(ct_value(*b), 256);
        }
        if settling {
            lemma_settling_after(*a1, id);
        }
        crate::radix::lemma_zero_value(n);
    }
    let mut zero = trivial_zero(server_key, 4);
    proof {
        assert(clean(radix_blocks(zero))) by {
            assert forall|i: int| 0 <= i < n implies (#[trigger] radix_blocks(zero)[i]).0
                <= radix_blocks(zero)[i].1 && radix_blocks(zero)[i].1 <= 3 by {}
        }
        lemma_clean(radix_blocks(zero));
        lemma_operand_after(radix_blocks(zero));
        vstd::arithmetic::div_mod::lemma_small_mod(0, 256);
    }
    let mut z1 = smart_gt(server_key, a2, &mut zero);
    let ghost x1 = bit_of(la2 > 0);
    proof {
        lemma_bit_blocks(x1, n);
    }
    let mut z2 = smart_gt(server_key, a1, b);
    let ghost x2 = bit_of(la1 > bv);
    let ghost a1b = radix_blocks(*a1);
    proof {
        lemma_bit_blocks(x2, n);
        vstd::arithmetic::div_mod::lemma_small_mod(la1, 256);
        vstd::arithmetic::div_mod::lemma_small_mod(la2, 256);
        vstd::arithmetic::div_mod::lemma_small_mod(bv, 256);
        lemma_clean(radix_blocks(*b));
        lemma_clean(a1b);
        assert(ct_value(*b) == bv);
        assert(ct_value(*a1) == la1);
    }
    smart_bitor_assign(server_key, &mut z1, &mut z2);
    let ghost x = bit_of(x1 == 1 || x2 == 1);
    proof {
        lemma_bit_blocks(x, n);
        assert(x == bit_of(la1 + 256 * la2 > bv));
    }
    if !is_sub_possible(server_key, b, a1) {
        full_propagate(server_key, a1);
        proof {
            crate::fhe::lemma_propagated_blocks(a1b);
            crate::radix::lemma_digit_value(la1, n);
            crate::radix::lemma_digit_clean(la1, n);
        }
    }
    let ghost a1c = radix_blocks(*a1);
    proof {
        assert(clean(a1c));
        assert(settling ==> forall|i: int| 0 <= i < n ==> (#[trigger] a1c[i]).1 == 3);
        assert(blocks_value(a1c) == la1);
        assert forall|i: int| 0 <= i < n implies #[trigger] radix_blocks(*b)[i].0 + neg_term(
            a1c,
            i as nat,
        ) <= 15 by {
            crate::radix::lemma_neg_term_clean(a1c, i as nat);
        }
        lemma_clean(a1c);
        assert(crate::fhe::sub_fits(radix_blocks(*b), a1c));
    }
    let mut d = unchecked_sub(server_key, b, a1);
    proof {
        let db = radix_blocks(d);
        let z = neg_term(a1c, 3);
        crate::radix::lemma_neg_term_clean(a1c, 3);
        assert(z == 0 || z == 4);
        assert(pow4(3) == 64);
        assert(blocks_value(db) + la1 == bv + z * 64);
        assert forall|i: int| 0 <= i < n implies (#[trigger] db[i]).1 <= 7 && db[i].0 <= 12 by {
            crate::radix::lemma_neg_term_clean(a1c, i as nat);
            assert(db[i].0 <= db[i].1);
        }
        assert(propagatable(db)) by {
            assert forall|i: int| 1 <= i < db.len() implies (#[trigger] db[i]).0 <= 12 by {}
            crate::radix::lemma_propagatable_bounded(db);
        }
        if z == 4 {
            vstd::arithmetic::div_mod::lemma_mod_add_multiples_vanish(bv as int, 256);
        }
        assert((blocks_value(db) + la1) % 256 == bv);
    }
    let ghost dv = ct_value(d);
    let mut e = smart_mul(server_key, &mut d, &mut z1);
    proof {
        crate::fhe::lemma_propagated_blocks(bit_blocks(x, n));
    }
    if !is_add_possible(server_key, &e, a1) {
        full_propagate(server_key, a1);
        proof {
            crate::fhe::lemma_propagated_blocks(a1c);
            crate::radix::lemma_digit_value(la1, n);
            crate::radix::lemma_digit_clean(la1, n);
        }
    }
    proof {
        assert(clean(radix_blocks(*a1)));
        assert(settling ==> forall|i: int| 0 <= i < n ==> (#[trigger] radix_blocks(*a1)[i]).1 == 3);
        assert(ct_value(*a1) == la1);
    }
    let r = unchecked_add(server_key, &e, a1);
    proof {
        lemma_product_plus_limb(radix_blocks(e), radix_blocks(*a1), radix_blocks(r));
        lemma_select(la1, bv, dv, ct_value(e), x);
        lemma_clean(radix_blocks(*a2));
        vstd::arithmetic::div_mod::lemma_small_mod(la1, 256);
    }
    r
}

/// A limb that a subtraction takes away: well formed, every block of degree
/// at most 9. Its negation then never puts more than 12 into a block.
pub open spec fn order_limb(c: Ciphertext, id: int) -> bool {
    &&& limb_of(c, id)
    &&& well_formed(radix_blocks(c))
    &&& crate::radix::degrees_within(radix_blocks(c), 9)
}

/// The correcting terms of the negation of blocks of degree at most 9 are
/// multiples of 4, at most 12.
proof fn lemma_neg_term_bounded(bs: Seq<RadixBlock>, i: nat)
    requires
        i < bs.len(),
        crate::radix::degrees_within(bs, 9),
    ensures
        neg_term(bs, i) <= 12,
        neg_term(bs, i) % 4 == 0,
    decreases i,
{
    if i > 0 {
        lemma_neg_term_bounded(bs, (i - 1) as nat);
    }
    let carried: nat = if i == 0 {
        0
    } else {
        neg_term(bs, (i - 1) as nat) / 4
    };
    let d = bs[i as int].1 + carried;
    assert(d <= 12);
    let q = (d + 3) / 4;
    assert(q <= 3);
    assert((q * 4) % 4 == 0) by (nonlinear_arith);
}

/// Subtracting from message-only blocks: when every block of `a` holds at most
/// 3 and the negation of `b` puts multiples of 4, at most 12, into the blocks,
/// the difference `r` can be propagated exactly; every carry of its
/// propagation is at most what the negation handed on.
#[verifier::spinoff_prover]
proof fn lemma_sub_chain(a: Seq<RadixBlock>, b: Seq<RadixBlock>, r: Seq<RadixBlock>, i: nat)
    requires
        a.len() == b.len(),
        r.len() == a.len(),
        i <= r.len(),
        forall|j: int| 0 <= j < a.len() ==> (#[trigger] a[j]).0 <= 3,
        forall|j: int|
            0 <= j < b.len() ==> #[trigger] neg_term(b, j as nat) <= 12 && neg_term(b, j as nat) % 4
                == 0,
        forall|j: int|
            0 <= j < r.len() ==> (#[trigger] r[j]).0 + b[j].0 + crate::fhe::neg_carried(b, j as nat)
                == a[j].0 + neg_term(b, j as nat),
    ensures
        crate::radix::carry_in(r, i) <= crate::fhe::neg_carried(b, i),
        forall|j: int| 0 <= j < i ==> (#[trigger] r[j]).0 + crate::radix::carry_in(r, j as nat) <= 15,
    decreases i,
{
    if i > 0 {
        let k = (i - 1) as nat;
        lemma_sub_chain(a, b, r, k);
        let t = neg_term(b, k);
        let ck = crate::radix::carry_in(r, k);
        let nk = crate::fhe::neg_carried(b, k);
        let v = r[k as int].0 + ck;
        assert(r[k as int].0 + b[k as int].0 + nk == a[k as int].0 + t);
        assert(a[k as int].0 <= 3);
        assert(t <= 12 && t % 4 == 0);
        assert(v <= 3 + t);
        let q = t / 4;
        assert(v / 4 <= q) by (nonlinear_arith)
            requires
                v <= 3 + t,
                t % 4 == 0,
                q == t / 4,
        ;
        assert(crate::radix::carry_in(r, i) == ((r[k as int].0 + ck) / 4) as nat);
        assert(crate::fhe::neg_carried(b, i) == q);
    }
}

/// Subtracting modulo `2^8`: if `r + b == a + 256 * k`, the limb of `r` is the
/// limb of `a` minus the limb of `b`, modulo `2^8`.
proof fn lemma_limb_sub(r: nat, a: nat, b: nat, k: nat)
    requires
        r + b == a + 256 * k,
    ensures
        r % 256 == (a % 256 + 256 - b % 256) as nat % 256,
{
    vstd::arithmetic::div_mod::lemma_fundamental_div_mod(a as int, 256);
    vstd::arithmetic::div_mod::lemma_fundamental_div_mod(b as int, 256);
    let (qa, qb) = (a as int / 256, b as int / 256);
    let t = (a % 256 + 256 - b % 256) as int;
    assert(r as int == 256 * (qa + k - qb - 1) + t);
    vstd::arithmetic::div_mod::lemma_mod_multiples_vanish(qa + k - qb - 1, t, 256);
}

/// Subtracts `b` from the pair `a1`, `a2`: the low limb takes `b` away, a
/// comparison of the low limb before and after finds the borrow, and the high
/// limb gives it; each limb is carry-propagated first when its subtraction
/// would overflow a block. The carries of both limbs can be propagated
/// exactly, every block of `b` has degree at most 9, and the low limb holds
/// messages only unless the subtraction makes it carry-propagated first
/// (otherwise the borrow chain could overflow a block). The low limb comes out
/// carry-propagated when the first block of `b` has a degree of 1 or more.
#[verifier::spinoff_prover]
fn sub(a1: &mut Ciphertext, a2: &mut Ciphertext, b: &Ciphertext, server_key: &FheServerKey)
    requires
        open_limb(*old(a1), server_key.id()),
        open_limb(*old(a2), server_key.id()),
        order_limb(*b, server_key.id()),
        crate::radix::no_carries(radix_blocks(*old(a1))) || !crate::fhe::sub_possible(
            radix_blocks(*old(a1)),
            radix_blocks(*b),
        ),
    ensures
        clean_limb(*final(a1), server_key.id()),
        radix_blocks(*b)[0].1 >= 1 ==> digit_limb(*final(a1), server_key.id()),
        limb_of(*final(a2), server_key.id()),
        well_formed(radix_blocks(*final(a2))),
        crate::radix::degrees_within(radix_blocks(*old(a2)), 8) ==> open_limb(
            *final(a2),
            server_key.id(),
        ),
        pair_value(*final(a1), *final(a2)) == (pair_value(*old(a1), *old(a2)) + pair_modulus()
            - limb(*b)) as nat % pair_modulus(),
{
    let ghost id = server_key.id();
    let ghost n = LIMB_BLOCKS as nat;
    let ghost a0 = radix_blocks(*a1);
    let ghost la1 = limb(*a1);
    let ghost a2v = ct_value(*a2);
    let ghost h0 = radix_blocks(*a2);
    let ghost bb = radix_blocks(*b);
    let ghost bv = ct_value(*b);
    let ghost x = limb(*b);
    proof {
        lemma_limb_constants();
        lemma_operand_after(a0);
        assert forall|i: int| 0 <= i < n implies #[trigger] neg_term(bb, i as nat) <= 12 && neg_term(
            bb,
            i as nat,
        ) % 4 == 0 by {
            lemma_neg_term_bounded(bb, i as nat);
        }
    }
    let mut s = ct_clone(a1);
    let a1_propagates = !is_sub_possible(server_key, a1, b);
    if a1_propagates {
        full_propagate(server_key, a1);
        proof {
            crate::fhe::lemma_propagated_blocks(a0);
        }
    }
    let ghost a1c = radix_blocks(*a1);
    proof {
        lemma_a1_ready(a0, a1c, bb, la1, a1_propagates);
    }
    unchecked_sub_assign(server_key, a1, b);
    let ghost rb = radix_blocks(*a1);
    proof {
        lemma_low_limb_after_sub(a1c, bb, rb, bv);
        lemma_operand_after(rb);
        lemma_operand_after(radix_blocks(s));
    }
    let mut z1 = smart_lt(server_key, &mut s, a1);
    let ghost c = bit_of(la1 < (la1 + 256 - x) as nat % 256);
    proof {
        assert(blocks_value(radix_blocks(s)) == la1);
        assert(ct_value(*a1) == (la1 + 256 - x) as nat % 256);
        lemma_bit_blocks(c, n);
        lemma_operand_after(h0);
    }
    let a2_propagates = !is_sub_possible(server_key, a2, &z1);
    if a2_propagates {
        full_propagate(server_key, a2);
        proof {
            crate::fhe::lemma_propagated_blocks(h0);
        }
    }
    let ghost a2c = radix_blocks(*a2);
    proof {
        lemma_high_limb_ready(h0, a2c, radix_blocks(z1), c, a2v, a2_propagates);
    }
    let ghost lo_after = ct_value(*a1);
    unchecked_sub_assign(server_key, a2, &z1);
    proof {
        let hb = radix_blocks(*a2);
        lemma_high_limb_after_sub(h0, a2c, radix_blocks(z1), hb, c);
        lemma_borrow_result(la1, a2v, x, lo_after, blocks_value(hb), blocks_value(a2c), c);
        assert(limb(*final(a1)) == lo_after);
        assert(limb(*final(a2)) == blocks_value(hb) % 256);
        assert(limb(*old(a2)) == a2v % 256);
    }
}

/// The pair after subtracting `x` with a borrow: the low limb is the
/// difference modulo `2^8`, and the high limb, which gave the borrow `c`, makes
/// the pair minus `x` modulo `2^16`.
proof fn lemma_borrow_result(
    la1: nat,
    a2v: nat,
    x: nat,
    lo_after: nat,
    hv: nat,
    a2cv: nat,
    c: nat,
)
    requires
        la1 < 256,
        x < 256,
        lo_after == (la1 + 256 - x) as nat % 256,
        c == bit_of(la1 < lo_after),
        hv + c == a2cv + 256,
        a2cv % 256 == a2v % 256,
    ensures
        lo_after % 256 + 256 * (hv % 256) == (la1 + 256 * (a2v % 256) + 65536 - x) as nat % 65536,
{
    vstd::arithmetic::div_mod::lemma_mod_twice((la1 + 256 - x) as int, 256);
    lemma_limb_sub(hv, a2cv, c, 1);
    vstd::arithmetic::div_mod::lemma_small_mod(c, 256);
    assert(hv % 256 == (a2v % 256 + 256 - c) as nat % 256);
    lemma_borrow_pair(la1, a2v, x);
}

/// The low limb, ready for the subtraction: it stands for its limb, every
/// block holds at most 3, and the subtraction fits.
proof fn lemma_a1_ready(
    a0: Seq<RadixBlock>,
    a1c: Seq<RadixBlock>,
    bb: Seq<RadixBlock>,
    la1: nat,
    propagated: bool,
)
    requires
        a0.len() == LIMB_BLOCKS,
        bb.len() == LIMB_BLOCKS,
        propagatable(a0),
        well_formed(bb),
        la1 == blocks_value(a0) % 256,
        crate::radix::no_carries(a0) || !crate::fhe::sub_possible(a0, bb),
        propagated == !crate::fhe::sub_possible(a0, bb),
        propagated ==> a1c == crate::fhe::propagated_blocks(a0),
        !propagated ==> a1c == a0,
        forall|i: int| 0 <= i < LIMB_BLOCKS ==> #[trigger] neg_term(bb, i as nat) <= 12,
    ensures
        blocks_value(a1c) % 256 == la1,
        forall|i: int| 0 <= i < LIMB_BLOCKS ==> (#[trigger] a1c[i]).0 <= 3,
        crate::fhe::sub_fits(a1c, bb),
{
    lemma_limb_constants();
    if propagated {
        crate::fhe::lemma_propagated_blocks(a0);
        vstd::arithmetic::div_mod::lemma_mod_twice(blocks_value(a0) as int, 256);
        assert forall|i: int| 0 <= i < LIMB_BLOCKS implies (#[trigger] a1c[i]).0 <= 3 by {
            assert(a1c[i].0 < 4);
        }
    } else {
        assert forall|i: int| 0 <= i < LIMB_BLOCKS implies (#[trigger] a1c[i]).0 <= 3 by {
            assert(a0[i].0 < 4);
        }
    }
    assert(well_formed(a1c)) by {
        assert forall|i: int| 0 <= i < a1c.len() implies (#[trigger] a1c[i]).0 <= a1c[i].1
            && a1c[i].0 <= 15 by {
            if propagated {
                assert(a1c[i].1 == 3);
            }
        }
    }
    assert forall|i: int| 0 <= i < bb.len() implies #[trigger] a1c[i].0 + neg_term(bb, i as nat)
        <= 15 by {}
}

/// What subtracting `bb` leaves of the low limb: it can be propagated exactly,
/// it stands for the limb minus `bb` modulo `2^8`, and it has a block of
/// degree 4 or more when the first block of `bb` has a degree.
proof fn lemma_low_limb_after_sub(
    a1c: Seq<RadixBlock>,
    bb: Seq<RadixBlock>,
    rb: Seq<RadixBlock>,
    bv: nat,
)
    requires
        a1c.len() == LIMB_BLOCKS,
        bb.len() == LIMB_BLOCKS,
        forall|i: int| 0 <= i < LIMB_BLOCKS ==> (#[trigger] a1c[i]).0 <= 3,
        forall|i: int|
            0 <= i < LIMB_BLOCKS ==> #[trigger] neg_term(bb, i as nat) <= 12 && neg_term(
                bb,
                i as nat,
            ) % 4 == 0,
        crate::fhe::sub_fits(a1c, bb),
        crate::fhe::unchecked_sub_post(a1c, bb, rb),
        bv == blocks_value(bb),
    ensures
        propagatable(rb),
        rb.len() == LIMB_BLOCKS,
        blocks_value(rb) % 256 == (blocks_value(a1c) % 256 + 256 - bv % 256) as nat % 256,
        bb[0].1 >= 1 ==> has_carry_degree(rb),
{
    lemma_limb_constants();
    lemma_sub_chain(a1c, bb, rb, LIMB_BLOCKS as nat);
    reveal(crate::radix::carry_room);
    let z = neg_term(bb, 3);
    assert(z == 4 * (z / 4));
    assert(z * 64 == 256 * (z / 4)) by (nonlinear_arith)
        requires
            z == 4 * (z / 4),
    ;
    assert(blocks_value(rb) + bv == blocks_value(a1c) + z * 64);
    lemma_limb_sub(blocks_value(rb), blocks_value(a1c), bv, z / 4);
    if bb[0].1 >= 1 {
        assert(crate::radix::round_up4(bb[0].1) >= 4);
        assert(rb[0].1 >= 4);
    }
}

/// The high limb, ready for taking the borrow: the subtraction fits.
proof fn lemma_high_limb_ready(
    h0: Seq<RadixBlock>,
    a2c: Seq<RadixBlock>,
    zb: Seq<RadixBlock>,
    c: nat,
    a2v: nat,
    propagated: bool,
)
    requires
        h0.len() == LIMB_BLOCKS,
        propagatable(h0),
        a2v == blocks_value(h0),
        c <= 1,
        zb == bit_blocks(c, LIMB_BLOCKS as nat),
        propagated == !crate::fhe::sub_possible(h0, zb),
        propagated ==> a2c == crate::fhe::propagated_blocks(h0),
        !propagated ==> a2c == h0,
    ensures
        a2c.len() == LIMB_BLOCKS,
        blocks_value(a2c) % 256 == a2v % 256,
        crate::fhe::sub_fits(a2c, zb),
        a2c != h0 ==> forall|i: int| 0 <= i < LIMB_BLOCKS ==> (#[trigger] a2c[i]).0 <= 3,
{
    let n = LIMB_BLOCKS as nat;
    lemma_limb_constants();
    lemma_bit_blocks(c, n);
    if propagated {
        crate::fhe::lemma_propagated_blocks(h0);
        vstd::arithmetic::div_mod::lemma_mod_twice(a2v as int, 256);
    }
    assert(crate::radix::round_up4(1) == 4 && crate::radix::round_up4(0) == 0);
    assert forall|i: int| 0 <= i < n implies #[trigger] a2c[i].0 + neg_term(zb, i as nat) <= 15
        && a2c[i].0 <= a2c[i].1 && a2c[i].0 <= 15 && (propagated ==> a2c[i].0 <= 3) by {
        lemma_neg_term_bit(c, n, i as nat);
        if propagated {
            assert(crate::radix::digit(a2v, i as nat) < 4);
        } else {
            assert(a2c[i].1 + crate::radix::round_up4(zb[i].1) <= 11);
        }
    }
}

/// What taking the borrow leaves of the high limb: it stands for its value
/// minus the borrow, plus `2^8`; and its carries can be propagated exactly when
/// its degrees were at most 8.
proof fn lemma_high_limb_after_sub(
    h0: Seq<RadixBlock>,
    a2c: Seq<RadixBlock>,
    zb: Seq<RadixBlock>,
    hb: Seq<RadixBlock>,
    c: nat,
)
    requires
        h0.len() == LIMB_BLOCKS,
        a2c.len() == LIMB_BLOCKS,
        c <= 1,
        zb == bit_blocks(c, LIMB_BLOCKS as nat),
        well_formed(h0),
        crate::fhe::sub_fits(a2c, zb),
        crate::fhe::unchecked_sub_post(a2c, zb, hb),
        a2c != h0 ==> forall|i: int| 0 <= i < LIMB_BLOCKS ==> (#[trigger] a2c[i]).0 <= 3,
    ensures
        well_formed(hb),
        hb.len() == LIMB_BLOCKS,
        blocks_value(hb) + c == blocks_value(a2c) + 256,
        crate::radix::degrees_within(h0, 8) ==> propagatable(hb),
{
    let n = LIMB_BLOCKS as nat;
    lemma_limb_constants();
    lemma_bit_blocks(c, n);
    lemma_neg_term_bit(c, n, 3);
    assert(zb.len() == 4);
    assert(((zb.len() - 1) as nat) == 3);
    assert(well_formed(hb));
    assert(blocks_value(hb) + c == blocks_value(a2c) + 4 * 64);
    if crate::radix::degrees_within(h0, 8) {
        assert forall|i: int| 1 <= i < n implies (#[trigger] hb[i]).0 <= 12 by {
            lemma_neg_term_bit(c, n, i as nat);
            lemma_neg_term_bit(c, n, (i - 1) as nat);
            assert(crate::fhe::neg_carried(zb, i as nat) == 1);
            if a2c == h0 {
                assert(h0[i].0 <= h0[i].1);
            }
        }
        crate::radix::lemma_propagatable_bounded(hb);
    }
}

/// Subtracting undoes adding: when `add` took the 8-bit integer `b` into the
/// pair `a1`, `a2` and left `s1`, `s2`, that pair and `b` meet what `sub`
/// asks, and subtracting `b` from it gives back the pair `a1`, `a2` stood for.
pub proof fn law_sub_undoes_add(
    a1: Ciphertext,
    a2: Ciphertext,
    b: Ciphertext,
    s1: Ciphertext,
    s2: Ciphertext,
    d1: Ciphertext,
    d2: Ciphertext,
    id: int,
)
    requires
        addend_limb(b, id),
        clean_limb(s1, id),
        limb_of(s2, id),
        accumulator(s2, LIMB_BLOCKS as nat),
        pair_value(s1, s2) == (pair_value(a1, a2) + ct_value(b)) % pair_modulus(),
        pair_value(d1, d2) == (pair_value(s1, s2) + pair_modulus() - limb(b)) as nat
            % pair_modulus(),
    ensures
        open_limb(s1, id),
        open_limb(s2, id),
        crate::radix::no_carries(radix_blocks(s1)),
        order_limb(b, id),
        pair_value(d1, d2) == pair_value(a1, a2),
{
    lemma_limb_constants();
    lemma_clean(radix_blocks(s1));
    lemma_accumulator_propagatable(s2, LIMB_BLOCKS as nat);
    vstd::arithmetic::div_mod::lemma_small_mod(ct_value(b), 256);
    let p = pair_value(a1, a2);
    let x = ct_value(b);
    assert(p < 65536);
    if p + x < 65536 {
        vstd::arithmetic::div_mod::lemma_small_mod(p + x, 65536);
        vstd::arithmetic::div_mod::lemma_mod_add_multiples_vanish(p as int, 65536);
        vstd::arithmetic::div_mod::lemma_small_mod(p, 65536);
    } else {
        vstd::arithmetic::div_mod::lemma_fundamental_div_mod_converse(
            (p + x) as int,
            65536,
            1,
            (p + x - 65536) as int,
        );
        vstd::arithmetic::div_mod::lemma_small_mod(p, 65536);
    }
}

/// The smaller of two pairs does not depend on their order: what `min2`
/// returns for `a`, `b` and what it returns for `b`, `a` stand for the same
/// 16-bit integer (and `min2` asks the same of both pairs).
pub proof fn law_min2_symmetric(
    a1: Ciphertext,
    a2: Ciphertext,
    b1: Ciphertext,
    b2: Ciphertext,
    c1: Ciphertext,
    c2: Ciphertext,
    d1: Ciphertext,
    d2: Ciphertext,
)
    requires
        pair_value(c1, c2) == crate::matching::min_of(pair_value(a1, a2), pair_value(b1, b2)),
        pair_value(d1, d2) == crate::matching::min_of(pair_value(b1, b2), pair_value(a1, a2)),
    ensures
        pair_value(c1, c2) == pair_value(d1, d2),
{
}

// ----------------------------------------------------------------------------
// Matching
// ----------------------------------------------------------------------------

/// The first `size` orders of `xs` are fresh limbs of the key pair `id`.
pub open spec fn limb_orders(xs: Seq<Ciphertext>, size: nat, id: int) -> bool {
    &&& size <= xs.len()
    &&& forall|i: int|
        0 <= i < size ==> operand(#[trigger] xs[i], LIMB_BLOCKS as nat) && keyed(xs[i], id)
}

/// A running sum: a clean low limb and a high limb that can take more carries.
pub open spec fn sum_pair(lo: Ciphertext, hi: Ciphertext, id: int) -> bool {
    &&& clean_limb(lo, id)
    &&& limb_of(hi, id)
    &&& accumulator(hi, LIMB_BLOCKS as nat)
}

/// Adds the first `size` orders of `xs` to the pair `a1`, `a2`.
fn sum_side(
    xs: &Vec<Ciphertext>,
    a1: &mut Ciphertext,
    a2: &mut Ciphertext,
    size: usize,
    server_key: &FheServerKey,
)
    requires
        limb_orders(xs@, size as nat, server_key.id()),
        sum_pair(*old(a1), *old(a2), server_key.id()),
    ensures
        sum_pair(*final(a1), *final(a2), server_key.id()),
        pair_value(*final(a1), *final(a2)) == (pair_value(*old(a1), *old(a2))
            + crate::matching::prefix_total(ct_values(xs@), size as int)) % pair_modulus(),
{
    let ghost id = server_key.id();
    let ghost vals = ct_values(xs@);
    let ghost start = pair_value(*a1, *a2);
    proof {
        lemma_limb_constants();
        assert(vals.take(0) =~= Seq::<nat>::empty());
        assert(pair_value(*a1, *a2) < 65536) by {
            assert(limb(*a1) < 256 && limb(*a2) < 256);
        }
        vstd::arithmetic::div_mod::lemma_small_mod(start, 65536);
    }
    for i in 0..size
        invariant
            id == server_key.id(),
            vals == ct_values(xs@),
            limb_orders(xs@, size as nat, id),
            sum_pair(*a1, *a2, id),
            pair_modulus() == 65536,
            pair_value(*a1, *a2) == (start + crate::matching::prefix_total(vals, i as int))
                % pair_modulus(),
    {
        proof {
            assert(operand(xs@[i as int], LIMB_BLOCKS as nat));
            assert(keyed(xs@[i as int], id));
            lemma_clean(radix_blocks(*a1));
            lemma_accumulator_propagatable(*a2, LIMB_BLOCKS as nat);
            lemma_clean(radix_blocks(xs@[i as int]));
        }
        let ghost before = pair_value(*a1, *a2);
        self::add(a1, a2, &xs[i], server_key);
        proof {
            crate::matching::lemma_prefix_step(vals, i as int);
            assert(vals[i as int] == ct_value(xs@[i as int]));
            vstd::arithmetic::div_mod::lemma_add_mod_noop(
                (start + crate::matching::prefix_total(vals, i as int)) as int,
                vals[i as int] as int,
                65536,
            );
            vstd::arithmetic::div_mod::lemma_mod_twice(vals[i as int] as int, 65536);
            vstd::arithmetic::div_mod::lemma_add_mod_noop(
                before as int,
                vals[i as int] as int,
                65536,
            );
        }
    }
}

/// What settling the first `size` orders of a side against `vol` leaves:
/// those orders settled, each holding its greedy fill, the others untouched.
pub open spec fn limb_side_settled(
    before: Seq<Ciphertext>,
    after: Seq<Ciphertext>,
    size: nat,
    vol: nat,
    id: int,
) -> bool {
    &&& after.len() == before.len()
    &&& forall|j: int|
        0 <= j < size ==> settled_order(#[trigger] after[j], id) && limb(after[j])
            == crate::matching::greedy_fill(ct_values(before).take(size as int), vol)[j]
    &&& forall|j: int| size <= j < after.len() ==> #[trigger] after[j] == before[j]
}

/// The volume left that a side settles against: a pair whose low limb a
/// comparison leaves carry-propagated and whose high limb propagates exactly.
pub open spec fn left_pair(lo: Ciphertext, hi: Ciphertext, id: int) -> bool {
    settling_limb(lo, id) && open_limb(hi, id)
}

/// Settles the first `size` orders of `xs` in list order against the pair
/// `l1`, `l2`: each order becomes the smaller of what it asks and what is left,
/// and what is left shrinks by that much.
fn settle_side(
    xs: &mut Vec<Ciphertext>,
    l1: &mut Ciphertext,
    l2: &mut Ciphertext,
    size: usize,
    server_key: &FheServerKey,
)
    requires
        limb_orders(old(xs)@, size as nat, server_key.id()),
        left_pair(*old(l1), *old(l2), server_key.id()),
    ensures
        limb_side_settled(
            old(xs)@,
            final(xs)@,
            size as nat,
            pair_value(*old(l1), *old(l2)),
            server_key.id(),
        ),
{
    let ghost id = server_key.id();
    let ghost orig = xs@;
    let ghost v = ct_values(orig).take(size as int);
    let ghost vol = pair_value(*l1, *l2);
    let ghost g = crate::matching::greedy_fill(v, vol);
    proof {
        lemma_limb_constants();
        crate::matching::lemma_greedy_len(v, vol);
        assert(g.take(0) =~= Seq::<nat>::empty());
        assert(vol < 65536) by {
            assert(limb(*l1) < 256 && limb(*l2) < 256);
        }
    }
    for i in 0..size
        invariant
            id == server_key.id(),
            orig == old(xs)@,
            v == ct_values(orig).take(size as int),
            v.len() == size,
            g == crate::matching::greedy_fill(v, vol),
            g.len() == size,
            vol < pair_modulus(),
            pair_modulus() == 65536,
            limb_orders(orig, size as nat, id),
            xs.len() == orig.len(),
            forall|j: int|
                0 <= j < i ==> settled_order(#[trigger] xs@[j], id) && limb(xs@[j]) == g[j],
            forall|j: int| i <= j < xs.len() ==> #[trigger] xs@[j] == orig[j],
            left_pair(*l1, *l2, id),
            pair_value(*l1, *l2) == crate::matching::sub_floor(
                vol,
                crate::matching::total(g.take(i as int)),
            ),
    {
        proof {
            assert(operand(orig[i as int], LIMB_BLOCKS as nat));
            assert(keyed(orig[i as int], id));
            crate::matching::lemma_greedy_step(v, vol, i as int);
            assert(v[i as int] == ct_value(orig[i as int]));
            lemma_clean(radix_blocks(orig[i as int]));
        }
        let mut x = ct_clone(&xs[i]);
        let r = self::min(l1, l2, &mut x, server_key);
        let ghost left = pair_value(*l1, *l2);
        proof {
            lemma_limb_constants();
            assert(left < 65536) by {
                assert(limb(*l1) < 256 && limb(*l2) < 256);
            }
        }
        xs.set(i, r);
        proof {
            lemma_clean(radix_blocks(*l1));
            lemma_clean(radix_blocks(*l2));
            assert(crate::radix::degrees_within(radix_blocks(r), 9));
        }
        self::sub(l1, l2, &xs[i], server_key);
        proof {
            lemma_clean(radix_blocks(*l1));
            let fill = g[i as int];
            assert(limb(r) == fill);
            vstd::arithmetic::div_mod::lemma_fundamental_div_mod_converse(
                (left + 65536 - fill) as int,
                65536,
                1,
                (left - fill) as int,
            );
        }
    }
    proof {
        assert forall|j: int| 0 <= j < size implies settled_order(#[trigger] xs@[j], id) && limb(
            xs@[j],
        ) == crate::matching::greedy_fill(ct_values(old(xs)@).take(size as int), vol)[j] by {}
    }
}

/// Sums both sides at once.
///
/// Calls `rayon::join` with two closures, each of which calls `sum_side` on
/// one side; `join` runs both.
#[verifier::external_body]
fn join_sums(
    s: &Vec<Ciphertext>,
    s1: &mut Ciphertext,
    s2: &mut Ciphertext,
    b: &Vec<Ciphertext>,
    b1: &mut Ciphertext,
    b2: &mut Ciphertext,
    size: usize,
    server_key: &FheServerKey,
)
    requires
        limb_orders(s@, size as nat, server_key.id()),
        sum_pair(*old(s1), *old(s2), server_key.id()),
        limb_orders(b@, size as nat, server_key.id()),
        sum_pair(*old(b1), *old(b2), server_key.id()),
    ensures
        sum_pair(*final(s1), *final(s2), server_key.id()),
        pair_value(*final(s1), *final(s2)) == (pair_value(*old(s1), *old(s2))
            + crate::matching::prefix_total(ct_values(s@), size as int)) % pair_modulus(),
        sum_pair(*final(b1), *final(b2), server_key.id()),
        pair_value(*final(b1), *final(b2)) == (pair_value(*old(b1), *old(b2))
            + crate::matching::prefix_total(ct_values(b@), size as int)) % pair_modulus(),
{
    rayon::join(
        || sum_side(s, s1, s2, size, server_key),
        || sum_side(b, b1, b2, size, server_key),
    );
}

/// Settles both sides at once.
///
/// Calls `rayon::join` with two closures, each of which calls `settle_side`
/// on one side against its own copy of the volume; `join` runs both.
#[verifier::external_body]
fn join_settle(
    s: &mut Vec<Ciphertext>,
    s1: &mut Ciphertext,
    s2: &mut Ciphertext,
    b: &mut Vec<Ciphertext>,
    b1: &mut Ciphertext,
    b2: &mut Ciphertext,
    size: usize,
    server_key: &FheServerKey,
)
    requires
        limb_orders(old(s)@, size as nat, server_key.id()),
        left_pair(*old(s1), *old(s2), server_key.id()),
        limb_orders(old(b)@, size as nat, server_key.id()),
        left_pair(*old(b1), *old(b2), server_key.id()),
    ensures
        limb_side_settled(
            old(s)@,
            final(s)@,
            size as nat,
            pair_value(*old(s1), *old(s2)),
            server_key.id(),
        ),
        limb_side_settled(
            old(b)@,
            final(b)@,
            size as nat,
            pair_value(*old(b1), *old(b2)),
            server_key.id(),
        ),
{
    rayon::join(
        || settle_side(s, s1, s2, size, server_key),
        || settle_side(b, b1, b2, size, server_key),
    );
}

/// Matches the first `size` sell orders of `s` with the first `size` buy
/// orders of `b`, all 4-block integers: both sides are summed on pairs of
/// limbs, the traded volume is the smaller sum, and the orders of each side
/// are settled in list order against it. A settled order holds its fill
/// modulo `2^8`, with its carries not propagated.
pub fn volume_match(
    s: &mut Vec<Ciphertext>,
    b: &mut Vec<Ciphertext>,
    server_key: &FheServerKey,
    size: usize,
)
    requires
        limb_orders(old(s)@, size as nat, server_key.id()),
        limb_orders(old(b)@, size as nat, server_key.id()),
    ensures
        limb_side_settled(
            old(s)@,
            final(s)@,
            size as nat,
            crate::matching::traded_volume(
                ct_values(old(s)@).take(size as int),
                ct_values(old(b)@).take(size as int),
                pair_modulus(),
            ),
            server_key.id(),
        ),
        limb_side_settled(
            old(b)@,
            final(b)@,
            size as nat,
            crate::matching::traded_volume(
                ct_values(old(s)@).take(size as int),
                ct_values(old(b)@).take(size as int),
                pair_modulus(),
            ),
            server_key.id(),
        ),
{
    let ghost id = server_key.id();
    let ghost n = LIMB_BLOCKS as nat;
    let mut s1 = trivial_zero(server_key, 4);
    let mut s2 = trivial_zero(server_key, 4);
    let mut b1 = trivial_zero(server_key, 4);
    let mut b2 = trivial_zero(server_key, 4);
    proof {
        lemma_limb_constants();
        crate::radix::lemma_zero_value(n);
        let z = radix_blocks(s1);
        assert forall|i: int| 0 <= i < z.len() implies (#[trigger] z[i]).0 <= z[i].1 && z[i].1
            <= 3 && z[i].0 <= 15 by {}
        assert(sum_pair(s1, s2, id));
        assert(sum_pair(b1, b2, id));
        vstd::arithmetic::div_mod::lemma_small_mod(0, 256);
    }
    join_sums(s, &mut s1, &mut s2, b, &mut b1, &mut b2, size, server_key);
    proof {
        let sv = ct_values(s@);
        let bv = ct_values(b@);
        assert(sv.take(size as int).len() == size);
        assert(crate::matching::prefix_total(sv, size as int) == crate::matching::total(
            sv.take(size as int),
        ));
    }
    proof {
        lemma_clean(radix_blocks(s1));
        lemma_clean(radix_blocks(b1));
        lemma_accumulator_propagatable(s2, n);
        lemma_accumulator_propagatable(b2, n);
    }
    let (mut l1, mut l2) = min2(&mut s1, &mut s2, &mut b1, &mut b2, server_key);
    let mut l1c = ct_clone(&l1);
    let mut l2c = ct_clone(&l2);
    join_settle(s, &mut l1, &mut l2, b, &mut l1c, &mut l2c, size, server_key);
}

/// Decrypts every ciphertext of `cts` into the entry of `clear` at the same
/// index.
fn decrypt_into(client_key: &crate::fhe::FheClientKey, cts: &Vec<Ciphertext>, clear: &mut Vec<u64>)
    requires
        cts.len() <= old(clear).len(),
    ensures
        final(clear).len() == old(clear).len(),
        final(clear)@.skip(cts.len() as int) == old(clear)@.skip(cts.len() as int),
        forall|i: int|
            0 <= i < cts.len() && keyed(cts@[i], client_key.id()) && well_formed(
                radix_blocks(cts@[i]),
            ) ==> #[trigger] final(clear)@[i] as nat == ct_value(cts@[i]) % pow4(
                crate::fhe::decrypted_blocks(radix_blocks(cts@[i]).len()),
            ),
{
    for i in 0..cts.len()
        invariant
            cts.len() <= clear.len(),
            clear.len() == old(clear).len(),
            forall|j: int|
                0 <= j < i && keyed(cts@[j], client_key.id()) && well_formed(radix_blocks(cts@[j]))
                    ==> #[trigger] clear@[j] as nat == ct_value(cts@[j]) % pow4(
                    crate::fhe::decrypted_blocks(radix_blocks(cts@[j]).len()),
                ),
            forall|j: int| i <= j < clear.len() ==> #[trigger] clear@[j] == old(clear)@[j],
    {
        let v = crate::fhe::decrypt(client_key, &cts[i]);
        clear.set(i, v);
    }
    assert(clear@.skip(cts.len() as int) =~= old(clear)@.skip(cts.len() as int));
}

/// What a run leaves of the plain orders: of the first `k` sell orders and
/// the first `k` buy orders (`k` the number of sell orders), the first `size`
/// replaced by what they get and the others reduced to `n`-block integers.
pub open spec fn run_post(
    s_before: Seq<u64>,
    b_before: Seq<u64>,
    s_after: Seq<u64>,
    b_after: Seq<u64>,
    n: nat,
    size: nat,
) -> bool {
    let k = s_before.len() as int;
    let sv = crate::full_paral::entries_mod(s_before, pow4(n));
    let bv = crate::full_paral::entries_mod(b_before.take(k), pow4(n));
    let vol = crate::matching::traded_volume(
        sv.take(size as int),
        bv.take(size as int),
        pair_modulus(),
    );
    &&& s_after.len() == s_before.len()
    &&& b_after.len() == b_before.len()
    &&& forall|i: int|
        0 <= i < size ==> #[trigger] s_after[i] as nat == crate::matching::greedy_fill(
            sv.take(size as int),
            vol,
        )[i] && b_after[i] as nat == crate::matching::greedy_fill(bv.take(size as int), vol)[i]
    &&& forall|i: int|
        size <= i < k ==> #[trigger] s_after[i] as nat == sv[i] && b_after[i] as nat == bv[i]
    &&& b_after.skip(k) == b_before.skip(k)
}

/// Generates keys for `_NUM_BLOCK`-block integers, encrypts the sell orders
/// `s_clear` and as many buy orders `b_clear`, matches the first `size` of each
/// side on pairs of 4-block limbs, and writes the results back in place.
#[allow(non_snake_case)]
pub fn run(s_clear: &mut Vec<u64>, b_clear: &mut Vec<u64>, _NUM_BLOCK: usize, size: usize)
    requires
        _NUM_BLOCK == LIMB_BLOCKS || size == 0,
        size <= old(s_clear).len(),
        old(b_clear).len() >= old(s_clear).len(),
    ensures
        run_post(
            old(s_clear)@,
            old(b_clear)@,
            final(s_clear)@,
            final(b_clear)@,
            _NUM_BLOCK as nat,
            size as nat,
        ),
{
    let (client_key, server_key) = crate::fhe::generate_keys(_NUM_BLOCK);
    let ghost n = _NUM_BLOCK as nat;
    let ghost id = server_key.id();
    let count = s_clear.len();
    let mut s = crate::full_paral::encrypt_all(&client_key, s_clear, count);
    let mut b = crate::full_paral::encrypt_all(&client_key, b_clear, count);
    let ghost s0 = s@;
    let ghost b0 = b@;
    proof {
        assert(limb_orders(s0, size as nat, id)) by {
            assert forall|i: int| 0 <= i < size implies operand(
                #[trigger] s0[i],
                LIMB_BLOCKS as nat,
            ) && keyed(s0[i], id) by {
                assert(crate::full_paral::operands(s0, n));
            }
        }
        assert(limb_orders(b0, size as nat, id)) by {
            assert forall|i: int| 0 <= i < size implies operand(
                #[trigger] b0[i],
                LIMB_BLOCKS as nat,
            ) && keyed(b0[i], id) by {
                assert(crate::full_paral::operands(b0, n));
            }
        }
    }
    volume_match(&mut s, &mut b, &server_key, size);
    decrypt_into(&client_key, &s, s_clear);
    decrypt_into(&client_key, &b, b_clear);
    proof {
        lemma_limb_constants();
        let sv = crate::full_paral::entries_mod(old(s_clear)@, pow4(n));
        let bv = crate::full_paral::entries_mod(old(b_clear)@.take(count as int), pow4(n));
        assert(old(s_clear)@.take(count as int) =~= old(s_clear)@);
        assert(ct_values(s0) == sv);
        assert(ct_values(b0) == bv);
        let vol = crate::matching::traded_volume(
            sv.take(size as int),
            bv.take(size as int),
            pair_modulus(),
        );
        assert forall|i: int| 0 <= i < size implies #[trigger] s_clear@[i] as nat
            == crate::matching::greedy_fill(sv.take(size as int), vol)[i] && b_clear@[i] as nat
            == crate::matching::greedy_fill(bv.take(size as int), vol)[i] by {
            assert(settled_order(s@[i], id));
            assert(settled_order(b@[i], id));
            assert(n == 4);
        }
        assert forall|i: int| size <= i < count implies #[trigger] s_clear@[i] as nat == sv[i]
            && b_clear@[i] as nat == bv[i] by {
            assert(s@[i] == s0[i]);
            assert(b@[i] == b0[i]);
            assert(crate::full_paral::operands(s0, n));
            assert(crate::full_paral::operands(b0, n));
            crate::full_paral::lemma_operand_facts(s0[i], n);
            crate::full_paral::lemma_operand_facts(b0[i], n);
            assert(ct_values(s0)[i] == ct_value(s0[i]));
            assert(ct_values(b0)[i] == ct_value(b0[i]));
            crate::full_paral::lemma_entries_mod(old(s_clear)@, pow4(n));
            crate::full_paral::lemma_entries_mod(old(b_clear)@.take(count as int), pow4(n));
            assert(old(b_clear)@.take(count as int)[i] == old(b_clear)@[i]);
            crate::radix::lemma_pow4_positive(n);
            vstd::arithmetic::div_mod::lemma_mod_decreases(old(s_clear)@[i] as nat, pow4(n));
            vstd::arithmetic::div_mod::lemma_mod_decreases(old(b_clear)@[i] as nat, pow4(n));
            crate::full_paral::lemma_decrypted_exact(ct_value(s0[i]), n);
            crate::full_paral::lemma_decrypted_exact(ct_value(b0[i]), n);
        }
        assert(run_post(old(s_clear)@, old(b_clear)@, s_clear@, b_clear@, n, size as nat));
    }
}

} // verus!
