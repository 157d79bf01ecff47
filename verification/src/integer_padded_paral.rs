//! Volume matching with padded orders: the orders are `n`-block integers, the
//! sums and the volume left are `2n`-block integers, and each order is compared
//! with the volume left in a copy widened to `2n` blocks. After each order is
//! settled, the volume left shrinks by it; the subtraction leaves `4^n` too
//! much, which a scalar subtraction of 256 takes back (exactly so for `n == 4`).
use vstd::prelude::*;
use crate::fhe::{
    Ciphertext, FheClientKey, FheServerKey, all_keyed, encrypt, generate_keys, keyed, radix_key, append_blocks, ct_clone, ct_value, ct_values, full_propagate,
    is_add_possible, is_neg_possible, is_sub_possible, neg_scalar, num_blocks, operand,
    radix_blocks, scalar_blocks_fit, settled, smart_min, smart_scalar_sub_assign, take_blocks,
    trivial_zero, unchecked_add_assign, unchecked_sub_assign,
};
use crate::full_paral::{
    accumulator, lemma_accumulator_propagatable, lemma_operand_facts, lemma_propagated_facts,
    lemma_settled_propagatable, operands, propagated,
};
use crate::full_paral::{as_nats, decrypt_all, entries_mod};
use crate::matching::{min_of, total, traded_volume};
use crate::radix::{RadixBlock, blocks_value, digit_blocks, pow4, zero_blocks};

verus! {

/// The scalar that the subtraction of an order takes back from the volume left.
pub const SUB_CORRECTION: u64 = 256;

/// What the subtraction of an `n`-block order adds to a `2n`-block volume
/// left besides taking the order away: `4^n` from the negation of the order,
/// and `4^(2n) - 256` from the scalar subtraction, modulo `4^(2n)`.
pub open spec fn padded_offset(n: nat) -> nat {
    pow4(n) + neg_scalar(SUB_CORRECTION as nat, 2 * n)
}

/// The volume left before order `i` when the orders `xs` are settled in list
/// order against `vol`: each order takes the smaller of what it asks and what is
/// left, and the volume left loses that, taken modulo `4^n`, and gains
/// `padded_offset(n)`, all modulo `4^(2n)`.
pub open spec fn padded_left(xs: Seq<nat>, vol: nat, n: nat, i: nat) -> nat
    decreases i,
{
    if i == 0 {
        vol
    } else {
        let prev = padded_left(xs, vol, n, (i - 1) as nat);
        let taken = min_of(xs[i - 1], prev) % pow4(n);
        ((prev - taken + padded_offset(n)) % (pow4(2 * n) as int)) as nat
    }
}

/// What order `i` takes: the smaller of what it asks and what is left.
pub open spec fn padded_take(xs: Seq<nat>, vol: nat, n: nat, i: nat) -> nat {
    min_of(xs[i as int], padded_left(xs, vol, n, i))
}

/// What order `i` holds once settled, on `n` blocks: what it took, modulo `4^n`.
pub open spec fn padded_result(xs: Seq<nat>, vol: nat, n: nat, i: nat) -> nat {
    padded_take(xs, vol, n, i) % pow4(n)
}

/// The settled orders, on `n` blocks.
pub open spec fn padded_fill(xs: Seq<nat>, vol: nat, n: nat) -> Seq<nat> {
    Seq::new(xs.len(), |i: int| padded_result(xs, vol, n, i as nat))
}

/// The blocks of `hi` are those of `lo` followed by `n` zero blocks: `lo`
/// widened to twice its blocks.
pub open spec fn widened(lo: Ciphertext, hi: Ciphertext, n: nat) -> bool {
    &&& radix_blocks(lo).len() == n
    &&& radix_blocks(hi) == radix_blocks(lo) + zero_blocks(n)
}

// ----------------------------------------------------------------------------
// Lemmas
// ----------------------------------------------------------------------------

/// Adding a shorter integer block by block, into the lowest blocks, adds the
/// integers.
pub proof fn lemma_value_add_prefix(a: Seq<RadixBlock>, b: Seq<RadixBlock>, r: Seq<RadixBlock>)
    requires
        b.len() <= a.len(),
        r.len() == a.len(),
        forall|j: int| 0 <= j < b.len() ==> #[trigger] r[j].0 == a[j].0 + b[j].0,
        forall|j: int| b.len() <= j < a.len() ==> #[trigger] r[j].0 == a[j].0,
    ensures
        blocks_value(r) == blocks_value(a) + blocks_value(b),
    decreases a.len(),
{
    if a.len() > 0 {
        let (a1, r1) = (a.drop_first(), r.drop_first());
        if b.len() > 0 {
            let b1 = b.drop_first();
            assert forall|j: int| 0 <= j < b1.len() implies #[trigger] r1[j].0 == a1[j].0
                + b1[j].0 by {
                assert(r1[j] == r[j + 1] && a1[j] == a[j + 1] && b1[j] == b[j + 1]);
            }
            assert forall|j: int| b1.len() <= j < a1.len() implies #[trigger] r1[j].0
                == a1[j].0 by {
                assert(r1[j] == r[j + 1] && a1[j] == a[j + 1]);
            }
            lemma_value_add_prefix(a1, b1, r1);
            assert(r[0].0 == a[0].0 + b[0].0);
        } else {
            assert forall|j: int| b.len() <= j < a1.len() implies #[trigger] r1[j].0
                == a1[j].0 by {
                assert(r1[j] == r[j + 1] && a1[j] == a[j + 1]);
            }
            lemma_value_add_prefix(a1, b, r1);
            assert(r[0].0 == a[0].0);
        }
    }
}

/// The lowest `k` blocks of an integer without carries stand for it modulo `4^k`.
pub proof fn lemma_low_blocks_value(bs: Seq<RadixBlock>, k: nat)
    requires
        k <= bs.len(),
        crate::radix::no_carries(bs),
    ensures
        blocks_value(bs.take(k as int)) == blocks_value(bs) % pow4(k),
        crate::radix::no_carries(bs.take(k as int)),
{
    let lo = bs.take(k as int);
    crate::radix::lemma_value_split(bs, k);
    assert(bs.subrange(0, k as int) =~= lo);
    assert forall|i: int| 0 <= i < lo.len() implies (#[trigger] lo[i]).0 < 4 by {
        assert(lo[i] == bs[i]);
    }
    crate::radix::lemma_value_below_modulus(lo);
    crate::radix::lemma_pow4_positive(k);
    let hi = blocks_value(bs.subrange(k as int, bs.len() as int));
    assert(blocks_value(bs) == pow4(k) * hi + blocks_value(lo));
    assert(pow4(k) * hi == hi * pow4(k)) by (nonlinear_arith);
    assert(lo.len() == k);
    vstd::arithmetic::div_mod::lemma_fundamental_div_mod_converse(
        blocks_value(bs) as int,
        pow4(k) as int,
        hi as int,
        blocks_value(lo) as int,
    );
}

/// Zero blocks on top add nothing.
pub proof fn lemma_widened_value(lo: Seq<RadixBlock>, n: nat)
    ensures
        blocks_value(lo + zero_blocks(n)) == blocks_value(lo),
{
    let w = lo + zero_blocks(n);
    crate::radix::lemma_value_split(w, lo.len());
    assert(w.subrange(0, lo.len() as int) =~= lo);
    assert(w.subrange(lo.len() as int, w.len() as int) =~= zero_blocks(n));
    crate::radix::lemma_zero_value(n);
}

/// The correcting terms of the negation of a carry-propagated integer are all 4.
pub proof fn lemma_neg_term_digits(v: nat, k: nat, i: nat)
    requires
        i < k,
    ensures
        crate::radix::neg_term(digit_blocks(v, k), i) == 4,
    decreases i,
{
    if i > 0 {
        lemma_neg_term_digits(v, k, (i - 1) as nat);
        assert(crate::radix::round_up4(3 + 1) == 4);
    } else {
        assert(crate::radix::round_up4(3) == 4);
    }
}

/// `4^(2n) == 4^n * 4^n`.
pub proof fn lemma_pow4_double(n: nat)
    ensures
        pow4(2 * n) == pow4(n) * pow4(n),
        pow4(n) <= pow4(2 * n),
{
    crate::radix::lemma_pow4_add(n, n);
    crate::radix::lemma_pow4_monotone(n, 2 * n);
}

// ----------------------------------------------------------------------------
// Widening and narrowing
// ----------------------------------------------------------------------------

/// `x` widened to twice its blocks, the new blocks trivial zeros.
#[allow(non_snake_case)]
fn fromNto2Nbit(x: &Ciphertext, server_key: &FheServerKey) -> (r: Ciphertext)
    requires
        keyed(*x, server_key.id()),
    ensures
        keyed(r, server_key.id()),
        widened(*x, r, radix_blocks(*x).len()),
{
    let n = num_blocks(x);
    let temp = trivial_zero(server_key, n);
    append_blocks(x, &temp)
}

/// The lower half of the blocks of `x`.
#[allow(non_snake_case)]
fn from2NtoNbit(x: &Ciphertext) -> (r: Ciphertext)
    ensures
        radix_key(r) == radix_key(*x),
        radix_blocks(r) == radix_blocks(*x).take((radix_blocks(*x).len() / 2) as int),
{
    let k = num_blocks(x) / 2;
    take_blocks(x, k)
}

/// Narrowing undoes widening: the lower half of `x` widened is `x`.
pub proof fn law_narrow_undoes_widen(x: Ciphertext, y: Ciphertext, r: Ciphertext)
    requires
        widened(x, y, radix_blocks(x).len()),
        radix_blocks(r) == radix_blocks(y).take((radix_blocks(y).len() / 2) as int),
    ensures
        radix_blocks(r) == radix_blocks(x),
{
    let n = radix_blocks(x).len();
    assert(radix_blocks(y).len() == 2 * n);
    assert((2 * n) / 2 == n);
    assert(radix_blocks(r) =~= radix_blocks(x));
}

/// The smaller of `a` and `b`, `b` widened to the blocks of `a` for the
/// comparison and the result narrowed back to the lower half. The carries of
/// both can be propagated exactly; the comparison propagates them where a
/// block holds a carry. The result keeps the lower half of the minimum, which
/// is the whole minimum when `b` holds messages only.
fn min(a: &mut Ciphertext, b: &Ciphertext, server_key: &FheServerKey) -> (r: Ciphertext)
    requires
        radix_blocks(*old(a)).len() == 2 * radix_blocks(*b).len(),
        radix_blocks(*b).len() > 0,
        crate::radix::propagatable(radix_blocks(*old(a))),
        crate::radix::propagatable(radix_blocks(*b)),
        keyed(*old(a), server_key.id()),
        keyed(*b, server_key.id()),
    ensures
        keyed(*final(a), server_key.id()),
        keyed(r, server_key.id()),
        crate::fhe::smart_operand_post(radix_blocks(*old(a)), radix_blocks(*final(a))),
        settled(r, radix_blocks(*b).len()),
        ct_value(r) == min_of(
            ct_value(*old(a)) % pow4(radix_blocks(*old(a)).len()),
            ct_value(*b) % pow4(radix_blocks(*old(a)).len()),
        ) % pow4(radix_blocks(*b).len()),
        operand(*b, radix_blocks(*b).len()) ==> ct_value(r) == min_of(
            ct_value(*old(a)) % pow4(radix_blocks(*old(a)).len()),
            ct_value(*b),
        ),
{
    let ghost n = radix_blocks(*b).len();
    let ghost ab = radix_blocks(*a);
    let mut b16 = fromNto2Nbit(b, server_key);
    let ghost wb = radix_blocks(b16);
    proof {
        lemma_widened_value(radix_blocks(*b), n);
        lemma_pow4_double(n);
        crate::radix::lemma_pow4_positive(n);
        crate::radix::lemma_propagatable_append_zeros(radix_blocks(*b), n);
        assert(crate::radix::propagatable(wb));
        crate::fhe::lemma_smart_operand(ab);
        crate::fhe::lemma_smart_operand(wb);
    }
    let min16 = smart_min(server_key, a, &mut b16);
    proof {
        let mb = radix_blocks(min16);
        lemma_low_blocks_value(mb, n);
        let v = blocks_value(mb);
        assert(mb.len() / 2 == n);
        let lo = mb.take(n as int);
        assert forall|i: int| 0 <= i < lo.len() implies (#[trigger] lo[i]).0 <= lo[i].1
            && lo[i].0 <= 15 by {
            assert(lo[i] == mb[i]);
        }
        if operand(*b, n) {
            lemma_operand_facts(*b, n);
            vstd::arithmetic::div_mod::lemma_small_mod(ct_value(*b), pow4(2 * n));
            assert(v <= ct_value(*b));
            vstd::arithmetic::div_mod::lemma_small_mod(v, pow4(n));
        }
    }
    from2NtoNbit(&min16)
}

// ----------------------------------------------------------------------------
// Summing
// ----------------------------------------------------------------------------

/// Adds `b` into the lowest blocks of `a`, first propagating the carries of
/// `a` when the addition would overflow a block (`is_add_possible`). Both are
/// integers of one key pair, `b` on at most as many blocks as `a`; the carries
/// of `a` can be propagated exactly and every block of `b` holds at most 12,
/// so that the sum is exact either way. `a` ends standing for the sum modulo
/// `4^k` (`k` its blocks), with degrees within 11 when its degrees were within
/// 11 and those of `b` within 8.
fn add(a: &mut Ciphertext, b: &Ciphertext, server_key: &FheServerKey)
    requires
        radix_blocks(*b).len() <= radix_blocks(*old(a)).len(),
        crate::radix::propagatable(radix_blocks(*old(a))),
        crate::full_paral::addend(radix_blocks(*b)),
        keyed(*old(a), server_key.id()),
        keyed(*b, server_key.id()),
    ensures
        keyed(*final(a), server_key.id()),
        radix_blocks(*final(a)).len() == radix_blocks(*old(a)).len(),
        crate::radix::well_formed(radix_blocks(*final(a))),
        crate::radix::degrees_within(radix_blocks(*old(a)), 11) && crate::radix::degrees_within(
            radix_blocks(*b),
            8,
        ) ==> accumulator(*final(a), radix_blocks(*old(a)).len()),
        ct_value(*final(a)) % pow4(radix_blocks(*old(a)).len()) == (ct_value(*old(a)) + ct_value(
            *b,
        )) % pow4(radix_blocks(*old(a)).len()),
{
    let ghost n = radix_blocks(*a).len();
    let ghost m = pow4(n);
    let ghost k = radix_blocks(*b).len();
    let ghost a0 = radix_blocks(*a);
    proof {
        crate::radix::lemma_pow4_positive(n);
    }
    if !is_add_possible(server_key, a, b) {
        let ghost a_before = radix_blocks(*a);
        full_propagate(server_key, a);
        proof {
            crate::fhe::lemma_propagated_blocks(a_before);
            lemma_propagated_facts(*a, n);
            vstd::arithmetic::div_mod::lemma_mod_twice(ct_value(*old(a)) as int, m as int);
        }
    }
    let ghost mid = radix_blocks(*a);
    unchecked_add_assign(server_key, a, b);
    proof {
        let (bb, br) = (radix_blocks(*b), radix_blocks(*a));
        let small = crate::radix::degrees_within(a0, 11) && crate::radix::degrees_within(bb, 8);
        assert forall|i: int| 0 <= i < k implies #[trigger] br[i].0 == mid[i].0 + bb[i].0
            && br[i].0 <= br[i].1 && br[i].0 <= 15 && (small ==> br[i].1 <= 11) by {
            assert(mid[i].0 <= mid[i].1 && bb[i].0 <= bb[i].1);
            assert(bb[i].0 <= 12);
            if mid[i].1 > 3 {
                assert(mid[i].1 + bb[i].1 <= 11);
            } else {
                assert(mid[i].0 <= 3);
            }
        }
        assert forall|i: int| k <= i < n implies #[trigger] br[i] == mid[i] by {}
        assert forall|i: int| 0 <= i < n implies (#[trigger] br[i]).0 <= br[i].1 && br[i].0 <= 15
            && (small ==> br[i].1 <= 11) by {
            if i >= k {
                assert(br[i] == mid[i]);
                if mid[i].1 > 3 {
                    assert(mid[i] == a0[i]);
                }
            }
        }
        lemma_value_add_prefix(mid, bb, br);
        vstd::arithmetic::div_mod::lemma_add_mod_noop(
            blocks_value(mid) as int,
            ct_value(*b) as int,
            m as int,
        );
        vstd::arithmetic::div_mod::lemma_add_mod_noop(
            ct_value(*old(a)) as int,
            ct_value(*b) as int,
            m as int,
        );
    }
}

/// Adds every order of `xs` into `acc`.
fn sum_orders(xs: &Vec<Ciphertext>, acc: &mut Ciphertext, num_block: usize, server_key: &FheServerKey)
    requires
        num_block <= radix_blocks(*old(acc)).len(),
        accumulator(*old(acc), radix_blocks(*old(acc)).len()),
        operands(xs@, num_block as nat),
        keyed(*old(acc), server_key.id()),
        all_keyed(xs@, server_key.id()),
    ensures
        keyed(*final(acc), server_key.id()),
        accumulator(*final(acc), radix_blocks(*old(acc)).len()),
        ct_value(*final(acc)) % pow4(radix_blocks(*old(acc)).len()) == (ct_value(*old(acc))
            + total(ct_values(xs@))) % pow4(radix_blocks(*old(acc)).len()),
{
    let ghost n = radix_blocks(*acc).len();
    let ghost m = pow4(n);
    let ghost start = ct_value(*acc);
    let ghost vals = ct_values(xs@);
    proof {
        crate::radix::lemma_pow4_positive(n);
        assert(vals.take(0) =~= Seq::<nat>::empty());
        vstd::arithmetic::div_mod::lemma_mod_twice(start as int, m as int);
    }
    for i in 0..xs.len()
        invariant
            n == radix_blocks(*old(acc)).len(),
            num_block <= n,
            m == pow4(n),
            m > 0,
            start == ct_value(*old(acc)),
            vals == ct_values(xs@),
            operands(xs@, num_block as nat),
            all_keyed(xs@, server_key.id()),
            keyed(*acc, server_key.id()),
            accumulator(*acc, n),
            ct_value(*acc) % m == (start + crate::matching::prefix_total(vals, i as int)) % m,
    {
        let ghost before = ct_value(*acc);
        proof {
            assert(operand(xs@[i as int], num_block as nat));
            assert(keyed(xs@[i as int], server_key.id()));
            lemma_accumulator_propagatable(*acc, n);
            lemma_operand_facts(xs@[i as int], num_block as nat);
        }
        self::add(acc, &xs[i], server_key);
        proof {
            crate::matching::lemma_prefix_step(vals, i as int);
            vstd::arithmetic::div_mod::lemma_add_mod_noop(
                before as int,
                vals[i as int] as int,
                m as int,
            );
            vstd::arithmetic::div_mod::lemma_add_mod_noop(
                (start + crate::matching::prefix_total(vals, i as int)) as int,
                vals[i as int] as int,
                m as int,
            );
        }
    }
    proof {
        crate::matching::lemma_prefix_full(vals);
    }
}

// ----------------------------------------------------------------------------
// Subtracting an order
// ----------------------------------------------------------------------------

/// What subtracting a settled order from the volume left leaves, modulo `4^k`
/// (`k` the blocks of the volume): the order is taken away, and `4^n` (`n` the
/// blocks of the order) plus `4^k - 256` are added.
pub open spec fn sub_value(left: nat, order: nat, k: nat, n: nat) -> nat {
    ((left + pow4(n) + neg_scalar(SUB_CORRECTION as nat, k) - order) % (pow4(k) as int)) as nat
}

/// An order as the subtraction takes it: blocks holding messages only, all of
/// degree 3 (a fresh or carry-propagated integer) or all of degree 14 (the
/// lower half of a minimum). Either way its negation, after the carry
/// propagation that the subtraction makes where needed, adds exactly `4^n`,
/// which the scalar correction is made for.
pub open spec fn padded_order(c: Ciphertext, n: nat) -> bool {
    &&& n > 0
    &&& settled(c, n)
    &&& crate::fhe::min_degrees(radix_blocks(c)) || forall|i: int|
        0 <= i < n ==> (#[trigger] radix_blocks(c)[i]).1 == 3
}

/// A volume left that the subtraction handles exactly: well formed, and no
/// block but the first holds more than 12. (A higher block of 13 or more could
/// overflow when the borrow chain of the subtraction hands it a carry.)
pub open spec fn volume_room(a: Ciphertext) -> bool {
    &&& crate::radix::well_formed(radix_blocks(a))
    &&& forall|i: int| 1 <= i < radix_blocks(a).len() ==> (#[trigger] radix_blocks(a)[i]).0 <= 12
}

/// What subtracting an order from the volume left is stated for: the volume
/// left is a `volume_room`, the order is a `padded_order`, both of the key pair
/// `id`.
pub open spec fn sub_pre(a: Ciphertext, b: Ciphertext, id: int) -> bool {
    &&& volume_room(a)
    &&& padded_order(b, radix_blocks(b).len())
    &&& keyed(a, id)
    &&& keyed(b, id)
}

/// Subtracts the order `b` from the volume left `a`: both are carry-propagated
/// first as needed, then `b` is subtracted from the lowest blocks of `a`, and the
/// scalar 256 from `a`.
fn sub(a: &mut Ciphertext, b: &mut Ciphertext, server_key: &FheServerKey)
    requires
        radix_blocks(*old(b)).len() <= radix_blocks(*old(a)).len(),
    ensures
        radix_blocks(*final(a)).len() == radix_blocks(*old(a)).len(),
        radix_blocks(*final(b)).len() == radix_blocks(*old(b)).len(),
        keyed(*old(a), server_key.id()) && keyed(*old(b), server_key.id()) ==> keyed(
            *final(a),
            server_key.id(),
        ) && keyed(*final(b), server_key.id()),
        sub_pre(*old(a), *old(b), server_key.id()) ==> radix_blocks(*final(b)) == digit_blocks(
            ct_value(*old(b)),
            radix_blocks(*old(b)).len(),
        ),
        sub_pre(*old(a), *old(b), server_key.id()) && scalar_blocks_fit(
            radix_blocks(*old(a)).len(),
        ) ==> {
            &&& accumulator(*final(a), radix_blocks(*old(a)).len())
            &&& ct_value(*final(a)) % pow4(radix_blocks(*old(a)).len()) == sub_value(
                ct_value(*old(a)),
                ct_value(*old(b)),
                radix_blocks(*old(a)).len(),
                radix_blocks(*old(b)).len(),
            )
        },
{
    let ghost ka = radix_blocks(*a).len();
    let ghost kb = radix_blocks(*b).len();
    let ghost m = pow4(ka);
    let ghost av = ct_value(*a);
    let ghost bv = ct_value(*b);
    let ghost ab = radix_blocks(*a);
    let ghost bb = radix_blocks(*b);
    let ghost pre = sub_pre(*a, *b, server_key.id());
    proof {
        crate::radix::lemma_pow4_positive(ka);
        crate::radix::lemma_pow4_positive(kb);
        if pre {
            crate::radix::lemma_propagatable_bounded(ab);
            lemma_settled_propagatable(*b, kb);
            if crate::fhe::min_degrees(bb) {
                assert(bb[0].1 == 14);
                assert(crate::radix::round_up4(14) == 16);
                assert(!crate::fhe::sub_possible(ab, bb));
            } else {
                crate::radix::lemma_digit_blocks_of(bb);
            }
        }
    }
    if !is_sub_possible(server_key, a, b) || !is_neg_possible(server_key, b) {
        full_propagate(server_key, b);
    }
    let ghost pb = radix_blocks(*b);
    proof {
        if pre {
            crate::fhe::lemma_propagated_blocks(bb);
            assert(pb == digit_blocks(bv, kb));
            vstd::arithmetic::div_mod::lemma_small_mod(bv, pow4(kb));
            assert(blocks_value(pb) == bv);
        }
    }
    if !is_sub_possible(server_key, a, b) {
        full_propagate(server_key, a);
    }
    let ghost pa = radix_blocks(*a);
    proof {
        if pre {
            if pa != ab {
                crate::fhe::lemma_propagated_blocks(ab);
                lemma_propagated_facts(*a, ka);
            }
            vstd::arithmetic::div_mod::lemma_mod_twice(av as int, m as int);
            assert(blocks_value(pa) % m == av % m);
            assert forall|i: int| 0 <= i < kb implies #[trigger] pa[i].0
                + crate::radix::neg_term(pb, i as nat) <= 15 && pa[i].1 + 4 <= 11 by {
                lemma_neg_term_digits(bv, kb, i as nat);
                assert(pb[i].1 == 3);
                assert(crate::radix::round_up4(3) == 4);
                assert(pa[i].0 <= pa[i].1);
            }
            assert(crate::radix::well_formed(pb)) by {
                assert forall|i: int| 0 <= i < kb implies (#[trigger] pb[i]).0 <= pb[i].1
                    && pb[i].0 <= 15 by {
                    assert(pb[i].1 == 3 && pb[i].0 < 4);
                }
            }
            assert(crate::radix::well_formed(pa)) by {
                if pa != ab {
                    assert forall|i: int| 0 <= i < ka implies (#[trigger] pa[i]).0 <= pa[i].1
                        && pa[i].0 <= 15 by {}
                }
            }
        }
    }
    unchecked_sub_assign(server_key, a, b);
    let ghost ra = radix_blocks(*a);
    proof {
        if pre {
            lemma_neg_term_digits(bv, kb, (kb - 1) as nat);
            assert(pow4(kb) == 4 * pow4((kb - 1) as nat));
            assert(blocks_value(ra) + bv == blocks_value(pa) + pow4(kb));
            assert forall|i: int| 0 <= i < ka implies (#[trigger] ra[i]).0 <= ra[i].1 && ra[i].0
                <= 15 && (i >= 1 ==> ra[i].0 <= 12) by {
                if i < kb {
                    lemma_neg_term_digits(bv, kb, i as nat);
                } else {
                    assert(ra[i] == pa[i]);
                    if pa != ab {
                        assert(pa[i].0 < 4);
                    }
                }
            }
            crate::radix::lemma_propagatable_bounded(ra);
        }
    }
    smart_scalar_sub_assign(server_key, a, SUB_CORRECTION);
    proof {
        if pre && scalar_blocks_fit(ka) {
            let ns = neg_scalar(SUB_CORRECTION as nat, ka);
            let r2 = if crate::fhe::scalar_sub_possible(ra, SUB_CORRECTION as nat) {
                ra
            } else {
                crate::fhe::propagated_blocks(ra)
            };
            crate::fhe::lemma_propagated_blocks(ra);
            vstd::arithmetic::div_mod::lemma_mod_twice(blocks_value(ra) as int, m as int);
            assert(blocks_value(r2) % m == blocks_value(ra) % m);
            let fa = radix_blocks(*a);
            let db = digit_blocks(ns, ka);
            crate::radix::lemma_digit_clean(ns, ka);
            assert forall|i: int| 0 <= i < ka implies #[trigger] fa[i].0 == r2[i].0 + db[i].0
                && fa[i].0 <= fa[i].1 && fa[i].1 <= 11 && fa[i].0 <= 15 by {
                assert(db[i].0 == crate::radix::digit(ns, i as nat));
                assert(crate::radix::digit(ns, i as nat) < 4);
                assert(r2[i].0 <= r2[i].1);
            }
            crate::radix::lemma_value_add(r2, db, fa);
            crate::radix::lemma_digit_value(ns, ka);
            assert(ns < m);
            vstd::arithmetic::div_mod::lemma_small_mod(ns, m);
            assert(blocks_value(fa) == blocks_value(r2) + ns);
            vstd::arithmetic::div_mod::lemma_add_mod_noop(
                blocks_value(r2) as int,
                ns as int,
                m as int,
            );
            vstd::arithmetic::div_mod::lemma_add_mod_noop(
                blocks_value(ra) as int,
                ns as int,
                m as int,
            );
            assert(blocks_value(ra) == blocks_value(pa) + pow4(kb) - bv);
            vstd::arithmetic::div_mod::lemma_add_mod_noop(
                blocks_value(pa) as int,
                pow4(kb) + ns - bv,
                m as int,
            );
            vstd::arithmetic::div_mod::lemma_add_mod_noop(av as int, pow4(kb) + ns - bv, m as int);
        }
    }
}

// ----------------------------------------------------------------------------
// Settling the orders
// ----------------------------------------------------------------------------

/// One step of settling: from the volume left before order `i` to the one
/// before order `i + 1`.
proof fn lemma_padded_step(xs: Seq<nat>, vol: nat, n: nat, i: nat)
    ensures
        padded_left(xs, vol, n, i + 1) == sub_value(
            padded_left(xs, vol, n, i),
            padded_take(xs, vol, n, i) % pow4(n),
            2 * n,
            n,
        ),
{
    assert((i + 1 - 1) as nat == i);
}

/// What settling the first `count` orders leaves of one side: order `j`
/// carry-propagated on `n` blocks, holding what it took modulo `4^n`.
pub open spec fn padded_settled(
    xs: Seq<nat>,
    after: Seq<Ciphertext>,
    count: nat,
    vol: nat,
    n: nat,
    id: int,
) -> bool {
    &&& after.len() == count
    &&& forall|j: int| 0 <= j < count ==> propagated(#[trigger] after[j], n) && keyed(after[j], id)
    &&& ct_values(after) == padded_fill(xs.take(count as int), vol, n)
}

/// The widened orders after the sell side is settled: the first `count` hold
/// what each order took, on `2n` blocks; the others are untouched.
pub open spec fn widened_settled(
    xs: Seq<nat>,
    before: Seq<Ciphertext>,
    after: Seq<Ciphertext>,
    count: nat,
    vol: nat,
    n: nat,
    id: int,
) -> bool {
    &&& after.len() == before.len()
    &&& forall|j: int|
        0 <= j < count ==> settled(#[trigger] after[j], 2 * n) && keyed(after[j], id) && ct_value(
            after[j],
        )
            == padded_take(xs.take(count as int), vol, n, j as nat)
    &&& forall|j: int| count <= j < after.len() ==> #[trigger] after[j] == before[j]
}

/// The first `count` widened orders are operands of `2n` blocks.
pub open spec fn widened_operands(xs16: Seq<Ciphertext>, count: nat, n: nat, id: int) -> bool {
    &&& count <= xs16.len()
    &&& forall|j: int| 0 <= j < count ==> operand(#[trigger] xs16[j], 2 * n) && keyed(xs16[j], id)
}

/// The volume left that a side settles against: `2n` blocks whose carries can
/// be propagated exactly, standing for less than `4^(2n)`.
pub open spec fn left_ok(left: Ciphertext, n: nat, id: int) -> bool {
    &&& keyed(left, id)
    &&& radix_blocks(left).len() == 2 * n
    &&& crate::radix::propagatable(radix_blocks(left))
    &&& ct_value(left) < pow4(2 * n)
}

/// One order against the volume left: the widened order becomes the smaller
/// of the two, the order its lower half, carry-propagated, and the volume left
/// loses it.
fn settle_one(
    x16: &Ciphertext,
    left: &mut Ciphertext,
    num_block: usize,
    server_key: &FheServerKey,
) -> (r: (Ciphertext, Ciphertext))
    requires
        num_block > 0,
        2 * num_block <= usize::MAX,
        radix_blocks(*old(left)).len() == 2 * num_block,
        operand(*x16, 2 * num_block as nat),
        keyed(*x16, server_key.id()),
        keyed(*old(left), server_key.id()),
    ensures
        radix_blocks(*final(left)).len() == 2 * num_block,
        radix_blocks(r.0).len() == 2 * num_block,
        radix_blocks(r.1).len() == num_block,
        keyed(*final(left), server_key.id()),
        keyed(r.0, server_key.id()),
        keyed(r.1, server_key.id()),
        crate::radix::propagatable(radix_blocks(*old(left))) ==> {
            &&& settled(r.0, 2 * num_block as nat)
            &&& ct_value(r.0) == min_of(
                ct_value(*x16),
                ct_value(*old(left)) % pow4(2 * num_block as nat),
            )
            &&& propagated(r.1, num_block as nat)
            &&& ct_value(r.1) == ct_value(r.0) % pow4(num_block as nat)
        },
        crate::radix::propagatable(radix_blocks(*old(left))) && scalar_blocks_fit(
            2 * num_block as nat,
        ) ==> {
            &&& accumulator(*final(left), 2 * num_block as nat)
            &&& ct_value(*final(left)) % pow4(2 * num_block as nat) == sub_value(
                ct_value(*old(left)) % pow4(2 * num_block as nat),
                ct_value(r.1),
                2 * num_block as nat,
                num_block as nat,
            )
        },
{
    let ghost n = num_block as nat;
    let ghost n2 = 2 * n;
    let ghost m = pow4(n2);
    let ghost lb = radix_blocks(*left);
    let ghost xb = radix_blocks(*x16);
    let ghost ok = crate::radix::propagatable(lb);
    let mut x = ct_clone(x16);
    proof {
        crate::radix::lemma_pow4_positive(n2);
        crate::radix::lemma_pow4_positive(n);
        lemma_operand_facts(*x16, n2);
        crate::fhe::lemma_smart_operand(xb);
        assert(!crate::radix::has_carry_degree(xb)) by {
            assert forall|j: int| 0 <= j < xb.len() implies (#[trigger] xb[j]).1 < 4 by {
                assert(xb[j].1 <= 3);
            }
        }
        vstd::arithmetic::div_mod::lemma_small_mod(ct_value(*x16), m);
        if ok {
            crate::fhe::lemma_smart_operand(lb);
        }
    }
    let m16 = smart_min(server_key, &mut x, left);
    let ghost left_mid = radix_blocks(*left);
    proof {
        let mb = radix_blocks(m16);
        assert(mb.len() / 2 == n);
        if ok {
            lemma_settled_propagatable(m16, n2);
            lemma_low_blocks_value(mb, n);
            let lo = mb.take(n as int);
            assert forall|j: int| 0 <= j < lo.len() implies (#[trigger] lo[j]).0 <= lo[j].1
                && lo[j].0 <= 15 && lo[j].1 == 14 by {
                assert(lo[j] == mb[j]);
            }
            // the volume left, carry-propagated, is clean
            assert(accumulator(*left, n2)) by {
                assert forall|j: int| 0 <= j < n2 implies (#[trigger] left_mid[j]).0
                    <= left_mid[j].1 && left_mid[j].1 <= 11 && left_mid[j].0 <= 15 by {
                    assert(left_mid[j].0 <= left_mid[j].1 && left_mid[j].1 <= 3);
                }
            }
        }
    }
    let mut lo = from2NtoNbit(&m16);
    let ghost lov = ct_value(lo);
    proof {
        if ok {
            assert(crate::fhe::min_degrees(radix_blocks(lo)));
            assert(padded_order(lo, n));
        }
    }
    self::sub(left, &mut lo, server_key);
    proof {
        if ok {
            crate::radix::lemma_digit_value(lov, n);
            crate::radix::lemma_digit_clean(lov, n);
            assert(lov < pow4(n));
            vstd::arithmetic::div_mod::lemma_small_mod(lov, pow4(n));
            assert(propagated(lo, n)) by {
                assert forall|j: int| 0 <= j < n implies (#[trigger] radix_blocks(lo)[j]).1 == 3
                    && radix_blocks(lo)[j].0 < 4 by {
                    assert(crate::radix::digit(lov, j as nat) < 4);
                }
            }
        }
    }
    (m16, lo)
}

/// Settles the sell orders in list order against the volume left: each order
/// takes the smaller of what it asks (read from its widened copy) and what is
/// left, its widened copy is replaced by that, and the volume left loses it.
fn settle_sells(
    s: &mut Vec<Ciphertext>,
    s16: &mut Vec<Ciphertext>,
    left: &mut Ciphertext,
    num_block: usize,
    server_key: &FheServerKey,
)
    requires
        num_block > 0,
        2 * num_block <= usize::MAX,
        left_ok(*old(left), num_block as nat, server_key.id()),
        widened_operands(old(s16)@, old(s)@.len(), num_block as nat, server_key.id()),
    ensures
        final(s)@.len() == old(s)@.len(),
        final(s16)@.len() == old(s16)@.len(),
        scalar_blocks_fit(2 * num_block as nat) ==> padded_settled(
            ct_values(old(s16)@),
            final(s)@,
            old(s)@.len(),
            ct_value(*old(left)),
            num_block as nat,
            server_key.id(),
        ),
        scalar_blocks_fit(2 * num_block as nat) ==> widened_settled(
            ct_values(old(s16)@),
            old(s16)@,
            final(s16)@,
            old(s)@.len(),
            ct_value(*old(left)),
            num_block as nat,
            server_key.id(),
        ),
{
    let ghost n = num_block as nat;
    let ghost n2 = 2 * n;
    let ghost m = pow4(n2);
    let ghost fit = scalar_blocks_fit(n2);
    let ghost vol = ct_value(*left);
    let ghost s16_0 = s16@;
    let ghost count = s@.len();
    let ghost xs = ct_values(s16_0).take(count as int);
    proof {
        crate::radix::lemma_pow4_positive(n2);
        vstd::arithmetic::div_mod::lemma_small_mod(vol, m);
        assert(ct_values(s16_0).len() == s16_0.len());
        assert(xs.len() == count);
    }
    let len = s.len();
    for i in 0..len
        invariant
            len == count,
            n == num_block as nat,
            n2 == 2 * n,
            n > 0,
            2 * num_block <= usize::MAX,
            m == pow4(n2),
            m > 0,
            fit == scalar_blocks_fit(n2),
            vol < m,
            s.len() == count,
            s16.len() == s16_0.len(),
            xs == ct_values(s16_0).take(count as int),
            xs.len() == count,
            widened_operands(s16_0, count, n, server_key.id()),
            keyed(*left, server_key.id()),
            radix_blocks(*left).len() == n2,
            fit ==> crate::radix::propagatable(radix_blocks(*left)),
            fit ==> ct_value(*left) % m == padded_left(xs, vol, n, i as nat),
            forall|j: int| i <= j < s16.len() ==> #[trigger] s16@[j] == s16_0[j],
            forall|j: int|
                0 <= j < i ==> fit ==> propagated(#[trigger] s@[j], n) && ct_value(s@[j])
                    == padded_take(xs, vol, n, j as nat) % pow4(n),
            forall|j: int|
                0 <= j < i ==> fit ==> settled(#[trigger] s16@[j], n2) && ct_value(s16@[j])
                    == padded_take(xs, vol, n, j as nat),
            forall|j: int| 0 <= j < i ==> keyed(#[trigger] s@[j], server_key.id()),
            forall|j: int| 0 <= j < i ==> keyed(#[trigger] s16@[j], server_key.id()),
    {
        proof {
            assert(operand(s16_0[i as int], n2));
            assert(keyed(s16_0[i as int], server_key.id()));
            assert(xs[i as int] == ct_values(s16_0)[i as int]);
        }
        let ghost lv = ct_value(*left);
        let (m16, lo) = settle_one(&s16[i], left, num_block, server_key);
        proof {
            if fit {
                lemma_padded_step(xs, vol, n, i as nat);
                assert(ct_value(m16) == padded_take(xs, vol, n, i as nat));
                lemma_accumulator_propagatable(*left, n2);
            }
        }
        s16.set(i, m16);
        s.set(i, lo);
    }
    proof {
        if fit {
            assert(xs.take(count as int) =~= xs);
            assert forall|j: int| 0 <= j < count implies #[trigger] ct_values(s@)[j]
                == padded_fill(xs, vol, n)[j] by {
                assert(ct_values(s@)[j] == ct_value(s@[j]));
                assert(padded_fill(xs, vol, n)[j] == padded_result(xs, vol, n, j as nat));
            }
            assert(ct_values(s@) =~= padded_fill(xs, vol, n));
        }
    }
}

/// Settles the buy orders in list order against the volume left, reading what
/// each asks from its widened copy, which stays as it is.
fn settle_buys(
    b: &mut Vec<Ciphertext>,
    b16: &Vec<Ciphertext>,
    left: &mut Ciphertext,
    num_block: usize,
    server_key: &FheServerKey,
)
    requires
        num_block > 0,
        2 * num_block <= usize::MAX,
        left_ok(*old(left), num_block as nat, server_key.id()),
        widened_operands(b16@, old(b)@.len(), num_block as nat, server_key.id()),
    ensures
        final(b)@.len() == old(b)@.len(),
        scalar_blocks_fit(2 * num_block as nat) ==> padded_settled(
            ct_values(b16@),
            final(b)@,
            old(b)@.len(),
            ct_value(*old(left)),
            num_block as nat,
            server_key.id(),
        ),
{
    let ghost n = num_block as nat;
    let ghost n2 = 2 * n;
    let ghost m = pow4(n2);
    let ghost fit = scalar_blocks_fit(n2);
    let ghost vol = ct_value(*left);
    let ghost count = b@.len();
    let ghost xs = ct_values(b16@).take(count as int);
    proof {
        crate::radix::lemma_pow4_positive(n2);
        vstd::arithmetic::div_mod::lemma_small_mod(vol, m);
        assert(ct_values(b16@).len() == b16@.len());
        assert(xs.len() == count);
    }
    let len = b.len();
    for i in 0..len
        invariant
            len == count,
            n == num_block as nat,
            n2 == 2 * n,
            n > 0,
            2 * num_block <= usize::MAX,
            m == pow4(n2),
            m > 0,
            fit == scalar_blocks_fit(n2),
            vol < m,
            b.len() == count,
            xs == ct_values(b16@).take(count as int),
            xs.len() == count,
            widened_operands(b16@, count, n, server_key.id()),
            keyed(*left, server_key.id()),
            radix_blocks(*left).len() == n2,
            fit ==> crate::radix::propagatable(radix_blocks(*left)),
            fit ==> ct_value(*left) % m == padded_left(xs, vol, n, i as nat),
            forall|j: int|
                0 <= j < i ==> fit ==> propagated(#[trigger] b@[j], n) && ct_value(b@[j])
                    == padded_result(xs, vol, n, j as nat),
            forall|j: int| 0 <= j < i ==> keyed(#[trigger] b@[j], server_key.id()),
    {
        proof {
            assert(operand(b16@[i as int], n2));
            assert(keyed(b16@[i as int], server_key.id()));
            assert(xs[i as int] == ct_values(b16@)[i as int]);
        }
        let (_m16, lo) = settle_one(&b16[i], left, num_block, server_key);
        proof {
            if fit {
                lemma_padded_step(xs, vol, n, i as nat);
                lemma_accumulator_propagatable(*left, n2);
            }
        }
        b.set(i, lo);
    }
    proof {
        if fit {
            assert(xs.take(count as int) =~= xs);
            assert forall|j: int| 0 <= j < count implies #[trigger] ct_values(b@)[j]
                == padded_fill(xs, vol, n)[j] by {
                assert(ct_values(b@)[j] == ct_value(b@[j]));
                assert(padded_fill(xs, vol, n)[j] == padded_result(xs, vol, n, j as nat));
            }
            assert(ct_values(b@) =~= padded_fill(xs, vol, n));
        }
    }
}

/// Sums both sides at once.
///
/// Calls `rayon::join` with two closures, each of which calls `sum_orders` on
/// one side; `join` runs both.
#[verifier::external_body]
fn join_sums(
    s: &Vec<Ciphertext>,
    sell_vol: &mut Ciphertext,
    b: &Vec<Ciphertext>,
    buy_vol: &mut Ciphertext,
    num_block: usize,
    server_key: &FheServerKey,
)
    requires
        num_block <= radix_blocks(*old(sell_vol)).len(),
        accumulator(*old(sell_vol), radix_blocks(*old(sell_vol)).len()),
        operands(s@, num_block as nat),
        keyed(*old(sell_vol), server_key.id()),
        all_keyed(s@, server_key.id()),
        num_block <= radix_blocks(*old(buy_vol)).len(),
        accumulator(*old(buy_vol), radix_blocks(*old(buy_vol)).len()),
        operands(b@, num_block as nat),
        keyed(*old(buy_vol), server_key.id()),
        all_keyed(b@, server_key.id()),
    ensures
        keyed(*final(sell_vol), server_key.id()),
        keyed(*final(buy_vol), server_key.id()),
        accumulator(*final(sell_vol), radix_blocks(*old(sell_vol)).len()),
        ct_value(*final(sell_vol)) % pow4(radix_blocks(*old(sell_vol)).len()) == (ct_value(
            *old(sell_vol),
        ) + total(ct_values(s@))) % pow4(radix_blocks(*old(sell_vol)).len()),
        accumulator(*final(buy_vol), radix_blocks(*old(buy_vol)).len()),
        ct_value(*final(buy_vol)) % pow4(radix_blocks(*old(buy_vol)).len()) == (ct_value(
            *old(buy_vol),
        ) + total(ct_values(b@))) % pow4(radix_blocks(*old(buy_vol)).len()),
{
    rayon::join(
        || sum_orders(s, sell_vol, num_block, server_key),
        || sum_orders(b, buy_vol, num_block, server_key),
    );
}

/// Settles both sides at once.
///
/// Calls `rayon::join` with two closures, one calling `settle_sells`, the
/// other `settle_buys`; `join` runs both.
#[verifier::external_body]
fn join_settle(
    s: &mut Vec<Ciphertext>,
    s16: &mut Vec<Ciphertext>,
    sell_vol: &mut Ciphertext,
    b: &mut Vec<Ciphertext>,
    b16: &Vec<Ciphertext>,
    buy_vol: &mut Ciphertext,
    num_block: usize,
    server_key: &FheServerKey,
)
    requires
        num_block > 0,
        2 * num_block <= usize::MAX,
        left_ok(*old(sell_vol), num_block as nat, server_key.id()),
        widened_operands(old(s16)@, old(s)@.len(), num_block as nat, server_key.id()),
        left_ok(*old(buy_vol), num_block as nat, server_key.id()),
        widened_operands(b16@, old(b)@.len(), num_block as nat, server_key.id()),
    ensures
        final(s)@.len() == old(s)@.len(),
        final(s16)@.len() == old(s16)@.len(),
        final(b)@.len() == old(b)@.len(),
        scalar_blocks_fit(2 * num_block as nat) ==> padded_settled(
            ct_values(old(s16)@),
            final(s)@,
            old(s)@.len(),
            ct_value(*old(sell_vol)),
            num_block as nat,
            server_key.id(),
        ),
        scalar_blocks_fit(2 * num_block as nat) ==> widened_settled(
            ct_values(old(s16)@),
            old(s16)@,
            final(s16)@,
            old(s)@.len(),
            ct_value(*old(sell_vol)),
            num_block as nat,
            server_key.id(),
        ),
        scalar_blocks_fit(2 * num_block as nat) ==> padded_settled(
            ct_values(b16@),
            final(b)@,
            old(b)@.len(),
            ct_value(*old(buy_vol)),
            num_block as nat,
            server_key.id(),
        ),
{
    rayon::join(
        || settle_sells(s, s16, sell_vol, num_block, server_key),
        || settle_buys(b, b16, buy_vol, num_block, server_key),
    );
}

/// Matches the sell orders `s` with the buy orders `b`, all encrypted on
/// `num_block` blocks, with `s16` and `b16` holding the same orders widened to
/// `2 * num_block` blocks. Both sides are summed on `2 * num_block` blocks,
/// the traded volume is the smaller sum, and each side's orders are settled in
/// list order: each takes the smaller of what its widened copy asks and what is
/// left (see `padded_fill`). A sell order's widened copy is replaced by what it
/// took; the buy orders' copies are left as they are. What is stated holds
/// when the scalar subtraction reaches every block (see `scalar_blocks_fit`).
pub fn volume_match(
    s: &mut Vec<Ciphertext>,
    b: &mut Vec<Ciphertext>,
    s16: &mut Vec<Ciphertext>,
    b16: &mut Vec<Ciphertext>,
    num_block: usize,
    server_key: &FheServerKey,
)
    requires
        0 < num_block <= usize::MAX / 2,
        operands(old(s)@, num_block as nat),
        operands(old(b)@, num_block as nat),
        all_keyed(old(s)@, server_key.id()),
        all_keyed(old(b)@, server_key.id()),
        widened_operands(old(s16)@, old(s)@.len(), num_block as nat, server_key.id()),
        widened_operands(old(b16)@, old(b)@.len(), num_block as nat, server_key.id()),
    ensures
        final(s)@.len() == old(s)@.len(),
        final(b)@.len() == old(b)@.len(),
        final(s16)@.len() == old(s16)@.len(),
        final(b16)@ == old(b16)@,
        scalar_blocks_fit(2 * num_block as nat) ==> padded_settled(
            ct_values(old(s16)@),
            final(s)@,
            old(s)@.len(),
            traded_volume(ct_values(old(s)@), ct_values(old(b)@), pow4(2 * num_block as nat)),
            num_block as nat,
            server_key.id(),
        ),
        scalar_blocks_fit(2 * num_block as nat) ==> widened_settled(
            ct_values(old(s16)@),
            old(s16)@,
            final(s16)@,
            old(s)@.len(),
            traded_volume(ct_values(old(s)@), ct_values(old(b)@), pow4(2 * num_block as nat)),
            num_block as nat,
            server_key.id(),
        ),
        scalar_blocks_fit(2 * num_block as nat) ==> padded_settled(
            ct_values(old(b16)@),
            final(b)@,
            old(b)@.len(),
            traded_volume(ct_values(old(s)@), ct_values(old(b)@), pow4(2 * num_block as nat)),
            num_block as nat,
            server_key.id(),
        ),
{
    let ghost n = num_block as nat;
    let ghost n2 = 2 * n;
    let ghost m = pow4(n2);
    let ghost s0 = s@;
    let ghost b0 = b@;
    let mut sell_vol = trivial_zero(server_key, num_block * 2);
    let mut buy_vol = trivial_zero(server_key, num_block * 2);
    proof {
        crate::radix::lemma_pow4_positive(n2);
        crate::radix::lemma_zero_value(n2);
        let z = radix_blocks(sell_vol);
        assert forall|i: int| 0 <= i < z.len() implies (#[trigger] z[i]).0 <= z[i].1 && z[i].0
            <= 15 && z[i].1 <= 11 by {}
        assert(accumulator(buy_vol, n2));
    }
    join_sums(s, &mut sell_vol, b, &mut buy_vol, num_block, server_key);
    proof {
        lemma_accumulator_propagatable(sell_vol, n2);
        lemma_accumulator_propagatable(buy_vol, n2);
    }
    let ghost sb = radix_blocks(sell_vol);
    let ghost bb = radix_blocks(buy_vol);
    sell_vol = smart_min(server_key, &mut sell_vol, &mut buy_vol);
    let mut buy_vol = ct_clone(&sell_vol);
    proof {
        crate::fhe::lemma_smart_operand(sb);
        crate::fhe::lemma_smart_operand(bb);
        lemma_settled_propagatable(sell_vol, n2);
        vstd::arithmetic::div_mod::lemma_mod_twice(total(ct_values(s0)) as int, m as int);
        vstd::arithmetic::div_mod::lemma_mod_twice(total(ct_values(b0)) as int, m as int);
        assert(ct_value(sell_vol) == traded_volume(ct_values(s0), ct_values(b0), m));
        assert(left_ok(buy_vol, n, server_key.id()));
    }
    join_settle(s, s16, &mut sell_vol, b, b16, &mut buy_vol, num_block, server_key);
}

/// Encrypts the first `count` entries of `clear`, each also widened to twice
/// the blocks.
fn encrypt_widened(
    client_key: &FheClientKey,
    clear: &Vec<u64>,
    count: usize,
    server_key: &FheServerKey,
) -> (r: (Vec<Ciphertext>, Vec<Ciphertext>))
    requires
        count <= clear.len(),
        client_key.id() == server_key.id(),
    ensures
        r.0.len() == count,
        r.1.len() == count,
        operands(r.0@, client_key.blocks()),
        all_keyed(r.0@, client_key.id()),
        widened_operands(r.1@, count as nat, client_key.blocks(), client_key.id()),
        ct_values(r.0@) == entries_mod(clear@.take(count as int), pow4(client_key.blocks())),
        ct_values(r.1@) == ct_values(r.0@),
{
    let ghost n = client_key.blocks();
    let mut cts: Vec<Ciphertext> = Vec::new();
    let mut wide: Vec<Ciphertext> = Vec::new();
    for i in 0..count
        invariant
            count <= clear.len(),
            n == client_key.blocks(),
            cts.len() == i,
            wide.len() == i,
            client_key.id() == server_key.id(),
            operands(cts@, n),
            all_keyed(cts@, client_key.id()),
            forall|j: int|
                0 <= j < i ==> operand(#[trigger] wide@[j], 2 * n) && keyed(wide@[j], client_key.id()),
            forall|j: int|
                0 <= j < i ==> #[trigger] ct_value(cts@[j]) == clear@[j] as nat % pow4(n),
            forall|j: int| 0 <= j < i ==> #[trigger] ct_value(wide@[j]) == ct_value(cts@[j]),
    {
        let ct = encrypt(client_key, clear[i]);
        let w = fromNto2Nbit(&ct, server_key);
        proof {
            crate::radix::lemma_digit_value(clear@[i as int] as nat, n);
            crate::radix::lemma_digit_clean(clear@[i as int] as nat, n);
            lemma_widened_value(radix_blocks(ct), n);
            let wb = radix_blocks(w);
            assert forall|j: int| 0 <= j < wb.len() implies (#[trigger] wb[j]).0 <= wb[j].1
                && wb[j].1 <= 3 by {
                if j < n {
                    assert(wb[j] == radix_blocks(ct)[j]);
                } else {
                    assert(wb[j] == zero_blocks(n)[j - n]);
                }
            }
        }
        cts.push(ct);
        wide.push(w);
    }
    proof {
        crate::full_paral::lemma_entries_mod(clear@.take(count as int), pow4(n));
        assert(ct_values(cts@) =~= entries_mod(clear@.take(count as int), pow4(n)));
        assert(ct_values(wide@) =~= ct_values(cts@));
    }
    (cts, wide)
}

/// What a run leaves of the plain orders: of the first `k` sell orders and the
/// first `k` buy orders (`k` the number of sell orders), each replaced by what
/// it took in the padded matching on `n`-block orders and `2n`-block sums.
pub open spec fn run_post(
    s_before: Seq<u64>,
    b_before: Seq<u64>,
    s_after: Seq<u64>,
    b_after: Seq<u64>,
    n: nat,
) -> bool {
    let k = s_before.len() as int;
    let sv = entries_mod(s_before, pow4(n));
    let bv = entries_mod(b_before.take(k), pow4(n));
    let vol = traded_volume(sv, bv, pow4(2 * n));
    &&& s_after.len() == s_before.len()
    &&& b_after.len() == b_before.len()
    &&& scalar_blocks_fit(2 * n) ==> {
        &&& as_nats(s_after) == padded_fill(sv, vol, n)
        &&& as_nats(b_after.take(k)) == padded_fill(bv, vol, n)
        &&& b_after.skip(k) == b_before.skip(k)
    }
}

/// Generates keys for `num_block`-block integers, encrypts the sell orders
/// `s_clear` and as many buy orders `b_clear`, each also widened to
/// `2 * num_block` blocks, matches them, and writes the results back in place.
pub fn run(s_clear: &mut Vec<u64>, b_clear: &mut Vec<u64>, num_block: usize)
    requires
        0 < num_block <= usize::MAX / 2,
        old(b_clear).len() >= old(s_clear).len(),
    ensures
        run_post(old(s_clear)@, old(b_clear)@, final(s_clear)@, final(b_clear)@, num_block as nat),
{
    let (client_key, server_key) = generate_keys(num_block);
    let ghost n = num_block as nat;
    let count = s_clear.len();
    let (mut s, mut s16) = encrypt_widened(&client_key, s_clear, count, &server_key);
    let (mut b, mut b16) = encrypt_widened(&client_key, b_clear, count, &server_key);
    let ghost s0 = s@;
    let ghost b0 = b@;
    volume_match(&mut s, &mut b, &mut s16, &mut b16, num_block, &server_key);
    proof {
        if scalar_blocks_fit(2 * n) {
            assert forall|j: int| 0 <= j < s@.len() implies settled(#[trigger] s@[j], n) by {
                lemma_propagated_facts(s@[j], n);
            }
            assert forall|j: int| 0 <= j < b@.len() implies settled(#[trigger] b@[j], n) by {
                lemma_propagated_facts(b@[j], n);
            }
            assert(ct_values(s0).take(count as int) =~= ct_values(s0));
            assert(ct_values(b0).take(count as int) =~= ct_values(b0));
        }
    }
    decrypt_all(&client_key, &s, s_clear);
    decrypt_all(&client_key, &b, b_clear);
    proof {
        assert(s_clear@.take(count as int) =~= s_clear@);
        assert(old(s_clear)@.take(count as int) =~= old(s_clear)@);
    }
}

// ----------------------------------------------------------------------------
// Laws
// ----------------------------------------------------------------------------

proof fn lemma_padded_constants()
    ensures
        pow4(4) == 256,
        pow4(8) == 65536,
        padded_offset(4) == 65536,
{
    reveal_with_fuel(pow4, 9);
    assert(pow4(8) == 65536);
    assert(256nat % 65536nat == 256nat);
    assert(((65536 - 256) % 65536int) == 65280);
    assert(neg_scalar(SUB_CORRECTION as nat, 8) == 65280);
}

/// For 4-block orders the volume left before order `i` is what is left of the
/// volume after the orders before it.
proof fn lemma_padded_left_four(xs: Seq<nat>, vol: nat, i: nat)
    requires
        i <= xs.len(),
        vol < pow4(8),
        forall|j: int| 0 <= j < xs.len() ==> #[trigger] xs[j] < pow4(4),
    ensures
        padded_left(xs, vol, 4, i) == crate::matching::sub_floor(
            vol,
            crate::matching::prefix_total(xs, i as int),
        ),
    decreases i,
{
    lemma_padded_constants();
    if i > 0 {
        let k = (i - 1) as nat;
        lemma_padded_left_four(xs, vol, k);
        crate::matching::lemma_prefix_step(xs, k as int);
        let g = padded_left(xs, vol, 4, k);
        let f = min_of(xs[k as int], g);
        vstd::arithmetic::div_mod::lemma_small_mod(f, 256);
        assert(g <= vol);
        vstd::arithmetic::div_mod::lemma_mod_add_multiples_vanish((g - f) as int, 65536);
        vstd::arithmetic::div_mod::lemma_small_mod((g - f) as nat, 65536);
        assert(padded_left(xs, vol, 4, i) == (((g - f) + 65536) % 65536int) as nat);
    }
}

/// With 4-block orders (and 8-block sums) the padded matching settles each
/// side exactly as filling the orders one after the other does: the scalar 256
/// takes back exactly what the subtraction adds.
pub proof fn law_padded_fill_is_greedy(xs: Seq<nat>, vol: nat)
    requires
        vol < pow4(8),
        forall|j: int| 0 <= j < xs.len() ==> #[trigger] xs[j] < pow4(4),
    ensures
        padded_fill(xs, vol, 4) == crate::matching::greedy_fill(xs, vol),
{
    lemma_padded_constants();
    crate::matching::lemma_greedy_len(xs, vol);
    assert forall|i: int| 0 <= i < xs.len() implies #[trigger] padded_fill(xs, vol, 4)[i]
        == crate::matching::greedy_fill(xs, vol)[i] by {
        lemma_padded_left_four(xs, vol, i as nat);
        let f = padded_take(xs, vol, 4, i as nat);
        vstd::arithmetic::div_mod::lemma_small_mod(f, 256);
        crate::matching::lemma_greedy_prefix(xs, vol, i + 1);
        crate::matching::lemma_greedy_take(xs, vol, i);
        crate::matching::lemma_greedy_len(xs.take(i), vol);
        crate::matching::lemma_greedy_total(xs.take(i), vol);
        assert(crate::matching::greedy_fill(xs, vol).take(i + 1)[i] == crate::matching::greedy_fill(
            xs,
            vol,
        )[i]);
    }
    assert(padded_fill(xs, vol, 4) =~= crate::matching::greedy_fill(xs, vol));
}

} // verus!
