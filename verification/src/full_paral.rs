//! Volume matching on encrypted integers with prefix sums: every order is
//! settled on its own, from the volume traded and the sum of the orders before
//! it, so that all orders of a side can be settled in parallel.
use vstd::prelude::*;
use rayon::iter::{IntoParallelIterator, ParallelIterator};
use crate::fhe::{
    Ciphertext, FheClientKey, FheServerKey, all_keyed, ct_clone, ct_value, ct_values, decrypt,
    decrypted_blocks,
    encrypt, keyed,
    full_propagate, generate_keys, is_add_possible, operand, radix_blocks, settled, smart_min,
    trivial_zero, unchecked_add, unchecked_min, unchecked_sub,
};
use crate::matching::{min_of, prefix_fill, prefix_total, sub_floor, total, traded_volume};
use crate::radix::{RadixBlock, blocks_value, degrees_within, pow4, well_formed};

verus! {

/// `n` blocks, well formed, degrees at most 11: a running sum that one more
/// fresh operand can be added to after at most one carry propagation.
pub open spec fn accumulator(c: Ciphertext, n: nat) -> bool {
    &&& radix_blocks(c).len() == n
    &&& well_formed(radix_blocks(c))
    &&& degrees_within(radix_blocks(c), 11)
}

/// `n` blocks holding the digits of an integer, each with degree 3: a
/// carry-propagated integer.
pub open spec fn propagated(c: Ciphertext, n: nat) -> bool {
    &&& radix_blocks(c).len() == n
    &&& forall|i: int|
        0 <= i < n ==> (#[trigger] radix_blocks(c)[i]).1 == 3 && radix_blocks(c)[i].0 < 4
}

pub proof fn lemma_accumulator_propagatable(c: Ciphertext, n: nat)
    requires
        accumulator(c, n),
    ensures
        crate::radix::propagatable(radix_blocks(c)),
{
    let bs = radix_blocks(c);
    assert forall|i: int| 1 <= i < bs.len() implies (#[trigger] bs[i]).0 <= 12 by {
        assert(bs[i].0 <= bs[i].1);
    }
    crate::radix::lemma_propagatable_bounded(bs);
}

pub proof fn lemma_settled_propagatable(c: Ciphertext, n: nat)
    requires
        settled(c, n),
    ensures
        crate::radix::propagatable(radix_blocks(c)),
        ct_value(c) < pow4(n),
{
    let bs = radix_blocks(c);
    assert forall|i: int| 1 <= i < bs.len() implies (#[trigger] bs[i]).0 <= 12 by {
        assert(bs[i].0 < 4);
    }
    crate::radix::lemma_propagatable_bounded(bs);
    crate::radix::lemma_value_below_modulus(bs);
}

pub proof fn lemma_propagated_facts(c: Ciphertext, n: nat)
    requires
        propagated(c, n),
    ensures
        settled(c, n),
        crate::radix::clean(radix_blocks(c)),
        degrees_within(radix_blocks(c), 3),
        accumulator(c, n),
        crate::radix::propagatable(radix_blocks(c)),
        ct_value(c) < pow4(n),
{
    let bs = radix_blocks(c);
    assert forall|i: int| 0 <= i < bs.len() implies (#[trigger] bs[i]).0 <= bs[i].1 && bs[i].0
        <= 15 by {
        assert(bs[i].1 == 3 && bs[i].0 < 4);
    }
    crate::radix::lemma_value_below_modulus(bs);
    crate::radix::lemma_no_carries_propagatable(bs);
}

pub proof fn lemma_operand_facts(c: Ciphertext, n: nat)
    requires
        operand(c, n),
    ensures
        settled(c, n),
        accumulator(c, n),
        degrees_within(radix_blocks(c), 3),
        crate::radix::propagatable(radix_blocks(c)),
        ct_value(c) < pow4(n),
{
    let bs = radix_blocks(c);
    assert forall|i: int| 0 <= i < bs.len() implies (#[trigger] bs[i]).0 <= bs[i].1 && bs[i].0
        <= 15 && bs[i].0 < 4 by {
        assert(bs[i].0 <= bs[i].1 && bs[i].1 <= 3);
    }
    crate::radix::lemma_value_below_modulus(bs);
    crate::radix::lemma_no_carries_propagatable(bs);
}

/// Every block of `b` is well formed and holds at most 12: `b` can be added
/// exactly to a carry-propagated integer (whose blocks hold at most 3).
pub open spec fn addend(b: Seq<RadixBlock>) -> bool {
    &&& well_formed(b)
    &&& forall|i: int| 0 <= i < b.len() ==> (#[trigger] b[i]).0 <= 12
}

/// Adds `b` to `a`, first propagating the carries of `a` when the addition
/// would overflow a block (`is_add_possible`). Both are integers of one key
/// pair, on as many blocks; the carries of `a` can be propagated exactly and
/// every block of `b` holds at most 12, so that the sum is exact either way.
/// `a` keeps its integer modulo `4^n`; the result stands for the sum modulo
/// `4^n`, and its degrees stay within 11 when those of `b` are within 8.
fn add(a: &mut Ciphertext, b: &Ciphertext, server_key: &FheServerKey) -> (r: Ciphertext)
    requires
        radix_blocks(*old(a)).len() == radix_blocks(*b).len(),
        crate::radix::propagatable(radix_blocks(*old(a))),
        addend(radix_blocks(*b)),
        keyed(*old(a), server_key.id()),
        keyed(*b, server_key.id()),
    ensures
        keyed(*final(a), server_key.id()),
        keyed(r, server_key.id()),
        radix_blocks(*final(a)).len() == radix_blocks(*b).len(),
        crate::radix::propagatable(radix_blocks(*final(a))),
        degrees_within(radix_blocks(*old(a)), 11) ==> degrees_within(radix_blocks(*final(a)), 11),
        ct_value(*final(a)) % pow4(radix_blocks(*b).len()) == ct_value(*old(a)) % pow4(
            radix_blocks(*b).len(),
        ),
        radix_blocks(r).len() == radix_blocks(*b).len(),
        well_formed(radix_blocks(r)),
        degrees_within(radix_blocks(*b), 8) ==> degrees_within(radix_blocks(r), 11),
        ct_value(r) % pow4(radix_blocks(*b).len()) == (ct_value(*old(a)) + ct_value(*b)) % pow4(
            radix_blocks(*b).len(),
        ),
{
    let ghost n = radix_blocks(*b).len();
    let ghost m = pow4(n);
    proof {
        crate::radix::lemma_pow4_positive(n);
    }
    if !is_add_possible(server_key, a, b) {
        let ghost a_before = radix_blocks(*a);
        full_propagate(server_key, a);
        proof {
            crate::fhe::lemma_propagated_blocks(a_before);
            lemma_propagated_facts(*a, n);
            vstd::arithmetic::div_mod::lemma_mod_twice(ct_value(*old(a)) as int, m as int);
        }
    }
    let r = unchecked_add(server_key, a, b);
    proof {
        let (ba, bb, br) = (radix_blocks(*a), radix_blocks(*b), radix_blocks(r));
        assert forall|i: int| 0 <= i < ba.len() implies #[trigger] br[i].0 == ba[i].0 + bb[i].0
            && br[i].0 <= br[i].1 && br[i].0 <= 15 && (degrees_within(bb, 8) ==> br[i].1 <= 11) by {
            assert(ba[i].0 <= ba[i].1 && bb[i].0 <= bb[i].1);
            assert(bb[i].0 <= 12);
            if ba[i].1 > 3 {
                // no propagation happened, so the addition was possible
                assert(ba[i].1 + bb[i].1 <= 11);
            } else {
                assert(ba[i].0 <= 3);
            }
        }
        crate::radix::lemma_value_add(ba, bb, br);
        vstd::arithmetic::div_mod::lemma_add_mod_noop(
            ct_value(*a) as int,
            ct_value(*b) as int,
            m as int,
        );
        vstd::arithmetic::div_mod::lemma_add_mod_noop(
            ct_value(*old(a)) as int,
            ct_value(*b) as int,
            m as int,
        );
    }
    r
}

/// The sums of the first `i` entries of `xs`, for every `i` from 0 to the
/// length, each modulo `4^n`.
pub open spec fn prefix_sums_post(
    xs: Seq<Ciphertext>,
    n: nat,
    sums: Seq<Ciphertext>,
    id: int,
) -> bool {
    &&& sums.len() == xs.len() + 1
    &&& all_keyed(sums, id)
    &&& forall|i: int|
        0 <= i <= xs.len() ==> accumulator(#[trigger] sums[i], n) && ct_value(sums[i]) % pow4(n)
            == prefix_total(ct_values(xs), i) % pow4(n)
}

/// The operands that the summing of a side is made for.
pub open spec fn operands(xs: Seq<Ciphertext>, n: nat) -> bool {
    forall|i: int| 0 <= i < xs.len() ==> operand(#[trigger] xs[i], n)
}

/// The running sums of `xs`, starting from a trivial zero.
fn prefix_sums(xs: &Vec<Ciphertext>, num_block: usize, server_key: &FheServerKey) -> (sums: Vec<
    Ciphertext,
>)
    requires
        num_block > 0,
        operands(xs@, num_block as nat),
        all_keyed(xs@, server_key.id()),
    ensures
        prefix_sums_post(xs@, num_block as nat, sums@, server_key.id()),
{
    let ghost n = num_block as nat;
    let ghost m = pow4(n);
    let mut sums: Vec<Ciphertext> = Vec::new();
    let mut acc = trivial_zero(server_key, num_block);
    proof {
        crate::radix::lemma_zero_value(n);
        crate::radix::lemma_pow4_positive(n);
        assert(ct_values(xs@).take(0) =~= Seq::<nat>::empty());
        let z = radix_blocks(acc);
        assert forall|i: int| 0 <= i < z.len() implies (#[trigger] z[i]).0 <= z[i].1 && z[i].0
            <= 15 by {}
        assert forall|i: int| 0 <= i < z.len() implies (#[trigger] z[i]).1 <= 11 by {}
    }
    let len = xs.len();
    for i in 0..len
        invariant
            len == xs.len(),
            n == num_block,
            m == pow4(n),
            m > 0,
            operands(xs@, n),
            all_keyed(xs@, server_key.id()),
            sums.len() == i,
            forall|j: int| 0 <= j < i ==> keyed(#[trigger] sums@[j], server_key.id()),
            keyed(acc, server_key.id()),
            forall|j: int|
                0 <= j < i ==> accumulator(#[trigger] sums@[j], n) && ct_value(sums@[j]) % m
                    == prefix_total(ct_values(xs@), j) % m,
            accumulator(acc, n),
            ct_value(acc) % m == prefix_total(ct_values(xs@), i as int) % m,
    {
        proof {
            assert(operand(xs@[i as int], n));
            assert(keyed(xs@[i as int], server_key.id()));
            lemma_accumulator_propagatable(acc, n);
        }
        let ghost acc_before = ct_value(acc);
        let next = self::add(&mut acc, &xs[i], server_key);
        sums.push(acc);
        acc = next;
        proof {
            let vals = ct_values(xs@);
            crate::matching::lemma_prefix_step(vals, i as int);
            vstd::arithmetic::div_mod::lemma_add_mod_noop(
                prefix_total(vals, i as int) as int,
                vals[i as int] as int,
                m as int,
            );
            vstd::arithmetic::div_mod::lemma_add_mod_noop(
                acc_before as int,
                vals[i as int] as int,
                m as int,
            );
        }
    }
    sums.push(acc);
    proof {
        assert(all_keyed(sums@, server_key.id())) by {
            assert forall|j: int| 0 <= j < sums@.len() implies keyed(#[trigger] sums@[j], server_key.id()) by {
            }
        }
    }
    sums
}

/// Everything that settling one order needs: the order and the traded volume
/// hold messages only, with degrees of at most 3 (as the minimum they go
/// into asks), and the carries of the running sum before the order can be
/// propagated exactly, all on `n` blocks of one key pair.
pub open spec fn calc_order_pre(
    x: Ciphertext,
    sum: Ciphertext,
    l: Ciphertext,
    n: nat,
    id: int,
) -> bool {
    &&& n > 0
    &&& keyed(x, id)
    &&& keyed(sum, id)
    &&& keyed(l, id)
    &&& operand(x, n)
    &&& radix_blocks(sum).len() == n
    &&& crate::radix::propagatable(radix_blocks(sum))
    &&& operand(l, n)
}

/// What settling one order leaves: the order filled with what is left of the
/// traded volume after the orders before it, and the running sum carry
/// propagated.
pub open spec fn calc_order_post(
    x: Ciphertext,
    sum_before: Ciphertext,
    sum_after: Ciphertext,
    l: Ciphertext,
    n: nat,
    r: Ciphertext,
    id: int,
) -> bool {
    &&& keyed(r, id)
    &&& keyed(sum_after, id)
    &&& settled(r, n)
    &&& propagated(sum_after, n)
    &&& ct_value(sum_after) == ct_value(sum_before) % pow4(n)
    &&& ct_value(r) == min_of(
        ct_value(x),
        sub_floor(ct_value(l), min_of(ct_value(l), ct_value(sum_before) % pow4(n))),
    )
}

/// Settles the order `x16`, given the running sum `big_x` of the orders before
/// it and the traded volume `l`: the order gets the smaller of what it asks and
/// what is left of `l` after the orders before it.
fn calc_order(
    x16: &Ciphertext,
    big_x: &mut Ciphertext,
    l: &Ciphertext,
    server_key: &FheServerKey,
) -> (r: Ciphertext)
    requires
        calc_order_pre(*x16, *old(big_x), *l, radix_blocks(*l).len(), server_key.id()),
    ensures
        calc_order_post(
            *x16,
            *old(big_x),
            *final(big_x),
            *l,
            radix_blocks(*l).len(),
            r,
            server_key.id(),
        ),
{
    let ghost n = radix_blocks(*l).len();
    let ghost m = pow4(n);
    proof {
        lemma_operand_facts(*l, n);
        lemma_operand_facts(*x16, n);
        crate::radix::lemma_pow4_positive(n);
    }
    let ghost x_before = radix_blocks(*big_x);
    full_propagate(server_key, big_x);
    proof {
        crate::fhe::lemma_propagated_blocks(x_before);
        lemma_propagated_facts(*big_x, n);
    }
    let mut t = unchecked_min(server_key, l, big_x);
    proof {
        lemma_settled_propagatable(t, n);
    }
    let ghost t_before = ct_value(t);
    let ghost tb = radix_blocks(t);
    full_propagate(server_key, &mut t);
    proof {
        crate::fhe::lemma_propagated_blocks(tb);
        lemma_propagated_facts(t, n);
        vstd::arithmetic::div_mod::lemma_small_mod(t_before, m);
        let bt = radix_blocks(t);
        let bl = radix_blocks(*l);
        assert forall|i: int| 0 <= i < bt.len() implies #[trigger] bl[i].0 + crate::radix::neg_term(
            bt,
            i as nat,
        ) <= 15 by {
            crate::radix::lemma_neg_term_clean(bt, i as nat);
        }
        assert(crate::fhe::sub_fits(bl, bt));
    }
    let mut mm = unchecked_sub(server_key, l, &t);
    proof {
        let (bl, bt, bm) = (radix_blocks(*l), radix_blocks(t), radix_blocks(mm));
        let z = crate::radix::neg_term(bt, (n - 1) as nat);
        crate::radix::lemma_neg_term_clean(bt, (n - 1) as nat);
        assert forall|i: int| 1 <= i < bm.len() implies (#[trigger] bm[i]).0 <= 12 by {
            crate::radix::lemma_neg_term_clean(bt, i as nat);
            assert(bm[i].1 == bl[i].1 + crate::radix::neg_term(bt, i as nat));
            assert(bm[i].0 <= bm[i].1);
        }
        crate::radix::lemma_propagatable_bounded(bm);
        // z * 4^(n-1) is a multiple of 4^n
        assert(pow4(n) == 4 * pow4((n - 1) as nat));
        let k: int = z as int / 4;
        assert(z == 4 * k);
        assert(z * pow4((n - 1) as nat) == k * (m as int)) by (nonlinear_arith)
            requires
                z == 4 * k,
                m == 4 * pow4((n - 1) as nat),
        ;
        assert(ct_value(t) <= ct_value(*l));
        crate::radix::lemma_mod_add_multiple(
            ct_value(*l) as int - ct_value(t) as int,
            k,
            n,
        );
        vstd::arithmetic::div_mod::lemma_small_mod(
            (ct_value(*l) - ct_value(t)) as nat,
            m,
        );
    }
    let ghost mb = radix_blocks(mm);
    full_propagate(server_key, &mut mm);
    proof {
        crate::fhe::lemma_propagated_blocks(mb);
        lemma_propagated_facts(mm, n);
    }
    unchecked_min(server_key, x16, &mm)
}

/// Computes the running sums of both sides at once.
///
/// Calls `rayon::join` with two closures, each of which calls `prefix_sums`
/// on one side; `join` runs both and returns both results.
#[verifier::external_body]
fn join_prefix_sums(
    s: &Vec<Ciphertext>,
    b: &Vec<Ciphertext>,
    num_block: usize,
    server_key: &FheServerKey,
) -> (sums: (Vec<Ciphertext>, Vec<Ciphertext>))
    requires
        num_block > 0,
        operands(s@, num_block as nat),
        operands(b@, num_block as nat),
        all_keyed(s@, server_key.id()),
        all_keyed(b@, server_key.id()),
    ensures
        prefix_sums_post(s@, num_block as nat, sums.0@, server_key.id()),
        prefix_sums_post(b@, num_block as nat, sums.1@, server_key.id()),
{
    rayon::join(|| prefix_sums(s, num_block, server_key), || prefix_sums(b, num_block, server_key))
}

/// Everything that settling the orders of a side needs.
pub open spec fn settle_pre(
    xs: Seq<Ciphertext>,
    sums: Seq<Ciphertext>,
    l: Ciphertext,
    id: int,
) -> bool {
    &&& sums.len() >= xs.len()
    &&& forall|i: int|
        0 <= i < xs.len() ==> calc_order_pre(
            #[trigger] xs[i],
            sums[i],
            l,
            radix_blocks(l).len(),
            id,
        )
}

/// What settling the orders of a side leaves: every order settled against the
/// running sum at its index.
pub open spec fn settle_post(
    xs: Seq<Ciphertext>,
    sums_before: Seq<Ciphertext>,
    sums_after: Seq<Ciphertext>,
    l: Ciphertext,
    r: Seq<Ciphertext>,
    id: int,
) -> bool {
    &&& r.len() == xs.len()
    &&& sums_after.len() == sums_before.len()
    &&& forall|i: int|
        0 <= i < xs.len() ==> calc_order_post(
            xs[i],
            sums_before[i],
            sums_after[i],
            l,
            radix_blocks(l).len(),
            #[trigger] r[i],
            id,
        )
}

/// Settles every order of a side in parallel.
///
/// Calls rayon's `into_par_iter` on the pair of the orders and their running
/// sums, maps each pair through `calc_order` and collects the results in order.
/// The zip stops at the shorter of the two, the orders.
#[verifier::external_body]
fn par_calc_orders(
    xs: &Vec<Ciphertext>,
    sums: &mut Vec<Ciphertext>,
    l: &Ciphertext,
    server_key: &FheServerKey,
) -> (r: Vec<Ciphertext>)
    requires
        settle_pre(xs@, old(sums)@, *l, server_key.id()),
    ensures
        settle_post(xs@, old(sums)@, final(sums)@, *l, r@, server_key.id()),
{
    (xs, sums).into_par_iter().map(|(x, y)| calc_order(x, y, l, server_key)).collect()
}

/// Settles the orders of a side, against the running sums of that side.
fn settle_orders(
    xs: &Vec<Ciphertext>,
    sums: &mut Vec<Ciphertext>,
    l: &Ciphertext,
    server_key: &FheServerKey,
) -> (r: Vec<Ciphertext>)
    requires
        settle_pre(xs@, old(sums)@, *l, server_key.id()),
    ensures
        settle_post(xs@, old(sums)@, final(sums)@, *l, r@, server_key.id()),
{
    par_calc_orders(xs, sums, l, server_key)
}

/// Settles both sides at once.
///
/// Calls `rayon::join` with two closures, each of which calls `settle_orders`
/// on one side; `join` runs both and returns both results.
#[verifier::external_body]
fn join_settle_orders(
    s: &Vec<Ciphertext>,
    sums_s: &mut Vec<Ciphertext>,
    b: &Vec<Ciphertext>,
    sums_b: &mut Vec<Ciphertext>,
    l: &Ciphertext,
    server_key: &FheServerKey,
) -> (r: (Vec<Ciphertext>, Vec<Ciphertext>))
    requires
        settle_pre(s@, old(sums_s)@, *l, server_key.id()),
        settle_pre(b@, old(sums_b)@, *l, server_key.id()),
    ensures
        settle_post(s@, old(sums_s)@, final(sums_s)@, *l, r.0@, server_key.id()),
        settle_post(b@, old(sums_b)@, final(sums_b)@, *l, r.1@, server_key.id()),
{
    rayon::join(
        || settle_orders(s, sums_s, l, server_key),
        || settle_orders(b, sums_b, l, server_key),
    )
}

/// What volume matching leaves of one side: every order settled, and the
/// integers the orders stand for filled from prefix sums with the traded volume.
pub open spec fn side_matched(
    before: Seq<Ciphertext>,
    after: Seq<Ciphertext>,
    vol: nat,
    n: nat,
) -> bool {
    &&& after.len() == before.len()
    &&& forall|i: int| 0 <= i < after.len() ==> settled(#[trigger] after[i], n)
    &&& ct_values(after) == prefix_fill(ct_values(before), vol, pow4(n))
}

/// Matches the sell orders `s` with the buy orders `b`, all encrypted on
/// `num_block` blocks: the traded volume is the smaller of the two totals, and
/// on each side every order keeps the smaller of what it asks and what is left
/// of the traded volume after the orders before it. Arithmetic is modulo
/// `4^num_block`, as on the encrypted integers.
pub fn volume_match(
    s: &mut Vec<Ciphertext>,
    b: &mut Vec<Ciphertext>,
    num_block: usize,
    server_key: &FheServerKey,
)
    requires
        num_block > 0,
        operands(old(s)@, num_block as nat),
        operands(old(b)@, num_block as nat),
        all_keyed(old(s)@, server_key.id()),
        all_keyed(old(b)@, server_key.id()),
    ensures
        all_keyed(final(s)@, server_key.id()),
        all_keyed(final(b)@, server_key.id()),
        side_matched(
            old(s)@,
            final(s)@,
            traded_volume(ct_values(old(s)@), ct_values(old(b)@), pow4(num_block as nat)),
            num_block as nat,
        ),
        side_matched(
            old(b)@,
            final(b)@,
            traded_volume(ct_values(old(s)@), ct_values(old(b)@), pow4(num_block as nat)),
            num_block as nat,
        ),
{
    let ghost n = num_block as nat;
    let ghost m = pow4(n);
    let ghost id = server_key.id();
    let ghost s0 = s@;
    let ghost b0 = b@;
    let (mut big_s, mut big_b) = join_prefix_sums(s, b, num_block, server_key);
    proof {
        crate::radix::lemma_pow4_positive(n);
        assert(accumulator(big_s@[s0.len() as int], n));
        assert(accumulator(big_b@[b0.len() as int], n));
        assert(keyed(big_s@[s0.len() as int], id));
        assert(keyed(big_b@[b0.len() as int], id));
    }
    let mut s_total = big_s.pop().unwrap();
    let mut b_total = big_b.pop().unwrap();
    proof {
        lemma_accumulator_propagatable(s_total, n);
        lemma_accumulator_propagatable(b_total, n);
        crate::matching::lemma_prefix_full(ct_values(s0));
        crate::matching::lemma_prefix_full(ct_values(b0));
        vstd::arithmetic::div_mod::lemma_mod_twice(total(ct_values(s0)) as int, m as int);
        vstd::arithmetic::div_mod::lemma_mod_twice(total(ct_values(b0)) as int, m as int);
        assert(big_s@ =~= big_s@);
    }
    let ghost st = radix_blocks(s_total);
    let ghost bt = radix_blocks(b_total);
    let mut l = smart_min(server_key, &mut s_total, &mut b_total);
    proof {
        crate::fhe::lemma_smart_operand(st);
        crate::fhe::lemma_smart_operand(bt);
        lemma_settled_propagatable(l, n);
    }
    let ghost l_before = ct_value(l);
    let ghost lb = radix_blocks(l);
    full_propagate(server_key, &mut l);
    proof {
        crate::fhe::lemma_propagated_blocks(lb);
        vstd::arithmetic::div_mod::lemma_small_mod(l_before, m);
        lemma_propagated_facts(l, n);
        let vol = traded_volume(ct_values(s0), ct_values(b0), m);
        assert(ct_value(l) == vol);
        assert forall|i: int| 0 <= i < s0.len() implies calc_order_pre(
            #[trigger] s0[i],
            big_s@[i],
            l,
            radix_blocks(l).len(),
            id,
        ) by {
            assert(operand(s0[i], n));
            assert(accumulator(big_s@[i], n));
            lemma_accumulator_propagatable(big_s@[i], n);
            assert(keyed(s0[i], id));
            assert(keyed(big_s@[i], id));
        }
        assert forall|i: int| 0 <= i < b0.len() implies calc_order_pre(
            #[trigger] b0[i],
            big_b@[i],
            l,
            radix_blocks(l).len(),
            id,
        ) by {
            assert(operand(b0[i], n));
            assert(accumulator(big_b@[i], n));
            lemma_accumulator_propagatable(big_b@[i], n);
            assert(keyed(b0[i], id));
            assert(keyed(big_b@[i], id));
        }
    }
    let ghost sums_s = big_s@;
    let ghost sums_b = big_b@;
    let (new_s, new_b) = join_settle_orders(s, &mut big_s, b, &mut big_b, &l, server_key);
    *s = new_s;
    *b = new_b;
    proof {
        let vol = traded_volume(ct_values(s0), ct_values(b0), m);
        assert forall|i: int| 0 <= i < s@.len() implies #[trigger] ct_values(s@)[i] == prefix_fill(
            ct_values(s0),
            vol,
            m,
        )[i] by {
            assert(calc_order_post(s0[i], sums_s[i], big_s@[i], l, n, s@[i], id));
            assert(ct_value(sums_s[i]) % m == prefix_total(ct_values(s0), i) % m);
        }
        assert(ct_values(s@) =~= prefix_fill(ct_values(s0), vol, m));
        assert forall|i: int| 0 <= i < b@.len() implies #[trigger] ct_values(b@)[i] == prefix_fill(
            ct_values(b0),
            vol,
            m,
        )[i] by {
            assert(calc_order_post(b0[i], sums_b[i], big_b@[i], l, n, b@[i], id));
            assert(ct_value(sums_b[i]) % m == prefix_total(ct_values(b0), i) % m);
        }
        assert(ct_values(b@) =~= prefix_fill(ct_values(b0), vol, m));
        assert forall|i: int| 0 <= i < s@.len() implies settled(#[trigger] s@[i], n) && keyed(
            s@[i],
            id,
        ) by {
            assert(calc_order_post(s0[i], sums_s[i], big_s@[i], l, n, s@[i], id));
        }
        assert forall|i: int| 0 <= i < b@.len() implies settled(#[trigger] b@[i], n) && keyed(
            b@[i],
            id,
        ) by {
            assert(calc_order_post(b0[i], sums_b[i], big_b@[i], l, n, b@[i], id));
        }
    }
}

/// The entries of `v` reduced modulo `m`.
pub open spec fn entries_mod(v: Seq<u64>, modulus: nat) -> Seq<nat> {
    Seq::new(v.len(), |i: int| entry_mod(v[i], modulus))
}

/// `x` modulo `m`.
pub open spec fn entry_mod(x: u64, m: nat) -> nat {
    x as nat % m
}

pub proof fn lemma_entries_mod(v: Seq<u64>, m: nat)
    ensures
        entries_mod(v, m).len() == v.len(),
        forall|i: int| 0 <= i < v.len() ==> #[trigger] entries_mod(v, m)[i] == v[i] as nat % m,
{
    assert(entries_mod(v, m).len() == v.len());
    assert forall|i: int| 0 <= i < v.len() implies #[trigger] entries_mod(v, m)[i] == v[i] as nat
        % m by {
        assert(entries_mod(v, m)[i] == entry_mod(v[i], m));
    }
}

/// The entries of `v` as naturals.
pub open spec fn as_nats(v: Seq<u64>) -> Seq<nat> {
    Seq::new(v.len(), |i: int| v[i] as nat)
}

/// What a run leaves of the plain orders: the first `k` sell orders and the
/// first `k` buy orders (`k` the number of sell orders) replaced by their
/// matched volumes, computed on `num_block`-block integers.
pub open spec fn run_post(
    s_before: Seq<u64>,
    b_before: Seq<u64>,
    s_after: Seq<u64>,
    b_after: Seq<u64>,
    num_block: nat,
) -> bool {
    let m = pow4(num_block);
    let k = s_before.len() as int;
    let sv = entries_mod(s_before, m);
    let bv = entries_mod(b_before.take(k), m);
    let vol = traded_volume(sv, bv, m);
    &&& s_after.len() == s_before.len()
    &&& b_after.len() == b_before.len()
    &&& as_nats(s_after) == prefix_fill(sv, vol, m)
    &&& as_nats(b_after.take(k)) == prefix_fill(bv, vol, m)
    &&& b_after.skip(k) == b_before.skip(k)
}

/// A run is determined by the plain orders and the block count: whatever keys
/// and encryption randomness two runs draw, they leave the same books.
pub proof fn law_run_deterministic(
    s: Seq<u64>,
    b: Seq<u64>,
    s1: Seq<u64>,
    b1: Seq<u64>,
    s2: Seq<u64>,
    b2: Seq<u64>,
    num_block: nat,
)
    requires
        b.len() >= s.len(),
        run_post(s, b, s1, b1, num_block),
        run_post(s, b, s2, b2, num_block),
    ensures
        s1 == s2,
        b1 == b2,
{
    let k = s.len() as int;
    assert forall|i: int| 0 <= i < s1.len() implies s1[i] == s2[i] by {
        assert(as_nats(s1)[i] == as_nats(s2)[i]);
    }
    assert(s1 =~= s2);
    assert forall|i: int| 0 <= i < b1.len() implies b1[i] == b2[i] by {
        if i < k {
            assert(as_nats(b1.take(k))[i] == as_nats(b2.take(k))[i]);
        } else {
            assert(b1.skip(k)[i - k] == b2.skip(k)[i - k]);
        }
    }
    assert(b1 =~= b2);
}

/// A run clears the market: when neither side's total wraps around `4^n`, the
/// sell orders written back and the buy orders written back each add up to
/// the traded volume, the smaller of the two totals, and every order is
/// served in list order (the fills are the greedy ones).
pub proof fn law_run_clears(
    s: Seq<u64>,
    b: Seq<u64>,
    s1: Seq<u64>,
    b1: Seq<u64>,
    num_block: nat,
)
    requires
        b.len() >= s.len(),
        run_post(s, b, s1, b1, num_block),
        total(entries_mod(s, pow4(num_block))) < pow4(num_block),
        total(entries_mod(b.take(s.len() as int), pow4(num_block))) < pow4(num_block),
    ensures
        ({
            let m = pow4(num_block);
            let sv = entries_mod(s, m);
            let bv = entries_mod(b.take(s.len() as int), m);
            let vol = traded_volume(sv, bv, m);
            &&& as_nats(s1) == crate::matching::greedy_fill(sv, vol)
            &&& as_nats(b1.take(s.len() as int)) == crate::matching::greedy_fill(bv, vol)
            &&& total(as_nats(s1)) == vol
            &&& total(as_nats(b1.take(s.len() as int))) == vol
            &&& vol == crate::matching::min_of(total(sv), total(bv))
        }),
{
    let m = pow4(num_block);
    let sv = entries_mod(s, m);
    let bv = entries_mod(b.take(s.len() as int), m);
    let vol = traded_volume(sv, bv, m);
    crate::matching::law_prefix_fill_is_greedy(sv, vol, m);
    crate::matching::law_prefix_fill_is_greedy(bv, vol, m);
    crate::matching::law_market_clears(sv, bv, m);
    vstd::arithmetic::div_mod::lemma_small_mod(total(sv), m);
    vstd::arithmetic::div_mod::lemma_small_mod(total(bv), m);
}

/// Decrypting settled orders whose integers are at most the plain orders they
/// came from gives those integers back: they fit in 64 bits.
pub proof fn lemma_side_decrypted(
    clear: Seq<u64>,
    cts: Seq<Ciphertext>,
    fills: Seq<nat>,
    after: Seq<u64>,
    n: nat,
)
    requires
        cts.len() <= clear.len(),
        cts.len() <= after.len(),
        ct_values(cts) == fills,
        forall|i: int| 0 <= i < cts.len() ==> #[trigger] fills[i] <= clear[i],
        forall|i: int| 0 <= i < cts.len() ==> settled(#[trigger] cts[i], n),
        forall|i: int|
            0 <= i < cts.len() ==> #[trigger] after[i] as nat == ct_value(cts[i]) % pow4(
                decrypted_blocks(n),
            ),
    ensures
        as_nats(after.take(cts.len() as int)) == fills,
{
    assert forall|i: int| 0 <= i < cts.len() implies #[trigger] as_nats(
        after.take(cts.len() as int),
    )[i] == fills[i] by {
        assert(settled(cts[i], n));
        lemma_settled_propagatable(cts[i], n);
        assert(ct_values(cts)[i] == ct_value(cts[i]));
        lemma_decrypted_exact(ct_value(cts[i]), n);
    }
    assert(as_nats(after.take(cts.len() as int)) =~= fills);
}

/// Fills from prefix sums are at most the orders they fill.
pub proof fn lemma_prefix_fill_within(clear: Seq<u64>, xs: Seq<nat>, vol: nat, m: nat)
    requires
        m > 0,
        xs == entries_mod(clear, m),
    ensures
        prefix_fill(xs, vol, m).len() == clear.len(),
        forall|i: int| 0 <= i < clear.len() ==> #[trigger] prefix_fill(xs, vol, m)[i] <= clear[i],
{
    lemma_entries_mod(clear, m);
    assert forall|i: int| 0 <= i < clear.len() implies #[trigger] prefix_fill(xs, vol, m)[i]
        <= clear[i] by {
        vstd::arithmetic::div_mod::lemma_mod_decreases(clear[i] as nat, m);
    }
}

proof fn lemma_values_reduced(cts: Seq<Ciphertext>, clear: Seq<u64>, count: nat, m: nat)
    requires
        count <= clear.len(),
        cts.len() == count,
        forall|j: int| 0 <= j < count ==> #[trigger] ct_value(cts[j]) == clear[j] as nat % m,
    ensures
        ct_values(cts) == entries_mod(clear.take(count as int), m),
{
    lemma_entries_mod(clear.take(count as int), m);
    assert forall|j: int| 0 <= j < count implies ct_values(cts)[j] == entries_mod(
        clear.take(count as int),
        m,
    )[j] by {
        assert(clear.take(count as int).len() == count);
        assert(clear.take(count as int)[j] == clear[j]);
        assert(ct_value(cts[j]) == clear[j] as nat % m);
    }
    assert(ct_values(cts) =~= entries_mod(clear.take(count as int), m));
}

/// Encrypts every entry of `clear` (the first `count` of them).
pub fn encrypt_all(client_key: &FheClientKey, clear: &Vec<u64>, count: usize) -> (cts: Vec<Ciphertext>)
    requires
        count <= clear.len(),
    ensures
        cts.len() == count,
        operands(cts@, client_key.blocks()),
        all_keyed(cts@, client_key.id()),
        ct_values(cts@) == entries_mod(clear@.take(count as int), pow4(client_key.blocks())),
{
    let mut cts: Vec<Ciphertext> = Vec::new();
    for i in 0..count
        invariant
            count <= clear.len(),
            cts.len() == i,
            operands(cts@, client_key.blocks()),
            all_keyed(cts@, client_key.id()),
            forall|j: int|
                0 <= j < i ==> #[trigger] ct_value(cts@[j]) == clear@[j] as nat % pow4(
                    client_key.blocks(),
                ),
    {
        let ct = encrypt(client_key, clear[i]);
        proof {
            crate::radix::lemma_digit_value(clear@[i as int] as nat, client_key.blocks());
            crate::radix::lemma_digit_clean(clear@[i as int] as nat, client_key.blocks());
        }
        cts.push(ct);
    }
    proof {
        lemma_values_reduced(cts@, clear@, count as nat, pow4(client_key.blocks()));
    }
    cts
}

/// Decrypts every ciphertext of `cts` into the entry of `clear` at the same
/// index. When every ciphertext holds messages only, the entries are the
/// integers they stand for, reduced to the 64 bits that a decryption reads.
pub fn decrypt_all(client_key: &FheClientKey, cts: &Vec<Ciphertext>, clear: &mut Vec<u64>)
    requires
        cts.len() <= old(clear).len(),
    ensures
        final(clear).len() == old(clear).len(),
        final(clear)@.skip(cts.len() as int) == old(clear)@.skip(cts.len() as int),
        all_keyed(cts@, client_key.id()) && (forall|i: int|
            0 <= i < cts.len() ==> settled(#[trigger] cts@[i], client_key.blocks())) ==> forall|
            i: int,
        |
            0 <= i < cts.len() ==> #[trigger] final(clear)@[i] as nat == ct_value(cts@[i]) % pow4(
                decrypted_blocks(client_key.blocks()),
            ),
        client_key.blocks() <= 32 && all_keyed(cts@, client_key.id()) && (forall|i: int|
            0 <= i < cts.len() ==> settled(#[trigger] cts@[i], client_key.blocks()))
            ==> as_nats(final(clear)@.take(cts.len() as int)) == ct_values(cts@),
{
    let ghost n = client_key.blocks();
    let ghost ok = all_keyed(cts@, client_key.id()) && (forall|i: int|
        0 <= i < cts.len() ==> settled(#[trigger] cts@[i], n));
    for i in 0..cts.len()
        invariant
            cts.len() <= clear.len(),
            clear.len() == old(clear).len(),
            n == client_key.blocks(),
            ok == (all_keyed(cts@, client_key.id()) && (forall|j: int|
                0 <= j < cts.len() ==> settled(#[trigger] cts@[j], n))),
            ok ==> forall|j: int|
                0 <= j < i ==> #[trigger] clear@[j] as nat == ct_value(cts@[j]) % pow4(
                    decrypted_blocks(n),
                ),
            forall|j: int| i <= j < clear.len() ==> #[trigger] clear@[j] == old(clear)@[j],
    {
        proof {
            if ok {
                assert(settled(cts@[i as int], n));
                assert(keyed(cts@[i as int], client_key.id()));
            }
        }
        let v = decrypt(client_key, &cts[i]);
        clear.set(i, v);
    }
    proof {
        if ok && n <= 32 {
            assert forall|j: int| 0 <= j < cts.len() implies #[trigger] clear@[j] as nat
                == ct_value(cts@[j]) by {
                lemma_settled_propagatable(cts@[j], n);
                vstd::arithmetic::div_mod::lemma_small_mod(ct_value(cts@[j]), pow4(n));
            }
            assert(as_nats(clear@.take(cts.len() as int)) =~= ct_values(cts@));
        }
    }
    assert(clear@.skip(cts.len() as int) =~= old(clear)@.skip(cts.len() as int));
}

/// A decrypted value below `2^64` and below `4^n` is the integer itself.
pub proof fn lemma_decrypted_exact(x: nat, n: nat)
    requires
        x < pow4(n),
        x < 0x1_0000_0000_0000_0000nat,
    ensures
        x % pow4(decrypted_blocks(n)) == x,
{
    crate::radix::lemma_pow4_32();
    vstd::arithmetic::div_mod::lemma_small_mod(x, pow4(decrypted_blocks(n)));
}

/// Generates keys for `num_block`-block integers, encrypts the sell orders
/// `s_clear` and as many buy orders `b_clear`, matches them, and writes the
/// matched volumes back in place.
pub fn run(s_clear: &mut Vec<u64>, b_clear: &mut Vec<u64>, num_block: usize)
    requires
        num_block > 0,
        old(b_clear).len() >= old(s_clear).len(),
    ensures
        run_post(old(s_clear)@, old(b_clear)@, final(s_clear)@, final(b_clear)@, num_block as nat),
{
    let (client_key, server_key) = generate_keys(num_block);
    let count = s_clear.len();
    let mut s = encrypt_all(&client_key, s_clear, count);
    let mut b = encrypt_all(&client_key, b_clear, count);
    let ghost s0 = s@;
    let ghost b0 = b@;
    volume_match(&mut s, &mut b, num_block, &server_key);
    let ghost s1 = s@;
    let ghost b1 = b@;
    decrypt_all(&client_key, &s, s_clear);
    decrypt_all(&client_key, &b, b_clear);
    proof {
        let n = num_block as nat;
        let m = pow4(n);
        crate::radix::lemma_pow4_positive(n);
        assert(old(s_clear)@.take(count as int) =~= old(s_clear)@);
        let sv = entries_mod(old(s_clear)@, m);
        let bv = entries_mod(old(b_clear)@.take(count as int), m);
        let vol = traded_volume(sv, bv, m);
        lemma_prefix_fill_within(old(s_clear)@, sv, vol, m);
        lemma_prefix_fill_within(old(b_clear)@.take(count as int), bv, vol, m);
        assert forall|i: int| 0 <= i < count implies #[trigger] prefix_fill(bv, vol, m)[i]
            <= old(b_clear)@[i] by {
            assert(old(b_clear)@.take(count as int)[i] == old(b_clear)@[i]);
        }
        lemma_side_decrypted(old(s_clear)@, s1, prefix_fill(sv, vol, m), s_clear@, n);
        lemma_side_decrypted(old(b_clear)@, b1, prefix_fill(bv, vol, m), b_clear@, n);
        assert(s_clear@.take(count as int) =~= s_clear@);
    }
}

} // verus!
