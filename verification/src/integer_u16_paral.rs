//! Volume matching on encrypted integers, settling the orders of each side one
//! after the other: every order takes the smaller of what it asks and what is
//! left of the traded volume, which then shrinks by that much. Both sides are
//! summed, and settled, in parallel. The first `MAXLISTLENGTH` orders of each
//! side take part.
use vstd::prelude::*;
use crate::fhe::{
    Ciphertext, FheServerKey, all_keyed, keyed, ct_clone, ct_value, ct_values, full_propagate, is_add_possible,
    operand, radix_blocks, settled, smart_min, smart_sub_assign, trivial_zero,
    unchecked_add_assign,
};
use crate::full_paral::{
    accumulator, lemma_accumulator_propagatable, lemma_operand_facts, lemma_propagated_facts,
    lemma_settled_propagatable, propagated,
};
use crate::matching::{greedy_fill, min_of, prefix_total, sub_floor, total, traded_volume};
use crate::radix::{RadixBlock, pow4, propagatable};
use crate::fhe::generate_keys;
use crate::full_paral::{as_nats, decrypt_all, encrypt_all, entries_mod};

verus! {

/// The number of orders of each side that take part in a match.
pub const MAXLISTLENGTH: usize = 10;

/// The first `count` entries of `xs` are operands of `n` blocks, of the key
/// pair `id`.
pub open spec fn operands_upto(xs: Seq<Ciphertext>, count: nat, n: nat, id: int) -> bool {
    &&& count <= xs.len()
    &&& forall|i: int| 0 <= i < count ==> operand(#[trigger] xs[i], n) && keyed(xs[i], id)
}

/// What summing the first `count` orders into `acc` leaves.
pub open spec fn sum_post(
    xs: Seq<Ciphertext>,
    count: nat,
    acc_before: Ciphertext,
    acc_after: Ciphertext,
    n: nat,
    id: int,
) -> bool {
    &&& keyed(acc_after, id)
    &&& accumulator(acc_after, n)
    &&& ct_value(acc_after) % pow4(n) == (ct_value(acc_before) + prefix_total(ct_values(xs), count as int))
        % pow4(n)
}

/// Adds the first `count` orders of `xs` to `acc`, propagating the carries of
/// `acc` before an addition that would overflow its blocks.
fn sum_orders(xs: &Vec<Ciphertext>, acc: &mut Ciphertext, count: usize, server_key: &FheServerKey)
    requires
        radix_blocks(*old(acc)).len() > 0,
        accumulator(*old(acc), radix_blocks(*old(acc)).len()),
        keyed(*old(acc), server_key.id()),
        operands_upto(xs@, count as nat, radix_blocks(*old(acc)).len(), server_key.id()),
    ensures
        sum_post(
            xs@,
            count as nat,
            *old(acc),
            *final(acc),
            radix_blocks(*old(acc)).len(),
            server_key.id(),
        ),
{
    let ghost n = radix_blocks(*acc).len();
    let ghost m = pow4(n);
    let ghost start = ct_value(*acc);
    proof {
        crate::radix::lemma_pow4_positive(n);
        assert(ct_values(xs@).take(0) =~= Seq::<nat>::empty());
        vstd::arithmetic::div_mod::lemma_mod_twice(start as int, m as int);
    }
    for i in 0..count
        invariant
            n == radix_blocks(*old(acc)).len(),
            m == pow4(n),
            m > 0,
            start == ct_value(*old(acc)),
            operands_upto(xs@, count as nat, n, server_key.id()),
            accumulator(*acc, n),
            keyed(*acc, server_key.id()),
            ct_value(*acc) % m == (start + prefix_total(ct_values(xs@), i as int)) % m,
    {
        proof {
            assert(operand(xs@[i as int], n));
            lemma_operand_facts(xs@[i as int], n);
            lemma_accumulator_propagatable(*acc, n);
        }
        let ghost before = ct_value(*acc);
        if !is_add_possible(server_key, acc, &xs[i]) {
            let ghost bs = radix_blocks(*acc);
            full_propagate(server_key, acc);
            proof {
                crate::fhe::lemma_propagated_blocks(bs);
                lemma_propagated_facts(*acc, n);
                vstd::arithmetic::div_mod::lemma_mod_twice(before as int, m as int);
            }
        }
        let ghost mid = ct_value(*acc);
        let ghost mid_blocks = radix_blocks(*acc);
        unchecked_add_assign(server_key, acc, &xs[i]);
        proof {
            let (ba, bb, br) = (mid_blocks, radix_blocks(xs@[i as int]), radix_blocks(*acc));
            assert forall|j: int| 0 <= j < ba.len() implies #[trigger] br[j].0 == ba[j].0 + bb[j].0
                && br[j].0 <= br[j].1 && br[j].1 <= 11 && br[j].0 <= 15 by {
                assert(ba[j].0 <= ba[j].1 && bb[j].0 <= bb[j].1);
                assert(ba[j].1 + bb[j].1 <= 11);
            }
            crate::radix::lemma_value_add(ba, bb, br);
            let vals = ct_values(xs@);
            crate::matching::lemma_prefix_step(vals, i as int);
            vstd::arithmetic::div_mod::lemma_add_mod_noop(mid as int, vals[i as int] as int, m as int);
            vstd::arithmetic::div_mod::lemma_add_mod_noop(
                before as int,
                vals[i as int] as int,
                m as int,
            );
            vstd::arithmetic::div_mod::lemma_add_mod_noop(
                (start + prefix_total(vals, i as int)) as int,
                vals[i as int] as int,
                m as int,
            );
        }
    }
}

/// Sums both sides at once.
///
/// Calls `rayon::join` with two closures, each of which calls `sum_orders` on
/// one side; `join` runs both.
#[verifier::external_body]
fn join_sum_orders(
    s: &Vec<Ciphertext>,
    sum_s: &mut Ciphertext,
    b: &Vec<Ciphertext>,
    sum_b: &mut Ciphertext,
    count: usize,
    server_key: &FheServerKey,
)
    requires
        radix_blocks(*old(sum_s)).len() > 0,
        accumulator(*old(sum_s), radix_blocks(*old(sum_s)).len()),
        keyed(*old(sum_s), server_key.id()),
        operands_upto(s@, count as nat, radix_blocks(*old(sum_s)).len(), server_key.id()),
        radix_blocks(*old(sum_b)).len() > 0,
        accumulator(*old(sum_b), radix_blocks(*old(sum_b)).len()),
        keyed(*old(sum_b), server_key.id()),
        operands_upto(b@, count as nat, radix_blocks(*old(sum_b)).len(), server_key.id()),
    ensures
        sum_post(
            s@,
            count as nat,
            *old(sum_s),
            *final(sum_s),
            radix_blocks(*old(sum_s)).len(),
            server_key.id(),
        ),
        sum_post(
            b@,
            count as nat,
            *old(sum_b),
            *final(sum_b),
            radix_blocks(*old(sum_b)).len(),
            server_key.id(),
        ),
{
    rayon::join(
        || sum_orders(s, sum_s, count, server_key),
        || sum_orders(b, sum_b, count, server_key),
    );
}

/// What is left of a volume: `n` blocks that can be carry-propagated exactly.
pub open spec fn volume_ok(c: Ciphertext, n: nat) -> bool {
    radix_blocks(c).len() == n && propagatable(radix_blocks(c))
}

/// What settling the first `count` orders of `xs` in list order against the
/// volume `vol` leaves: those orders filled greedily, carry-propagated, the
/// others untouched.
pub open spec fn settle_post(
    before: Seq<Ciphertext>,
    after: Seq<Ciphertext>,
    count: nat,
    vol: nat,
    n: nat,
    id: int,
) -> bool {
    &&& after.len() == before.len()
    &&& forall|i: int| 0 <= i < count ==> propagated(#[trigger] after[i], n) && keyed(after[i], id)
    &&& forall|i: int| count <= i < after.len() ==> #[trigger] after[i] == before[i]
    &&& ct_values(after).take(count as int) == greedy_fill(
        ct_values(before).take(count as int),
        vol,
    )
}

/// Settles one order against what is left of the volume: the order gets the
/// smaller of what it asks and what is left, carry-propagated, and what is left
/// shrinks by that much.
fn settle_one(order: &Ciphertext, left: &mut Ciphertext, server_key: &FheServerKey) -> (r: Ciphertext)
    requires
        radix_blocks(*old(left)).len() > 0,
        volume_ok(*old(left), radix_blocks(*old(left)).len()),
        operand(*order, radix_blocks(*old(left)).len()),
        keyed(*old(left), server_key.id()),
        keyed(*order, server_key.id()),
    ensures
        keyed(r, server_key.id()),
        keyed(*final(left), server_key.id()),
        propagated(r, radix_blocks(*old(left)).len()),
        ct_value(r) == min_of(
            ct_value(*order),
            ct_value(*old(left)) % pow4(radix_blocks(*old(left)).len()),
        ),
        volume_ok(*final(left), radix_blocks(*old(left)).len()),
        ct_value(*final(left)) % pow4(radix_blocks(*old(left)).len()) == (ct_value(*old(left))
            % pow4(radix_blocks(*old(left)).len()) - ct_value(r)) as nat,
{
    let ghost n = radix_blocks(*left).len();
    let ghost m = pow4(n);
    proof {
        crate::radix::lemma_pow4_positive(n);
        lemma_operand_facts(*order, n);
    }
    let mut x = ct_clone(order);
    let ghost xb = radix_blocks(x);
    let ghost lb = radix_blocks(*left);
    let mut r = smart_min(server_key, &mut x, left);
    proof {
        assert(crate::fhe::min_nat(ct_value(*order), ct_value(*old(left)) % m) == min_of(ct_value(*order), ct_value(*old(left)) % m));
        crate::fhe::lemma_smart_operand(xb);
        crate::fhe::lemma_smart_operand(lb);
        assert(!crate::radix::has_carry_degree(xb)) by {
            assert forall|j: int| 0 <= j < xb.len() implies (#[trigger] xb[j]).1 < 4 by {
                assert(xb[j].1 <= 3);
            }
        }
        assert(radix_blocks(x) == xb);
        lemma_settled_propagatable(r, n);
        let rb = radix_blocks(r);
        let lc = radix_blocks(*left);
        crate::radix::lemma_clean_propagatable(lc);
        assert(crate::fhe::neg_possible(rb)) by {
            assert forall|j: int| 0 <= j < rb.len() implies #[trigger] crate::radix::round_up4(
                rb[j].1,
            ) / 3 <= 11 by {
                assert(rb[j].1 == 14);
            }
        }
        assert(!crate::fhe::sub_possible(lc, rb)) by {
            assert(rb[0].1 == 14);
            assert(crate::radix::round_up4(14) == 16);
        }
    }
    let ghost lc = radix_blocks(*left);
    let ghost rb = radix_blocks(r);
    let ghost lv = ct_value(*left);
    let ghost rv = ct_value(r);
    smart_sub_assign(server_key, left, &mut r);
    proof {
        let pl = crate::fhe::propagated_blocks(lc);
        let pr = crate::fhe::propagated_blocks(rb);
        crate::fhe::lemma_propagated_blocks(lc);
        crate::fhe::lemma_propagated_blocks(rb);
        assert(crate::fhe::smart_sub_operands(lc, rb) == (pl, pr));
        assert(radix_blocks(r) == pr);
        // the carry-propagated order
        assert(propagated(r, n));
        lemma_propagated_facts(r, n);
        vstd::arithmetic::div_mod::lemma_small_mod(rv, m);
        assert(ct_value(r) == rv);
        // the subtraction fits
        assert forall|j: int| 0 <= j < pr.len() implies #[trigger] pl[j].0
            + crate::radix::neg_term(pr, j as nat) <= 15 by {
            crate::radix::lemma_neg_term_clean(pr, j as nat);
        }
        let nl = radix_blocks(*left);
        assert forall|j: int| 1 <= j < nl.len() implies (#[trigger] nl[j]).0 <= 12 by {
            crate::radix::lemma_neg_term_clean(pr, j as nat);
            assert(nl[j].1 == pl[j].1 + crate::radix::neg_term(pr, j as nat));
            assert(nl[j].0 <= nl[j].1);
        }
        crate::radix::lemma_propagatable_bounded(nl);
        // what is left shrinks by the order
        let z = crate::radix::neg_term(pr, (n - 1) as nat);
        crate::radix::lemma_neg_term_clean(pr, (n - 1) as nat);
        assert(m == 4 * pow4((n - 1) as nat));
        let k: int = z as int / 4;
        assert(z * pow4((n - 1) as nat) == k * (m as int)) by (nonlinear_arith)
            requires
                z == 4 * k,
                m == 4 * pow4((n - 1) as nat),
        ;
        assert(lv == ct_value(*old(left)) % m);
        vstd::arithmetic::div_mod::lemma_mod_twice(ct_value(*old(left)) as int, m as int);
        assert(crate::radix::blocks_value(pl) == lv % m);
        assert(rv <= lv % m);
        crate::radix::lemma_mod_add_multiple((lv % m) as int - rv as int, k, n);
        vstd::arithmetic::div_mod::lemma_small_mod((lv % m - rv) as nat, m);
    }
    r
}

/// Settles the first `count` orders of `xs` in list order: each takes the
/// smaller of what it asks and what is left of the volume, which then shrinks
/// by that much.
fn settle_orders(xs: &mut Vec<Ciphertext>, left: &mut Ciphertext, count: usize, server_key: &FheServerKey)
    requires
        radix_blocks(*old(left)).len() > 0,
        volume_ok(*old(left), radix_blocks(*old(left)).len()),
        ct_value(*old(left)) < pow4(radix_blocks(*old(left)).len()),
        keyed(*old(left), server_key.id()),
        operands_upto(old(xs)@, count as nat, radix_blocks(*old(left)).len(), server_key.id()),
    ensures
        settle_post(
            old(xs)@,
            final(xs)@,
            count as nat,
            ct_value(*old(left)),
            radix_blocks(*old(left)).len(),
            server_key.id(),
        ),
{
    let ghost n = radix_blocks(*left).len();
    let ghost m = pow4(n);
    let ghost vol = ct_value(*left);
    let ghost orig = xs@;
    let ghost v = ct_values(orig).take(count as int);
    let ghost g = greedy_fill(v, vol);
    proof {
        crate::radix::lemma_pow4_positive(n);
        crate::matching::lemma_greedy_len(v, vol);
        assert(g.take(0) =~= Seq::<nat>::empty());
        vstd::arithmetic::div_mod::lemma_small_mod(vol, m);
    }
    for i in 0..count
        invariant
            n == radix_blocks(*old(left)).len(),
            n > 0,
            m == pow4(n),
            m > 0,
            vol == ct_value(*old(left)),
            vol < m,
            orig == old(xs)@,
            v == ct_values(orig).take(count as int),
            g == greedy_fill(v, vol),
            g.len() == count,
            operands_upto(orig, count as nat, n, server_key.id()),
            xs.len() == orig.len(),
            forall|j: int| 0 <= j < i ==> propagated(#[trigger] xs@[j], n),
            forall|j: int| 0 <= j < i ==> keyed(#[trigger] xs@[j], server_key.id()),
            keyed(*left, server_key.id()),
            forall|j: int| 0 <= j < i ==> #[trigger] ct_value(xs@[j]) == g[j],
            forall|j: int| i <= j < xs.len() ==> #[trigger] xs@[j] == orig[j],
            volume_ok(*left, n),
            ct_value(*left) % m == sub_floor(vol, total(g.take(i as int))),
    {
        proof {
            assert(operand(orig[i as int], n));
            assert(keyed(orig[i as int], server_key.id()));
            lemma_operand_facts(orig[i as int], n);
            crate::matching::lemma_greedy_step(v, vol, i as int);
            assert(v[i as int] == ct_value(orig[i as int]));
        }
        let r = settle_one(&xs[i], left, server_key);
        proof {
            assert(ct_value(r) == min_of(v[i as int], sub_floor(vol, total(g.take(i as int)))));
        }
        xs.set(i, r);
    }
    proof {
        let after = ct_values(xs@).take(count as int);
        assert forall|j: int| 0 <= j < count implies #[trigger] after[j] == g[j] by {
            assert(ct_values(xs@)[j] == ct_value(xs@[j]));
        }
        assert(after =~= g);
    }
}

/// Settles both sides at once.
///
/// Calls `rayon::join` with two closures, each of which calls `settle_orders`
/// on one side; `join` runs both.
#[verifier::external_body]
fn join_settle_orders(
    s: &mut Vec<Ciphertext>,
    left_s: &mut Ciphertext,
    b: &mut Vec<Ciphertext>,
    left_b: &mut Ciphertext,
    count: usize,
    server_key: &FheServerKey,
)
    requires
        radix_blocks(*old(left_s)).len() > 0,
        volume_ok(*old(left_s), radix_blocks(*old(left_s)).len()),
        ct_value(*old(left_s)) < pow4(radix_blocks(*old(left_s)).len()),
        keyed(*old(left_s), server_key.id()),
        operands_upto(old(s)@, count as nat, radix_blocks(*old(left_s)).len(), server_key.id()),
        radix_blocks(*old(left_b)).len() > 0,
        volume_ok(*old(left_b), radix_blocks(*old(left_b)).len()),
        ct_value(*old(left_b)) < pow4(radix_blocks(*old(left_b)).len()),
        keyed(*old(left_b), server_key.id()),
        operands_upto(old(b)@, count as nat, radix_blocks(*old(left_b)).len(), server_key.id()),
    ensures
        settle_post(
            old(s)@,
            final(s)@,
            count as nat,
            ct_value(*old(left_s)),
            radix_blocks(*old(left_s)).len(),
            server_key.id(),
        ),
        settle_post(
            old(b)@,
            final(b)@,
            count as nat,
            ct_value(*old(left_b)),
            radix_blocks(*old(left_b)).len(),
            server_key.id(),
        ),
{
    rayon::join(
        || settle_orders(s, left_s, count, server_key),
        || settle_orders(b, left_b, count, server_key),
    );
}

/// What matching the first `count` orders of both sides on `n`-block integers
/// leaves of one side.
pub open spec fn matched_in_order(
    s_before: Seq<Ciphertext>,
    b_before: Seq<Ciphertext>,
    before: Seq<Ciphertext>,
    after: Seq<Ciphertext>,
    count: nat,
    n: nat,
    id: int,
) -> bool {
    settle_post(
        before,
        after,
        count,
        traded_volume(
            ct_values(s_before).take(count as int),
            ct_values(b_before).take(count as int),
            pow4(n),
        ),
        n,
        id,
    )
}

/// Matches the first `MAXLISTLENGTH` sell orders of `s` with the first
/// `MAXLISTLENGTH` buy orders of `b`, all encrypted on `2 * num_block` blocks:
/// the traded volume is the smaller of the two totals, and on each side the
/// orders are settled in list order against it.
pub fn volume_match(
    s: &mut Vec<Ciphertext>,
    b: &mut Vec<Ciphertext>,
    server_key: &FheServerKey,
    num_block: usize,
)
    requires
        0 < num_block <= usize::MAX / 2,
        operands_upto(old(s)@, MAXLISTLENGTH as nat, 2 * num_block as nat, server_key.id()),
        operands_upto(old(b)@, MAXLISTLENGTH as nat, 2 * num_block as nat, server_key.id()),
    ensures
        matched_in_order(
            old(s)@,
            old(b)@,
            old(s)@,
            final(s)@,
            MAXLISTLENGTH as nat,
            2 * num_block as nat,
            server_key.id(),
        ),
        matched_in_order(
            old(s)@,
            old(b)@,
            old(b)@,
            final(b)@,
            MAXLISTLENGTH as nat,
            2 * num_block as nat,
            server_key.id(),
        ),
{
    let ghost n = 2 * num_block as nat;
    let ghost m = pow4(n);
    let mut big_s = trivial_zero(server_key, num_block * 2);
    let mut big_b = trivial_zero(server_key, num_block * 2);
    proof {
        crate::radix::lemma_pow4_positive(n);
        crate::radix::lemma_zero_value(n);
        let z = radix_blocks(big_s);
        assert forall|i: int| 0 <= i < z.len() implies (#[trigger] z[i]).0 <= z[i].1 && z[i].0
            <= 15 by {}
        assert forall|i: int| 0 <= i < z.len() implies (#[trigger] z[i]).1 <= 11 by {}
        assert(accumulator(big_b, n));
    }
    join_sum_orders(s, &mut big_s, b, &mut big_b, MAXLISTLENGTH, server_key);
    proof {
        lemma_accumulator_propagatable(big_s, n);
        lemma_accumulator_propagatable(big_b, n);
    }
    let ghost sb = radix_blocks(big_s);
    let ghost bb = radix_blocks(big_b);
    big_s = smart_min(server_key, &mut big_s, &mut big_b);
    let mut big_b = ct_clone(&big_s);
    proof {
        crate::fhe::lemma_smart_operand(sb);
        crate::fhe::lemma_smart_operand(bb);
        lemma_settled_propagatable(big_s, n);
        let sv = ct_values(s@).take(MAXLISTLENGTH as int);
        let bv = ct_values(b@).take(MAXLISTLENGTH as int);
        assert(ct_values(s@).take(MAXLISTLENGTH as int) =~= ct_values(s@).take(10));
        assert(prefix_total(ct_values(s@), 10) == total(sv));
        assert(prefix_total(ct_values(b@), 10) == total(bv));
        assert(ct_value(big_s) == traded_volume(sv, bv, m));
    }
    join_settle_orders(s, &mut big_s, b, &mut big_b, MAXLISTLENGTH, server_key);
}

/// What a run leaves of the plain orders: of the first `k` sell orders and
/// the first `k` buy orders (`k` the number of sell orders), the first
/// `MAXLISTLENGTH` replaced by their matched volumes and the others reduced to
/// `n`-block integers.
pub open spec fn run_post(
    s_before: Seq<u64>,
    b_before: Seq<u64>,
    s_after: Seq<u64>,
    b_after: Seq<u64>,
    n: nat,
) -> bool {
    let m = pow4(n);
    let k = s_before.len() as int;
    let c = MAXLISTLENGTH as int;
    let sv = entries_mod(s_before, m);
    let bv = entries_mod(b_before.take(k), m);
    let vol = traded_volume(sv.take(c), bv.take(c), m);
    &&& s_after.len() == s_before.len()
    &&& b_after.len() == b_before.len()
    &&& as_nats(s_after) == greedy_fill(sv.take(c), vol) + sv.skip(c)
    &&& as_nats(b_after.take(k)) == greedy_fill(bv.take(c), vol) + bv.skip(c)
    &&& b_after.skip(k) == b_before.skip(k)
}

/// The results of a side are at most the plain orders they came from.
proof fn lemma_side_within(clear: Seq<u64>, k: nat, vol: nat, m: nat)
    requires
        m > 0,
        MAXLISTLENGTH <= k <= clear.len(),
    ensures
        forall|i: int|
            0 <= i < k ==> #[trigger] (greedy_fill(
                entries_mod(clear.take(k as int), m).take(MAXLISTLENGTH as int),
                vol,
            ) + entries_mod(clear.take(k as int), m).skip(MAXLISTLENGTH as int))[i] <= clear[i],
{
    let c = MAXLISTLENGTH as int;
    let ev = entries_mod(clear.take(k as int), m);
    crate::full_paral::lemma_entries_mod(clear.take(k as int), m);
    crate::matching::lemma_greedy_len(ev.take(c), vol);
    assert forall|i: int| 0 <= i < k implies #[trigger] (greedy_fill(ev.take(c), vol) + ev.skip(
        c,
    ))[i] <= clear[i] by {
        assert(clear.take(k as int)[i] == clear[i]);
        vstd::arithmetic::div_mod::lemma_mod_decreases(clear[i] as nat, m);
        if i < c {
            crate::matching::law_greedy_fill_within_orders(ev.take(c), vol, i);
        }
    }
}

proof fn lemma_side_values(
    before: Seq<Ciphertext>,
    after: Seq<Ciphertext>,
    clear: Seq<u64>,
    k: nat,
    vol: nat,
    n: nat,
    id: int,
)
    requires
        k <= clear.len(),
        MAXLISTLENGTH <= k,
        before.len() == k,
        ct_values(before) == entries_mod(clear.take(k as int), pow4(n)),
        settle_post(before, after, MAXLISTLENGTH as nat, vol, n, id),
    ensures
        ct_values(after) == greedy_fill(
            entries_mod(clear.take(k as int), pow4(n)).take(MAXLISTLENGTH as int),
            vol,
        ) + entries_mod(clear.take(k as int), pow4(n)).skip(MAXLISTLENGTH as int),
{
    let c = MAXLISTLENGTH as int;
    let ev = entries_mod(clear.take(k as int), pow4(n));
    let g = greedy_fill(ev.take(c), vol);
    crate::matching::lemma_greedy_len(ev.take(c), vol);
    assert(ct_values(before).take(c) == ev.take(c));
    assert forall|i: int| 0 <= i < k implies #[trigger] ct_values(after)[i] == (g + ev.skip(c))[i] by {
        if i < c {
            assert(ct_values(after).take(c)[i] == ct_values(after)[i]);
        } else {
            assert(after[i] == before[i]);
            assert(ct_values(before)[i] == ev[i]);
        }
    }
    assert(ct_values(after) =~= g + ev.skip(c));
}

/// Generates keys for `2 * num_block`-block integers, encrypts the sell orders
/// `s_clear` and as many buy orders `b_clear`, matches the first
/// `MAXLISTLENGTH` of each side in list order, and writes the results back in
/// place.
pub fn run(s_clear: &mut Vec<u64>, b_clear: &mut Vec<u64>, num_block: usize)
    requires
        0 < num_block <= usize::MAX / 2,
        old(s_clear).len() >= MAXLISTLENGTH,
        old(b_clear).len() >= old(s_clear).len(),
    ensures
        run_post(
            old(s_clear)@,
            old(b_clear)@,
            final(s_clear)@,
            final(b_clear)@,
            2 * num_block as nat,
        ),
{
    let (client_key, server_key) = generate_keys(num_block * 2);
    let ghost n = 2 * num_block as nat;
    let count = s_clear.len();
    let mut s = encrypt_all(&client_key, s_clear, count);
    let mut b = encrypt_all(&client_key, b_clear, count);
    let ghost s0 = s@;
    let ghost b0 = b@;
    proof {
        assert(operands_upto(s0, MAXLISTLENGTH as nat, n, server_key.id())) by {
            assert forall|i: int| 0 <= i < MAXLISTLENGTH implies operand(#[trigger] s0[i], n)
                && keyed(s0[i], server_key.id()) by {
                assert(crate::full_paral::operands(s0, n));
            }
        }
        assert(operands_upto(b0, MAXLISTLENGTH as nat, n, server_key.id())) by {
            assert forall|i: int| 0 <= i < MAXLISTLENGTH implies operand(#[trigger] b0[i], n)
                && keyed(b0[i], server_key.id()) by {
                assert(crate::full_paral::operands(b0, n));
            }
        }
    }
    volume_match(&mut s, &mut b, &server_key, num_block);
    proof {
        let m = pow4(n);
        let vol = traded_volume(
            ct_values(s0).take(MAXLISTLENGTH as int),
            ct_values(b0).take(MAXLISTLENGTH as int),
            m,
        );
        lemma_side_values(s0, s@, old(s_clear)@, count as nat, vol, n, server_key.id());
        lemma_side_values(b0, b@, old(b_clear)@, count as nat, vol, n, server_key.id());
        assert forall|i: int| 0 <= i < s@.len() implies settled(#[trigger] s@[i], n) && keyed(
            s@[i],
            server_key.id(),
        ) by {
            if i < MAXLISTLENGTH {
                lemma_propagated_facts(s@[i], n);
            } else {
                assert(s@[i] == s0[i]);
                assert(crate::full_paral::operands(s0, n));
                lemma_operand_facts(s0[i], n);
            }
        }
        assert forall|i: int| 0 <= i < b@.len() implies settled(#[trigger] b@[i], n) && keyed(
            b@[i],
            server_key.id(),
        ) by {
            if i < MAXLISTLENGTH {
                lemma_propagated_facts(b@[i], n);
            } else {
                assert(b@[i] == b0[i]);
                assert(crate::full_paral::operands(b0, n));
                lemma_operand_facts(b0[i], n);
            }
        }
    }
    let ghost s1 = s@;
    let ghost b1 = b@;
    decrypt_all(&client_key, &s, s_clear);
    decrypt_all(&client_key, &b, b_clear);
    proof {
        let m = pow4(n);
        crate::radix::lemma_pow4_positive(n);
        let vol = traded_volume(
            ct_values(s0).take(MAXLISTLENGTH as int),
            ct_values(b0).take(MAXLISTLENGTH as int),
            m,
        );
        lemma_side_within(old(s_clear)@, count as nat, vol, m);
        lemma_side_within(old(b_clear)@, count as nat, vol, m);
        let sfill = greedy_fill(
            entries_mod(old(s_clear)@.take(count as int), m).take(MAXLISTLENGTH as int),
            vol,
        ) + entries_mod(old(s_clear)@.take(count as int), m).skip(MAXLISTLENGTH as int);
        let bfill = greedy_fill(
            entries_mod(old(b_clear)@.take(count as int), m).take(MAXLISTLENGTH as int),
            vol,
        ) + entries_mod(old(b_clear)@.take(count as int), m).skip(MAXLISTLENGTH as int);
        crate::full_paral::lemma_side_decrypted(old(s_clear)@, s1, sfill, s_clear@, n);
        crate::full_paral::lemma_side_decrypted(old(b_clear)@, b1, bfill, b_clear@, n);
        assert(s_clear@.take(count as int) =~= s_clear@);
        assert(old(s_clear)@.take(count as int) =~= old(s_clear)@);
    }
}

} // verus!
