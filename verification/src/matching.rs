//! What volume matching computes, on plain values. Sellers offer the volumes
//! `s`, buyers ask for the volumes `b`; the traded volume is the smaller of the
//! two totals, and each side's orders are served in list order until the
//! traded volume is used up. All arithmetic is that of `n`-block integers,
//! modulo `4^n`.
use vstd::prelude::*;

verus! {

/// The sum of a sequence of naturals.
pub open spec fn total(xs: Seq<nat>) -> nat
    decreases xs.len(),
{
    if xs.len() == 0 {
        0
    } else {
        total(xs.drop_last()) + xs.last()
    }
}

/// The sum of the first `i` entries.
pub open spec fn prefix_total(xs: Seq<nat>, i: int) -> nat {
    total(xs.take(i))
}

/// The smaller of two naturals.
pub open spec fn min_of(a: nat, b: nat) -> nat {
    if a <= b {
        a
    } else {
        b
    }
}

/// `a - b`, or 0 when `b` is larger.
pub open spec fn sub_floor(a: nat, b: nat) -> nat {
    if b <= a {
        (a - b) as nat
    } else {
        0
    }
}

/// The traded volume: the smaller of the two totals, each taken modulo `m`.
pub open spec fn traded_volume(s: Seq<nat>, b: Seq<nat>, m: nat) -> nat {
    min_of(total(s) % m, total(b) % m)
}

/// Orders filled from prefix sums: order `i` gets what is left of `vol` after the
/// orders before it, the prefix sum taken modulo `m`, and at most what it asks.
pub open spec fn prefix_fill(xs: Seq<nat>, vol: nat, m: nat) -> Seq<nat> {
    Seq::new(
        xs.len(),
        |i: int| min_of(xs[i], sub_floor(vol, min_of(vol, prefix_total(xs, i) % m))),
    )
}

/// Orders filled one after the other: order `i` gets the smaller of what it
/// asks and what is left of `vol` after the fills before it.
pub open spec fn greedy_fill(xs: Seq<nat>, vol: nat) -> Seq<nat>
    decreases xs.len(),
{
    if xs.len() == 0 {
        Seq::empty()
    } else {
        let before = greedy_fill(xs.drop_last(), vol);
        before.push(min_of(xs.last(), sub_floor(vol, total(before))))
    }
}

// ----------------------------------------------------------------------------
// Lemmas
// ----------------------------------------------------------------------------

pub proof fn lemma_total_push(xs: Seq<nat>, x: nat)
    ensures
        total(xs.push(x)) == total(xs) + x,
{
    assert(xs.push(x).drop_last() =~= xs);
}

pub proof fn lemma_prefix_step(xs: Seq<nat>, i: int)
    requires
        0 <= i < xs.len(),
    ensures
        prefix_total(xs, i + 1) == prefix_total(xs, i) + xs[i],
{
    assert(xs.take(i + 1) =~= xs.take(i).push(xs[i]));
    lemma_total_push(xs.take(i), xs[i]);
}

pub proof fn lemma_prefix_full(xs: Seq<nat>)
    ensures
        prefix_total(xs, xs.len() as int) == total(xs),
{
    assert(xs.take(xs.len() as int) =~= xs);
}

pub proof fn lemma_greedy_len(xs: Seq<nat>, vol: nat)
    ensures
        greedy_fill(xs, vol).len() == xs.len(),
    decreases xs.len(),
{
    if xs.len() > 0 {
        lemma_greedy_len(xs.drop_last(), vol);
    }
}

/// The fills so far never exceed the volume.
pub proof fn lemma_greedy_total(xs: Seq<nat>, vol: nat)
    ensures
        total(greedy_fill(xs, vol)) <= vol,
        total(greedy_fill(xs, vol)) == min_of(total(xs), vol),
    decreases xs.len(),
{
    if xs.len() > 0 {
        let before = greedy_fill(xs.drop_last(), vol);
        lemma_greedy_total(xs.drop_last(), vol);
        lemma_total_push(before, min_of(xs.last(), sub_floor(vol, total(before))));
        assert(total(xs) == total(xs.drop_last()) + xs.last());
    }
}

/// Extending the orders by one extends the greedy fills by one.
pub proof fn lemma_greedy_take(xs: Seq<nat>, vol: nat, i: int)
    requires
        0 <= i < xs.len(),
    ensures
        greedy_fill(xs.take(i + 1), vol) == greedy_fill(xs.take(i), vol).push(
            min_of(xs[i], sub_floor(vol, total(greedy_fill(xs.take(i), vol)))),
        ),
{
    assert(xs.take(i + 1).drop_last() =~= xs.take(i));
}

/// Every fill is a prefix of the later ones.
pub proof fn lemma_greedy_prefix(xs: Seq<nat>, vol: nat, i: int)
    requires
        0 <= i <= xs.len(),
    ensures
        greedy_fill(xs.take(i), vol) == greedy_fill(xs, vol).take(i),
    decreases xs.len() - i,
{
    lemma_greedy_len(xs, vol);
    if i == xs.len() {
        assert(xs.take(i) =~= xs);
        assert(greedy_fill(xs, vol).take(i) =~= greedy_fill(xs, vol));
    } else {
        lemma_greedy_prefix(xs, vol, i + 1);
        lemma_greedy_take(xs, vol, i);
        lemma_greedy_len(xs.take(i), vol);
        assert(greedy_fill(xs.take(i + 1), vol).take(i) =~= greedy_fill(xs.take(i), vol));
        assert(greedy_fill(xs, vol).take(i + 1).take(i) =~= greedy_fill(xs, vol).take(i));
    }
}

} // verus!

verus! {

// ----------------------------------------------------------------------------
// Laws of volume matching
// ----------------------------------------------------------------------------

/// No order is filled beyond what it asks.
pub proof fn law_greedy_fill_within_orders(xs: Seq<nat>, vol: nat, i: int)
    requires
        0 <= i < xs.len(),
    ensures
        greedy_fill(xs, vol).len() == xs.len(),
        greedy_fill(xs, vol)[i] <= xs[i],
{
    lemma_greedy_len(xs, vol);
    lemma_greedy_prefix(xs, vol, i + 1);
    lemma_greedy_take(xs, vol, i);
    lemma_greedy_len(xs.take(i), vol);
    assert(greedy_fill(xs, vol).take(i + 1)[i] == greedy_fill(xs, vol)[i]);
}

/// The fills of a side add up to the smaller of what the side asks and the
/// volume handed out.
pub proof fn law_greedy_fill_total(xs: Seq<nat>, vol: nat)
    ensures
        total(greedy_fill(xs, vol)) == min_of(total(xs), vol),
{
    lemma_greedy_total(xs, vol);
}

/// The market clears: when no total wraps around the modulus, the sell
/// orders and the buy orders are each filled with exactly the traded volume,
/// which is no more than either side asks.
pub proof fn law_market_clears(s: Seq<nat>, b: Seq<nat>, m: nat)
    requires
        total(s) < m,
        total(b) < m,
    ensures
        traded_volume(s, b, m) <= total(s),
        traded_volume(s, b, m) <= total(b),
        total(greedy_fill(s, traded_volume(s, b, m))) == traded_volume(s, b, m),
        total(greedy_fill(b, traded_volume(s, b, m))) == traded_volume(s, b, m),
{
    vstd::arithmetic::div_mod::lemma_small_mod(total(s), m);
    vstd::arithmetic::div_mod::lemma_small_mod(total(b), m);
    lemma_greedy_total(s, traded_volume(s, b, m));
    lemma_greedy_total(b, traded_volume(s, b, m));
}

/// Orders are served in list order: once an order is filled short of what it
/// asks, every later order of the same side gets nothing.
pub proof fn law_greedy_fill_in_order(xs: Seq<nat>, vol: nat, i: int, j: int)
    requires
        0 <= i < j < xs.len(),
        greedy_fill(xs, vol)[i] < xs[i],
    ensures
        greedy_fill(xs, vol)[j] == 0,
{
    lemma_greedy_len(xs, vol);
    let g = greedy_fill(xs, vol);
    // the fill of `i` used up the volume
    lemma_greedy_prefix(xs, vol, i + 1);
    lemma_greedy_take(xs, vol, i);
    lemma_greedy_len(xs.take(i), vol);
    lemma_greedy_total(xs.take(i), vol);
    assert(g.take(i + 1)[i] == g[i]);
    lemma_greedy_total(xs.take(i + 1), vol);
    lemma_total_push(
        greedy_fill(xs.take(i), vol),
        min_of(xs[i], sub_floor(vol, total(greedy_fill(xs.take(i), vol)))),
    );
    assert(total(greedy_fill(xs.take(i + 1), vol)) == vol);
    // fills only grow, so nothing is left for `j`
    lemma_greedy_prefix(xs, vol, j);
    lemma_greedy_take(xs, vol, j);
    lemma_greedy_len(xs.take(j), vol);
    lemma_greedy_total(xs.take(j), vol);
    lemma_greedy_prefix(xs, vol, j + 1);
    assert(g.take(j + 1)[j] == g[j]);
    lemma_prefix_monotone(xs, i + 1, j);
    assert(prefix_total(xs, i + 1) <= prefix_total(xs, j));
    assert(total(greedy_fill(xs.take(i + 1), vol)) == min_of(total(xs.take(i + 1)), vol));
    assert(total(greedy_fill(xs.take(j), vol)) == min_of(total(xs.take(j)), vol));
}

/// Prefix sums only grow.
pub proof fn lemma_prefix_monotone(xs: Seq<nat>, i: int, j: int)
    requires
        0 <= i <= j <= xs.len(),
    ensures
        prefix_total(xs, i) <= prefix_total(xs, j),
    decreases j - i,
{
    if i < j {
        lemma_prefix_monotone(xs, i, j - 1);
        lemma_prefix_step(xs, j - 1);
    }
}

/// Filling from prefix sums gives what filling the orders one after the other
/// gives, as long as the total of the side does not wrap around the modulus:
/// the parallel and the sequential matching agree.
pub proof fn law_prefix_fill_is_greedy(xs: Seq<nat>, vol: nat, m: nat)
    requires
        total(xs) < m,
    ensures
        prefix_fill(xs, vol, m) == greedy_fill(xs, vol),
{
    lemma_greedy_len(xs, vol);
    assert forall|i: int| 0 <= i < xs.len() implies #[trigger] prefix_fill(xs, vol, m)[i]
        == greedy_fill(xs, vol)[i] by {
        lemma_prefix_monotone(xs, i, xs.len() as int);
        lemma_prefix_full(xs);
        vstd::arithmetic::div_mod::lemma_small_mod(prefix_total(xs, i), m);
        lemma_greedy_prefix(xs, vol, i + 1);
        lemma_greedy_take(xs, vol, i);
        lemma_greedy_len(xs.take(i), vol);
        lemma_greedy_total(xs.take(i), vol);
        assert(greedy_fill(xs, vol).take(i + 1)[i] == greedy_fill(xs, vol)[i]);
    }
    assert(prefix_fill(xs, vol, m) =~= greedy_fill(xs, vol));
}

/// One step of the greedy fill: order `i` gets the smaller of what it asks and
/// what the fills before it left of the volume.
pub proof fn lemma_greedy_step(v: Seq<nat>, vol: nat, i: int)
    requires
        0 <= i < v.len(),
    ensures
        greedy_fill(v, vol).len() == v.len(),
        greedy_fill(v, vol)[i] == min_of(v[i], sub_floor(vol, total(greedy_fill(v, vol).take(i)))),
        total(greedy_fill(v, vol).take(i + 1)) == total(greedy_fill(v, vol).take(i)) + greedy_fill(
            v,
            vol,
        )[i],
        total(greedy_fill(v, vol).take(i)) <= vol || sub_floor(
            vol,
            total(greedy_fill(v, vol).take(i)),
        ) == 0,
{
    let g = greedy_fill(v, vol);
    lemma_greedy_len(v, vol);
    lemma_greedy_prefix(v, vol, i);
    lemma_greedy_prefix(v, vol, i + 1);
    lemma_greedy_take(v, vol, i);
    lemma_greedy_len(v.take(i), vol);
    assert(g.take(i + 1)[i] == g[i]);
    lemma_prefix_step(g, i);
}

/// A side that asks for no more than the volume is filled in full.
pub proof fn lemma_greedy_fill_fits(xs: Seq<nat>, vol: nat)
    requires
        total(xs) <= vol,
    ensures
        greedy_fill(xs, vol) == xs,
    decreases xs.len(),
{
    if xs.len() > 0 {
        let before = xs.drop_last();
        assert(total(xs) == total(before) + xs.last());
        lemma_greedy_fill_fits(before, vol);
        assert(greedy_fill(xs, vol) =~= before.push(xs.last()));
        assert(before.push(xs.last()) =~= xs);
    }
}

/// Matching a matched book changes nothing: when no total wraps around the
/// modulus, the matched sides trade the same volume again, and each is filled
/// in full, whether one order after the other or from prefix sums.
pub proof fn law_matching_idempotent(s: Seq<nat>, b: Seq<nat>, m: nat)
    requires
        total(s) < m,
        total(b) < m,
    ensures
        ({
            let vol = traded_volume(s, b, m);
            let s1 = greedy_fill(s, vol);
            let b1 = greedy_fill(b, vol);
            &&& traded_volume(s1, b1, m) == vol
            &&& greedy_fill(s1, vol) == s1
            &&& greedy_fill(b1, vol) == b1
            &&& prefix_fill(s1, vol, m) == s1
            &&& prefix_fill(b1, vol, m) == b1
        }),
{
    let vol = traded_volume(s, b, m);
    let s1 = greedy_fill(s, vol);
    let b1 = greedy_fill(b, vol);
    law_market_clears(s, b, m);
    vstd::arithmetic::div_mod::lemma_small_mod(vol, m);
    lemma_greedy_fill_fits(s1, vol);
    lemma_greedy_fill_fits(b1, vol);
    law_prefix_fill_is_greedy(s1, vol, m);
    law_prefix_fill_is_greedy(b1, vol, m);
}

} // verus!
