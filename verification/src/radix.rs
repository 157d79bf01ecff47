//! The model of a radix ciphertext: what each block holds, and the integer
//! that the blocks stand for. Blocks carry 2 bits of message and 2 bits of
//! carry, so a block holds a plain value below 16 and the base is 4.
use vstd::prelude::*;

verus! {

/// A block of a radix ciphertext as the model sees it: the plain value the
/// block holds (message and carry together) and its degree, the upper bound
/// on that value which tfhe keeps beside the ciphertext.
pub type RadixBlock = (nat, nat);

/// `4^n`, the modulus of an `n`-block radix integer.
pub open spec fn pow4(n: nat) -> nat
    decreases n,
{
    if n == 0 {
        1
    } else {
        4 * pow4((n - 1) as nat)
    }
}

/// The integer the blocks stand for, least significant block first, carries included.
pub open spec fn blocks_value(bs: Seq<RadixBlock>) -> nat
    decreases bs.len(),
{
    if bs.len() == 0 {
        0
    } else {
        bs[0].0 + 4 * blocks_value(bs.drop_first())
    }
}

/// The modulus of a radix integer with the blocks `bs`.
pub open spec fn modulus_of(bs: Seq<RadixBlock>) -> nat {
    pow4(bs.len())
}

/// Every block holds at most what its degree allows, and no block holds more
/// than fits below the padding bit.
pub open spec fn well_formed(bs: Seq<RadixBlock>) -> bool {
    forall|i: int| 0 <= i < bs.len() ==> (#[trigger] bs[i]).0 <= bs[i].1 && bs[i].0 <= 15
}

/// The carry that a propagation from the least significant block hands to
/// block `i`: a quarter of what block `i - 1` holds once its own carry is in.
pub open spec fn carry_in(bs: Seq<RadixBlock>, i: nat) -> nat
    decreases i,
{
    if i == 0 {
        0
    } else {
        ((bs[i - 1].0 + carry_in(bs, (i - 1) as nat)) / 4) as nat
    }
}

/// Every block, with the carry it receives during a propagation from the least
/// significant block, stays below 16: the condition under which a carry
/// propagation is exact.
#[verifier::opaque]
pub open spec fn carry_room(bs: Seq<RadixBlock>) -> bool {
    forall|i: int| 0 <= i < bs.len() ==> (#[trigger] bs[i]).0 + carry_in(bs, i as nat) <= 15
}

/// Well formed, and carries can be propagated exactly.
pub open spec fn propagatable(bs: Seq<RadixBlock>) -> bool {
    well_formed(bs) && carry_room(bs)
}

/// Every block holds a message only, and its degree says so.
pub open spec fn clean(bs: Seq<RadixBlock>) -> bool {
    forall|i: int| 0 <= i < bs.len() ==> (#[trigger] bs[i]).0 <= bs[i].1 && bs[i].1 <= 3
}

/// Some block has a degree of 4 or more: tfhe counts it as holding a carry.
pub open spec fn has_carry_degree(bs: Seq<RadixBlock>) -> bool {
    exists|i: int| 0 <= i < bs.len() && (#[trigger] bs[i]).1 >= 4
}

/// Every block holds a message only (its degree may say more).
pub open spec fn no_carries(bs: Seq<RadixBlock>) -> bool {
    forall|i: int| 0 <= i < bs.len() ==> (#[trigger] bs[i]).0 < 4
}

/// The degree of every block stays within `d`.
pub open spec fn degrees_within(bs: Seq<RadixBlock>, d: nat) -> bool {
    forall|i: int| 0 <= i < bs.len() ==> (#[trigger] bs[i]).1 <= d
}

/// The `i`-th base-4 digit of `v`.
pub open spec fn digit(v: nat, i: nat) -> nat {
    (v / pow4(i)) % 4
}

/// The base-4 digits of `v` on `n` blocks, each with the degree of a full
/// message: what a fresh encryption of `v`, or a carry propagation of an
/// integer standing for `v`, leaves.
pub open spec fn digit_blocks(v: nat, n: nat) -> Seq<RadixBlock> {
    Seq::new(n, |i: int| (digit(v, i as nat), 3nat))
}

/// The blocks of a trivial zero on `n` blocks.
pub open spec fn zero_blocks(n: nat) -> Seq<RadixBlock> {
    Seq::new(n, |i: int| (0nat, 0nat))
}

/// `d` rounded up to a multiple of 4.
pub open spec fn round_up4(d: nat) -> nat {
    ((d + 3) / 4) * 4
}

/// The correcting term that the negation of the radix integer `bs` adds to
/// block `i`: the degree of block `i` plus what the previous block handed on,
/// rounded up to a multiple of the base.
pub open spec fn neg_term(bs: Seq<RadixBlock>, i: nat) -> nat
    decreases i,
{
    let carried: nat = if i == 0 {
        0
    } else {
        neg_term(bs, (i - 1) as nat) / 4
    };
    round_up4(bs[i as int].1 + carried)
}

// ----------------------------------------------------------------------------
// Lemmas on the model
// ----------------------------------------------------------------------------

pub proof fn lemma_pow4_positive(n: nat)
    ensures
        pow4(n) >= 1,
    decreases n,
{
    if n > 0 {
        lemma_pow4_positive((n - 1) as nat);
    }
}

pub proof fn lemma_pow4_add(a: nat, b: nat)
    ensures
        pow4(a + b) == pow4(a) * pow4(b),
    decreases a,
{
    if a == 0 {
        assert(pow4(0) == 1);
        assert(a + b == b);
    } else {
        lemma_pow4_add((a - 1) as nat, b);
        assert(pow4(a) == 4 * pow4((a - 1) as nat));
        assert((a + b - 1) as nat == (a - 1 + b) as nat);
        assert(pow4(a + b) == 4 * pow4((a - 1 + b) as nat));
        assert(4 * (pow4((a - 1) as nat) * pow4(b)) == (4 * pow4((a - 1) as nat)) * pow4(b))
            by (nonlinear_arith);
    }
}

pub proof fn lemma_pow4_monotone(a: nat, b: nat)
    requires
        a <= b,
    ensures
        pow4(a) <= pow4(b),
    decreases b,
{
    if a < b {
        lemma_pow4_monotone(a, (b - 1) as nat);
        lemma_pow4_positive((b - 1) as nat);
    }
}

/// `4^32 = 2^64`.
pub proof fn lemma_pow4_32()
    ensures
        pow4(32) == 0x1_0000_0000_0000_0000nat,
{
    reveal_with_fuel(pow4, 33);
}

/// When no block holds more than 15 and no block but the first more than 12,
/// every carry of a propagation is at most 3.
pub proof fn lemma_carry_in_small(bs: Seq<RadixBlock>, i: nat)
    requires
        i <= bs.len(),
        forall|j: int| 0 <= j < bs.len() ==> (#[trigger] bs[j]).0 <= 15,
        forall|j: int| 1 <= j < bs.len() ==> (#[trigger] bs[j]).0 <= 12,
    ensures
        carry_in(bs, i) <= 3,
    decreases i,
{
    if i > 0 {
        lemma_carry_in_small(bs, (i - 1) as nat);
        assert(bs[i - 1].0 <= 15);
        if i - 1 >= 1 {
            assert(bs[i - 1].0 <= 12);
        }
    }
}

/// Well formed blocks of which none but the first holds more than 12 can be
/// propagated exactly.
pub proof fn lemma_propagatable_bounded(bs: Seq<RadixBlock>)
    requires
        well_formed(bs),
        forall|j: int| 1 <= j < bs.len() ==> (#[trigger] bs[j]).0 <= 12,
    ensures
        propagatable(bs),
{
    reveal(carry_room);
    assert forall|i: int| 0 <= i < bs.len() implies (#[trigger] bs[i]).0 + carry_in(bs, i as nat)
        <= 15 by {
        lemma_carry_in_small(bs, i as nat);
        if i == 0 {
            assert(carry_in(bs, 0) == 0);
        } else {
            assert(bs[i].0 <= 12);
        }
    }
}

/// Well formed blocks that hold messages only can be propagated exactly.
pub proof fn lemma_no_carries_propagatable(bs: Seq<RadixBlock>)
    requires
        well_formed(bs),
        no_carries(bs),
    ensures
        propagatable(bs),
{
    assert forall|j: int| 1 <= j < bs.len() implies (#[trigger] bs[j]).0 <= 12 by {
        assert(bs[j].0 < 4);
    }
    lemma_propagatable_bounded(bs);
}

/// Clean blocks are well formed and can be propagated exactly.
pub proof fn lemma_clean_propagatable(bs: Seq<RadixBlock>)
    requires
        clean(bs),
    ensures
        well_formed(bs),
        no_carries(bs),
        propagatable(bs),
{
    assert forall|j: int| 0 <= j < bs.len() implies (#[trigger] bs[j]).0 <= bs[j].1 && bs[j].0
        <= 15 && bs[j].0 < 4 by {
        assert(bs[j].1 <= 3);
    }
    lemma_no_carries_propagatable(bs);
}

/// A propagation reads the blocks from the least significant: the carry into
/// block `i` depends on the blocks below it only.
pub proof fn lemma_carry_in_prefix(bs: Seq<RadixBlock>, ext: Seq<RadixBlock>, i: nat)
    requires
        i <= bs.len(),
        bs.len() <= ext.len(),
        forall|j: int| 0 <= j < bs.len() ==> #[trigger] ext[j] == bs[j],
    ensures
        carry_in(ext, i) == carry_in(bs, i),
    decreases i,
{
    if i > 0 {
        lemma_carry_in_prefix(bs, ext, (i - 1) as nat);
        assert(ext[i - 1] == bs[i - 1]);
    }
}

/// Appending trivial zeros keeps an integer propagatable: the blocks below
/// carry as before, and a zero block takes a carry of at most 3.
pub proof fn lemma_propagatable_append_zeros(bs: Seq<RadixBlock>, n: nat)
    requires
        propagatable(bs),
    ensures
        propagatable(bs + zero_blocks(n)),
{
    let w = bs + zero_blocks(n);
    reveal(carry_room);
    assert forall|i: int| 0 <= i < w.len() implies (#[trigger] w[i]).0 <= w[i].1 && w[i].0 <= 15 by {
        if i >= bs.len() {
            assert(w[i] == zero_blocks(n)[i - bs.len()]);
        }
    }
    assert forall|i: int| 0 <= i < w.len() implies (#[trigger] w[i]).0 + carry_in(w, i as nat)
        <= 15 by {
        if i < bs.len() {
            lemma_carry_in_prefix(bs, w, i as nat);
            assert(w[i] == bs[i]);
            assert(bs[i].0 + carry_in(bs, i as nat) <= 15);
        } else {
            lemma_carry_in_zeros(bs, n, i as nat);
            assert(w[i] == zero_blocks(n)[i - bs.len()]);
        }
    }
}

/// The carries into the appended zero blocks are at most 3.
proof fn lemma_carry_in_zeros(bs: Seq<RadixBlock>, n: nat, i: nat)
    requires
        propagatable(bs),
        bs.len() <= i <= bs.len() + n,
    ensures
        carry_in(bs + zero_blocks(n), i) <= 3,
    decreases i,
{
    let w = bs + zero_blocks(n);
    reveal(carry_room);
    if i > 0 {
        if i == bs.len() {
            let k = (i - 1) as nat;
            lemma_carry_in_prefix(bs, w, k);
            assert(w[k as int] == bs[k as int]);
            assert(bs[k as int].0 + carry_in(bs, k) <= 15);
        } else {
            lemma_carry_in_zeros(bs, n, (i - 1) as nat);
            assert(w[i - 1] == zero_blocks(n)[i - 1 - bs.len()]);
        }
    }
}

/// Blocks that hold messages only stand for an integer below the modulus.
pub proof fn lemma_value_below_modulus(bs: Seq<RadixBlock>)
    requires
        no_carries(bs),
    ensures
        blocks_value(bs) < modulus_of(bs),
    decreases bs.len(),
{
    if bs.len() > 0 {
        let rest = bs.drop_first();
        assert forall|i: int| 0 <= i < rest.len() implies #[trigger] rest[i].0 < 4 by {
            assert(rest[i] == bs[i + 1]);
        }
        lemma_value_below_modulus(rest);
        assert(bs[0].0 < 4);
        assert(pow4(bs.len()) == 4 * pow4(rest.len()));
    }
}

/// Well-formed blocks stand for at most `5 * (4^n - 1)`.
pub proof fn lemma_value_bound(bs: Seq<RadixBlock>)
    requires
        well_formed(bs),
    ensures
        blocks_value(bs) + 5 <= 5 * modulus_of(bs),
    decreases bs.len(),
{
    if bs.len() == 0 {
        assert(pow4(0) == 1);
    } else {
        let rest = bs.drop_first();
        assert forall|i: int| 0 <= i < rest.len() implies #[trigger] rest[i].0 <= rest[i].1
            && rest[i].0 <= 15 by {
            assert(rest[i] == bs[i + 1]);
        }
        lemma_value_bound(rest);
        assert(bs[0].0 <= 15) by {
            assert(bs[0] == bs[0int]);
        }
        let (b0, vr, p) = (bs[0].0, blocks_value(rest), pow4(rest.len()));
        assert(pow4(bs.len()) == 4 * p);
        assert(b0 + 4 * vr + 5 <= 5 * (4 * p)) by (nonlinear_arith)
            requires
                b0 <= 15,
                vr + 5 <= 5 * p,
        ;
    }
}

/// The value of the trivial zero.
pub proof fn lemma_zero_value(n: nat)
    ensures
        blocks_value(zero_blocks(n)) == 0,
    decreases n,
{
    if n > 0 {
        assert(zero_blocks(n).drop_first() =~= zero_blocks((n - 1) as nat));
        lemma_zero_value((n - 1) as nat);
    }
}

proof fn lemma_digit_shift(v: nat, i: nat)
    ensures
        digit(v, i + 1) == digit(v / 4, i),
{
    lemma_pow4_positive(i);
    assert(pow4(i + 1) == 4 * pow4(i));
    vstd::arithmetic::div_mod::lemma_div_denominator(v as int, 4, pow4(i) as int);
}

/// Digit blocks stand for the integer reduced modulo `4^n`.
pub proof fn lemma_digit_value(v: nat, n: nat)
    ensures
        blocks_value(digit_blocks(v, n)) == v % pow4(n),
    decreases n,
{
    if n == 0 {
    } else {
        let bs = digit_blocks(v, n);
        assert forall|i: int| 0 <= i < n - 1 implies #[trigger] bs.drop_first()[i]
            == digit_blocks(v / 4, (n - 1) as nat)[i] by {
            lemma_digit_shift(v, i as nat);
        }
        assert(bs.drop_first() =~= digit_blocks(v / 4, (n - 1) as nat));
        lemma_digit_value(v / 4, (n - 1) as nat);
        assert(pow4(0) == 1);
        assert(v / 1 == v);
        assert(digit(v, 0) == v % 4);
        lemma_pow4_positive((n - 1) as nat);
        vstd::arithmetic::div_mod::lemma_breakdown(v as int, 4, pow4((n - 1) as nat) as int);
        assert(pow4(n) == 4 * pow4((n - 1) as nat));
    }
}

/// Blocks that each hold a digit, with the degree of a full message, are the
/// digit blocks of the integer they stand for.
pub proof fn lemma_digit_blocks_of(bs: Seq<RadixBlock>)
    requires
        forall|i: int| 0 <= i < bs.len() ==> (#[trigger] bs[i]).1 == 3 && bs[i].0 < 4,
    ensures
        bs == digit_blocks(blocks_value(bs), bs.len()),
    decreases bs.len(),
{
    if bs.len() > 0 {
        let rest = bs.drop_first();
        assert forall|i: int| 0 <= i < rest.len() implies (#[trigger] rest[i]).1 == 3
            && rest[i].0 < 4 by {
            assert(rest[i] == bs[i + 1]);
        }
        lemma_digit_blocks_of(rest);
        let v = blocks_value(bs);
        let rv = blocks_value(rest);
        assert(v == bs[0].0 + 4 * rv);
        vstd::arithmetic::div_mod::lemma_fundamental_div_mod_converse(
            v as int,
            4,
            rv as int,
            bs[0].0 as int,
        );
        assert(pow4(0) == 1);
        assert(v / 1 == v);
        assert forall|i: int| 0 <= i < bs.len() implies #[trigger] bs[i] == digit_blocks(
            v,
            bs.len(),
        )[i] by {
            if i > 0 {
                lemma_digit_shift(v, (i - 1) as nat);
                assert(rest[i - 1] == digit_blocks(rv, rest.len())[i - 1]);
            }
        }
        assert(bs =~= digit_blocks(v, bs.len()));
    }
}

/// Digit blocks are clean.
pub proof fn lemma_digit_clean(v: nat, n: nat)
    ensures
        clean(digit_blocks(v, n)),
        digit_blocks(v, n).len() == n,
{
    assert forall|i: int| 0 <= i < n implies #[trigger] digit_blocks(v, n)[i].0 <= digit_blocks(
        v,
        n,
    )[i].1 && digit_blocks(v, n)[i].1 <= 3 by {
        assert(digit(v, i as nat) < 4);
    }
}

/// Adding blocks position by position adds the integers they stand for.
pub proof fn lemma_value_add(a: Seq<RadixBlock>, b: Seq<RadixBlock>, r: Seq<RadixBlock>)
    requires
        a.len() == b.len(),
        r.len() == a.len(),
        forall|i: int| 0 <= i < a.len() ==> #[trigger] r[i].0 == a[i].0 + b[i].0,
    ensures
        blocks_value(r) == blocks_value(a) + blocks_value(b),
    decreases a.len(),
{
    if a.len() > 0 {
        let (a1, b1, r1) = (a.drop_first(), b.drop_first(), r.drop_first());
        assert forall|i: int| 0 <= i < a1.len() implies #[trigger] r1[i].0 == a1[i].0 + b1[i].0 by {
            assert(r1[i] == r[i + 1] && a1[i] == a[i + 1] && b1[i] == b[i + 1]);
        }
        lemma_value_add(a1, b1, r1);
        assert(r[0].0 == a[0].0 + b[0].0);
    }
}

/// Blocks beyond the first `k` weigh `4^k` times their own value.
pub proof fn lemma_value_split(bs: Seq<RadixBlock>, k: nat)
    requires
        k <= bs.len(),
    ensures
        blocks_value(bs) == blocks_value(bs.subrange(0, k as int)) + pow4(k) * blocks_value(
            bs.subrange(k as int, bs.len() as int),
        ),
    decreases k,
{
    if k == 0 {
        assert(bs.subrange(0, 0).len() == 0);
        assert(blocks_value(bs.subrange(0, 0)) == 0);
        assert(bs.subrange(0, bs.len() as int) =~= bs);
        assert(pow4(0) == 1);
    } else {
        let rest = bs.drop_first();
        lemma_value_split(rest, (k - 1) as nat);
        assert(bs.subrange(0, k as int).drop_first() =~= rest.subrange(0, (k - 1) as int));
        assert(bs.subrange(k as int, bs.len() as int) =~= rest.subrange(
            (k - 1) as int,
            rest.len() as int,
        ));
        assert(bs.subrange(0, k as int)[0] == bs[0]);
        let hi = blocks_value(rest.subrange((k - 1) as int, rest.len() as int));
        assert(pow4(k) * hi == 4 * (pow4((k - 1) as nat) * hi)) by (nonlinear_arith)
            requires
                pow4(k) == 4 * pow4((k - 1) as nat),
        ;
    }
}

/// Reducing modulo `4^n` ignores a multiple of `4^n`.
pub proof fn lemma_mod_add_multiple(x: int, k: int, n: nat)
    requires
        x + k * (pow4(n) as int) >= 0,
    ensures
        (x + k * (pow4(n) as int)) % (pow4(n) as int) == x % (pow4(n) as int),
{
    lemma_pow4_positive(n);
    vstd::arithmetic::div_mod::lemma_mod_multiples_vanish(k, x, pow4(n) as int);
    assert(k * (pow4(n) as int) + x == x + k * (pow4(n) as int));
    assert((pow4(n) as int) * k == k * (pow4(n) as int)) by (nonlinear_arith);
}

/// The correcting terms of a clean radix integer are 0 or 4.
pub proof fn lemma_neg_term_clean(bs: Seq<RadixBlock>, i: nat)
    requires
        i < bs.len(),
        clean(bs),
    ensures
        neg_term(bs, i) <= 4,
        neg_term(bs, i) % 4 == 0,
    decreases i,
{
    if i > 0 {
        lemma_neg_term_clean(bs, (i - 1) as nat);
    }
    let carried: nat = if i == 0 {
        0
    } else {
        neg_term(bs, (i - 1) as nat) / 4
    };
    assert(bs[i as int].1 <= 3);
    assert(carried <= 1);
    let d = bs[i as int].1 + carried;
    assert(d <= 4);
    assert(round_up4(d) == ((d + 3) / 4) * 4);
    assert((d + 3) / 4 <= 1);
}

} // verus!
