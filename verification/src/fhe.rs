//! The radix integers of tfhe that the library computes on, and the calls into
//! tfhe's integer API. Every call stands behind a function whose contract says,
//! over the model of `radix`, what tfhe 0.2.5 does to the blocks.
//!
//! All keys are made with 2-bit message and 2-bit carry blocks
//! (`PARAM_MESSAGE_2_CARRY_2`); the integer server key then lets a block's
//! degree reach 11 before it asks for a carry propagation.
use vstd::prelude::*;
use tfhe::integer::{RadixCiphertextBig, RadixClientKey, ServerKey};
use tfhe::integer::ciphertext::IntegerCiphertext;
use tfhe::shortint::parameters::PARAM_MESSAGE_2_CARRY_2;
use crate::radix::{RadixBlock, neg_term, pow4};

verus! {

#[verifier::external_type_specification]
#[verifier::external_body]
pub struct ExServerKey(ServerKey);

#[verifier::external_type_specification]
#[verifier::external_body]
pub struct ExRadixClientKey(RadixClientKey);

/// An encrypted integer: a radix ciphertext of tfhe, a list of blocks.
#[verifier::external_body]
pub struct Ciphertext {
    ct: RadixCiphertextBig,
}

/// What the blocks of a ciphertext hold, least significant first: for each
/// block, the plain value it encrypts (message and carry) under the key pair
/// `radix_key(ct)`, and the degree that tfhe keeps with it.
pub uninterp spec fn radix_blocks(ct: Ciphertext) -> Seq<(nat, nat)>;

/// The key pair under which the blocks of a ciphertext hold their plain
/// values: that of the key which encrypted it, or of the server key whose
/// lookup tables last refreshed it.
pub uninterp spec fn radix_key(ct: Ciphertext) -> int;

/// The ciphertext is one of the key pair `id`.
pub open spec fn keyed(ct: Ciphertext, id: int) -> bool {
    radix_key(ct) == id
}

/// Every ciphertext of `v` is one of the key pair `id`.
pub open spec fn all_keyed(v: Seq<Ciphertext>, id: int) -> bool {
    forall|i: int| 0 <= i < v.len() ==> keyed(#[trigger] v[i], id)
}

/// The secret key, with the number of blocks of the integers it encrypts.
pub struct FheClientKey {
    key: RadixClientKey,
    num_blocks: usize,
    id: Ghost<int>,
}

impl FheClientKey {
    /// The number of blocks of the integers this key encrypts.
    pub closed spec fn blocks(&self) -> nat {
        self.num_blocks as nat
    }

    /// The key pair this key belongs to.
    pub closed spec fn id(&self) -> int {
        self.id@
    }
}

impl FheServerKey {
    /// The key pair this key belongs to.
    pub closed spec fn id(&self) -> int {
        self.id@
    }
}

/// The server key, made with 2-bit message and 2-bit carry blocks.
pub struct FheServerKey {
    key: ServerKey,
    id: Ghost<int>,
}

/// A new pair of keys for integers of `num_blocks` blocks.
///
/// Calls `tfhe::integer::gen_keys_radix` with `PARAM_MESSAGE_2_CARRY_2`.
/// The keys are random; the contract states the block count and that the two
/// keys belong to one pair.
#[verifier::external_body]
pub fn generate_keys(num_blocks: usize) -> (keys: (FheClientKey, FheServerKey))
    ensures
        keys.0.blocks() == num_blocks,
        keys.0.id() == keys.1.id(),
{
    let (key, sk) = tfhe::integer::gen_keys_radix(&PARAM_MESSAGE_2_CARRY_2, num_blocks);
    let id: Ghost<int> = Ghost(vstd::pervasive::arbitrary());
    (FheClientKey { key, num_blocks, id }, FheServerKey { key: sk, id })
}

/// Encrypts `value` on the key's number of blocks.
///
/// Calls `RadixClientKey::encrypt`: block `i` encrypts the `i`-th base-4 digit
/// of `value`, with degree 3 (a full message). The randomness of the encryption
/// is not visible in the model.
#[verifier::external_body]
pub fn encrypt(ck: &FheClientKey, value: u64) -> (ct: Ciphertext)
    ensures
        radix_key(ct) == ck.id(),
        radix_blocks(ct) == crate::radix::digit_blocks(value as nat, ck.blocks()),
{
    Ciphertext { ct: ck.key.encrypt(value) }
}

/// Decrypts a ciphertext into a `u64`.
///
/// Calls `RadixClientKey::decrypt::<u64>`, which reads the plain values of the
/// first blocks (at most 32, the blocks that fill 64 bits), adds them up
/// weighted by powers of 4, and keeps the part below `4^k`, `k` the number of
/// blocks read. Nothing is stated of ciphertexts of another key pair, nor of
/// ciphertexts whose blocks have overflowed into the padding bit.
#[verifier::external_body]
pub fn decrypt(ck: &FheClientKey, ct: &Ciphertext) -> (v: u64)
    ensures
        keyed(*ct, ck.id()) && crate::radix::well_formed(radix_blocks(*ct)) ==> v as nat
            == crate::radix::blocks_value(radix_blocks(*ct)) % pow4(
            decrypted_blocks(radix_blocks(*ct).len()),
        ),
{
    ck.key.decrypt(&ct.ct)
}

/// The number of blocks that a decryption into a `u64` reads: all of them, up
/// to 32.
pub open spec fn decrypted_blocks(n: nat) -> nat {
    if n <= 32 {
        n
    } else {
        32
    }
}

/// A copy of a ciphertext.
///
/// Calls `Clone::clone` of the radix ciphertext, which copies its blocks.
#[verifier::external_body]
pub fn ct_clone(ct: &Ciphertext) -> (r: Ciphertext)
    ensures
        radix_key(r) == radix_key(*ct),
        radix_blocks(r) == radix_blocks(*ct),
{
    Ciphertext { ct: ct.ct.clone() }
}

/// The number of blocks of a ciphertext.
///
/// Calls `IntegerCiphertext::blocks` and takes the length of the slice.
#[verifier::external_body]
pub fn num_blocks(ct: &Ciphertext) -> (n: usize)
    ensures
        n == radix_blocks(*ct).len(),
{
    ct.ct.blocks().len()
}

/// A trivial encryption of zero on `num_blocks` blocks.
///
/// Calls `ServerKey::create_trivial_zero_radix`: every block holds 0, with
/// degree 0; a trivial encryption decrypts to its message under any key.
#[verifier::external_body]
pub fn trivial_zero(sk: &FheServerKey, num_blocks: usize) -> (r: Ciphertext)
    ensures
        radix_key(r) == sk.id(),
        radix_blocks(r) == crate::radix::zero_blocks(num_blocks as nat),
{
    Ciphertext { ct: sk.key.create_trivial_zero_radix(num_blocks) }
}

/// Whether `a` and `b` can be added without a carry propagation.
///
/// Calls `ServerKey::is_add_possible`: true when, block by block over the
/// shorter of the two, the degrees add up to at most 11.
#[verifier::external_body]
pub fn is_add_possible(sk: &FheServerKey, a: &Ciphertext, b: &Ciphertext) -> (r: bool)
    ensures
        r == (forall|i: int|
            0 <= i < radix_blocks(*a).len() && i < radix_blocks(*b).len() ==> #[trigger] radix_blocks(
                *a,
            )[i].1 + radix_blocks(*b)[i].1 <= 11),
{
    sk.key.is_add_possible(&a.ct, &b.ct)
}

/// Whether `b` can be subtracted from `a` without a carry propagation.
///
/// Calls `ServerKey::is_sub_possible`: true when, block by block over the
/// shorter of the two, the degree of `a` plus the degree of `b` rounded up to a
/// multiple of 4 is at most 11.
#[verifier::external_body]
pub fn is_sub_possible(sk: &FheServerKey, a: &Ciphertext, b: &Ciphertext) -> (r: bool)
    ensures
        r == sub_possible(radix_blocks(*a), radix_blocks(*b)),
{
    sk.key.is_sub_possible(&a.ct, &b.ct)
}

/// Whether `b` can be negated without a carry propagation.
///
/// Calls `ServerKey::is_neg_possible`: true when, for every block, the degree
/// rounded up to a multiple of 4, divided by 3, is at most 11.
#[verifier::external_body]
pub fn is_neg_possible(sk: &FheServerKey, b: &Ciphertext) -> (r: bool)
    ensures
        r == neg_possible(radix_blocks(*b)),
{
    sk.key.is_neg_possible(&b.ct)
}

/// Propagates the carries of `a` from the least to the most significant
/// block, dropping the carry out of the last one.
///
/// Calls `ServerKey::full_propagate_parallelized`. Each block's carry is
/// extracted and added to the next block, and the block keeps its message,
/// with degree 3, one block after the other from the least significant. When
/// every block, with the carry it receives, stays below 16 (`carry_room`), and
/// `a` is of the key pair of `sk`, the blocks afterwards are the base-4 digits
/// of the integer modulo `4^n`; nothing more is stated otherwise.
#[verifier::external_body]
pub fn full_propagate(sk: &FheServerKey, a: &mut Ciphertext)
    ensures
        radix_blocks(*final(a)).len() == radix_blocks(*old(a)).len(),
        keyed(*old(a), sk.id()) ==> keyed(*final(a), sk.id()),
        keyed(*old(a), sk.id()) && crate::radix::propagatable(radix_blocks(*old(a)))
            ==> radix_blocks(*final(a)) == propagated_blocks(radix_blocks(*old(a))),
{
    sk.key.full_propagate_parallelized(&mut a.ct)
}

/// What a carry propagation leaves of the blocks `bs`.
pub open spec fn propagated_blocks(bs: Seq<RadixBlock>) -> Seq<RadixBlock> {
    crate::radix::digit_blocks(crate::radix::blocks_value(bs), bs.len())
}

/// What a smart operation leaves of an operand: the operand carry-propagated
/// when one of its blocks has degree 4 or more, the operand itself otherwise.
pub open spec fn smart_operand(bs: Seq<RadixBlock>) -> Seq<RadixBlock> {
    if crate::radix::has_carry_degree(bs) {
        propagated_blocks(bs)
    } else {
        bs
    }
}

/// Adds `b` to `a` block by block, without propagating carries.
///
/// Calls `ServerKey::unchecked_add`: for the blocks that both have, the
/// degrees add up and, when the plain values add up to at most 15, so do
/// they; the blocks of `a` beyond those of `b` are kept. The plain values are
/// stated when both are of the key pair of `sk`.
#[verifier::external_body]
pub fn unchecked_add(sk: &FheServerKey, a: &Ciphertext, b: &Ciphertext) -> (r: Ciphertext)
    ensures
        radix_blocks(r).len() == radix_blocks(*a).len(),
        keyed(*a, sk.id()) && keyed(*b, sk.id()) ==> keyed(r, sk.id()) && unchecked_add_post(
            radix_blocks(*a),
            radix_blocks(*b),
            radix_blocks(r),
        ),
{
    Ciphertext { ct: sk.key.unchecked_add(&a.ct, &b.ct) }
}

/// Adds `b` to `a` in place, block by block, without propagating carries.
///
/// Calls `ServerKey::unchecked_add_assign`; what it does to the blocks is what
/// `unchecked_add` does.
#[verifier::external_body]
pub fn unchecked_add_assign(sk: &FheServerKey, a: &mut Ciphertext, b: &Ciphertext)
    ensures
        radix_blocks(*final(a)).len() == radix_blocks(*old(a)).len(),
        keyed(*old(a), sk.id()) && keyed(*b, sk.id()) ==> keyed(*final(a), sk.id())
            && unchecked_add_post(radix_blocks(*old(a)), radix_blocks(*b), radix_blocks(*final(a))),
{
    sk.key.unchecked_add_assign(&mut a.ct, &b.ct)
}

/// What a block-by-block addition without carry propagation leaves.
pub open spec fn unchecked_add_post(
    a: Seq<RadixBlock>,
    b: Seq<RadixBlock>,
    r: Seq<RadixBlock>,
) -> bool {
    &&& r.len() == a.len()
    &&& forall|i: int|
        0 <= i < a.len() ==> if i < b.len() {
            &&& (#[trigger] r[i]).1 == a[i].1 + b[i].1
            &&& a[i].0 + b[i].0 <= 15 ==> r[i].0 == a[i].0 + b[i].0
        } else {
            r[i] == a[i]
        }
}

/// Subtracts `b` from `a` without propagating carries.
///
/// Calls `ServerKey::unchecked_sub`, which negates `b` (each block, with what
/// the block before handed on added, becomes its correcting term minus its
/// value, and hands a quarter of the term on to the next block, see `neg_term`
/// and `neg_carried`) and adds the result to `a` block by block.
/// When `b` has at most as many blocks as `a` and every sum stays below 16,
/// `a - b + z * 4^(k-1)` is what the result stands for, where `k` is the
/// number of blocks of `b` and `z` its last correcting term. The plain values
/// are stated when both are of the key pair of `sk`.
#[verifier::external_body]
pub fn unchecked_sub(sk: &FheServerKey, a: &Ciphertext, b: &Ciphertext) -> (r: Ciphertext)
    ensures
        radix_blocks(r).len() == radix_blocks(*a).len(),
        keyed(*a, sk.id()) && keyed(*b, sk.id()) ==> keyed(r, sk.id()) && unchecked_sub_post(
            radix_blocks(*a),
            radix_blocks(*b),
            radix_blocks(r),
        ),
{
    Ciphertext { ct: sk.key.unchecked_sub(&a.ct, &b.ct) }
}

/// Subtracts `b` from `a` in place, without propagating carries.
///
/// Calls `ServerKey::unchecked_sub_assign`; what it does to the blocks is what
/// `unchecked_sub` does.
#[verifier::external_body]
pub fn unchecked_sub_assign(sk: &FheServerKey, a: &mut Ciphertext, b: &Ciphertext)
    ensures
        radix_blocks(*final(a)).len() == radix_blocks(*old(a)).len(),
        keyed(*old(a), sk.id()) && keyed(*b, sk.id()) ==> keyed(*final(a), sk.id())
            && unchecked_sub_post(radix_blocks(*old(a)), radix_blocks(*b), radix_blocks(*final(a))),
{
    sk.key.unchecked_sub_assign(&mut a.ct, &b.ct)
}

/// The condition under which a subtraction without carry propagation is exact.
pub open spec fn sub_fits(a: Seq<RadixBlock>, b: Seq<RadixBlock>) -> bool {
    &&& crate::radix::well_formed(a)
    &&& crate::radix::well_formed(b)
    &&& 0 < b.len() <= a.len()
    &&& forall|i: int| 0 <= i < b.len() ==> #[trigger] a[i].0 + neg_term(b, i as nat) <= 15
}

/// What the negation of `b` hands on to block `i` from the block before it: a
/// quarter of that block's correcting term.
pub open spec fn neg_carried(b: Seq<RadixBlock>, i: nat) -> nat {
    if i == 0 {
        0
    } else {
        neg_term(b, (i - 1) as nat) / 4
    }
}

/// What a subtraction without carry propagation leaves: block `i` of `b`,
/// with what the block before it handed on, is negated against its correcting
/// term and added to block `i` of `a`.
pub open spec fn unchecked_sub_post(
    a: Seq<RadixBlock>,
    b: Seq<RadixBlock>,
    r: Seq<RadixBlock>,
) -> bool {
    &&& r.len() == a.len()
    &&& sub_fits(a, b) ==> {
        &&& crate::radix::well_formed(r)
        &&& forall|i: int|
            0 <= i < b.len() ==> (#[trigger] r[i]).1 == a[i].1 + neg_term(b, i as nat)
                && r[i].0 + b[i].0 + neg_carried(b, i as nat) == a[i].0 + neg_term(b, i as nat)
        &&& forall|i: int| b.len() <= i < a.len() ==> #[trigger] r[i] == a[i]
        &&& crate::radix::blocks_value(r) + crate::radix::blocks_value(b)
            == crate::radix::blocks_value(a) + neg_term(b, (b.len() - 1) as nat) * pow4(
            (b.len() - 1) as nat,
        )
    }
}

/// Negating `b` fits: for every block, the degree rounded up to a multiple of
/// 4, divided by 3, is at most 11.
pub open spec fn neg_possible(b: Seq<RadixBlock>) -> bool {
    forall|i: int| 0 <= i < b.len() ==> #[trigger] crate::radix::round_up4(b[i].1) / 3 <= 11
}

/// Subtracting `b` from `a` fits: block by block over the shorter of the two,
/// the degree of `a` plus the degree of `b` rounded up to a multiple of 4 is
/// at most 11.
pub open spec fn sub_possible(a: Seq<RadixBlock>, b: Seq<RadixBlock>) -> bool {
    forall|i: int|
        0 <= i < a.len() && i < b.len() ==> #[trigger] a[i].1 + crate::radix::round_up4(b[i].1)
            <= 11
}

/// The operands of the subtraction that a smart subtraction makes: `b` is
/// carry-propagated when it cannot be negated, and both are when the
/// subtraction does not fit.
pub open spec fn smart_sub_operands(a: Seq<RadixBlock>, b: Seq<RadixBlock>) -> (
    Seq<RadixBlock>,
    Seq<RadixBlock>,
) {
    let b1 = if neg_possible(b) {
        b
    } else {
        propagated_blocks(b)
    };
    if sub_possible(a, b1) {
        (a, b1)
    } else {
        (propagated_blocks(a), propagated_blocks(b1))
    }
}

/// Subtracts `b` from `a` in place, propagating carries first where needed.
///
/// Calls `ServerKey::smart_sub_assign_parallelized`: `b` is carry-propagated
/// when it cannot be negated, both are when the subtraction would not fit (see
/// `smart_sub_operands`), then `b` is subtracted without propagating carries
/// (see `unchecked_sub`). The result is not carry-propagated.
#[verifier::external_body]
pub fn smart_sub_assign(sk: &FheServerKey, a: &mut Ciphertext, b: &mut Ciphertext)
    ensures
        radix_blocks(*final(a)).len() == radix_blocks(*old(a)).len(),
        radix_blocks(*final(b)).len() == radix_blocks(*old(b)).len(),
        keyed(*old(a), sk.id()) && keyed(*old(b), sk.id()) ==> keyed(*final(a), sk.id())
            && keyed(*final(b), sk.id()),
        keyed(*old(a), sk.id()) && keyed(*old(b), sk.id()) && crate::radix::propagatable(
            radix_blocks(*old(a)),
        ) && crate::radix::propagatable(radix_blocks(*old(b))) ==> {
            let ops = smart_sub_operands(radix_blocks(*old(a)), radix_blocks(*old(b)));
            &&& radix_blocks(*final(b)) == ops.1
            &&& unchecked_sub_post(ops.0, ops.1, radix_blocks(*final(a)))
        },
{
    sk.key.smart_sub_assign_parallelized(&mut a.ct, &mut b.ct)
}

/// The smaller of `a` and `b`, after propagating the carries of whichever has any.
///
/// Calls `ServerKey::smart_min_parallelized`. It panics unless both have the
/// same, non-zero, number of blocks. An operand with a block of degree 4 or
/// more is carry-propagated first (see `full_propagate`); the result's blocks
/// hold the digits of the minimum of the two integers, each with degree 14.
/// The plain values are stated when both are of the key pair of `sk`.
#[verifier::external_body]
pub fn smart_min(sk: &FheServerKey, a: &mut Ciphertext, b: &mut Ciphertext) -> (r: Ciphertext)
    requires
        radix_blocks(*old(a)).len() == radix_blocks(*old(b)).len(),
        radix_blocks(*old(a)).len() > 0,
    ensures
        radix_blocks(*final(a)).len() == radix_blocks(*old(a)).len(),
        radix_blocks(*final(b)).len() == radix_blocks(*old(b)).len(),
        radix_blocks(r).len() == radix_blocks(*old(a)).len(),
        min_degrees(radix_blocks(r)),
        keyed(*old(a), sk.id()) && keyed(*old(b), sk.id()) ==> {
            &&& keyed(*final(a), sk.id())
            &&& keyed(*final(b), sk.id())
            &&& keyed(r, sk.id())
            &&& smart_operand_post(radix_blocks(*old(a)), radix_blocks(*final(a)))
            &&& smart_operand_post(radix_blocks(*old(b)), radix_blocks(*final(b)))
        },
        keyed(*old(a), sk.id()) && keyed(*old(b), sk.id()) && crate::radix::propagatable(
            radix_blocks(*old(a)),
        ) && crate::radix::propagatable(radix_blocks(*old(b))) ==> {
            &&& crate::radix::well_formed(radix_blocks(r))
            &&& crate::radix::no_carries(radix_blocks(r))
            &&& crate::radix::blocks_value(radix_blocks(r)) == min_nat(
                crate::radix::blocks_value(radix_blocks(*final(a))),
                crate::radix::blocks_value(radix_blocks(*final(b))),
            )
        },
{
    Ciphertext { ct: sk.key.smart_min_parallelized(&mut a.ct, &mut b.ct) }
}

/// The first `k` blocks of `x`, as an integer of their own.
///
/// Calls `IntegerCiphertext::from_blocks` on a copy of the first `k` blocks of
/// `x` (`IntegerCiphertext::blocks`); the blocks keep their degrees.
#[verifier::external_body]
pub fn take_blocks(x: &Ciphertext, k: usize) -> (r: Ciphertext)
    requires
        k <= radix_blocks(*x).len(),
    ensures
        radix_key(r) == radix_key(*x),
        radix_blocks(r) == radix_blocks(*x).take(k as int),
{
    Ciphertext { ct: IntegerCiphertext::from_blocks(x.ct.blocks()[..k].to_vec()) }
}

/// The blocks of `lo` followed by those of `hi`, as one integer.
///
/// Calls `IntegerCiphertext::from_blocks` on a copy of the blocks of `lo`
/// followed by a copy of the blocks of `hi`; the blocks keep their degrees.
/// The blocks are stated when both are of one key pair.
#[verifier::external_body]
pub fn append_blocks(lo: &Ciphertext, hi: &Ciphertext) -> (r: Ciphertext)
    ensures
        radix_blocks(r).len() == radix_blocks(*lo).len() + radix_blocks(*hi).len(),
        radix_key(*lo) == radix_key(*hi) ==> radix_key(r) == radix_key(*lo) && radix_blocks(r)
            == radix_blocks(*lo) + radix_blocks(*hi),
{
    Ciphertext { ct: IntegerCiphertext::from_blocks([lo.ct.blocks(), hi.ct.blocks()].concat()) }
}

/// `4^n - s`, reduced modulo `4^n`: the scalar whose digits a scalar
/// subtraction of `s` adds to an `n`-block integer.
pub open spec fn neg_scalar(s: nat, n: nat) -> nat {
    ((pow4(n) - s % pow4(n)) % (pow4(n) as int)) as nat
}

/// Block counts for which tfhe's scalar subtraction decomposes the negated
/// scalar on every block: the check computes `4^n` in a `usize`.
pub open spec fn scalar_blocks_fit(n: nat) -> bool {
    n <= 15 || (n <= 31 && usize::BITS == 64)
}

/// Subtracting the scalar `s` fits: every block can take its digit of the
/// negated scalar and keep a degree of at most 11.
pub open spec fn scalar_sub_possible(a: Seq<RadixBlock>, s: nat) -> bool {
    forall|i: int|
        0 <= i < a.len() ==> #[trigger] a[i].1 + crate::radix::digit(neg_scalar(s, a.len()), i as nat)
            <= 11
}

/// What adding the digits of `ns` to the blocks of `a`, one digit to each
/// block and without propagating carries, leaves.
pub open spec fn scalar_add_post(a: Seq<RadixBlock>, ns: nat, r: Seq<RadixBlock>) -> bool {
    &&& r.len() == a.len()
    &&& forall|i: int|
        0 <= i < a.len() ==> {
            &&& (#[trigger] r[i]).1 == a[i].1 + crate::radix::digit(ns, i as nat)
            &&& a[i].0 + crate::radix::digit(ns, i as nat) <= 15 ==> r[i].0 == a[i].0
                + crate::radix::digit(ns, i as nat)
        }
}

/// Subtracts the scalar `s` from `a` in place, propagating carries first when
/// the subtraction would not fit.
///
/// Calls `ServerKey::smart_scalar_sub_assign_parallelized`: when some block
/// cannot take its digit of `4^n - s` (see `scalar_sub_possible`), `a` is
/// carry-propagated; then each block gets its digit of `4^n - s` added to its
/// value and its degree (`unchecked_scalar_sub_assign`). Nothing is stated for
/// integers whose blocks the possibility check does not all reach (see
/// `scalar_blocks_fit`).
#[verifier::external_body]
pub fn smart_scalar_sub_assign(sk: &FheServerKey, a: &mut Ciphertext, s: u64)
    ensures
        radix_blocks(*final(a)).len() == radix_blocks(*old(a)).len(),
        keyed(*old(a), sk.id()) ==> keyed(*final(a), sk.id()),
        keyed(*old(a), sk.id()) && scalar_blocks_fit(radix_blocks(*old(a)).len())
            && crate::radix::propagatable(radix_blocks(*old(a))) ==> scalar_add_post(
            if scalar_sub_possible(radix_blocks(*old(a)), s as nat) {
                radix_blocks(*old(a))
            } else {
                propagated_blocks(radix_blocks(*old(a)))
            },
            neg_scalar(s as nat, radix_blocks(*old(a)).len()),
            radix_blocks(*final(a)),
        ),
{
    sk.key.smart_scalar_sub_assign_parallelized(&mut a.ct, s)
}

/// The blocks of a comparison result on `n` blocks: the first holds `bit`,
/// with degree 1, the others are trivial zeros.
pub open spec fn bit_blocks(bit: nat, n: nat) -> Seq<RadixBlock> {
    Seq::new(n, |i: int| if i == 0 { (bit, 1nat) } else { (0nat, 0nat) })
}

/// 1 when `c` holds, 0 otherwise.
pub open spec fn bit_of(c: bool) -> nat {
    if c {
        1
    } else {
        0
    }
}

/// What a smart comparison leaves of its operands and what it returns: each
/// operand is carry-propagated when one of its blocks has degree 4 or more, and
/// the result's blocks are `bit_blocks` of the comparison `holds` of the two
/// integers the operands then stand for. The plain values are stated when both
/// operands are of the key pair `id`.
pub open spec fn comparison_post(
    a_before: Ciphertext,
    b_before: Ciphertext,
    a_after: Ciphertext,
    b_after: Ciphertext,
    r: Ciphertext,
    id: int,
    holds: bool,
) -> bool {
    &&& radix_blocks(a_after).len() == radix_blocks(a_before).len()
    &&& radix_blocks(b_after).len() == radix_blocks(b_before).len()
    &&& radix_blocks(r).len() == radix_blocks(a_before).len()
    &&& keyed(a_before, id) && keyed(b_before, id) ==> {
        &&& keyed(a_after, id)
        &&& keyed(b_after, id)
        &&& keyed(r, id)
        &&& smart_operand_post(radix_blocks(a_before), radix_blocks(a_after))
        &&& smart_operand_post(radix_blocks(b_before), radix_blocks(b_after))
    }
    &&& keyed(a_before, id) && keyed(b_before, id) && crate::radix::propagatable(
        radix_blocks(a_before),
    ) && crate::radix::propagatable(radix_blocks(b_before)) ==> radix_blocks(r) == bit_blocks(
        bit_of(holds),
        radix_blocks(a_before).len(),
    )
}

/// Whether `a` is greater than `b`, as an integer.
///
/// Calls `ServerKey::smart_gt_parallelized`. It panics unless both have the
/// same number of blocks. An operand with a block of degree 4 or more is
/// carry-propagated first; the comparison is read into the first block of the
/// result (degree 1 after the lookup), the others are trivial zeros (see
/// `comparison_post`).
#[verifier::external_body]
pub fn smart_gt(sk: &FheServerKey, a: &mut Ciphertext, b: &mut Ciphertext) -> (r: Ciphertext)
    requires
        radix_blocks(*old(a)).len() == radix_blocks(*old(b)).len(),
        radix_blocks(*old(a)).len() > 0,
    ensures
        comparison_post(
            *old(a),
            *old(b),
            *final(a),
            *final(b),
            r,
            sk.id(),
            crate::radix::blocks_value(radix_blocks(*final(a))) > crate::radix::blocks_value(
                radix_blocks(*final(b)),
            ),
        ),
{
    Ciphertext { ct: sk.key.smart_gt_parallelized(&mut a.ct, &mut b.ct) }
}

/// Whether `a` is less than `b`, as an integer.
///
/// Calls `ServerKey::smart_lt_parallelized`; operands and result as for
/// `smart_gt`.
#[verifier::external_body]
pub fn smart_lt(sk: &FheServerKey, a: &mut Ciphertext, b: &mut Ciphertext) -> (r: Ciphertext)
    requires
        radix_blocks(*old(a)).len() == radix_blocks(*old(b)).len(),
        radix_blocks(*old(a)).len() > 0,
    ensures
        comparison_post(
            *old(a),
            *old(b),
            *final(a),
            *final(b),
            r,
            sk.id(),
            crate::radix::blocks_value(radix_blocks(*final(a))) < crate::radix::blocks_value(
                radix_blocks(*final(b)),
            ),
        ),
{
    Ciphertext { ct: sk.key.smart_lt_parallelized(&mut a.ct, &mut b.ct) }
}

/// Whether `a` and `b` are equal, as integers.
///
/// Calls `ServerKey::smart_eq_parallelized`; operands and result as for
/// `smart_gt`.
#[verifier::external_body]
pub fn smart_eq(sk: &FheServerKey, a: &mut Ciphertext, b: &mut Ciphertext) -> (r: Ciphertext)
    requires
        radix_blocks(*old(a)).len() == radix_blocks(*old(b)).len(),
        radix_blocks(*old(a)).len() > 0,
    ensures
        comparison_post(
            *old(a),
            *old(b),
            *final(a),
            *final(b),
            r,
            sk.id(),
            crate::radix::blocks_value(radix_blocks(*final(a))) == crate::radix::blocks_value(
                radix_blocks(*final(b)),
            ),
        ),
{
    Ciphertext { ct: sk.key.smart_eq_parallelized(&mut a.ct, &mut b.ct) }
}

/// The blocks of `c` are those of a comparison result: `bit_blocks` of a bit.
pub open spec fn is_bit(c: Ciphertext) -> bool {
    &&& radix_blocks(c).len() > 0
    &&& radix_blocks(c)[0].0 <= 1
    &&& radix_blocks(c) == bit_blocks(radix_blocks(c)[0].0, radix_blocks(c).len())
}

/// The bit a comparison result holds.
pub open spec fn bit_value(c: Ciphertext) -> nat {
    radix_blocks(c)[0].0
}

/// What a block-by-block boolean operation on two comparison results leaves:
/// when both hold bits, on as many blocks, and are of the key pair `id`, `a`
/// holds `bit_blocks` of the result and `b` is unchanged.
pub open spec fn bitwise_post(
    a_before: Ciphertext,
    b_before: Ciphertext,
    a_after: Ciphertext,
    b_after: Ciphertext,
    id: int,
    result: nat,
) -> bool {
    &&& radix_blocks(a_after).len() == radix_blocks(a_before).len()
    &&& radix_blocks(b_after).len() == radix_blocks(b_before).len()
    &&& is_bit(a_before) && is_bit(b_before) && radix_blocks(a_before).len() == radix_blocks(
        b_before,
    ).len() && keyed(a_before, id) && keyed(b_before, id) ==> {
        &&& keyed(a_after, id)
        &&& keyed(b_after, id)
        &&& radix_blocks(a_after) == bit_blocks(result, radix_blocks(a_before).len())
        &&& radix_blocks(b_after) == radix_blocks(b_before)
    }
}

/// `a | b`, block by block, in place.
///
/// Calls `ServerKey::smart_bitor_assign_parallelized`: both are
/// carry-propagated when some pair of blocks cannot be packed into one block,
/// then each block of `a` becomes the bitwise or of the two blocks through a
/// bivariate lookup, with degree `Degree::after_bitor`. Stated for two
/// comparison results only (see `bitwise_post`): their blocks pack without a
/// propagation, and the degrees stay 1 and 0.
#[verifier::external_body]
pub fn smart_bitor_assign(sk: &FheServerKey, a: &mut Ciphertext, b: &mut Ciphertext)
    ensures
        bitwise_post(
            *old(a),
            *old(b),
            *final(a),
            *final(b),
            sk.id(),
            bit_of(bit_value(*old(a)) == 1 || bit_value(*old(b)) == 1),
        ),
{
    sk.key.smart_bitor_assign_parallelized(&mut a.ct, &mut b.ct)
}

/// `a & b`, block by block, in place.
///
/// Calls `ServerKey::smart_bitand_assign_parallelized`; as for
/// `smart_bitor_assign`, with the bitwise and and `Degree::after_bitand`.
#[verifier::external_body]
pub fn smart_bitand_assign(sk: &FheServerKey, a: &mut Ciphertext, b: &mut Ciphertext)
    ensures
        bitwise_post(
            *old(a),
            *old(b),
            *final(a),
            *final(b),
            sk.id(),
            bit_of(bit_value(*old(a)) == 1 && bit_value(*old(b)) == 1),
        ),
{
    sk.key.smart_bitand_assign_parallelized(&mut a.ct, &mut b.ct)
}

/// `a * b`, modulo `4^n`.
///
/// Calls `ServerKey::smart_mul_parallelized`. Both operands are
/// carry-propagated first, whatever their degrees; then for each block of `b`
/// a partial product of `a` by that block is formed (low and high digits of
/// each block product, by lookups of degree 3 and 2), and the partial products
/// are added pairwise, propagating both terms before an addition that would
/// overflow (`smart_add_parallelized`). Every block of the product has degree
/// at most 11; on 4 blocks the partial products have degrees [3,5,5,5],
/// [0,3,5,5], [0,0,3,5], [0,0,0,3], the two first sums fit and the last one
/// does not, so every block of the product has degree 6.
#[verifier::external_body]
pub fn smart_mul(sk: &FheServerKey, a: &mut Ciphertext, b: &mut Ciphertext) -> (r: Ciphertext)
    requires
        radix_blocks(*old(a)).len() == radix_blocks(*old(b)).len(),
        radix_blocks(*old(a)).len() > 0,
    ensures
        radix_blocks(*final(a)).len() == radix_blocks(*old(a)).len(),
        radix_blocks(*final(b)).len() == radix_blocks(*old(b)).len(),
        radix_blocks(r).len() == radix_blocks(*old(a)).len(),
        keyed(*old(a), sk.id()) && keyed(*old(b), sk.id()) ==> keyed(*final(a), sk.id()) && keyed(
            *final(b),
            sk.id(),
        ) && keyed(r, sk.id()),
        keyed(*old(a), sk.id()) && keyed(*old(b), sk.id()) && crate::radix::propagatable(
            radix_blocks(*old(a)),
        ) && crate::radix::propagatable(radix_blocks(*old(b))) ==> {
            &&& radix_blocks(*final(a)) == propagated_blocks(radix_blocks(*old(a)))
            &&& radix_blocks(*final(b)) == propagated_blocks(radix_blocks(*old(b)))
            &&& crate::radix::well_formed(radix_blocks(r))
            &&& crate::radix::degrees_within(radix_blocks(r), 11)
            &&& radix_blocks(r).len() == 4 ==> forall|i: int|
                0 <= i < 4 ==> (#[trigger] radix_blocks(r)[i]).1 == 6
            &&& crate::radix::blocks_value(radix_blocks(r)) % pow4(radix_blocks(r).len()) == (
            crate::radix::blocks_value(radix_blocks(*old(a))) * crate::radix::blocks_value(
                radix_blocks(*old(b)),
            )) % pow4(radix_blocks(r).len())
        },
{
    Ciphertext { ct: sk.key.smart_mul_parallelized(&mut a.ct, &mut b.ct) }
}

/// `a - b`, without propagating the result's carries.
///
/// Calls `ServerKey::smart_sub_parallelized`: `b` is carry-propagated when it
/// cannot be negated, both are when the subtraction would not fit (see
/// `smart_sub_operands`), then `b` is subtracted from a copy of `a` (see
/// `unchecked_sub`).
#[verifier::external_body]
pub fn smart_sub(sk: &FheServerKey, a: &mut Ciphertext, b: &mut Ciphertext) -> (r: Ciphertext)
    ensures
        radix_blocks(*final(a)).len() == radix_blocks(*old(a)).len(),
        radix_blocks(*final(b)).len() == radix_blocks(*old(b)).len(),
        radix_blocks(r).len() == radix_blocks(*old(a)).len(),
        keyed(*old(a), sk.id()) && keyed(*old(b), sk.id()) ==> keyed(*final(a), sk.id()) && keyed(
            *final(b),
            sk.id(),
        ) && keyed(r, sk.id()),
        keyed(*old(a), sk.id()) && keyed(*old(b), sk.id()) && crate::radix::propagatable(
            radix_blocks(*old(a)),
        ) && crate::radix::propagatable(radix_blocks(*old(b))) ==> {
            let ops = smart_sub_operands(radix_blocks(*old(a)), radix_blocks(*old(b)));
            &&& radix_blocks(*final(a)) == ops.0
            &&& radix_blocks(*final(b)) == ops.1
            &&& unchecked_sub_post(ops.0, ops.1, radix_blocks(r))
        },
{
    Ciphertext { ct: sk.key.smart_sub_parallelized(&mut a.ct, &mut b.ct) }
}

/// What is decrypted is what was encrypted: the blocks of a fresh encryption
/// of `v` on `n` blocks are well formed, and what `decrypt` reads back of them
/// is `v` modulo `4^k`, `k` the number of blocks it reads (`n`, up to 32).
pub proof fn law_decrypt_encrypt(v: nat, n: nat)
    ensures
        crate::radix::well_formed(crate::radix::digit_blocks(v, n)),
        crate::radix::digit_blocks(v, n).len() == n,
        crate::radix::blocks_value(crate::radix::digit_blocks(v, n)) % pow4(decrypted_blocks(n))
            == v % pow4(decrypted_blocks(n)),
{
    let bs = crate::radix::digit_blocks(v, n);
    let k = decrypted_blocks(n);
    crate::radix::lemma_digit_value(v, n);
    crate::radix::lemma_digit_clean(v, n);
    crate::radix::lemma_pow4_positive(k);
    crate::radix::lemma_pow4_positive((n - k) as nat);
    crate::radix::lemma_pow4_add(k, (n - k) as nat);
    assert(k + (n - k) as nat == n);
    vstd::arithmetic::div_mod::lemma_mod_mod(v as int, pow4(k) as int, pow4((n - k) as nat) as int);
    assert forall|i: int| 0 <= i < bs.len() implies (#[trigger] bs[i]).0 <= bs[i].1 && bs[i].0
        <= 15 by {
        assert(bs[i].1 <= 3);
    }
}

/// What a carry propagation leaves: clean digits, each of degree 3, standing
/// for the integer modulo `4^n`.
pub proof fn lemma_propagated_blocks(bs: Seq<RadixBlock>)
    ensures
        propagated_blocks(bs).len() == bs.len(),
        crate::radix::clean(propagated_blocks(bs)),
        forall|i: int|
            0 <= i < bs.len() ==> (#[trigger] propagated_blocks(bs)[i]).1 == 3
                && propagated_blocks(bs)[i].0 < 4,
        crate::radix::blocks_value(propagated_blocks(bs)) == crate::radix::blocks_value(bs)
            % pow4(bs.len()),
{
    let v = crate::radix::blocks_value(bs);
    crate::radix::lemma_digit_value(v, bs.len());
    crate::radix::lemma_digit_clean(v, bs.len());
    crate::radix::lemma_pow4_positive(bs.len());
    vstd::arithmetic::div_mod::lemma_mod_twice(v as int, pow4(bs.len()) as int);
    assert forall|i: int| 0 <= i < bs.len() implies (#[trigger] propagated_blocks(bs)[i]).1 == 3
        && propagated_blocks(bs)[i].0 < 4 by {
        assert(crate::radix::digit(v, i as nat) < 4);
    }
}

/// What a smart operation leaves of an operand that could be propagated
/// exactly: clean blocks standing for the operand modulo `4^n`.
pub proof fn lemma_smart_operand(bs: Seq<RadixBlock>)
    requires
        crate::radix::propagatable(bs),
    ensures
        smart_operand(bs).len() == bs.len(),
        crate::radix::clean(smart_operand(bs)),
        crate::radix::blocks_value(smart_operand(bs)) == crate::radix::blocks_value(bs) % pow4(
            bs.len(),
        ),
{
    lemma_propagated_blocks(bs);
    if !crate::radix::has_carry_degree(bs) {
        assert forall|i: int| 0 <= i < bs.len() implies (#[trigger] bs[i]).0 < 4 by {
            assert(bs[i].1 < 4);
        }
        crate::radix::lemma_value_below_modulus(bs);
        vstd::arithmetic::div_mod::lemma_small_mod(
            crate::radix::blocks_value(bs),
            pow4(bs.len()),
        );
        assert forall|i: int| 0 <= i < bs.len() implies (#[trigger] bs[i]).0 <= bs[i].1 && bs[i].1
            <= 3 by {
            assert(bs[i].1 < 4);
        }
    }
}

/// What a smart operation leaves of an operand: the same number of blocks
/// and, when its carries could be propagated exactly, `smart_operand`.
pub open spec fn smart_operand_post(before: Seq<RadixBlock>, after: Seq<RadixBlock>) -> bool {
    &&& after.len() == before.len()
    &&& crate::radix::propagatable(before) ==> after == smart_operand(before)
}

/// The degrees that a minimum leaves: every block is the sum of two lookups,
/// of degrees 3 and 11.
pub open spec fn min_degrees(bs: Seq<RadixBlock>) -> bool {
    forall|i: int| 0 <= i < bs.len() ==> (#[trigger] bs[i]).1 == 14
}

/// The smaller of two naturals.
pub open spec fn min_nat(a: nat, b: nat) -> nat {
    if a <= b {
        a
    } else {
        b
    }
}

/// The smaller of `a` and `b`, which must have no carries.
///
/// Calls `ServerKey::unchecked_min_parallelized`. It panics unless both have
/// the same, non-zero, number of blocks, and (through a debug assertion) when a
/// block has degree 4 or more. The result's blocks hold the digits of the
/// minimum, each with degree 14.
#[verifier::external_body]
pub fn unchecked_min(sk: &FheServerKey, a: &Ciphertext, b: &Ciphertext) -> (r: Ciphertext)
    requires
        radix_blocks(*a).len() == radix_blocks(*b).len(),
        radix_blocks(*a).len() > 0,
        crate::radix::degrees_within(radix_blocks(*a), 3),
        crate::radix::degrees_within(radix_blocks(*b), 3),
    ensures
        radix_blocks(r).len() == radix_blocks(*a).len(),
        min_degrees(radix_blocks(r)),
        keyed(*a, sk.id()) && keyed(*b, sk.id()) ==> keyed(r, sk.id()),
        keyed(*a, sk.id()) && keyed(*b, sk.id()) && crate::radix::well_formed(radix_blocks(*a))
            && crate::radix::well_formed(radix_blocks(*b)) ==> {
            &&& crate::radix::well_formed(radix_blocks(r))
            &&& crate::radix::no_carries(radix_blocks(r))
            &&& crate::radix::blocks_value(radix_blocks(r)) == min_nat(
                crate::radix::blocks_value(radix_blocks(*a)),
                crate::radix::blocks_value(radix_blocks(*b)),
            )
        },
{
    Ciphertext { ct: sk.key.unchecked_min_parallelized(&a.ct, &b.ct) }
}

} // verus!

verus! {

/// The integer a ciphertext stands for, carries included.
pub open spec fn ct_value(c: Ciphertext) -> nat {
    crate::radix::blocks_value(radix_blocks(c))
}

/// The integers a list of ciphertexts stands for.
pub open spec fn ct_values(v: Seq<Ciphertext>) -> Seq<nat> {
    Seq::new(v.len(), |i: int| ct_value(v[i]))
}

/// `n` blocks, each holding a message only and saying so: what a fresh
/// encryption on `n` blocks looks like.
pub open spec fn operand(c: Ciphertext, n: nat) -> bool {
    radix_blocks(c).len() == n && crate::radix::clean(radix_blocks(c))
}

/// `n` blocks, each holding a message only, degrees up to 14: what a minimum
/// or a carry propagation hands back.
pub open spec fn settled(c: Ciphertext, n: nat) -> bool {
    &&& radix_blocks(c).len() == n
    &&& crate::radix::well_formed(radix_blocks(c))
    &&& crate::radix::no_carries(radix_blocks(c))
}

} // verus!
