//! Volume matching on tfhe's high-level 16-bit integers (`FheUint16`): eight
//! blocks of 2-bit messages, on which addition and subtraction wrap around
//! `2^16` and every result comes back carry-propagated. Both sides are summed,
//! the traded volume is the smaller sum, and the orders of each side are settled
//! one after the other against it.
use vstd::prelude::*;
use tfhe::{ClientKey, ConfigBuilder, FheUint16, ServerKey};
use tfhe::prelude::{FheDecrypt, FheEncrypt, FheTrivialEncrypt};
use crate::matching::{greedy_fill, min_of, sub_floor, total, traded_volume};
use crate::radix::{RadixBlock, blocks_value, clean, digit_blocks, pow4, propagatable, zero_blocks};

verus! {

#[verifier::external_type_specification]
#[verifier::external_body]
pub struct ExHighLevelClientKey(ClientKey);

#[verifier::external_type_specification]
#[verifier::external_body]
pub struct ExHighLevelServerKey(ServerKey);

/// The number of blocks of a 16-bit integer.
pub const UINT16_BLOCKS: usize = 8;

/// An encrypted 16-bit integer of tfhe's high-level API.
#[verifier::external_body]
pub struct EncryptedU16 {
    ct: FheUint16,
}

/// What the blocks of an encrypted 16-bit integer hold, least significant
/// first: the plain value of each block under the key pair
/// `uint16_key(x)`, and its degree.
pub uninterp spec fn uint16_blocks(x: EncryptedU16) -> Seq<(nat, nat)>;

/// The key pair under which the blocks of an encrypted 16-bit integer hold
/// their plain values.
pub uninterp spec fn uint16_key(x: EncryptedU16) -> int;

/// The client key of a key pair made for 16-bit integers.
pub struct Uint16ClientKey {
    key: ClientKey,
    id: Ghost<int>,
}

/// The server key of a key pair made for 16-bit integers.
pub struct Uint16ServerKey {
    key: ServerKey,
    id: Ghost<int>,
}

impl Uint16ClientKey {
    /// The key pair this key belongs to.
    pub closed spec fn id(&self) -> int {
        self.id@
    }
}

impl Uint16ServerKey {
    /// The key pair this key belongs to.
    pub closed spec fn id(&self) -> int {
        self.id@
    }
}

/// `2^16`, the modulus of 16-bit integers.
pub open spec fn modulus16() -> nat {
    pow4(UINT16_BLOCKS as nat)
}

/// The integer the blocks of `x` stand for, carries included.
pub open spec fn u16_value(x: EncryptedU16) -> nat {
    blocks_value(uint16_blocks(x))
}

/// The integers a list of encrypted 16-bit integers stands for.
pub open spec fn u16_values(v: Seq<EncryptedU16>) -> Seq<nat> {
    Seq::new(v.len(), |i: int| u16_value(v[i]))
}

/// `x` is of the key pair `id`, on 8 blocks holding messages only: what an
/// encryption or any operation of the high-level API hands back.
pub open spec fn u16_ok(x: EncryptedU16, id: int) -> bool {
    &&& uint16_key(x) == id
    &&& uint16_blocks(x).len() == UINT16_BLOCKS
    &&& clean(uint16_blocks(x))
}

/// Every entry of `v` is of the key pair `id`, on 8 clean blocks.
pub open spec fn all_u16_ok(v: Seq<EncryptedU16>, id: int) -> bool {
    forall|i: int| 0 <= i < v.len() ==> u16_ok(#[trigger] v[i], id)
}

/// Both operands can take part in an operation of the server key `id`: of
/// that key pair, on 8 blocks whose carries propagate exactly.
pub open spec fn u16_operands(a: EncryptedU16, b: EncryptedU16, id: int) -> bool {
    &&& uint16_key(a) == id
    &&& uint16_key(b) == id
    &&& uint16_blocks(a).len() == UINT16_BLOCKS
    &&& uint16_blocks(b).len() == UINT16_BLOCKS
    &&& propagatable(uint16_blocks(a))
    &&& propagatable(uint16_blocks(b))
}

/// A new pair of keys with 16-bit integers enabled.
///
/// Calls `ConfigBuilder::all_disabled().enable_default_uint16().build()` and
/// `tfhe::generate_keys` on that configuration. The keys are random; the
/// contract states that the two keys belong to one pair.
#[verifier::external_body]
pub fn generate_uint16_keys() -> (keys: (Uint16ClientKey, Uint16ServerKey))
    ensures
        keys.0.id() == keys.1.id(),
{
    let config = ConfigBuilder::all_disabled().enable_default_uint16().build();
    let (ck, sk) = tfhe::generate_keys(config);
    let id: Ghost<int> = Ghost(vstd::pervasive::arbitrary());
    (Uint16ClientKey { key: ck, id }, Uint16ServerKey { key: sk, id })
}

/// Encrypts `value`.
///
/// Calls `FheUint16::encrypt`, which encrypts the base-4 digits of `value` on
/// 8 blocks, each of degree 3.
#[verifier::external_body]
pub fn encrypt_u16(client_key: &Uint16ClientKey, value: u16) -> (r: EncryptedU16)
    ensures
        uint16_key(r) == client_key.id(),
        uint16_blocks(r) == digit_blocks(value as nat, UINT16_BLOCKS as nat),
{
    EncryptedU16 { ct: FheUint16::encrypt(value, &client_key.key) }
}

/// A trivial encryption of zero.
///
/// Makes `server_key` the server key of the thread (`tfhe::set_server_key`, on
/// a copy, which is cheap: the key is held in an `Arc`) and calls
/// `FheUint16::encrypt_trivial(0)`, which reads that key: 8 blocks holding 0,
/// each of degree 0, which decrypt to 0 under any key.
#[verifier::external_body]
pub fn trivial_u16_zero(server_key: &Uint16ServerKey) -> (r: EncryptedU16)
    ensures
        uint16_key(r) == server_key.id(),
        uint16_blocks(r) == zero_blocks(UINT16_BLOCKS as nat),
{
    tfhe::set_server_key(server_key.key.clone());
    EncryptedU16 { ct: FheUint16::encrypt_trivial(0u16) }
}

/// `a + b`, wrapping around `2^16`.
///
/// Makes `server_key` the server key of the thread (as `trivial_u16_zero`
/// does) and calls `+` on `FheUint16`, which tfhe maps to
/// `ServerKey::add_parallelized`: operands with carries are propagated first,
/// the blocks are added, and the sum is carry-propagated, dropping the carry
/// out of the last block.
#[verifier::external_body]
pub fn add_u16(server_key: &Uint16ServerKey, a: EncryptedU16, b: &EncryptedU16) -> (r:
    EncryptedU16)
    ensures
        u16_operands(a, *b, server_key.id()) ==> {
            &&& uint16_key(r) == server_key.id()
            &&& uint16_blocks(r) == digit_blocks(
                (u16_value(a) + u16_value(*b)) % modulus16(),
                UINT16_BLOCKS as nat,
            )
        },
{
    tfhe::set_server_key(server_key.key.clone());
    EncryptedU16 { ct: a.ct + &b.ct }
}

/// `a - b`, wrapping around `2^16`.
///
/// Makes `server_key` the server key of the thread (as `trivial_u16_zero`
/// does) and calls `-` on `FheUint16`, which tfhe maps to
/// `ServerKey::sub_parallelized`: operands with carries are propagated first,
/// `b` is negated and added, and the result is carry-propagated.
#[verifier::external_body]
pub fn sub_u16(server_key: &Uint16ServerKey, a: EncryptedU16, b: &EncryptedU16) -> (r:
    EncryptedU16)
    ensures
        u16_operands(a, *b, server_key.id()) ==> {
            &&& uint16_key(r) == server_key.id()
            &&& uint16_blocks(r) == digit_blocks(
                (u16_value(a) % modulus16() + modulus16() - u16_value(*b) % modulus16()) as nat
                    % modulus16(),
                UINT16_BLOCKS as nat,
            )
        },
{
    tfhe::set_server_key(server_key.key.clone());
    EncryptedU16 { ct: a.ct - &b.ct }
}

/// The smaller of `a` and `b`.
///
/// Makes `server_key` the server key of the thread (as `trivial_u16_zero`
/// does) and calls `FheUint16::min`, which tfhe maps to
/// `ServerKey::min_parallelized`: operands with carries are propagated first,
/// and the result's blocks hold the digits of the minimum, each of degree 3.
#[verifier::external_body]
pub fn min_u16(server_key: &Uint16ServerKey, a: &EncryptedU16, b: &EncryptedU16) -> (r:
    EncryptedU16)
    ensures
        u16_operands(*a, *b, server_key.id()) ==> {
            &&& uint16_key(r) == server_key.id()
            &&& uint16_blocks(r) == digit_blocks(
                min_of(u16_value(*a) % modulus16(), u16_value(*b) % modulus16()),
                UINT16_BLOCKS as nat,
            )
        },
{
    tfhe::set_server_key(server_key.key.clone());
    EncryptedU16 { ct: a.ct.min(&b.ct) }
}

/// A copy of `a`.
///
/// Calls `Clone::clone` of `FheUint16`, which copies its blocks.
#[verifier::external_body]
pub fn clone_u16(a: &EncryptedU16) -> (r: EncryptedU16)
    ensures
        uint16_key(r) == uint16_key(*a),
        uint16_blocks(r) == uint16_blocks(*a),
{
    EncryptedU16 { ct: a.ct.clone() }
}

/// Decrypts `a`.
///
/// Calls `FheDecrypt::<u16>::decrypt`, which decrypts the blocks into a `u64`
/// (their plain values weighted by powers of 4, modulo `4^8`) and keeps its low
/// 16 bits. Nothing is stated of integers of another key pair, nor of blocks
/// that have overflowed into the padding bit.
#[verifier::external_body]
pub fn decrypt_u16(client_key: &Uint16ClientKey, a: &EncryptedU16) -> (v: u16)
    ensures
        uint16_key(*a) == client_key.id() && uint16_blocks(*a).len() == UINT16_BLOCKS
            && crate::radix::well_formed(uint16_blocks(*a)) ==> v as nat == u16_value(*a)
            % modulus16(),
{
    a.ct.decrypt(&client_key.key)
}

// ----------------------------------------------------------------------------
// Lemmas
// ----------------------------------------------------------------------------

/// `4^8 == 2^16`.
pub proof fn lemma_modulus16()
    ensures
        modulus16() == 65536,
{
    reveal_with_fuel(pow4, 9);
}

/// The digits of an integer below `2^16` on 8 blocks: clean, standing for it.
pub proof fn lemma_digits16(v: nat)
    requires
        v < modulus16(),
    ensures
        digit_blocks(v, UINT16_BLOCKS as nat).len() == UINT16_BLOCKS,
        clean(digit_blocks(v, UINT16_BLOCKS as nat)),
        blocks_value(digit_blocks(v, UINT16_BLOCKS as nat)) == v,
{
    crate::radix::lemma_digit_clean(v, UINT16_BLOCKS as nat);
    crate::radix::lemma_digit_value(v, UINT16_BLOCKS as nat);
    vstd::arithmetic::div_mod::lemma_small_mod(v, modulus16());
}

/// Clean blocks can be carry-propagated exactly and stand for less than `2^16`.
pub proof fn lemma_u16_ok(x: EncryptedU16, id: int)
    requires
        u16_ok(x, id),
    ensures
        propagatable(uint16_blocks(x)),
        crate::radix::well_formed(uint16_blocks(x)),
        u16_value(x) < modulus16(),
{
    let bs = uint16_blocks(x);
    assert forall|i: int| 0 <= i < bs.len() implies (#[trigger] bs[i]).0 <= bs[i].1 && bs[i].0
        <= 15 && bs[i].0 < 4 by {
        assert(bs[i].0 <= bs[i].1 && bs[i].1 <= 3);
    }
    crate::radix::lemma_clean_propagatable(bs);
    crate::radix::lemma_value_below_modulus(bs);
}

// ----------------------------------------------------------------------------
// Matching
// ----------------------------------------------------------------------------

/// The sum of the first `i` entries, modulo `2^16`.
pub open spec fn prefix_sum16(vals: Seq<nat>, i: int) -> nat {
    crate::matching::prefix_total(vals, i) % modulus16()
}

/// Sums the orders of `xs` into a fresh trivial zero, wrapping around `2^16`.
fn sum_orders(xs: &Vec<EncryptedU16>, server_key: &Uint16ServerKey) -> (r: EncryptedU16)
    requires
        all_u16_ok(xs@, server_key.id()),
    ensures
        u16_ok(r, server_key.id()),
        u16_value(r) == total(u16_values(xs@)) % modulus16(),
{
    let ghost id = server_key.id();
    let ghost vals = u16_values(xs@);
    let mut acc = trivial_u16_zero(server_key);
    proof {
        lemma_modulus16();
        crate::radix::lemma_zero_value(UINT16_BLOCKS as nat);
        assert(vals.take(0) =~= Seq::<nat>::empty());
        let z = uint16_blocks(acc);
        assert forall|j: int| 0 <= j < z.len() implies (#[trigger] z[j]).0 <= z[j].1 && z[j].1
            <= 3 by {}
    }
    for i in 0..xs.len()
        invariant
            id == server_key.id(),
            vals == u16_values(xs@),
            all_u16_ok(xs@, id),
            u16_ok(acc, id),
            u16_value(acc) == prefix_sum16(vals, i as int),
    {
        proof {
            assert(u16_ok(xs@[i as int], id));
            lemma_u16_ok(xs@[i as int], id);
            lemma_u16_ok(acc, id);
        }
        let ghost before = u16_value(acc);
        acc = add_u16(server_key, acc, &xs[i]);
        proof {
            lemma_modulus16();
            let v = (before + vals[i as int]) % modulus16();
            lemma_digits16(v);
            crate::matching::lemma_prefix_step(vals, i as int);
            vstd::arithmetic::div_mod::lemma_add_mod_noop(
                crate::matching::prefix_total(vals, i as int) as int,
                vals[i as int] as int,
                modulus16() as int,
            );
            vstd::arithmetic::div_mod::lemma_mod_twice(vals[i as int] as int, modulus16() as int);
            lemma_u16_ok(xs@[i as int], id);
            vstd::arithmetic::div_mod::lemma_small_mod(vals[i as int], modulus16());
        }
    }
    proof {
        crate::matching::lemma_prefix_full(vals);
    }
    acc
}

/// What settling the orders of a side in list order against `vol` leaves:
/// every order of the key pair `id`, on clean blocks, filled greedily.
pub open spec fn settled_side(
    before: Seq<EncryptedU16>,
    after: Seq<EncryptedU16>,
    vol: nat,
    id: int,
) -> bool {
    &&& after.len() == before.len()
    &&& all_u16_ok(after, id)
    &&& u16_values(after) == greedy_fill(u16_values(before), vol)
}

/// Settles the orders of `xs` in list order against the volume left `left`:
/// each order becomes the smaller of what it asks and what is left, and what is
/// left shrinks by that much.
fn settle_orders(xs: &mut Vec<EncryptedU16>, left: EncryptedU16, server_key: &Uint16ServerKey)
    requires
        all_u16_ok(old(xs)@, server_key.id()),
        u16_ok(left, server_key.id()),
    ensures
        settled_side(old(xs)@, final(xs)@, u16_value(left), server_key.id()),
{
    let ghost id = server_key.id();
    let ghost orig = xs@;
    let ghost v = u16_values(orig);
    let ghost vol = u16_value(left);
    let ghost g = greedy_fill(v, vol);
    let mut left = left;
    proof {
        lemma_modulus16();
        lemma_u16_ok(left, id);
        crate::matching::lemma_greedy_len(v, vol);
        assert(g.take(0) =~= Seq::<nat>::empty());
    }
    let len = xs.len();
    for i in 0..len
        invariant
            len == orig.len(),
            id == server_key.id(),
            v == u16_values(orig),
            g == greedy_fill(v, vol),
            g.len() == orig.len(),
            vol < modulus16(),
            xs.len() == orig.len(),
            all_u16_ok(orig, id),
            forall|j: int| 0 <= j < xs.len() ==> u16_ok(#[trigger] xs@[j], id),
            forall|j: int| 0 <= j < i ==> #[trigger] u16_value(xs@[j]) == g[j],
            forall|j: int| i <= j < xs.len() ==> #[trigger] xs@[j] == orig[j],
            u16_ok(left, id),
            u16_value(left) == sub_floor(vol, total(g.take(i as int))),
    {
        proof {
            assert(u16_ok(xs@[i as int], id));
            lemma_u16_ok(xs@[i as int], id);
            lemma_u16_ok(left, id);
            crate::matching::lemma_greedy_step(v, vol, i as int);
            assert(v[i as int] == u16_value(orig[i as int]));
            vstd::arithmetic::div_mod::lemma_small_mod(u16_value(xs@[i as int]), modulus16());
            vstd::arithmetic::div_mod::lemma_small_mod(u16_value(left), modulus16());
        }
        let x = min_u16(server_key, &xs[i], &left);
        let ghost fill = min_of(v[i as int], u16_value(left));
        proof {
            lemma_digits16(fill);
            vstd::arithmetic::div_mod::lemma_small_mod(fill, modulus16());
        }
        let ghost lv = u16_value(left);
        xs.set(i, x);
        proof {
            assert(u16_ok(xs@[i as int], id));
            lemma_u16_ok(xs@[i as int], id);
        }
        left = sub_u16(server_key, left, &xs[i]);
        proof {
            let d = (lv % modulus16() + modulus16() - fill % modulus16()) as nat % modulus16();
            assert(d == (lv - fill) as nat) by {
                vstd::arithmetic::div_mod::lemma_mod_add_multiples_vanish(
                    (lv - fill) as int,
                    modulus16() as int,
                );
                vstd::arithmetic::div_mod::lemma_small_mod((lv - fill) as nat, modulus16());
            }
            lemma_digits16(d);
            assert(g[i as int] == fill);
        }
    }
    proof {
        assert forall|j: int| 0 <= j < xs@.len() implies #[trigger] u16_values(xs@)[j] == g[j] by {}
        assert(u16_values(xs@) =~= g);
    }
}

/// Matches the sell orders `s` with the buy orders `b`: both are summed
/// (wrapping around `2^16`), the traded volume is the smaller sum, and the
/// orders of each side are settled in list order against it.
pub fn volume_match(
    s: &mut Vec<EncryptedU16>,
    b: &mut Vec<EncryptedU16>,
    server_key: &Uint16ServerKey,
)
    requires
        all_u16_ok(old(s)@, server_key.id()),
        all_u16_ok(old(b)@, server_key.id()),
    ensures
        settled_side(
            old(s)@,
            final(s)@,
            traded_volume(u16_values(old(s)@), u16_values(old(b)@), modulus16()),
            server_key.id(),
        ),
        settled_side(
            old(b)@,
            final(b)@,
            traded_volume(u16_values(old(s)@), u16_values(old(b)@), modulus16()),
            server_key.id(),
        ),
{
    let ghost id = server_key.id();
    let sell_vol = sum_orders(s, server_key);
    let buy_vol = sum_orders(b, server_key);
    proof {
        lemma_modulus16();
        lemma_u16_ok(sell_vol, id);
        lemma_u16_ok(buy_vol, id);
        vstd::arithmetic::div_mod::lemma_small_mod(u16_value(sell_vol), modulus16());
        vstd::arithmetic::div_mod::lemma_small_mod(u16_value(buy_vol), modulus16());
    }
    let sell_vol = min_u16(server_key, &sell_vol, &buy_vol);
    let buy_vol = clone_u16(&sell_vol);
    proof {
        let vol = traded_volume(u16_values(s@), u16_values(b@), modulus16());
        lemma_digits16(vol);
    }
    settle_orders(s, sell_vol, server_key);
    settle_orders(b, buy_vol, server_key);
}

/// The entries of `v` as naturals.
pub open spec fn as_nats16(v: Seq<u16>) -> Seq<nat> {
    Seq::new(v.len(), |i: int| v[i] as nat)
}

/// What a run leaves of the plain orders: each replaced by what it gets when
/// the sell orders `s` and the buy orders `b` are matched on 16-bit integers.
pub open spec fn run_post(
    s_before: Seq<u16>,
    b_before: Seq<u16>,
    s_after: Seq<u16>,
    b_after: Seq<u16>,
) -> bool {
    let vol = traded_volume(as_nats16(s_before), as_nats16(b_before), modulus16());
    &&& as_nats16(s_after) == greedy_fill(as_nats16(s_before), vol)
    &&& as_nats16(b_after) == greedy_fill(as_nats16(b_before), vol)
}

/// Encrypts every entry of `clear` (the first `count` of them).
pub fn encrypt_all_u16(client_key: &Uint16ClientKey, clear: &Vec<u16>, count: usize) -> (r: Vec<
    EncryptedU16,
>)
    requires
        count <= clear.len(),
    ensures
        all_u16_ok(r@, client_key.id()),
        u16_values(r@) == as_nats16(clear@.take(count as int)),
{
    let mut r: Vec<EncryptedU16> = Vec::new();
    for i in 0..count
        invariant
            count <= clear.len(),
            r.len() == i,
            all_u16_ok(r@, client_key.id()),
            forall|j: int| 0 <= j < i ==> #[trigger] u16_value(r@[j]) == clear@[j] as nat,
    {
        let x = encrypt_u16(client_key, clear[i]);
        proof {
            lemma_modulus16();
            lemma_digits16(clear@[i as int] as nat);
        }
        r.push(x);
    }
    assert(u16_values(r@) =~= as_nats16(clear@.take(count as int)));
    r
}

/// Decrypts every entry of `cts` into the entry of `clear` at the same index.
pub fn decrypt_all_u16(client_key: &Uint16ClientKey, cts: &Vec<EncryptedU16>, clear: &mut Vec<u16>)
    requires
        cts.len() == old(clear).len(),
    ensures
        final(clear).len() == old(clear).len(),
        all_u16_ok(cts@, client_key.id()) ==> as_nats16(final(clear)@) == u16_values(cts@),
{
    let ghost ok = all_u16_ok(cts@, client_key.id());
    for i in 0..cts.len()
        invariant
            cts.len() == clear.len(),
            ok == all_u16_ok(cts@, client_key.id()),
            ok ==> forall|j: int| 0 <= j < i ==> #[trigger] clear@[j] as nat == u16_value(cts@[j]),
    {
        proof {
            if ok {
                assert(u16_ok(cts@[i as int], client_key.id()));
                lemma_u16_ok(cts@[i as int], client_key.id());
                vstd::arithmetic::div_mod::lemma_small_mod(u16_value(cts@[i as int]), modulus16());
            }
        }
        let v = decrypt_u16(client_key, &cts[i]);
        clear.set(i, v);
    }
    proof {
        if ok {
            assert(as_nats16(clear@) =~= u16_values(cts@));
        }
    }
}

/// Generates keys with 16-bit integers enabled, encrypts the sell orders
/// `s_clear` and the buy orders `b_clear`, matches them, and writes the
/// results back in place. The number of blocks is fixed by the type; the last
/// argument is not used.
#[allow(non_snake_case)]
pub fn run(s_clear: &mut Vec<u16>, b_clear: &mut Vec<u16>, _NUM_BLOCK: usize)
    requires
        old(b_clear).len() == old(s_clear).len(),
    ensures
        final(s_clear).len() == old(s_clear).len(),
        final(b_clear).len() == old(b_clear).len(),
        run_post(old(s_clear)@, old(b_clear)@, final(s_clear)@, final(b_clear)@),
{
    let (client_key, server_key) = generate_uint16_keys();
    let count = s_clear.len();
    let mut s = encrypt_all_u16(&client_key, s_clear, count);
    let mut b = encrypt_all_u16(&client_key, b_clear, count);
    proof {
        assert(s_clear@.take(count as int) =~= s_clear@);
        assert(b_clear@.take(count as int) =~= b_clear@);
    }
    volume_match(&mut s, &mut b, &server_key);
    decrypt_all_u16(&client_key, &s, s_clear);
    decrypt_all_u16(&client_key, &b, b_clear);
}

} // verus!
