//! Volume matching of ten sell and ten buy orders on 8-block integers,
//! settling the orders of each side in list order.
use vstd::prelude::*;
use crate::fhe::{Ciphertext, FheServerKey, all_keyed, ct_values, decrypt, generate_keys, keyed, settled};
use crate::full_paral::{
    as_nats, encrypt_all, entries_mod, lemma_operand_facts, lemma_propagated_facts, operands,
};
use crate::integer_u16_paral::{matched_in_order, operands_upto};
use crate::matching::{greedy_fill, traded_volume};
use crate::radix::pow4;

verus! {

/// The number of orders of each side.
pub const MAXLISTLENGTH: usize = 10;

/// The bound below which the random orders are drawn.
pub const MAXVALUE: u64 = 10;

/// The number of blocks of the encrypted integers.
pub const NUM_BLOCK: usize = 8;

/// Matches the first `MAXLISTLENGTH` sell orders of `s` with the first
/// `MAXLISTLENGTH` buy orders of `b`, all encrypted on `NUM_BLOCK` blocks, as
/// `integer_u16_paral::volume_match` does.
fn volume_match(s: &mut Vec<Ciphertext>, b: &mut Vec<Ciphertext>, server_key: &FheServerKey)
    requires
        operands_upto(old(s)@, MAXLISTLENGTH as nat, NUM_BLOCK as nat, server_key.id()),
        operands_upto(old(b)@, MAXLISTLENGTH as nat, NUM_BLOCK as nat, server_key.id()),
    ensures
        matched_in_order(
            old(s)@,
            old(b)@,
            old(s)@,
            final(s)@,
            MAXLISTLENGTH as nat,
            NUM_BLOCK as nat,
            server_key.id(),
        ),
        matched_in_order(
            old(s)@,
            old(b)@,
            old(b)@,
            final(b)@,
            MAXLISTLENGTH as nat,
            NUM_BLOCK as nat,
            server_key.id(),
        ),
{
    crate::integer_u16_paral::volume_match(s, b, server_key, NUM_BLOCK / 2)
}

/// What a run leaves of the ten sell and ten buy orders: every order but the
/// first of each side replaced by what it gets, the first ones untouched.
pub open spec fn run_post(
    s_before: Seq<u64>,
    b_before: Seq<u64>,
    s_after: Seq<u64>,
    b_after: Seq<u64>,
) -> bool {
    let m = pow4(NUM_BLOCK as nat);
    let sv = entries_mod(s_before, m);
    let bv = entries_mod(b_before, m);
    let vol = traded_volume(sv, bv, m);
    &&& s_after.len() == s_before.len()
    &&& b_after.len() == b_before.len()
    &&& s_after[0] == s_before[0]
    &&& b_after[0] == b_before[0]
    &&& forall|i: int|
        1 <= i < MAXLISTLENGTH ==> #[trigger] s_after[i] as nat == greedy_fill(sv, vol)[i]
            && b_after[i] as nat == greedy_fill(bv, vol)[i]
}

/// Generates keys for `NUM_BLOCK`-block integers, encrypts the ten sell orders
/// `s_clear` and the ten buy orders `b_clear`, matches them, and writes every
/// result but the first of each side back in place.
pub fn run(s_clear: &mut Vec<u64>, b_clear: &mut Vec<u64>)
    requires
        old(s_clear).len() == MAXLISTLENGTH,
        old(b_clear).len() == MAXLISTLENGTH,
    ensures
        run_post(old(s_clear)@, old(b_clear)@, final(s_clear)@, final(b_clear)@),
{
    let (client_key, server_key) = generate_keys(NUM_BLOCK);
    let ghost n = NUM_BLOCK as nat;
    let ghost id = server_key.id();
    let mut s = encrypt_all(&client_key, s_clear, MAXLISTLENGTH);
    let mut b = encrypt_all(&client_key, b_clear, MAXLISTLENGTH);
    let ghost s0 = s@;
    let ghost b0 = b@;
    proof {
        assert(operands_upto(s0, MAXLISTLENGTH as nat, n, id)) by {
            assert forall|i: int| 0 <= i < MAXLISTLENGTH implies crate::fhe::operand(
                #[trigger] s0[i],
                n,
            ) && keyed(s0[i], id) by {
                assert(operands(s0, n));
            }
        }
        assert(operands_upto(b0, MAXLISTLENGTH as nat, n, id)) by {
            assert forall|i: int| 0 <= i < MAXLISTLENGTH implies crate::fhe::operand(
                #[trigger] b0[i],
                n,
            ) && keyed(b0[i], id) by {
                assert(operands(b0, n));
            }
        }
    }
    volume_match(&mut s, &mut b, &server_key);
    let ghost m = pow4(n);
    let ghost vol = traded_volume(
        ct_values(s0).take(MAXLISTLENGTH as int),
        ct_values(b0).take(MAXLISTLENGTH as int),
        m,
    );
    proof {
        assert(s_clear@.take(MAXLISTLENGTH as int) =~= s_clear@);
        assert(b_clear@.take(MAXLISTLENGTH as int) =~= b_clear@);
        assert(ct_values(s0).take(MAXLISTLENGTH as int) =~= ct_values(s0));
        assert(ct_values(b0).take(MAXLISTLENGTH as int) =~= ct_values(b0));
        assert(ct_values(s@).take(MAXLISTLENGTH as int) =~= ct_values(s@));
        assert(ct_values(b@).take(MAXLISTLENGTH as int) =~= ct_values(b@));
        assert(n <= 32);
    }
    for i in 1..MAXLISTLENGTH
        invariant
            n == NUM_BLOCK as nat,
            n <= 32,
            m == pow4(n),
            client_key.id() == id,
            s@.len() == MAXLISTLENGTH,
            b@.len() == MAXLISTLENGTH,
            s_clear.len() == MAXLISTLENGTH,
            b_clear.len() == MAXLISTLENGTH,
            s_clear@[0] == old(s_clear)@[0],
            b_clear@[0] == old(b_clear)@[0],
            forall|j: int|
                0 <= j < MAXLISTLENGTH ==> crate::full_paral::propagated(#[trigger] s@[j], n)
                    && keyed(s@[j], id),
            forall|j: int|
                0 <= j < MAXLISTLENGTH ==> crate::full_paral::propagated(#[trigger] b@[j], n)
                    && keyed(b@[j], id),
            forall|j: int|
                1 <= j < i ==> #[trigger] s_clear@[j] as nat == crate::fhe::ct_value(s@[j])
                    && b_clear@[j] as nat == crate::fhe::ct_value(b@[j]),
    {
        proof {
            assert(crate::full_paral::propagated(s@[i as int], n));
            assert(crate::full_paral::propagated(b@[i as int], n));
            lemma_propagated_facts(s@[i as int], n);
            lemma_propagated_facts(b@[i as int], n);
            crate::full_paral::lemma_settled_propagatable(s@[i as int], n);
            crate::full_paral::lemma_settled_propagatable(b@[i as int], n);
            vstd::arithmetic::div_mod::lemma_small_mod(crate::fhe::ct_value(s@[i as int]), m);
            vstd::arithmetic::div_mod::lemma_small_mod(crate::fhe::ct_value(b@[i as int]), m);
            assert(crate::fhe::decrypted_blocks(n) == n);
        }
        let vs = decrypt(&client_key, &s[i]);
        let vb = decrypt(&client_key, &b[i]);
        proof {
            assert(vs as nat == crate::fhe::ct_value(s@[i as int]));
            assert(vb as nat == crate::fhe::ct_value(b@[i as int]));
        }
        s_clear.set(i, vs);
        b_clear.set(i, vb);
    }
    proof {
        let sv = entries_mod(old(s_clear)@, m);
        let bv = entries_mod(old(b_clear)@, m);
        assert(old(s_clear)@.take(MAXLISTLENGTH as int) =~= old(s_clear)@);
        assert(old(b_clear)@.take(MAXLISTLENGTH as int) =~= old(b_clear)@);
        assert(ct_values(s0) == sv);
        assert(ct_values(b0) == bv);
        assert(vol == traded_volume(sv, bv, m));
        assert(ct_values(s@) == greedy_fill(sv, vol));
        assert(ct_values(b@) == greedy_fill(bv, vol));
        assert forall|i: int| 1 <= i < MAXLISTLENGTH implies #[trigger] s_clear@[i] as nat
            == greedy_fill(sv, vol)[i] && b_clear@[i] as nat == greedy_fill(bv, vol)[i] by {
            assert(ct_values(s@)[i] == crate::fhe::ct_value(s@[i]));
            assert(ct_values(b@)[i] == crate::fhe::ct_value(b@[i]));
            assert(s_clear@[i] as nat == crate::fhe::ct_value(s@[i]));
            assert(b_clear@[i] as nat == crate::fhe::ct_value(b@[i]));
        }
        assert(s_clear@[0] == old(s_clear)@[0]);
        assert(b_clear@[0] == old(b_clear)@[0]);
        assert(s_clear@.len() == old(s_clear)@.len());
        assert(b_clear@.len() == old(b_clear)@.len());
        assert(m == pow4(NUM_BLOCK as nat));
        assert(run_post(old(s_clear)@, old(b_clear)@, s_clear@, b_clear@));
    }
}

} // verus!
