//! Repeated minimum of two encrypted 16-bit integers.
use vstd::prelude::*;
use crate::high_api::{
    decrypt_u16, encrypt_u16, generate_uint16_keys, lemma_digits16, lemma_modulus16, lemma_u16_ok,
    min_u16, u16_ok, u16_value,
};
use crate::matching::min_of;

verus! {

/// Encrypts `clear_a` and `clear_b`, replaces the first by the smaller of the
/// two `rounds` times, and decrypts both.
pub fn min_rounds(clear_a: u16, clear_b: u16, rounds: usize) -> (r: (u16, u16))
    ensures
        r.0 == (if rounds == 0 {
            clear_a
        } else {
            min_of(clear_a as nat, clear_b as nat) as u16
        }),
        r.1 == clear_b,
{
    let (client_key, server_key) = generate_uint16_keys();
    let mut a = encrypt_u16(&client_key, clear_a);
    let b = encrypt_u16(&client_key, clear_b);
    proof {
        lemma_modulus16();
        lemma_digits16(clear_a as nat);
        lemma_digits16(clear_b as nat);
    }
    for i in 0..rounds
        invariant
            u16_ok(a, server_key.id()),
            u16_ok(b, server_key.id()),
            client_key.id() == server_key.id(),
            u16_value(b) == clear_b,
            u16_value(a) == (if i == 0 {
                clear_a as nat
            } else {
                min_of(clear_a as nat, clear_b as nat)
            }),
    {
        proof {
            lemma_u16_ok(a, server_key.id());
            lemma_u16_ok(b, server_key.id());
            vstd::arithmetic::div_mod::lemma_small_mod(u16_value(a), 65536);
            vstd::arithmetic::div_mod::lemma_small_mod(u16_value(b), 65536);
            lemma_modulus16();
        }
        let ghost av = u16_value(a);
        a = min_u16(&server_key, &a, &b);
        proof {
            lemma_modulus16();
            assert(min_of(av % 65536, clear_b as nat % 65536) == min_of(
                clear_a as nat,
                clear_b as nat,
            ));
            lemma_digits16(min_of(clear_a as nat, clear_b as nat));
        }
    }
    proof {
        lemma_u16_ok(a, server_key.id());
        lemma_u16_ok(b, server_key.id());
        vstd::arithmetic::div_mod::lemma_small_mod(u16_value(a), 65536);
        vstd::arithmetic::div_mod::lemma_small_mod(u16_value(b), 65536);
    }
    let ra = decrypt_u16(&client_key, &a);
    let rb = decrypt_u16(&client_key, &b);
    (ra, rb)
}

} // verus!
