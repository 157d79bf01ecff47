# volume_match

Volume matching of a dark market on encrypted order books, with TFHE
(tfhe 0.2), verified with Verus.

Sellers offer volumes, buyers ask for volumes, all encrypted. The traded
volume is the smaller of the two totals; on each side the orders are served in
list order until the traded volume is used up. Nobody sees an order in the
clear while it is matched.

## Layout

- `src/radix.rs`: the model of a radix ciphertext (blocks of 2 bits of message
  and 2 bits of carry), the integer it stands for, and lemmas on it.
- `src/fhe.rs`: the calls into tfhe's integer API, each with a contract over
  that model, and the law that decryption reads back what encryption wrote.
- `src/matching.rs`: what matching computes on plain numbers (greedy fills,
  fills from prefix sums) and its laws.
- `src/full_paral.rs`, `src/integer_u16_paral.rs`,
  `src/integer_padded_paral.rs`, `src/integer_paral.rs`, `src/high_api.rs`,
  `src/integer_impl.rs`: the matching algorithms on encrypted integers, each
  proved to compute the fills of `matching.rs`.
- `src/plain_impl.rs`, `src/high_api_impl.rs`: small drivers of the 16-bit API.
- `src/driver.rs`: random order books and the run of the prefix-sum matching.
- `app/`: the command-line programs, timing and the log file.
- `tests/`: tests of the parts that run without key generation.
