use vstd::prelude::*;

pub mod radix;
pub mod fhe;
pub mod matching;
pub mod full_paral;
pub mod driver;
pub mod random;
pub mod integer_u16_paral;
pub mod integer_padded_paral;
pub mod high_api;
pub mod high_api_impl;
pub mod plain_impl;
pub mod integer_impl;
pub mod integer_paral;

verus! {

} // verus!
