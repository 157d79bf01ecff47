use volume_match::driver::NUM_BLOCK;
use volume_match::high_api::UINT16_BLOCKS;
use volume_match::integer_impl;
use volume_match::integer_padded_paral::SUB_CORRECTION;
use volume_match::integer_paral::LIMB_BLOCKS;
use volume_match::integer_u16_paral::MAXLISTLENGTH;

#[test]
fn the_driver_matches_on_twice_its_plain_blocks() {
    assert_eq!(NUM_BLOCK, 4);
}

#[test]
fn ten_orders_take_part_in_the_sequential_matching() {
    assert_eq!(MAXLISTLENGTH, 10);
    assert_eq!(integer_impl::MAXLISTLENGTH, 10);
}

#[test]
fn the_standalone_matching_uses_eight_blocks_and_small_orders() {
    assert_eq!(integer_impl::NUM_BLOCK, 8);
    assert_eq!(integer_impl::MAXVALUE, 10);
}

#[test]
fn the_padded_correction_is_four_to_the_fourth() {
    assert_eq!(SUB_CORRECTION, 4u64.pow(4));
}

#[test]
fn sixteen_bit_integers_have_eight_two_bit_blocks() {
    assert_eq!(UINT16_BLOCKS * 2, 16);
}

#[test]
fn a_pair_of_limbs_holds_sixteen_bits() {
    assert_eq!(2 * LIMB_BLOCKS * 2, 16);
}
