use volume_match::driver::{fillWithRandom, fillWithRandomu64, zeros};

#[test]
fn zeros_has_requested_length() {
    let v = zeros(5);
    assert_eq!(v, vec![0u64; 5]);
}

#[test]
fn random_orders_stay_below_max() {
    let mut s = zeros(20);
    let mut b = zeros(7);
    fillWithRandomu64(&mut s, &mut b, 10);
    assert_eq!(s.len(), 20);
    assert_eq!(b.len(), 7);
    assert!(s.iter().all(|&x| x < 10));
    assert!(b.iter().all(|&x| x < 10));
}

#[test]
fn random_u16_orders_stay_below_max() {
    let mut s = vec![0u16; 9];
    let mut b = vec![0u16; 3];
    fillWithRandom(&mut s, &mut b, 1);
    assert_eq!(s, vec![0u16; 9]);
    assert_eq!(b, vec![0u16; 3]);
}

#[test]
fn empty_order_lists_need_no_bound() {
    let mut s: Vec<u64> = Vec::new();
    let mut b: Vec<u64> = Vec::new();
    fillWithRandomu64(&mut s, &mut b, 0);
    assert!(s.is_empty());
    assert!(b.is_empty());
    let mut s16: Vec<u16> = Vec::new();
    let mut b16: Vec<u16> = Vec::new();
    fillWithRandom(&mut s16, &mut b16, 0);
    assert!(s16.is_empty());
    assert!(b16.is_empty());
}

#[test]
fn random_orders_take_more_than_one_value() {
    let mut s = zeros(200);
    let mut b = zeros(200);
    fillWithRandomu64(&mut s, &mut b, 2);
    assert!(s.iter().chain(b.iter()).any(|&x| x == 0));
    assert!(s.iter().chain(b.iter()).any(|&x| x == 1));
    assert!(s.iter().chain(b.iter()).all(|&x| x < 2));
}

#[test]
fn zeros_of_length_zero_is_empty() {
    assert!(zeros(0).is_empty());
}

#[test]
fn a_maximum_of_zero_makes_every_order_zero() {
    let mut s = zeros(6);
    let mut b = zeros(4);
    fillWithRandomu64(&mut s, &mut b, 0);
    assert_eq!(s, vec![0u64; 6]);
    assert_eq!(b, vec![0u64; 4]);
    let mut s16 = vec![7u16; 5];
    let mut b16 = vec![9u16; 2];
    fillWithRandom(&mut s16, &mut b16, 0);
    assert_eq!(s16, vec![0u16; 5]);
    assert_eq!(b16, vec![0u16; 2]);
}
