use fastbloom::FilterError;
use fastbloom::vec::BloomBitVec;
use fastbloom::vec::CountingVec;

#[test]
fn test_vec() {
    let mut vec = BloomBitVec::new(16);
    vec.set(37);
    vec.set(38);
    println!("{:?}", vec);
    assert_eq!(vec.get(37), true);
    assert_eq!(vec.get(38), true);
}

#[test]
fn test_count_vec() {
    let mut vec = CountingVec::new(10);
    vec.increment(7);

    assert_eq!(1, vec.get(7))
}

#[test]
fn get_and_set_reports_prior_value() {
    let mut vec = BloomBitVec::new(1);
    assert_eq!(vec.get_and_set(5), false);
    assert_eq!(vec.get_and_set(5), true);
    assert_eq!(vec.get(5), true);
    assert_eq!(vec.get(4), false);
}

#[test]
fn or_is_word_wise_union() {
    let mut a = BloomBitVec::new(2);
    let mut b = BloomBitVec::new(2);
    a.set(0);
    a.set(70);
    b.set(1);
    assert_eq!(a.or(&b), Ok(()));
    assert_eq!(a.get(0), true);
    assert_eq!(a.get(1), true);
    assert_eq!(a.get(70), true);
    assert_eq!(a.get(2), false);
}

#[test]
fn and_is_word_wise_intersection() {
    let mut a = BloomBitVec::new(2);
    let mut b = BloomBitVec::new(2);
    a.set(0);
    a.set(70);
    b.set(70);
    b.set(3);
    assert_eq!(a.and(&b), Ok(()));
    assert_eq!(a.get(70), true);
    assert_eq!(a.get(0), false);
    assert_eq!(a.get(3), false);
}

#[test]
fn or_and_reject_different_word_counts() {
    let mut a = BloomBitVec::new(2);
    let b = BloomBitVec::new(3);
    assert_eq!(a.or(&b), Err(FilterError::IncompatibleSize));
    assert_eq!(a.and(&b), Err(FilterError::IncompatibleSize));
    // the failed calls changed nothing
    assert_eq!(a.get(0), false);
}

#[test]
fn clear_unsets_all_bits() {
    let mut vec = BloomBitVec::new(4);
    vec.set(0);
    vec.set(130);
    vec.clear();
    assert_eq!(vec.get(0), false);
    assert_eq!(vec.get(130), false);
}

#[test]
fn is_empty_counts_words_not_bits() {
    let vec = BloomBitVec::new(4);
    assert_eq!(vec.is_empty(), false);
    let none = BloomBitVec::new(0);
    assert_eq!(none.is_empty(), true);
}

#[test]
fn counters_saturate_at_fifteen() {
    let mut vec = CountingVec::new(1);
    for _ in 0..20 {
        vec.increment(3);
    }
    assert_eq!(vec.get(3), 15);
}

#[test]
fn decrement_stops_at_zero() {
    let mut vec = CountingVec::new(1);
    vec.decrement(2);
    assert_eq!(vec.get(2), 0);
    vec.increment(2);
    vec.decrement(2);
    vec.decrement(2);
    assert_eq!(vec.get(2), 0);
}

#[test]
fn increment_preserves_neighbouring_counters() {
    let mut vec = CountingVec::new(2);
    vec.increment(0);
    vec.increment(0);
    vec.increment(0);
    vec.increment(1);
    vec.increment(17);
    assert_eq!(vec.get(0), 3);
    assert_eq!(vec.get(1), 1);
    assert_eq!(vec.get(2), 0);
    assert_eq!(vec.get(15), 0);
    assert_eq!(vec.get(16), 0);
    assert_eq!(vec.get(17), 1);
}

#[test]
fn count_clear_resets_all_counters() {
    let mut vec = CountingVec::new(2);
    vec.increment(0);
    vec.increment(20);
    vec.clear();
    assert_eq!(vec.get(0), 0);
    assert_eq!(vec.get(20), 0);
}
