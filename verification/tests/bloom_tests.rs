use fastbloom::FilterError;
use fastbloom::builder::FilterBuilder;

#[test]
fn builder_test() {
    let mut bloom = FilterBuilder::from_size_and_hashes(958505856, 7).build_bloom_filter();
    bloom.add(b"helloworld");
    assert_eq!(bloom.contains(b"helloworld"), true);
    assert_eq!(bloom.contains(b"helloworld!"), false);
}

#[test]
fn added_elements_are_contained() {
    let mut bloom = FilterBuilder::from_size_and_hashes(1024, 3).build_bloom_filter();
    let elements: [&[u8]; 4] = [b"", b"a", b"some longer element", b"\x00\xff\x00"];
    for e in elements {
        bloom.add(e);
    }
    for e in elements {
        assert!(bloom.contains(e));
    }
}

#[test]
fn add_reports_novelty() {
    let mut bloom = FilterBuilder::from_size_and_hashes(1024, 3).build_bloom_filter();
    assert!(bloom.add(b"first"));
    assert!(!bloom.add(b"first"));
}

#[test]
fn clear_forgets_added_elements() {
    let mut bloom = FilterBuilder::from_size_and_hashes(1024, 3).build_bloom_filter();
    bloom.add(b"one");
    bloom.add(b"two");
    bloom.clear();
    assert!(!bloom.contains(b"one"));
    assert!(!bloom.contains(b"two"));
}

#[test]
fn union_and_intersect_reject_different_configurations() {
    let mut small = FilterBuilder::from_size_and_hashes(1024, 3).build_bloom_filter();
    let large = FilterBuilder::from_size_and_hashes(2048, 3).build_bloom_filter();
    let other_hashes = FilterBuilder::from_size_and_hashes(1024, 4).build_bloom_filter();
    assert_eq!(small.union(&large), Err(FilterError::ConfigurationMismatch));
    assert_eq!(small.intersect(&large), Err(FilterError::ConfigurationMismatch));
    assert_eq!(small.union(&other_hashes), Err(FilterError::ConfigurationMismatch));
    assert_eq!(small.intersect(&other_hashes), Err(FilterError::ConfigurationMismatch));
}

#[test]
fn union_of_compatible_filters_merges_elements() {
    let builder = FilterBuilder::from_size_and_hashes(1024, 3);
    let mut a = builder.build_bloom_filter();
    let mut b = builder.build_bloom_filter();
    a.add(b"left");
    b.add(b"right");
    assert_eq!(a.union(&b), Ok(()));
    assert!(a.contains(b"left"));
    assert!(a.contains(b"right"));
}

#[test]
fn intersect_of_compatible_filters_keeps_common_elements() {
    let builder = FilterBuilder::from_size_and_hashes(1024, 3);
    let mut a = builder.build_bloom_filter();
    let mut b = builder.build_bloom_filter();
    a.add(b"left");
    a.add(b"common");
    b.add(b"right");
    b.add(b"common");
    assert_eq!(a.intersect(&b), Ok(()));
    assert!(a.contains(b"common"));
}

#[test]
fn counting_filter_without_repeat_insert() {
    let mut builder = FilterBuilder::from_size_and_hashes(100352, 7);
    builder.enable_repeat_insert(false);
    let mut cbf = builder.build_counting_bloom_filter();
    cbf.add(b"hello");
    cbf.add(b"hello");
    assert_eq!(cbf.contains(b"hello"), true);
    cbf.remove(b"hello");
    assert_eq!(cbf.contains(b"hello"), false);
}

#[test]
fn counting_filter_with_repeat_insert() {
    let mut builder = FilterBuilder::from_size_and_hashes(100352, 7);
    builder.enable_repeat_insert(true);
    let mut cbf = builder.build_counting_bloom_filter();
    cbf.add(b"hello");
    cbf.add(b"hello");
    assert_eq!(cbf.contains(b"hello"), true);
    cbf.remove(b"hello");
    assert_eq!(cbf.contains(b"hello"), true);
    cbf.remove(b"hello");
    assert_eq!(cbf.contains(b"hello"), false);
}

#[test]
fn counting_add_reports_whether_counters_changed() {
    let mut builder = FilterBuilder::from_size_and_hashes(1024, 3);
    builder.enable_repeat_insert(false);
    let mut once = builder.build_counting_bloom_filter();
    assert!(once.add(b"x"));
    assert!(!once.add(b"x"));
    builder.enable_repeat_insert(true);
    let mut many = builder.build_counting_bloom_filter();
    assert!(many.add(b"x"));
    assert!(many.add(b"x"));
}

#[test]
fn removing_an_absent_element_changes_nothing() {
    let mut cbf = FilterBuilder::from_size_and_hashes(1024, 3).build_counting_bloom_filter();
    assert!(!cbf.remove(b"never added"));
    assert!(!cbf.contains(b"never added"));
    cbf.add(b"kept");
    assert!(!cbf.remove(b"never added"));
    assert!(cbf.contains(b"kept"));
}

#[test]
fn counting_clear_forgets_added_elements() {
    let mut cbf = FilterBuilder::from_size_and_hashes(1024, 3).build_counting_bloom_filter();
    cbf.add(b"one");
    cbf.add(b"two");
    cbf.clear();
    assert!(!cbf.contains(b"one"));
    assert!(!cbf.contains(b"two"));
}

#[test]
fn filters_expose_their_configuration() {
    let builder = FilterBuilder::from_size_and_hashes(1024, 3);
    let bloom = builder.build_bloom_filter();
    assert_eq!(bloom.size(), 1024);
    assert_eq!(bloom.hashes(), 3);
    assert_eq!(bloom.expected_elements(), builder.expected_elements);
    assert_eq!(bloom.config(), builder);
    let cbf = builder.build_counting_bloom_filter();
    assert_eq!(cbf.size(), 1024);
    assert_eq!(cbf.hashes(), 3);
    assert!(cbf.repeat_insert_enabled());
}
