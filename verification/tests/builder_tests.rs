use fastbloom::builder::FilterBuilder;
use fastbloom::builder::align_to_word;
use fastbloom::builder::optimal_k;
use fastbloom::builder::optimal_n;

/// The raw (unaligned) optimal bit count `ceil(-n * ln(p) / (ln 2)^2)`,
/// computed with floating point as capacity planning does before handing
/// the result to the library's word alignment.
fn raw_optimal_m(n: u64, p: f64) -> u64 {
    let fact = -(n as f64) * p.ln();
    let div = 2f64.ln().powi(2);
    (fact / div).ceil() as u64
}

#[test]
fn optimal_test() {
    let m = align_to_word(raw_optimal_m(100_000_000, 0.01));
    let k = optimal_k(100_000_000, m);
    let n = optimal_n(k, m);
    println!("{m} {k} {n}");
    assert_eq!(m, 958505856);
    assert_eq!(k, 7)
}

#[test]
fn align_rounds_up_to_word_multiples() {
    assert_eq!(align_to_word(0), 0);
    assert_eq!(align_to_word(1), 64);
    assert_eq!(align_to_word(64), 64);
    assert_eq!(align_to_word(65), 128);
    assert_eq!(align_to_word(958505838), 958505856);
}

#[test]
fn optimal_n_exact_value() {
    assert_eq!(optimal_n(7, 958505856), 94912234);
}

#[test]
fn from_size_and_hashes_back_computes_elements() {
    let builder = FilterBuilder::from_size_and_hashes(958505856, 7);
    assert_eq!(builder.size, 958505856);
    assert_eq!(builder.hashes, 7);
    assert_eq!(builder.expected_elements, optimal_n(7, 958505856));
    assert!(builder.enable_repeat_insert);
}

#[test]
fn repeat_insert_toggle() {
    let mut builder = FilterBuilder::from_size_and_hashes(1024, 3);
    assert!(builder.enable_repeat_insert);
    builder.enable_repeat_insert(false);
    assert!(!builder.enable_repeat_insert);
    assert_eq!(builder.size, 1024);
    assert_eq!(builder.hashes, 3);
}

#[test]
fn compatibility_needs_equal_size_and_hashes() {
    let a = FilterBuilder::from_size_and_hashes(1024, 3);
    let b = FilterBuilder::from_size_and_hashes(1024, 3);
    let c = FilterBuilder::from_size_and_hashes(2048, 3);
    let d = FilterBuilder::from_size_and_hashes(1024, 4);
    assert!(a.is_compatible_to(&b));
    assert!(!a.is_compatible_to(&c));
    assert!(!a.is_compatible_to(&d));
}
