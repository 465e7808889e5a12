use num_bigint::BigUint;
use rexgen::{analyze, Amount, LengthConstraints, Node, Parsed};

fn hir(pattern: &str) -> Node {
    Parsed::parse(pattern).unwrap().tree
}

fn constraints(min: usize, max: Option<usize>) -> LengthConstraints {
    LengthConstraints { min, max }
}

fn finite(amount: Amount) -> BigUint {
    match amount {
        Amount::Finite(n) => BigUint::new(n.digits().to_vec()),
        Amount::Infinite => panic!("expected finite amount"),
    }
}

#[test]
fn counts_literals_alternation_and_classes() {
    let stats = analyze(&hir("a|bc|[de]"), &constraints(0, None)).unwrap();
    assert_eq!(finite(stats.count), BigUint::from(4u8));
    assert_eq!(finite(stats.total_bytes), BigUint::from(5u8));
}

#[test]
fn counts_bounded_repetition() {
    let stats = analyze(&hir("a{2,4}"), &constraints(0, None)).unwrap();
    assert_eq!(finite(stats.count), BigUint::from(3u8));
    assert_eq!(finite(stats.total_bytes), BigUint::from(9u8));
}

#[test]
fn counts_unicode_bytes() {
    let stats = analyze(&hir("é|a"), &constraints(0, None)).unwrap();
    assert_eq!(finite(stats.count), BigUint::from(2u8));
    assert_eq!(finite(stats.total_bytes), BigUint::from(3u8));
}

#[test]
fn reports_unbounded_repetition_as_infinite() {
    let stats = analyze(&hir("a*"), &constraints(0, None)).unwrap();
    assert!(matches!(stats.count, Amount::Infinite));
    assert!(matches!(stats.total_bytes, Amount::Infinite));
}

#[test]
fn length_filters_bound_unbounded_repetition() {
    let stats = analyze(&hir("a*"), &constraints(1, Some(3))).unwrap();
    assert_eq!(finite(stats.count), BigUint::from(3u8));
    assert_eq!(finite(stats.total_bytes), BigUint::from(6u8));
}
