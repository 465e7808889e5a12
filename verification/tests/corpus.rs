use num_bigint::BigUint;
use rexgen::{
    Amount, Corpus, Emit, Error, GenerationControl, GenerationOrder, GenerationRequest,
    LengthConstraints, Natural, Recorder,
};

fn constraints(min: usize, max: Option<usize>) -> LengthConstraints {
    LengthConstraints { min, max }
}

fn request(limit: Option<u64>, max_total_bytes: Option<u64>) -> GenerationRequest {
    GenerationRequest {
        limit,
        max_total_bytes: max_total_bytes.map(|n| Natural::from_usize(n as usize)),
        start_string: None,
        stop_string: None,
        reverse_strings: false,
        order: GenerationOrder::Default,
    }
}

struct Collect {
    out: Vec<String>,
    control: GenerationControl,
}

impl Emit for Collect {
    fn emit(&mut self, s: &str) -> GenerationControl {
        self.out.push(s.to_string());
        self.control
    }
}

fn generate_strings(
    pattern: &str,
    constraints: LengthConstraints,
    request: GenerationRequest,
) -> Result<Vec<String>, Error> {
    let corpus = Corpus::new(pattern, constraints)?;
    let mut sink = Recorder::new(Collect { out: Vec::new(), control: GenerationControl::Continue });
    corpus.generate(&request, &mut sink)?;
    Ok(sink.sink.out)
}

fn finite(amount: Amount) -> BigUint {
    match amount {
        Amount::Finite(n) => BigUint::new(n.digits().to_vec()),
        Amount::Infinite => panic!("expected finite amount"),
    }
}

#[test]
fn analyzes_literals_alternation_and_classes() {
    let corpus = Corpus::new("a|bc|[de]", constraints(0, None)).unwrap();
    let stats = corpus.analyze().unwrap();
    assert_eq!(finite(stats.count), BigUint::from(4u8));
    assert_eq!(finite(stats.total_bytes), BigUint::from(5u8));
}

#[test]
fn analyzes_bounded_unbounded_repetition() {
    let corpus = Corpus::new("a*", constraints(1, Some(3))).unwrap();
    let stats = corpus.analyze().unwrap();
    assert_eq!(finite(stats.count), BigUint::from(3u8));
    assert_eq!(finite(stats.total_bytes), BigUint::from(6u8));
}

#[test]
fn reports_unbounded_corpus_as_infinite() {
    let corpus = Corpus::new("a*", constraints(0, None)).unwrap();
    let stats = corpus.analyze().unwrap();
    assert!(matches!(stats.count, Amount::Infinite));
    assert!(matches!(stats.total_bytes, Amount::Infinite));
}

#[test]
fn generates_match_strings_in_regex_order() {
    let corpus = Corpus::new("a|b{1,2}", constraints(0, None)).unwrap();
    let mut sink = Recorder::new(Collect { out: Vec::new(), control: GenerationControl::Continue });
    corpus.generate(&request(None, None), &mut sink).unwrap();
    assert_eq!(sink.sink.out, vec!["a", "b", "bb"]);
}

#[test]
fn generation_caps_do_not_change_analysis() {
    let corpus = Corpus::new("[ab]{1,3}", constraints(0, None)).unwrap();
    let stats = corpus.analyze().unwrap();

    let mut sink = Recorder::new(Collect { out: Vec::new(), control: GenerationControl::Continue });
    corpus.generate(&request(Some(2), Some(4)), &mut sink).unwrap();

    assert_eq!(finite(stats.count), BigUint::from(14u8));
    assert_eq!(sink.sink.out, vec!["a", "aa"]);
}

#[test]
fn generation_callback_can_stop_emission() {
    let corpus = Corpus::new("[ab]{1,2}", constraints(0, None)).unwrap();
    let mut sink = Recorder::new(Collect { out: Vec::new(), control: GenerationControl::Stop });
    corpus.generate(&request(None, None), &mut sink).unwrap();
    assert_eq!(sink.sink.out, vec!["a"]);
}

#[test]
fn generation_can_start_at_match_string() {
    let mut req = request(None, None);
    req.start_string = Some("ba".to_string());

    let out = generate_strings("[ab]{2}", constraints(0, None), req).unwrap();
    assert_eq!(out, vec!["ba", "bb"]);
}

#[test]
fn generation_can_stop_at_match_string() {
    let mut req = request(None, None);
    req.stop_string = Some("ba".to_string());

    let out = generate_strings("[ab]{2}", constraints(0, None), req).unwrap();
    assert_eq!(out, vec!["aa", "ab", "ba"]);
}

#[test]
fn generation_can_start_and_stop_at_match_strings() {
    let mut req = request(None, None);
    req.start_string = Some("ab".to_string());
    req.stop_string = Some("ba".to_string());

    let out = generate_strings("[ab]{2}", constraints(0, None), req).unwrap();
    assert_eq!(out, vec!["ab", "ba"]);
}

#[test]
fn generation_rejects_bounds_outside_pattern() {
    let mut req = request(None, None);
    req.start_string = Some("ca".to_string());

    let err = generate_strings("[ab]{2}", constraints(0, None), req).unwrap_err();
    assert!(err.message().contains("must match the pattern"));
}

#[test]
fn generation_rejects_bounds_outside_length_constraints() {
    let mut req = request(None, None);
    req.stop_string = Some("a".to_string());

    let err = generate_strings("[ab]{1,2}", constraints(2, None), req).unwrap_err();
    assert!(err.message().contains("must satisfy length constraints"));
}

#[test]
fn generation_can_reverse_emitted_strings() {
    let mut req = request(None, None);
    req.reverse_strings = true;

    let out = generate_strings("ab|éx", constraints(0, None), req).unwrap();
    assert_eq!(out, vec!["ba", "xé"]);
}

#[test]
fn generation_reverse_does_not_change_analysis() {
    let corpus = Corpus::new("ab|cd", constraints(0, None)).unwrap();
    let stats = corpus.analyze().unwrap();

    let mut req = request(None, None);
    req.reverse_strings = true;
    let out = generate_strings("ab|cd", constraints(0, None), req).unwrap();

    assert_eq!(finite(stats.count), BigUint::from(2u8));
    assert_eq!(finite(stats.total_bytes), BigUint::from(4u8));
    assert_eq!(out, vec!["ba", "dc"]);
}

#[test]
fn generation_can_invert_fixed_repetition_order() {
    let mut req = request(None, None);
    req.order = GenerationOrder::Inverted;

    let out = generate_strings("[ab]{2}", constraints(0, None), req).unwrap();
    assert_eq!(out, vec!["aa", "ba", "ab", "bb"]);
}
