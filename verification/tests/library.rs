use num_bigint::BigUint;
use rexgen::{
    anchors_in_place, analysis_wanted, analyze, format_binary, is_yes, is_yes_word, min_positive_len, report_for, Amount, Bound,
    ByteSize, Corpus, Emit, Error, Generate, GenerationControl, GenerationOrder,
    GenerationRequest, LengthConstraints, Natural, Node, Parsed, Pattern, Recorder, Report, Unsupported, is_unique,
};

fn tree(pattern: &str) -> Node {
    Parsed::parse(pattern).unwrap().tree
}

fn constraints(min: usize, max: Option<usize>) -> LengthConstraints {
    LengthConstraints { min, max }
}

fn big(n: &Natural) -> BigUint {
    BigUint::new(n.digits().to_vec())
}

fn finite(amount: Amount) -> BigUint {
    match amount {
        Amount::Finite(n) => big(&n),
        Amount::Infinite => panic!("expected finite amount"),
    }
}

fn request() -> GenerationRequest {
    GenerationRequest {
        limit: None,
        max_total_bytes: None,
        start_string: None,
        stop_string: None,
        reverse_strings: false,
        order: GenerationOrder::Default,
    }
}

struct Collect(Vec<String>);

impl Emit for Collect {
    fn emit(&mut self, s: &str) -> GenerationControl {
        self.0.push(s.to_string());
        GenerationControl::Continue
    }
}

fn generated(pattern: &str, c: LengthConstraints, req: GenerationRequest) -> Result<Vec<String>, Error> {
    let corpus = Corpus::new(pattern, c)?;
    let mut sink = Recorder::new(Collect(Vec::new()));
    corpus.generate(&req, &mut sink)?;
    Ok(sink.sink.0)
}

#[test]
fn natural_arithmetic_is_exact() {
    let a = Natural::from_usize(1 << 40);
    let b = Natural::from_usize(3);
    assert_eq!(big(&a.add(&b)), BigUint::from((1u64 << 40) + 3));
    assert_eq!(big(&a.mul(&a)), BigUint::from(1u128 << 80));
    assert_eq!(big(&a.div(&b)), BigUint::from((1u64 << 40) / 3));
    assert!(a.ge(&b));
    assert!(!b.ge(&a));
    assert_eq!(a.mul(&a).to_decimal(), "1208925819614629174706176");
    assert_eq!(Natural::zero().to_decimal(), "0");
    assert_eq!(big(&Natural::one()), BigUint::from(1u8));
    assert_eq!(big(&b.copy()), BigUint::from(3u8));
}

#[test]
fn amounts_display_in_decimal() {
    assert_eq!(Amount::Finite(Natural::from_usize(14)).display(), "14");
    assert_eq!(Amount::Infinite.display(), "infinite");
}

#[test]
fn binary_sizes_pick_the_largest_unit() {
    assert_eq!(format_binary(&Natural::from_usize(0)), "0 B");
    assert_eq!(format_binary(&Natural::from_usize(1023)), "1023 B");
    assert_eq!(format_binary(&Natural::from_usize(1024)), "1 KiB");
    assert_eq!(format_binary(&Natural::from_usize(1536)), "1 KiB");
    assert_eq!(format_binary(&Natural::from_usize(5 << 20)), "5 MiB");
    let huge = Natural::from_usize(1 << 60).mul(&Natural::from_usize(1 << 10));
    assert_eq!(format_binary(&huge), "1024 EiB");
}

#[test]
fn byte_sizes_read_units() {
    assert_eq!(ByteSize::parse("4b"), Some(ByteSize(4)));
    assert_eq!(ByteSize::parse("10"), Some(ByteSize(10)));
    assert_eq!(ByteSize::parse("1KiB"), Some(ByteSize(1024)));
    assert_eq!(ByteSize::parse("2MB"), Some(ByteSize(2_000_000)));
    assert_eq!(ByteSize::parse("3gigabytes"), Some(ByteSize(3_000_000_000)));
    assert_eq!(ByteSize::parse("1mebibyte"), Some(ByteSize(1 << 20)));
    assert_eq!(ByteSize::parse(""), None);
    assert_eq!(ByteSize::parse("KiB"), None);
    assert_eq!(ByteSize::parse("4xb"), None);
    assert_eq!(ByteSize::parse("99999999999999999999999999"), None);
}

#[test]
fn confirmation_accepts_yes_only() {
    assert!(is_yes("y\n"));
    assert!(is_yes("  YES "));
    assert!(is_yes("Yes"));
    assert!(!is_yes("no"));
    assert!(!is_yes("yess"));
    assert!(!is_yes(""));
}

#[test]
fn report_follows_the_flags() {
    assert_eq!(report_for(true, false), Report::Count);
    assert_eq!(report_for(false, true), Report::Size);
    assert_eq!(report_for(true, true), Report::Both);
    assert_eq!(report_for(false, false), Report::Both);
    assert!(analysis_wanted(false, false, false));
    assert!(!analysis_wanted(true, false, false));
    assert!(analysis_wanted(true, true, false));
}

#[test]
fn constraints_reject_min_above_max() {
    assert!(constraints(3, Some(2)).validate().is_err());
    assert!(constraints(2, Some(2)).validate().is_ok());
    assert!(constraints(9, None).validate().is_ok());
    let err = Corpus::new("a", constraints(3, Some(2))).err().unwrap();
    assert!(matches!(err, Error::MinExceedsMax));
    assert_eq!(err.message(), "--min-len cannot exceed --max-len");
}

#[test]
fn invalid_patterns_are_refused() {
    let err = Corpus::new("(", constraints(0, None)).err().unwrap();
    assert!(matches!(err, Error::Regex(_)));
    assert!(err.message().starts_with("regex compile error: "));
    assert!(err.message().len() > "regex compile error: ".len());
    let err = Parsed::parse("(").err().unwrap();
    assert!(matches!(err, Error::Parse(_)));
    assert!(err.message().starts_with("regex parse error: "));
    assert!(err.message().len() > "regex parse error: ".len());
}

#[test]
fn parsing_reports_the_shortest_match() {
    assert_eq!(Parsed::parse("ab|c{2,3}").unwrap().minimum_len, Some(2));
    assert_eq!(Parsed::parse("ab|c").unwrap().minimum_len, Some(1));
    assert_eq!(Parsed::parse("x{3}").unwrap().minimum_len, Some(3));
}

#[test]
fn byte_classes_count_ascii_and_refuse_other_bytes() {
    let stats = analyze(&tree("(?-u:[a-c])"), &constraints(0, None)).unwrap();
    assert_eq!(finite(stats.count), BigUint::from(3u8));
    let err = analyze(&Node::ByteClass(vec![(0x61, 0x62), (0x80, 0xff)]), &constraints(0, None)).err().unwrap();
    assert!(matches!(err, Error::Unsupported(Unsupported::NonUtf8ByteClass)));
    assert_eq!(err.message(), "unsupported regex feature: non-UTF-8 byte classes");
}

#[test]
fn counts_large_corpora_exactly() {
    let stats = analyze(&tree("[ab]{64}"), &constraints(0, None)).unwrap();
    assert_eq!(finite(stats.count), BigUint::from(1u128 << 64));
    assert_eq!(finite(stats.total_bytes), BigUint::from(64u128 << 64));
    let stats = analyze(&tree("."), &constraints(0, None)).unwrap();
    assert_eq!(finite(stats.count), BigUint::from(1_112_063u32));
}

#[test]
fn shortest_positive_length() {
    assert_eq!(min_positive_len(&tree("a{0,3}|bcd"), 10).unwrap(), 1);
    assert_eq!(min_positive_len(&tree("xyz"), 10).unwrap(), 3);
    let err = min_positive_len(&tree(""), 10).err().unwrap();
    assert!(matches!(err, Error::Unsupported(Unsupported::UnboundedEmptyRepetition)));
}

#[test]
fn byte_size_lies_within_length_bounds() {
    let stats = analyze(&tree("[ab]{1,3}"), &constraints(2, Some(3))).unwrap();
    let count = finite(stats.count);
    let total = finite(stats.total_bytes);
    assert_eq!(count, BigUint::from(12u8));
    assert_eq!(total, BigUint::from(32u8));
    assert!(BigUint::from(2u8) * &count <= total);
    assert!(total <= BigUint::from(3u8) * &count);
}

#[test]
fn compaction_merges_equal_lengths() {
    let stats = analyze(&tree("ab|cd|e|fg"), &constraints(0, None)).unwrap();
    assert_eq!(finite(stats.count), BigUint::from(4u8));
    assert_eq!(finite(stats.total_bytes), BigUint::from(7u8));
}

#[test]
fn generation_needs_a_length_bound_for_unbounded_repetition() {
    let err = generated("a*", constraints(0, None), request()).err().unwrap();
    assert!(matches!(err, Error::Unsupported(Unsupported::UnboundedGeneration)));
    let mut req = request();
    req.limit = Some(3);
    assert_eq!(generated("a*", constraints(0, None), req).unwrap(), vec!["", "a", "aa"]);
}

#[test]
fn generation_respects_length_constraints() {
    let out = generated("[ab]{1,3}", constraints(2, Some(2)), request()).unwrap();
    assert_eq!(out, vec!["aa", "ab", "ba", "bb"]);
}

#[test]
fn generation_count_matches_analysis() {
    let corpus = Corpus::new("[ab]{1,3}|c", constraints(0, None)).unwrap();
    let stats = corpus.analyze().unwrap();
    let out = corpus.emission(&request()).unwrap();
    assert_eq!(finite(stats.count), BigUint::from(out.len()));
    let total: usize = out.iter().map(|s| s.len()).sum();
    assert_eq!(finite(stats.total_bytes), BigUint::from(total));
}

#[test]
fn generation_limit_and_byte_cap() {
    let mut req = request();
    req.limit = Some(3);
    let out = generated("[abc]{2}", constraints(0, None), req).unwrap();
    assert_eq!(out, vec!["aa", "ab", "ac"]);
    let mut req = request();
    req.max_total_bytes = Some(Natural::from_usize(5));
    let out = generated("[abc]{2}", constraints(0, None), req).unwrap();
    assert_eq!(out, vec!["aa", "ab"]);
}

#[test]
fn generation_encodes_unicode_classes() {
    let out = generated("[é-ê]x", constraints(0, None), request()).unwrap();
    assert_eq!(out, vec!["éx", "êx"]);
}

#[test]
fn inverted_order_varies_the_first_part_fastest() {
    let mut req = request();
    req.order = GenerationOrder::Inverted;
    let out = generated("[ab][cd]", constraints(0, None), req).unwrap();
    assert_eq!(out, vec!["ac", "bc", "ad", "bd"]);
}

#[test]
fn repetition_walks_depth_first() {
    let out = generated("[ab]{1,3}", constraints(0, None), request()).unwrap();
    assert_eq!(
        out,
        vec!["a", "aa", "aaa", "aab", "ab", "aba", "abb", "b", "ba", "baa", "bab", "bb", "bba", "bbb"]
    );
}

#[test]
fn bound_errors_name_the_bound() {
    let mut req = request();
    req.stop_string = Some("zz".to_string());
    let err = generated("[ab]{2}", constraints(0, None), req).err().unwrap();
    assert!(matches!(err, Error::BoundMismatch(Bound::Stop)));
    assert_eq!(err.message(), "stop string must match the pattern");
    let mut req = request();
    req.start_string = Some("a".to_string());
    let err = generated("a|bb", constraints(2, None), req).err().unwrap();
    assert!(matches!(err, Error::BoundLength(Bound::Start)));
    assert_eq!(err.message(), "start string must satisfy length constraints");
}

#[test]
fn generator_lists_candidates() {
    let g = Generate::new();
    let out = g.generate(&tree("a|bc"), &constraints(2, None), GenerationOrder::Default).unwrap();
    assert_eq!(out, vec!["bc"]);
}

#[test]
fn new_pattern_is_unset() {
    let p = Pattern::new();
    assert!(p.kind.is_none());
    assert!(p.data.is_none());
}

#[test]
fn bounded_repetition_of_an_infinite_pattern_is_infinite() {
    let corpus = Corpus::new("(?:a*){2}", constraints(0, None)).unwrap();
    let stats = corpus.analyze().unwrap();
    assert!(matches!(stats.count, Amount::Infinite));
    assert!(matches!(stats.total_bytes, Amount::Infinite));
    let corpus = Corpus::new("(?:a*){0}", constraints(0, None)).unwrap();
    let stats = corpus.analyze().unwrap();
    assert_eq!(finite(stats.count), BigUint::from(1u8));
}

#[test]
fn a_limit_keeps_a_finite_corpus_whole() {
    let mut req = request();
    req.limit = Some(1);
    assert_eq!(generated("abcd|e", constraints(0, None), req).unwrap(), vec!["abcd"]);
}

struct StopAfter {
    out: Vec<String>,
    left: usize,
}

impl Emit for StopAfter {
    fn emit(&mut self, s: &str) -> GenerationControl {
        self.out.push(s.to_string());
        self.left -= 1;
        if self.left == 0 { GenerationControl::Stop } else { GenerationControl::Continue }
    }
}

#[test]
fn the_sink_receives_the_emission_up_to_its_stop() {
    let corpus = Corpus::new("[abc]", constraints(0, None)).unwrap();
    let mut sink = Recorder::new(StopAfter { out: Vec::new(), left: 2 });
    corpus.generate(&request(), &mut sink).unwrap();
    assert_eq!(sink.sink.out, vec!["a", "b"]);
    let mut req = request();
    req.start_string = Some(String::from("z"));
    let mut sink = Recorder::new(StopAfter { out: vec![String::from("x")], left: 2 });
    assert!(corpus.generate(&req, &mut sink).is_err());
    assert_eq!(sink.sink.out, vec!["x"]);
}

#[test]
fn concatenation_multiplies_and_alternation_adds_counts() {
    let stats = analyze(&tree("[ab][cde]"), &constraints(0, None)).unwrap();
    assert_eq!(finite(stats.count), BigUint::from(6u8));
    let stats = analyze(&tree("a|b|cd"), &constraints(0, None)).unwrap();
    assert_eq!(finite(stats.count), BigUint::from(3u8));
    assert_eq!(finite(stats.total_bytes), BigUint::from(4u8));
}

#[test]
fn yes_words_after_trimming() {
    assert!(is_yes("\u{3000} Yes\u{85}"));
    assert!(is_yes_word("yEs"));
    assert!(!is_yes_word(" y"));
}

#[test]
fn patterns_deriving_a_string_twice_are_refused() {
    let err = analyze(&tree("ab|ab"), &constraints(0, None)).err().unwrap();
    assert!(matches!(err, Error::Unsupported(Unsupported::AmbiguousPattern)));
    let err = analyze(&tree("a*a*"), &constraints(0, Some(3))).err().unwrap();
    assert!(matches!(err, Error::Unsupported(Unsupported::AmbiguousPattern)));
    let err = analyze(&tree("(?:a|aa)*"), &constraints(0, Some(4))).err().unwrap();
    assert!(matches!(err, Error::Unsupported(Unsupported::AmbiguousPattern)));
    assert!(!is_unique(&tree("x|[a-z]")));
    assert!(is_unique(&tree("[a-z]*[0-9]")));
    assert!(is_unique(&tree("(?:ab|cd){2,3}")));
    let stats = analyze(&tree("(?:ab|cd){2,3}"), &constraints(0, None)).unwrap();
    assert_eq!(finite(stats.count), BigUint::from(12u8));
    let stats = analyze(&tree("[a-z]*[0-9]"), &constraints(0, Some(2))).unwrap();
    assert_eq!(finite(stats.count), BigUint::from(270u16));
}

#[test]
fn accepted_patterns_generate_each_string_once() {
    let corpus = Corpus::new("(?:ab|cd){2,3}|x[ab]", constraints(0, Some(6))).unwrap();
    let stats = corpus.analyze().unwrap();
    let out = corpus.emission(&request()).unwrap();
    let mut sorted = out.clone();
    sorted.sort();
    sorted.dedup();
    assert_eq!(sorted.len(), out.len());
    assert_eq!(finite(stats.count), BigUint::from(out.len()));
}

#[test]
fn assertions_that_may_fail_are_refused() {
    let err = analyze(&tree(r"a\bb"), &constraints(0, None)).err().unwrap();
    assert!(matches!(err, Error::Unsupported(Unsupported::LookAround)));
    let err = analyze(&tree("a^b"), &constraints(0, None)).err().unwrap();
    assert!(matches!(err, Error::Unsupported(Unsupported::LookAround)));
    let err = generated(r"a\bb", constraints(0, None), request()).err().unwrap();
    assert!(matches!(err, Error::Unsupported(Unsupported::LookAround)));
    let stats = analyze(&tree("^(?:ab|c)$"), &constraints(0, None)).unwrap();
    assert_eq!(finite(stats.count), BigUint::from(2u8));
    assert!(anchors_in_place(&tree("(?m)^a|^b$"), true, true));
    assert!(!anchors_in_place(&tree("(?:^a)*"), true, true));
    assert_eq!(generated("^[ab]$", constraints(0, None), request()).unwrap(), vec!["a", "b"]);
}

#[test]
fn concatenation_bytes_and_part_order() {
    let ab = analyze(&tree("[ab][cde]"), &constraints(0, None)).unwrap();
    let ba = analyze(&tree("[cde][ab]"), &constraints(0, None)).unwrap();
    assert_eq!(finite(ab.total_bytes), BigUint::from(12u8));
    assert_eq!(finite(ba.count), BigUint::from(6u8));
    let x = analyze(&tree("a|bc"), &constraints(0, None)).unwrap();
    let y = analyze(&tree("bc|a"), &constraints(0, None)).unwrap();
    assert_eq!(finite(x.total_bytes), finite(y.total_bytes));
    let r = analyze(&tree("[ab]{1,2}"), &constraints(0, Some(2))).unwrap();
    assert_eq!(finite(r.count), BigUint::from(6u8));
}

#[test]
fn emission_is_a_cut_of_the_candidates() {
    let mut req = request();
    req.start_string = Some(String::from("ab"));
    req.limit = Some(2);
    assert_eq!(generated("[ab]{2}", constraints(0, None), req).unwrap(), vec!["ab", "ba"]);
}
