use arb::sim::pdf::{parse_fixed, LatencyPdf, PdfError, SCALE};
use arb::sim::rng::SplitMix64;

#[test]
fn parses_canonical_example() {
    let pdf = LatencyPdf::parse("0.5,0.25,0.25").unwrap();
    assert_eq!(pdf.weight(0), 500_000_000);
    assert_eq!(pdf.weight(1), 250_000_000);
    assert_eq!(pdf.weight(2), 250_000_000);
    assert_eq!(pdf.max_delay(), 2);
}

#[test]
fn parses_always_on_time() {
    let pdf = LatencyPdf::parse("1").unwrap();
    assert_eq!(pdf.max_delay(), 0);
    assert_eq!(pdf.weight(0), SCALE);
}

#[test]
fn parses_always_one_late() {
    let pdf = LatencyPdf::parse("0,1").unwrap();
    let mut rng = SplitMix64::new(123);
    for _ in 0..1000 {
        assert_eq!(pdf.sample(&mut rng), 1);
    }
}

#[test]
fn rejects_unnormalized() {
    assert!(matches!(
        LatencyPdf::parse("0.5,0.25"),
        Err(PdfError::NotNormalized { .. })
    ));
    assert!(matches!(
        LatencyPdf::parse("0.6,0.6"),
        Err(PdfError::NotNormalized { .. })
    ));
}

#[test]
fn rejects_garbage() {
    assert!(matches!(LatencyPdf::parse(""), Err(PdfError::Empty)));
    assert!(matches!(
        LatencyPdf::parse("abc"),
        Err(PdfError::BadWeight(_))
    ));
    assert!(matches!(
        LatencyPdf::parse("-0.5,1.5"),
        Err(PdfError::BadWeight(_))
    ));
    assert!(matches!(
        LatencyPdf::parse("0.1234567891,..."),
        Err(PdfError::TooPrecise(_))
    ));
}

#[test]
fn sampling_matches_weights_statistically() {
    let pdf = LatencyPdf::parse("0.5,0.25,0.25").unwrap();
    let mut rng = SplitMix64::new(99);
    let mut counts = [0u64; 3];
    let trials = 200_000u64;
    for _ in 0..trials {
        counts[pdf.sample(&mut rng)] += 1;
    }
    // Within ~2% of the nominal split.
    let frac0 = counts[0] as f64 / trials as f64;
    let frac1 = counts[1] as f64 / trials as f64;
    let frac2 = counts[2] as f64 / trials as f64;
    assert!((frac0 - 0.5).abs() < 0.02, "frac0={frac0}");
    assert!((frac1 - 0.25).abs() < 0.02, "frac1={frac1}");
    assert!((frac2 - 0.25).abs() < 0.02, "frac2={frac2}");
}

#[test]
fn sampling_is_reproducible() {
    let pdf = LatencyPdf::parse("0.3,0.3,0.4").unwrap();
    let mut a = SplitMix64::new(2024);
    let mut b = SplitMix64::new(2024);
    let seq_a: Vec<usize> = (0..100).map(|_| pdf.sample(&mut a)).collect();
    let seq_b: Vec<usize> = (0..100).map(|_| pdf.sample(&mut b)).collect();
    assert_eq!(seq_a, seq_b);
}

#[test]
fn a_lone_dot_is_no_weight() {
    assert!(matches!(parse_fixed("."), Err(PdfError::BadWeight(s)) if s == "."));
    assert!(matches!(parse_fixed(".5"), Ok(500_000_000)));
    assert!(matches!(parse_fixed("1."), Ok(1_000_000_000)));
    assert!(matches!(parse_fixed(""), Err(PdfError::BadWeight(_))));
    assert!(matches!(parse_fixed("0.1234567891"), Err(PdfError::TooPrecise(_))));
}
