use enargeia::double::{pad, show_tenths, Double};

fn double(x: f64) -> Double {
    Double { bits: x.to_bits() }
}

#[test]
fn fixed_places_round_half_to_even_on_exact_ties() {
    assert_eq!(double(0.125).to_fixed(2), "0.12");
    assert_eq!(double(0.375).to_fixed(2), "0.38");
    assert_eq!(double(0.8).to_fixed(2), "0.80");
    assert_eq!(double(-14.8771).to_fixed(3), "-14.877");
}

#[test]
fn fixed_places_agree_with_the_standard_formatter() {
    for x in [
        0.0, -0.0, 1.0, 0.05, 0.15, 0.25, 0.35, 0.5, 0.855, 0.865, 0.9999, 12.345, 99.95, 1e-9,
        123456.789, 0.3f32 as f64, 2.5, -2.5, 1e15, -0.0004,
    ] {
        assert_eq!(double(x).to_fixed(1), format!("{x:.1}"));
        assert_eq!(double(x).to_fixed(2), format!("{x:.2}"));
        assert_eq!(double(x).to_fixed(3), format!("{x:.3}"));
    }
}

#[test]
fn comparisons_follow_the_numbers() {
    let (low, high) = (double(-1.5), double(2.25));
    assert!(high.at_least(low) && !low.at_least(high));
    assert!(high.above(low) && !high.above(high));
    assert!(high.at_least(high));
    assert!(double(0.0).at_least(double(-0.0)) && double(-0.0).at_least(double(0.0)));
    assert_eq!(low.max(high).bits, high.bits);
    assert_eq!(double(1.75).clamp(double(0.0), double(1.0)).bits, double(1.0).bits);
    assert_eq!(double(-0.5).clamp(double(0.0), double(1.0)).bits, double(0.0).bits);
    assert_eq!(double(0.4).clamp(double(0.0), double(1.0)).bits, double(0.4).bits);
}

#[test]
fn tenths_of_millionths() {
    assert_eq!(show_tenths(2_500_000, true), "+2.5");
    assert_eq!(show_tenths(-1_500_000, true), "-1.5");
    assert_eq!(show_tenths(4_000_000, false), "4.0");
    assert_eq!(show_tenths(0, true), "+0.0");
}

#[test]
fn padding_fills_with_zeros() {
    assert_eq!(pad(7, 3), "007");
    assert_eq!(pad(0, 2), "00");
}
