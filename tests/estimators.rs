use geomean_trainer::estimate::{EstimateGeometricMean, GeometricMeanError};
use geomean_trainer::fixed::Fixed;
use geomean_trainer::log_linear::{
    convert_from_log_linear, convert_to_log_linear, log_linear_approximation, LogLinearApproximation,
    ENCODING_SCALE,
};
use geomean_trainer::table_based::{
    find_forward_table_entry, log_representation_to_number, number_to_log_representation,
    table_based_approximation, TableBasedApproximation,
};

fn fx(x: f64) -> Fixed {
    Fixed::from_picos((x * 1e12).round() as i128)
}

fn fxs(xs: &[f64]) -> Vec<Fixed> {
    xs.iter().map(|&x| fx(x)).collect()
}

fn val(x: Fixed) -> f64 {
    x.picos as f64 / 1e12
}

/// An encoding `d.fraction` times the encoding scale, from its hundred-thousandths.
fn enc(hundred_thousandths: u128) -> u128 {
    hundred_thousandths * (ENCODING_SCALE / 100_000)
}

// Log-linear method.

#[test]
fn test_convert_to_log_linear_basic() {
    let result = convert_to_log_linear(fx(300.0));
    assert_eq!(result, enc(330_000));

    let result = convert_to_log_linear(fx(2847.0));
    assert_eq!(result, enc(428_470));

    let result = convert_to_log_linear(fx(70.0));
    assert_eq!(result, enc(270_000));
}

#[test]
fn test_convert_from_log_linear_basic() {
    let result = convert_from_log_linear(enc(375_000), 1);
    assert!((val(result) - 750.0).abs() < 1e-8);

    let result = convert_from_log_linear(enc(410_000), 1);
    assert!((val(result) - 1000.0).abs() < 1e-8);
}

#[test]
fn test_convert_from_log_linear_edge_case() {
    let result = convert_from_log_linear(enc(402_500), 1);
    assert!((val(result) - 1000.0).abs() < 1e-8);

    let result = convert_from_log_linear(enc(400_000), 1);
    assert!((val(result) - 1000.0).abs() < 1e-8);
}

#[test]
fn convert_from_log_linear_averages_its_count() {
    // 3.3 + 5.1 + 3.9 + 2.7 = 15.0 over four encodings is 3.75.
    assert_eq!(convert_from_log_linear(enc(1_500_000), 4), fx(750.0));
    // 1.35 stands for 0.35 * 10 = 3.5.
    assert_eq!(convert_from_log_linear(enc(135_000), 1), fx(3.5));
}

#[test]
fn test_log_linear_approximation_readme_example() {
    let result = log_linear_approximation(&fxs(&[300.0, 10000.0, 900.0, 70.0])).unwrap();
    assert!((val(result) - 750.0).abs() < 1e-8);
}

#[test]
fn test_log_linear_approximation_edge_case_example() {
    let result = log_linear_approximation(&fxs(&[80.0, 80.0, 80.0, 800.0])).unwrap();
    assert!((val(result) - 100.0).abs() < 1e-8);
}

#[test]
fn test_log_linear_approximation_same_digit_count() {
    let result = log_linear_approximation(&fxs(&[100.0, 200.0, 300.0])).unwrap();
    assert!((val(result) - 200.0).abs() < 1e-8);
}

#[test]
fn test_log_linear_approximation_single_value() {
    let result = log_linear_approximation(&fxs(&[500.0])).unwrap();
    assert!((val(result) - 500.0).abs() < 1e-8);
}

#[test]
fn test_log_linear_approximation_two_values() {
    let result = val(log_linear_approximation(&fxs(&[100.0, 1000.0])).unwrap());
    let expected = (100.0_f64 * 1000.0_f64).sqrt();
    assert!(result > expected / 10.0 && result < expected * 10.0);
}

#[test]
fn test_log_linear_approximation_empty_input() {
    let result = log_linear_approximation(&[]);
    assert_eq!(result, Err(GeometricMeanError::EmptyInput));
}

#[test]
fn test_log_linear_approximation_zero_value() {
    let result = log_linear_approximation(&fxs(&[1.0, 0.0, 4.0]));
    assert_eq!(result, Err(GeometricMeanError::NonPositiveValue));
}

#[test]
fn test_log_linear_approximation_negative_value() {
    let result = log_linear_approximation(&fxs(&[1.0, -2.0, 4.0]));
    assert_eq!(result, Err(GeometricMeanError::NonPositiveValue));
}

#[test]
fn test_log_linear_approximation_value_too_small() {
    let result = log_linear_approximation(&fxs(&[0.5, 2.0, 4.0]));
    assert_eq!(result, Err(GeometricMeanError::ValueTooSmall));
}

#[test]
fn test_log_linear_approximation_large_numbers() {
    let result = val(log_linear_approximation(&fxs(&[1000.0, 10000.0])).unwrap());
    let expected = (1000.0_f64 * 10000.0_f64).sqrt();
    assert!(result > expected / 10.0 && result < expected * 10.0);
}

#[test]
fn log_linear_reports_the_first_bad_value() {
    assert_eq!(log_linear_approximation(&fxs(&[0.5, -2.0])), Err(GeometricMeanError::ValueTooSmall));
    assert_eq!(log_linear_approximation(&fxs(&[-2.0, 0.5])), Err(GeometricMeanError::NonPositiveValue));
}

#[test]
fn log_linear_exact_values() {
    // [100, 1000] encode as 3.1 and 4.1; the mean 3.6 decodes to 600.
    assert_eq!(log_linear_approximation(&fxs(&[100.0, 1000.0])), Ok(fx(600.0)));
    // [2, 3] encode as 1.2 and 1.3; the mean 1.25 decodes to 2.5.
    assert_eq!(log_linear_approximation(&fxs(&[2.0, 3.0])), Ok(fx(2.5)));
    // A third is cut after twelve places: 1.1, 1.1, 1.2 average to 1.1333...
    assert_eq!(log_linear_approximation(&fxs(&[1.0, 1.0, 2.0])), Ok(Fixed::from_picos(1_333_333_333_333)));
    assert_eq!(LogLinearApproximation::estimate_geometric_mean(&fxs(&[1.5])), Ok(fx(1.5)));
}

// Table method.

#[test]
fn test_forward_conversion_readme_examples() {
    assert_eq!(number_to_log_representation(fx(2000.0)), 33);
    assert_eq!(number_to_log_representation(fx(50.0)), 17);
    assert_eq!(number_to_log_representation(fx(1250000.0)), 61);
    assert_eq!(number_to_log_representation(fx(350.0)), 25);
    assert_eq!(number_to_log_representation(fx(1400.0)), 31);
    assert_eq!(number_to_log_representation(fx(11.0)), 10);
    assert_eq!(number_to_log_representation(fx(9001.0)), 39);
}

#[test]
fn test_reverse_conversion_readme_examples() {
    assert!((val(log_representation_to_number(36)) - 4000.0).abs() < 1e-6);
    assert!((val(log_representation_to_number(28)) - 600.0).abs() < 1e-6);
    assert!((val(log_representation_to_number(72)) - 16000000.0).abs() < 1e-6);
    assert!((val(log_representation_to_number(44)) - 25000.0).abs() < 1e-6);
    assert!((val(log_representation_to_number(24)) - 250.0).abs() < 1e-6);
    assert!((val(log_representation_to_number(78)) - 60000000.0).abs() < 1e-6);
    assert!((val(log_representation_to_number(42)) - 16000.0).abs() < 1e-6);
}

#[test]
fn table_entries_and_small_codes() {
    assert_eq!(find_forward_table_entry(100), 0);
    assert_eq!(find_forward_table_entry(124), 0);
    assert_eq!(find_forward_table_entry(125), 1);
    assert_eq!(find_forward_table_entry(799), 8);
    assert_eq!(find_forward_table_entry(999), 9);
    assert_eq!(find_forward_table_entry(0), 0);
    assert_eq!(log_representation_to_number(1), fx(1.25));
    assert_eq!(log_representation_to_number(0), fx(1.0));
    assert_eq!(number_to_log_representation(fx(1.0)), 0);
    assert_eq!(number_to_log_representation(fx(1.5999)), 1);
    assert_eq!(number_to_log_representation(fx(1.6)), 2);
}

#[test]
fn test_table_based_approximation_single_value() {
    let result = TableBasedApproximation::estimate_geometric_mean(&fxs(&[500.0])).unwrap();
    assert!((val(result) - 500.0).abs() < 1e-6);
}

#[test]
fn test_table_based_approximation_error_cases() {
    assert_eq!(TableBasedApproximation::estimate_geometric_mean(&[]), Err(GeometricMeanError::EmptyInput));
    assert_eq!(
        TableBasedApproximation::estimate_geometric_mean(&fxs(&[1.0, 0.0, 4.0])),
        Err(GeometricMeanError::NonPositiveValue)
    );
    assert_eq!(
        TableBasedApproximation::estimate_geometric_mean(&fxs(&[1.0, -2.0, 4.0])),
        Err(GeometricMeanError::NonPositiveValue)
    );
    assert_eq!(
        TableBasedApproximation::estimate_geometric_mean(&fxs(&[0.5, 2.0, 4.0])),
        Err(GeometricMeanError::ValueTooSmall)
    );
}

#[test]
fn test_round_trip_conversion() {
    let test_values = vec![100.0, 1000.0, 2500.0, 9999.0];
    for value in test_values {
        let log_repr = number_to_log_representation(fx(value));
        let converted_back = val(log_representation_to_number(log_repr));
        let relative_error = (converted_back - value).abs() / value;
        assert!(relative_error < 0.5, "Round trip failed for {}: {} -> {} -> {}", value, value, log_repr, converted_back);
    }
}

#[test]
fn test_readme_table_method_case() {
    let result = val(TableBasedApproximation::estimate_geometric_mean(&fxs(&[3600.0, 920.0, 740.0])).unwrap());
    assert!((result - 1250.0).abs() < 50.0, "Expected ~1250, got {}", result);
}

#[test]
fn table_method_on_the_documented_example() {
    // 3600 -> 35, 920 -> 29, 700 -> 28: the sum 92 over three rounds up to 31.
    let result = table_based_approximation(&fxs(&[3600.0, 920.0, 700.0])).unwrap();
    assert_eq!(result, fx(1250.0));
    assert!((val(result) - 1250.0).abs() < 50.0);
}

#[test]
fn test_exact_table_boundary() {
    let result = val(TableBasedApproximation::estimate_geometric_mean(&fxs(&[1251.0])).unwrap());
    assert!((result - 1250.0).abs() < 50.0, "Expected ~1250, got {}", result);
}

#[test]
fn test_fractional_average_forcing_ceiling() {
    let input = vec![1000.0, 1000.0, 1000.0, 1000.0, 1000.0, 1000.0, 1000.0, 1000.0, 1000.0, 8000.0];
    let result = val(TableBasedApproximation::estimate_geometric_mean(&fxs(&input)).unwrap());
    assert!((result - 1250.0).abs() < 50.0, "Expected ~1250, got {}", result);
}

#[test]
fn table_method_rounds_the_average_up() {
    // Codes 30 and 31 average to 30.5, which becomes 31.
    assert_eq!(table_based_approximation(&fxs(&[1000.0, 1300.0])), Ok(fx(1250.0)));
    // The largest u64 has 20 digits and leads with 1.84: code 192, 1.6 * 10^19.
    assert_eq!(
        table_based_approximation(&[Fixed::from_whole(u64::MAX)]),
        Ok(Fixed::from_picos(16_000_000_000_000_000_000_000_000_000_000))
    );
}

#[test]
fn log_linear_same_digit_count_is_the_arithmetic_mean() {
    let cases: Vec<Vec<f64>> = vec![
        vec![1.0, 1.0, 2.0],
        vec![100.0, 200.0, 300.0, 400.0],
        vec![11.0, 12.0, 14.0],
        vec![5000.0, 7000.0, 9999.0],
        vec![123456.0],
    ];
    for values in cases {
        let mean = values.iter().sum::<f64>() / values.len() as f64;
        let result = val(log_linear_approximation(&fxs(&values)).unwrap());
        let tolerance = (mean * 1e-10).max(1e-12);
        assert!((result - mean).abs() < tolerance, "{:?}: {} against {}", values, result, mean);
    }
}
