use geomean_trainer::fixed::Fixed;
use geomean_trainer::trivia::{LogStdDev, TriviaGuessDistribution, TriviaGuessDistributionError};
use rand::rngs::StdRng;
use rand::{Rng, SeedableRng};

fn fx(x: f64) -> Fixed {
    Fixed::from_picos((x * 1e12).round() as i128)
}

fn spread(x: f64) -> LogStdDev {
    LogStdDev::from_bits(x.to_bits())
}

fn dist(correct_answer: u64, log_std_dev: f64) -> TriviaGuessDistribution {
    TriviaGuessDistribution::new(correct_answer, spread(log_std_dev)).unwrap()
}

/// A log-normal draw around the distribution's answer (Box-Muller).
fn draw(d: &TriviaGuessDistribution, log_std_dev: f64, rng: &mut StdRng) -> Fixed {
    let u1: f64 = rng.gen_range(0.0..1.0);
    let u2: f64 = rng.gen_range(0.0..1.0);
    let z = (-2.0 * u1.ln()).sqrt() * (2.0 * std::f64::consts::PI * u2).cos();
    let raw = ((d.correct_answer() as f64).ln() + log_std_dev * z).exp();
    let picos = raw * 1e12;
    if picos >= i128::MAX as f64 {
        Fixed::from_picos(i128::MAX)
    } else {
        Fixed::from_picos(picos as i128)
    }
}

fn sample(d: &TriviaGuessDistribution, log_std_dev: f64, rng: &mut StdRng) -> u64 {
    if d.is_certain() {
        d.sample(Fixed::from_whole(0))
    } else {
        let x = draw(d, log_std_dev, rng);
        d.sample(x)
    }
}

#[test]
fn test_constructor_valid_inputs() {
    let dist = TriviaGuessDistribution::new(100, spread(1.0)).unwrap();
    assert_eq!(dist.correct_answer(), 100);
    assert_eq!(dist.log_std_dev(), spread(1.0));
    assert!(((dist.correct_answer() as f64).ln() - (100.0_f64).ln()).abs() < 1e-10);
}

#[test]
fn test_constructor_zero_correct_answer() {
    let result = TriviaGuessDistribution::new(0, spread(1.0));
    assert_eq!(result, Err(TriviaGuessDistributionError::InvalidCorrectAnswer));
}

#[test]
fn test_constructor_negative_log_std_dev() {
    let result = TriviaGuessDistribution::new(100, spread(-1.0));
    assert_eq!(result, Err(TriviaGuessDistributionError::InvalidLogStdDev));
}

#[test]
fn test_constructor_nan_log_std_dev() {
    let result = TriviaGuessDistribution::new(100, spread(f64::NAN));
    assert_eq!(result, Err(TriviaGuessDistributionError::InvalidLogStdDev));
}

#[test]
fn test_constructor_infinite_log_std_dev() {
    let result = TriviaGuessDistribution::new(100, spread(f64::INFINITY));
    assert_eq!(result, Err(TriviaGuessDistributionError::InvalidLogStdDev));
}

#[test]
fn test_constructor_too_large_log_std_dev() {
    let result = TriviaGuessDistribution::new(100, spread(51.0));
    assert_eq!(result, Err(TriviaGuessDistributionError::LogStdDevTooLarge));
}

#[test]
fn test_constructor_boundary_log_std_dev() {
    let result = TriviaGuessDistribution::new(100, spread(50.0));
    assert!(result.is_ok());

    let result = TriviaGuessDistribution::new(100, spread(0.0));
    assert!(result.is_ok());
}

#[test]
fn constructor_checks_answer_before_spread() {
    assert_eq!(
        TriviaGuessDistribution::new(0, spread(f64::NAN)),
        Err(TriviaGuessDistributionError::InvalidCorrectAnswer)
    );
    assert_eq!(
        TriviaGuessDistribution::new(5, spread(f64::NEG_INFINITY)),
        Err(TriviaGuessDistributionError::InvalidLogStdDev)
    );
    assert!(TriviaGuessDistribution::new(5, spread(-0.0)).is_ok());
    assert!(TriviaGuessDistribution::new(5, spread(-0.0)).unwrap().is_certain());
    assert_eq!(
        TriviaGuessDistribution::new(5, spread(50.000001)),
        Err(TriviaGuessDistributionError::LogStdDevTooLarge)
    );
}

#[test]
fn test_basic_sampling() {
    let mut rng = StdRng::seed_from_u64(42);
    let dist = dist(1000, 0.5);

    let sample = sample(&dist, 0.5, &mut rng);
    assert!(sample > 0);
}

#[test]
fn test_perfect_certainty_deterministic() {
    let mut rng = StdRng::seed_from_u64(42);
    let dist = dist(1000, 0.0);

    let sample1 = sample(&dist, 0.0, &mut rng);
    let sample2 = sample(&dist, 0.0, &mut rng);
    let sample3 = sample(&dist, 0.0, &mut rng);

    assert_eq!(sample1, sample2);
    assert_eq!(sample2, sample3);
}

#[test]
fn certain_sample_ignores_the_draw() {
    let dist = dist(1024, 0.0);
    assert_eq!(dist.sample(fx(3.0)), 1000);
    assert_eq!(dist.sample(fx(987654.0)), 1000);
    assert_eq!(dist.sample(fx(987654.0)), dist.round_to_trivia_value(fx(1024.0)));
}

#[test]
fn uncertain_sample_rounds_the_draw() {
    let dist = dist(1000, 1.0);
    assert_eq!(dist.sample(fx(102.0)), 100);
    assert_eq!(dist.sample(fx(103.0)), 105);
}

#[test]
fn test_rounding_first_digit_1_basic() {
    let dist = dist(100, 0.0);

    assert_eq!(dist.round_to_trivia_value(fx(100.0)), 100);
    assert_eq!(dist.round_to_trivia_value(fx(105.0)), 105);
    assert_eq!(dist.round_to_trivia_value(fx(110.0)), 110);
    assert_eq!(dist.round_to_trivia_value(fx(115.0)), 115);
    assert_eq!(dist.round_to_trivia_value(fx(120.0)), 120);
    assert_eq!(dist.round_to_trivia_value(fx(125.0)), 125);

    assert_eq!(dist.round_to_trivia_value(fx(102.0)), 100);
    assert_eq!(dist.round_to_trivia_value(fx(103.0)), 105);

    assert_eq!(dist.round_to_trivia_value(fx(107.0)), 105);
    assert_eq!(dist.round_to_trivia_value(fx(108.0)), 110);
}

#[test]
fn test_rounding_first_digit_1_different_magnitudes() {
    let dist = dist(1000, 0.0);

    assert_eq!(dist.round_to_trivia_value(fx(1000.0)), 1000);
    assert_eq!(dist.round_to_trivia_value(fx(1050.0)), 1050);
    assert_eq!(dist.round_to_trivia_value(fx(1100.0)), 1100);

    assert_eq!(dist.round_to_trivia_value(fx(1024.0)), 1000);
    assert_eq!(dist.round_to_trivia_value(fx(1026.0)), 1050);
}

#[test]
fn test_rounding_first_digits_2_to_4() {
    let dist = dist(250, 0.0);

    assert_eq!(dist.round_to_trivia_value(fx(200.0)), 200);
    assert_eq!(dist.round_to_trivia_value(fx(210.0)), 210);
    assert_eq!(dist.round_to_trivia_value(fx(220.0)), 220);
    assert_eq!(dist.round_to_trivia_value(fx(250.0)), 250);
    assert_eq!(dist.round_to_trivia_value(fx(290.0)), 290);
    assert_eq!(dist.round_to_trivia_value(fx(300.0)), 300);
    assert_eq!(dist.round_to_trivia_value(fx(350.0)), 350);
    assert_eq!(dist.round_to_trivia_value(fx(400.0)), 400);
    assert_eq!(dist.round_to_trivia_value(fx(450.0)), 450);

    assert_eq!(dist.round_to_trivia_value(fx(204.0)), 200);
    assert_eq!(dist.round_to_trivia_value(fx(206.0)), 210);

    assert_eq!(dist.round_to_trivia_value(fx(214.0)), 210);
    assert_eq!(dist.round_to_trivia_value(fx(216.0)), 220);
}

#[test]
fn test_rounding_first_digits_5_plus() {
    let dist = dist(750, 0.0);

    assert_eq!(dist.round_to_trivia_value(fx(500.0)), 500);
    assert_eq!(dist.round_to_trivia_value(fx(550.0)), 550);
    assert_eq!(dist.round_to_trivia_value(fx(600.0)), 600);
    assert_eq!(dist.round_to_trivia_value(fx(650.0)), 650);
    assert_eq!(dist.round_to_trivia_value(fx(700.0)), 700);
    assert_eq!(dist.round_to_trivia_value(fx(750.0)), 750);
    assert_eq!(dist.round_to_trivia_value(fx(800.0)), 800);
    assert_eq!(dist.round_to_trivia_value(fx(850.0)), 850);
    assert_eq!(dist.round_to_trivia_value(fx(900.0)), 900);
    assert_eq!(dist.round_to_trivia_value(fx(950.0)), 950);

    assert_eq!(dist.round_to_trivia_value(fx(524.0)), 500);
    assert_eq!(dist.round_to_trivia_value(fx(525.0)), 550);

    assert_eq!(dist.round_to_trivia_value(fx(574.0)), 550);
    assert_eq!(dist.round_to_trivia_value(fx(575.0)), 600);

    assert_eq!(dist.round_to_trivia_value(fx(624.0)), 600);
    assert_eq!(dist.round_to_trivia_value(fx(625.0)), 650);
}

#[test]
fn test_rounding_edge_cases() {
    let dist = dist(100, 0.0);

    assert_eq!(dist.round_to_trivia_value(fx(0.5)), 1);
    assert_eq!(dist.round_to_trivia_value(fx(1.0)), 1);
    assert_eq!(dist.round_to_trivia_value(fx(1.5)), 1);

    assert_eq!(dist.round_to_trivia_value(fx(1_000_000.0)), 1_000_000);
    assert_eq!(dist.round_to_trivia_value(fx(5_500_000.0)), 5_500_000);
}

#[test]
fn rounding_saturates_above_the_largest_magnitude() {
    let dist = dist(100, 0.0);
    let ten_pow_19: i128 = 10_000_000_000_000_000_000;
    assert_eq!(dist.round_to_trivia_value(Fixed::from_picos(ten_pow_19 * 1_000_000_000_000)), u64::MAX);
    assert_eq!(dist.round_to_trivia_value(Fixed::from_picos(i128::MAX)), u64::MAX);
    assert_eq!(dist.round_to_trivia_value(Fixed::from_whole(9_000_000_000_000_000_000)), 9_000_000_000_000_000_000);
    // Just below 10^19 the nearest round number is 10^19 itself.
    assert_eq!(
        dist.round_to_trivia_value(Fixed::from_whole(9_900_000_000_000_000_000)),
        10_000_000_000_000_000_000
    );
}

#[test]
fn rounding_of_small_values() {
    let dist = dist(100, 0.0);
    assert_eq!(dist.round_to_trivia_value(fx(-3.0)), 1);
    assert_eq!(dist.round_to_trivia_value(fx(7.9)), 7);
    assert_eq!(dist.round_to_trivia_value(fx(19.0)), 10);
    assert_eq!(dist.round_to_trivia_value(fx(23.4)), 23);
    assert_eq!(dist.round_to_trivia_value(fx(23.6)), 24);
    assert_eq!(dist.round_to_trivia_value(fx(57.4)), 55);
    assert_eq!(dist.round_to_trivia_value(fx(57.5)), 60);
}

#[test]
fn rounding_is_idempotent_on_samples() {
    let dist = dist(100, 0.0);
    for x in [1.0, 3.3, 17.2, 102.3, 197_490.0, 474_999.9, 9_740.0, 123_456_789.0] {
        let once = dist.round_to_trivia_value(fx(x));
        assert_eq!(dist.round_to_trivia_value(Fixed::from_whole(once)), once);
    }
}

#[test]
fn test_logarithmic_midpoint_rounding() {
    let dist = dist(100000, 0.0);

    assert_eq!(dist.round_to_trivia_value(fx(102469.0)), 100000);
    assert_eq!(dist.round_to_trivia_value(fx(102470.0)), 105000);
}

#[test]
fn test_cross_magnitude_rounding() {
    let dist = dist(197500, 0.0);

    assert_eq!(dist.round_to_trivia_value(fx(197484.0)), 195000);
    assert_eq!(dist.round_to_trivia_value(fx(197485.0)), 200000);
}

#[test]
fn test_rule_transitions_at_boundaries() {
    let dist = dist(975000, 0.0);

    let test_val = (950000.0 * 1000000.0_f64).sqrt();
    let result = dist.round_to_trivia_value(fx(test_val));
    assert!(result == 950000 || result == 1000000);
}

#[test]
fn test_rule_transition_2_4_to_5_plus() {
    let dist = dist(450000, 0.0);

    let test_val_4x = 475000.0;
    let result_4x = dist.round_to_trivia_value(fx(test_val_4x));
    assert!(result_4x == 470000 || result_4x == 480000);

    let test_val_5x = 500000.0;
    let result_5x = dist.round_to_trivia_value(fx(test_val_5x));
    assert_eq!(result_5x, 500000);
}

#[test]
fn test_three_digit_sample_validation() {
    let dist = dist(316, 1.151);
    let mut rng = StdRng::seed_from_u64(42);

    let mut three_digit_samples = Vec::new();
    for _ in 0..1000 {
        let sample = sample(&dist, 1.151, &mut rng);
        if sample >= 100 && sample <= 999 {
            three_digit_samples.push(sample);
        }
    }

    let valid_trivia_numbers = generate_valid_trivia_numbers_in_range(100, 999);
    for sample in three_digit_samples {
        assert!(valid_trivia_numbers.contains(&sample), "Sample {} is not a valid trivia number", sample);
    }
}

#[test]
fn test_deterministic_perfect_certainty() {
    let test_cases = vec![
        100, 105, 110, 115, 120, 125, 200, 210, 220, 230, 240, 500, 550, 600, 650, 700, 1000, 1050,
        1100, 1150,
    ];

    for correct_answer in test_cases {
        let dist = dist(correct_answer, 0.0);
        let mut rng = StdRng::seed_from_u64(42);

        for _ in 0..10 {
            let sample = sample(&dist, 0.0, &mut rng);
            assert_eq!(sample, correct_answer, "Perfect certainty failed for correct_answer={}", correct_answer);
        }
    }
}

#[test]
fn test_boundary_rounding_geometric_midpoints() {
    let test_pairs = vec![
        (100, 105),
        (105, 110),
        (110, 115),
        (200, 210),
        (210, 220),
        (220, 230),
        (500, 550),
        (550, 600),
        (600, 650),
    ];

    for (low, high) in test_pairs {
        let dist = dist(low, 0.0);

        let geometric_middle = ((low as f64) * (high as f64)).sqrt();
        let scale_factor = 10000.0;
        let scaled_middle = geometric_middle * scale_factor;

        let test_below = scaled_middle - 1.0;
        let test_above = scaled_middle + 1.0;

        let result_below = dist.round_to_trivia_value(fx(test_below));
        let result_above = dist.round_to_trivia_value(fx(test_above));

        let scaled_low = (low as f64 * scale_factor) as u64;
        let scaled_high = (high as f64 * scale_factor) as u64;

        assert!(
            result_below == scaled_low || result_below == scaled_high,
            "test_below={} should round to {} or {}, got {}",
            test_below,
            scaled_low,
            scaled_high,
            result_below
        );

        assert!(
            result_above == scaled_low || result_above == scaled_high,
            "test_above={} should round to {} or {}, got {}",
            test_above,
            scaled_low,
            scaled_high,
            result_above
        );

        assert_ne!(
            result_below, result_above,
            "Values {} and {} should round to different candidates, both got {}",
            test_below, test_above, result_below
        );
    }
}

fn generate_valid_trivia_numbers_in_range(min: u64, max: u64) -> std::collections::HashSet<u64> {
    let mut valid_numbers = std::collections::HashSet::new();

    for magnitude in 0..=18 {
        let magnitude_power = 10_u64.pow(magnitude);
        if magnitude_power > max {
            break;
        }

        if magnitude_power >= min {
            for k in 0..20 {
                let value = magnitude_power + (magnitude_power / 20) * k;
                if value >= min && value <= max {
                    valid_numbers.insert(value);
                }
                if value > max {
                    break;
                }
            }
        }

        for first_digit in 2..=4 {
            let base = first_digit * magnitude_power;
            if base > max {
                break;
            }
            for k in 0..10 {
                let value = base + (magnitude_power / 10) * k;
                if value >= min && value <= max {
                    valid_numbers.insert(value);
                }
                if value > max {
                    break;
                }
            }
        }

        for first_digit in 5..=9 {
            let base = first_digit * magnitude_power;
            if base > max {
                break;
            }
            for k in 0..2 {
                let value = base + (magnitude_power / 2) * k;
                if value >= min && value <= max {
                    valid_numbers.insert(value);
                }
                if value > max {
                    break;
                }
            }
        }
    }

    valid_numbers
}
