use emulate::display::{format_component, norm_ascii_log_magnitude, render, render_state, BAR_WIDTH};
use emulate::fixed::{one, zero, Amplitude, AMPLITUDE_ONE, PROBABILITY_ONE};
use emulate::register::Entangble;
use emulate::sampler::RandomSource;

struct Constant(u64);

impl RandomSource for Constant {
    fn next_draw(&mut self) -> u64 {
        self.0
    }
}

#[test]
fn bar_of_one_is_full() {
    assert_eq!(norm_ascii_log_magnitude(PROBABILITY_ONE as i128, 8), "********");
}

#[test]
fn bar_of_zero_is_empty() {
    assert_eq!(norm_ascii_log_magnitude(0, 8), "        ");
}

#[test]
fn bar_fills_where_the_magnitude_exceeds_a_halving() {
    let one: i128 = PROBABILITY_ONE as i128;
    assert_eq!(norm_ascii_log_magnitude(one / 2 + 1, 8), "********");
    assert_eq!(norm_ascii_log_magnitude(one / 2, 8), " *******");
    assert_eq!(norm_ascii_log_magnitude(one / 10 * 3, 8), " *******");
    assert_eq!(norm_ascii_log_magnitude(one / 4, 8), "  ******");
    assert_eq!(norm_ascii_log_magnitude(one / 5, 8), "  ******");
    assert_eq!(norm_ascii_log_magnitude(one / 10, 8), "   *****");
    assert_eq!(norm_ascii_log_magnitude(one / 128, 8), "       *");
    assert_eq!(norm_ascii_log_magnitude(one / 256 + 1, 8), "       *");
    assert_eq!(norm_ascii_log_magnitude(one / 256, 8), "        ");
}

#[test]
fn bar_has_as_many_characters_as_steps() {
    let half: i128 = (PROBABILITY_ONE / 2) as i128;
    assert_eq!(norm_ascii_log_magnitude(half, 0), "");
    assert_eq!(norm_ascii_log_magnitude(half, 1), " ");
    assert_eq!(norm_ascii_log_magnitude(half, 3), " **");
    assert_eq!(norm_ascii_log_magnitude(half, 255).len(), 255);
}

#[test]
fn bar_of_the_smallest_magnitude() {
    let expected: String = format!("{}{}", " ".repeat(124), "*".repeat(131));
    assert_eq!(norm_ascii_log_magnitude(1, 255), expected);
    assert_eq!(norm_ascii_log_magnitude(0, 255), " ".repeat(255));
}

#[test]
fn negative_magnitude_is_named() {
    assert_eq!(norm_ascii_log_magnitude(-1, 8), "NEGATIVE");
    assert_eq!(norm_ascii_log_magnitude(i128::MIN, 3), "NEGATIVE");
}

#[test]
fn magnitude_above_one_is_named() {
    assert_eq!(norm_ascii_log_magnitude(PROBABILITY_ONE as i128 + 1, 8), "TOO BIG ");
    assert_eq!(norm_ascii_log_magnitude(i128::MAX, 2), "TOO BIG ");
}

#[test]
fn bar_agrees_with_floating_point_halvings() {
    let samples: [f64; 5] = [0.9, 0.3, 0.07, 0.011, 0.004];
    for sample in samples {
        let magnitude: i128 = (sample * PROBABILITY_ONE as f64) as i128;
        let mut expected = String::new();
        for step in 1..9 {
            expected.push(if sample > 0.5f64.powi(step) { '*' } else { ' ' });
        }
        assert_eq!(norm_ascii_log_magnitude(magnitude, 8), expected);
    }
}

#[test]
fn components_have_three_decimals() {
    assert_eq!(format_component(AMPLITUDE_ONE), "1.000");
    assert_eq!(format_component(0), "0.000");
    assert_eq!(format_component(-AMPLITUDE_ONE), "-1.000");
    assert_eq!(format_component(1 << 61), "0.500");
    assert_eq!(format_component(-(1 << 60)), "-0.250");
    assert_eq!(format_component(3260954456333195553), "0.707");
    assert_eq!(format_component(1383505805528216320), "0.300");
}

#[test]
fn components_round_to_the_nearest_thousandth() {
    assert_eq!(format_component(2305843009213693), "0.000");
    assert_eq!(format_component(2305843009213694), "0.001");
    assert_eq!(format_component(-2305843009213694), "-0.001");
    assert_eq!(format_component(AMPLITUDE_ONE / 8), "0.125");
    assert_eq!(format_component(AMPLITUDE_ONE / 3), "0.333");
    assert_eq!(format_component(AMPLITUDE_ONE / 3 * 2), "0.667");
}

#[test]
fn negative_components_keep_their_sign() {
    assert_eq!(format_component(-1), "-0.000");
    assert_eq!(format_component(1), "0.000");
}

#[test]
fn the_largest_components_are_two() {
    assert_eq!(format_component(i64::MAX), "2.000");
    assert_eq!(format_component(i64::MIN), "-2.000");
    assert_eq!(format_component(AMPLITUDE_ONE + (1 << 61)), "1.500");
}

#[test]
fn components_agree_with_floating_point_formatting() {
    let samples: [i64; 6] = [
        1234567890123456789,
        -987654321098765432,
        4000000000000000000,
        -4611686018427387,
        77777777777777777,
        3 << 60,
    ];
    for sample in samples {
        let value: f64 = sample as f64 / AMPLITUDE_ONE as f64;
        assert_eq!(format_component(sample), format!("{:.3}", value));
    }
}

#[test]
fn components_halfway_between_thousandths_round_to_the_even_one() {
    assert_eq!(format_component(AMPLITUDE_ONE / 16), "0.062");
    assert_eq!(format_component(-AMPLITUDE_ONE / 16), "-0.062");
    assert_eq!(format_component(AMPLITUDE_ONE / 16 * 3), "0.188");
    assert_eq!(format_component(AMPLITUDE_ONE / 16 * 9), "0.562");
    assert_eq!(format_component(AMPLITUDE_ONE / 16 + 1), "0.063");
    assert_eq!(format_component(AMPLITUDE_ONE / 16 * 3 - 1), "0.187");
    let sixteenths: [i64; 6] = [1, 3, 5, 7, -9, 31];
    for count in sixteenths {
        let value: f64 = count as f64 / 16.0;
        assert_eq!(format_component(AMPLITUDE_ONE / 16 * count), format!("{:.3}", value));
    }
}

#[test]
fn line_of_a_basis_state() {
    assert_eq!(render_state(2, 4, one()), " |0010> ********  1.000 + 0.000i");
    assert_eq!(render_state(0, 1, zero()), " |0>           0.000 + 0.000i");
    assert_eq!(
        render_state(5, 3, Amplitude { re: 1 << 61, im: -(1 << 61) }),
        " |101>  *******  0.500 + -0.500i"
    );
}

#[test]
fn line_of_an_amplitude_above_one() {
    assert_eq!(
        render_state(1, 2, Amplitude { re: AMPLITUDE_ONE, im: 1 }),
        " |01> TOO BIG   1.000 + 0.000i"
    );
    assert_eq!(
        render_state(3, 2, Amplitude { re: i64::MIN, im: i64::MIN }),
        " |11> TOO BIG   -2.000 + -2.000i"
    );
}

#[test]
fn line_has_a_bar_of_eight_characters() {
    assert_eq!(BAR_WIDTH, 8);
    let line: String = render_state(0, 3, one());
    assert_eq!(&line[..7], " |000> ");
    assert_eq!(&line[7..15], "********");
}

#[test]
fn text_of_a_new_register() {
    let register = Entangble::new(2, Constant(0)).unwrap();
    let expected: Vec<&str> = vec![
        " |00> ********  1.000 + 0.000i\n",
        " |01>           0.000 + 0.000i\n",
        " |10>           0.000 + 0.000i\n",
        " |11>           0.000 + 0.000i\n",
    ];
    assert_eq!(render(&register), expected.concat());
}

#[test]
fn text_has_one_line_for_each_basis_state() {
    let mut register = Entangble::new(3, Constant(7)).unwrap();
    register.set_pure(6);
    let text: String = render(&register);
    let lines: Vec<&str> = text.lines().collect();
    assert_eq!(lines.len(), 8);
    for index in 0..8 {
        let label: String = format!(" |{:03b}> ", index);
        assert!(lines[index].starts_with(&label));
        assert_eq!(lines[index].contains('*'), index == 6);
    }
    assert_eq!(lines[6], " |110> ********  1.000 + 0.000i");
}
