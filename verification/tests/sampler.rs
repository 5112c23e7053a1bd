use emulate::error::RegisterError;
use emulate::fixed::{PROBABILITY_ONE, TOLERANCE};
use emulate::sampler::{
    checked_total, is_distribution, select_index, weighted_choice, weighted_choice_at, RandomSource,
};
use rand::rngs::{StdRng, ThreadRng};
use rand::{Rng, SeedableRng};

struct Counting {
    value: u64,
    draws: usize,
}

impl RandomSource for Counting {
    fn next_draw(&mut self) -> u64 {
        self.draws += 1;
        self.value
    }
}

struct Thread(ThreadRng);

impl RandomSource for Thread {
    fn next_draw(&mut self) -> u64 {
        self.0.gen()
    }
}

fn quarters_and_half() -> Vec<u128> {
    vec![PROBABILITY_ONE / 4, PROBABILITY_ONE / 4, PROBABILITY_ONE / 2]
}

const HALF: u64 = 1 << 63;
const QUARTER: u64 = 1 << 62;

#[test]
fn weights_that_sum_to_six_tenths_are_refused() {
    let weights: Vec<u128> = vec![PROBABILITY_ONE / 10 * 3, PROBABILITY_ONE / 10 * 3];
    assert_eq!(weighted_choice_at(&weights, HALF), Err(RegisterError::InvalidDistribution));
    let mut source = Counting { value: HALF, draws: 0 };
    assert_eq!(weighted_choice(&weights, &mut source), Err(RegisterError::InvalidDistribution));
    assert!(!is_distribution(&weights));
}

#[test]
fn refused_weights_consume_no_draw() {
    let weights: Vec<u128> = vec![PROBABILITY_ONE / 10 * 3, PROBABILITY_ONE / 10 * 3];
    let mut source = Counting { value: 0, draws: 0 };
    assert!(weighted_choice(&weights, &mut source).is_err());
    assert_eq!(source.draws, 0);
}

#[test]
fn accepted_weights_consume_one_draw() {
    let mut source = Counting { value: HALF, draws: 0 };
    assert_eq!(weighted_choice(&quarters_and_half(), &mut source), Ok(1));
    assert_eq!(source.draws, 1);
}

#[test]
fn no_weights_are_refused() {
    let weights: Vec<u128> = Vec::new();
    assert_eq!(weighted_choice_at(&weights, 0), Err(RegisterError::InvalidDistribution));
}

#[test]
fn weights_above_one_are_refused() {
    let weights: Vec<u128> = vec![PROBABILITY_ONE, PROBABILITY_ONE];
    assert_eq!(weighted_choice_at(&weights, 0), Err(RegisterError::InvalidDistribution));
}

#[test]
fn weights_whose_sum_overflows_are_refused() {
    let weights: Vec<u128> = vec![u128::MAX, PROBABILITY_ONE + 1];
    assert_eq!(checked_total(&weights), None);
    assert_eq!(weighted_choice_at(&weights, 0), Err(RegisterError::InvalidDistribution));
}

#[test]
fn total_adds_all_the_weights() {
    assert_eq!(checked_total(&quarters_and_half()), Some(PROBABILITY_ONE));
    assert_eq!(checked_total(&vec![1, 2, 3, 4]), Some(10));
    assert_eq!(checked_total(&Vec::new()), Some(0));
    assert_eq!(checked_total(&vec![u128::MAX - 1, 1]), Some(u128::MAX));
}

#[test]
fn tolerance_decides_what_is_a_distribution() {
    assert!(is_distribution(&vec![PROBABILITY_ONE - TOLERANCE]));
    assert!(is_distribution(&vec![PROBABILITY_ONE / 2, PROBABILITY_ONE / 2 + TOLERANCE]));
    assert!(!is_distribution(&vec![PROBABILITY_ONE - TOLERANCE - 1]));
    assert!(!is_distribution(&vec![PROBABILITY_ONE / 2, PROBABILITY_ONE / 2 + TOLERANCE + 1]));
}

#[test]
fn the_first_index_that_reaches_the_draw_is_chosen() {
    let weights = quarters_and_half();
    assert_eq!(weighted_choice_at(&weights, QUARTER - 1), Ok(0));
    assert_eq!(weighted_choice_at(&weights, QUARTER), Ok(0));
    assert_eq!(weighted_choice_at(&weights, QUARTER + 1), Ok(1));
    assert_eq!(weighted_choice_at(&weights, HALF), Ok(1));
    assert_eq!(weighted_choice_at(&weights, HALF + 1), Ok(2));
    assert_eq!(weighted_choice_at(&weights, u64::MAX), Ok(2));
}

#[test]
fn the_draw_zero_chooses_the_first_index() {
    assert_eq!(weighted_choice_at(&quarters_and_half(), 0), Ok(0));
    assert_eq!(weighted_choice_at(&vec![0, PROBABILITY_ONE], 0), Ok(0));
    assert_eq!(weighted_choice_at(&vec![PROBABILITY_ONE], 0), Ok(0));
}

#[test]
fn the_largest_draw_chooses_the_last_index_of_positive_weight() {
    let weights: Vec<u128> =
        vec![PROBABILITY_ONE / 4, PROBABILITY_ONE / 4, PROBABILITY_ONE / 2, 0, 0];
    assert_eq!(weighted_choice_at(&weights, u64::MAX), Ok(2));
    let single: Vec<u128> = vec![0, PROBABILITY_ONE, 0];
    assert_eq!(weighted_choice_at(&single, u64::MAX), Ok(1));
}

#[test]
fn a_last_weight_below_one_draw_step_is_passed_over() {
    let weights: Vec<u128> = vec![PROBABILITY_ONE - 1, 1];
    assert_eq!(weighted_choice_at(&weights, u64::MAX), Ok(0));
}

#[test]
fn a_sum_short_of_the_draw_falls_back_to_the_last_index() {
    let part: u128 = (PROBABILITY_ONE - TOLERANCE) / 2;
    let weights: Vec<u128> = vec![part, part, 0];
    assert!(is_distribution(&weights));
    assert_eq!(weighted_choice_at(&weights, u64::MAX), Ok(2));
    assert_eq!(weighted_choice_at(&weights, HALF), Ok(1));
}

#[test]
fn a_positive_draw_passes_over_weights_of_zero() {
    let weights: Vec<u128> = vec![0, 0, PROBABILITY_ONE, 0];
    assert_eq!(weighted_choice_at(&weights, 1), Ok(2));
    assert_eq!(weighted_choice_at(&weights, HALF), Ok(2));
    assert_eq!(weighted_choice_at(&weights, u64::MAX), Ok(2));
}

#[test]
fn selection_agrees_with_the_checked_choice() {
    let weights = quarters_and_half();
    let draws: [u64; 6] = [0, 1, QUARTER, HALF, HALF + 1, u64::MAX];
    for draw in draws {
        assert_eq!(Ok(select_index(&weights, draw)), weighted_choice_at(&weights, draw));
    }
}

#[test]
fn every_choice_is_within_bounds() {
    let weights: Vec<u128> = vec![
        PROBABILITY_ONE / 8,
        0,
        PROBABILITY_ONE / 8 * 3,
        PROBABILITY_ONE / 4,
        PROBABILITY_ONE / 4,
        0,
    ];
    let mut source = StdRng::seed_from_u64(2024);
    let mut seen: [bool; 6] = [false; 6];
    for _ in 0..2000 {
        let index: usize = weighted_choice(&weights, &mut source).unwrap();
        assert!(index < weights.len());
        seen[index] = true;
    }
    assert_eq!(seen, [true, false, true, true, true, false]);
}

#[test]
fn choices_follow_the_weights() {
    let weights: Vec<u128> = vec![PROBABILITY_ONE / 4, PROBABILITY_ONE / 4 * 3];
    let mut source = StdRng::seed_from_u64(7);
    let mut first: usize = 0;
    let rounds: usize = 20000;
    for _ in 0..rounds {
        if weighted_choice(&weights, &mut source).unwrap() == 0 {
            first += 1;
        }
    }
    let share: f64 = first as f64 / rounds as f64;
    assert!((share - 0.25).abs() < 0.02);
}

#[test]
fn a_seeded_source_repeats_its_choices() {
    let weights = quarters_and_half();
    let mut first = StdRng::seed_from_u64(99);
    let mut second = StdRng::seed_from_u64(99);
    for _ in 0..100 {
        assert_eq!(weighted_choice(&weights, &mut first), weighted_choice(&weights, &mut second));
    }
}

#[test]
fn the_thread_generator_can_be_made_a_source() {
    let mut source = Thread(rand::thread_rng());
    let weights: Vec<u128> = vec![0, PROBABILITY_ONE, 0];
    let index: usize = weighted_choice(&weights, &mut source).unwrap();
    assert!(index < 3);
}

#[test]
fn the_standard_generator_hands_out_its_own_bits() {
    let mut source = StdRng::seed_from_u64(5);
    let mut twin = StdRng::seed_from_u64(5);
    let mut distinct: bool = false;
    let mut last: u64 = source.next_draw();
    assert_eq!(last, twin.gen::<u64>());
    for _ in 0..16 {
        let draw: u64 = source.next_draw();
        assert_eq!(draw, twin.gen::<u64>());
        distinct = distinct || draw != last;
        last = draw;
    }
    assert!(distinct);
}

#[test]
fn choices_agree_with_floating_point_running_sums() {
    let mut source = StdRng::seed_from_u64(4711);
    let scale: f64 = PROBABILITY_ONE as f64;
    let mut compared: usize = 0;
    for round in 0..300 {
        let length: usize = 1 + round % 9;
        let raw: Vec<f64> = (0..length).map(|_| source.gen::<f64>()).collect();
        let sum: f64 = raw.iter().sum();
        let floats: Vec<f64> = raw.iter().map(|w| w / sum).collect();
        let weights: Vec<u128> = floats.iter().map(|w| (w * scale) as u128).collect();
        let draw: u64 = source.gen();
        let level: f64 = draw as f64 / 18446744073709551616.0;
        let mut running: f64 = 0.0;
        let mut expected: usize = length - 1;
        let mut close: bool = false;
        for (index, weight) in floats.iter().enumerate() {
            running += weight;
            close = close || (running - level).abs() < 1e-9;
            if running >= level && expected == length - 1 {
                expected = index;
            }
        }
        if !close {
            assert_eq!(weighted_choice_at(&weights, draw), Ok(expected));
            compared += 1;
        }
    }
    assert!(compared > 250);
}
