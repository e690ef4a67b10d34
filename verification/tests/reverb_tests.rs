use rustfmsynth::delay::DelayLine;
use rustfmsynth::diffuser::{share_start, DiffuserChannels};
use rustfmsynth::hadamard::hadamard_pairs;
use rustfmsynth::primes::{is_prime_by_division, sieve};
use rustfmsynth::reverb::{
    find_prime_delays_from_deltas, get_channels_pow2, get_delay_samples_by_spacing,
    linear_delay_target_deltas, permutation_vector, ReverbType,
};

#[test]
fn channel_counts_move_to_the_nearest_power_of_two() {
    assert_eq!(get_channels_pow2(16), 16);
    assert_eq!(get_channels_pow2(0), 2);
    assert_eq!(get_channels_pow2(1), 2);
    assert_eq!(get_channels_pow2(3), 2);
    assert_eq!(get_channels_pow2(5), 4);
    assert_eq!(get_channels_pow2(6), 4);
    assert_eq!(get_channels_pow2(7), 8);
    assert_eq!(get_channels_pow2(96), 64);
    assert_eq!(get_channels_pow2(100), 128);
    assert_eq!(get_channels_pow2(128), 128);
    assert_eq!(get_channels_pow2(1000), 128);
}

#[test]
fn sieve_and_trial_division_agree() {
    let marks = sieve(1000);
    assert_eq!(marks.len(), 1001);
    let mut count = 0;
    for n in 2..=1000usize {
        assert_eq!(!marks[n], is_prime_by_division(n));
        if !marks[n] {
            count += 1;
        }
    }
    assert_eq!(count, 168);
    assert!(!is_prime_by_division(0));
    assert!(!is_prime_by_division(1));
    assert!(is_prime_by_division(2));
    assert!(is_prime_by_division(4_000_037));
    assert!(!is_prime_by_division(4_000_001));
}

#[test]
fn prime_delays_follow_their_deltas() {
    assert_eq!(find_prime_delays_from_deltas(&[2, 3, 4]), vec![2, 5, 11]);
    assert_eq!(find_prime_delays_from_deltas(&[0, 0, 0]), vec![2, 3, 5]);
    assert_eq!(find_prime_delays_from_deltas(&[]), Vec::<usize>::new());
    assert_eq!(find_prime_delays_from_deltas(&[90, 1, 1, 24]), vec![97, 101, 103, 127]);
}

#[test]
fn prime_delays_beyond_the_sieve_are_found_by_division() {
    assert_eq!(find_prime_delays_from_deltas(&[4_000_001]), vec![4_000_037]);
}

#[test]
fn prime_delays_stop_where_numbers_end() {
    assert_eq!(find_prime_delays_from_deltas(&[3, usize::MAX]), vec![3]);
}

#[test]
fn prime_delays_are_distinct_and_increase() {
    let delays = find_prime_delays_from_deltas(&[7, 0, 1, 0, 30, 2, 2, 2]);
    assert_eq!(delays.len(), 8);
    for pair in delays.windows(2) {
        assert!(pair[0] < pair[1]);
    }
}

#[test]
fn linear_deltas_round_the_step_half_up() {
    assert_eq!(linear_delay_target_deltas(40, 200, 4), vec![40, 53, 53, 53]);
    assert_eq!(linear_delay_target_deltas(1, 10, 3), vec![2, 4, 4]);
    assert_eq!(linear_delay_target_deltas(2, 5, 3), vec![2, 2, 2]);
    assert_eq!(linear_delay_target_deltas(10, 3, 2), vec![10, 0]);
    assert_eq!(linear_delay_target_deltas(5, 9, 1), vec![5]);
    assert_eq!(linear_delay_target_deltas(5, 9, 0), Vec::<usize>::new());
    assert_eq!(
        linear_delay_target_deltas(3_000_000, 9_000_000, 2),
        vec![2_000_000, 0]
    );
}

#[test]
fn delays_by_spacing() {
    assert_eq!(get_delay_samples_by_spacing(40, 4), vec![41, 97, 151, 211]);
    assert_eq!(get_delay_samples_by_spacing(40, 1), vec![40]);
    assert_eq!(get_delay_samples_by_spacing(40, 0), Vec::<usize>::new());
    assert_eq!(get_delay_samples_by_spacing(0, 2), vec![2, 3]);
}

#[test]
fn permutation_vectors_name_every_channel_once() {
    let places = permutation_vector(16, 5, 3);
    assert_eq!(places[0], 3);
    assert_eq!(places[1], 8);
    assert_eq!(places[15], 14);
    let mut sorted = places.clone();
    sorted.sort();
    assert_eq!(sorted, (0..16).collect::<Vec<usize>>());
    assert_eq!(permutation_vector(1, 7, 9), vec![0]);
    assert_eq!(permutation_vector(4, usize::MAX, usize::MAX), vec![3, 2, 1, 0]);
}

#[test]
fn reverb_type_is_the_delay_network() {
    assert_eq!(ReverbType::FDN, ReverbType::FDN);
}

#[test]
fn delay_line_hands_out_what_went_in() {
    let mut line = DelayLine::new(3, 0i32);
    assert_eq!(line.len(), 3);
    assert_eq!(line.push_pop(1), 0);
    assert_eq!(line.push_pop(2), 0);
    assert_eq!(line.oldest(), 0);
    assert_eq!(line.newest(), 2);
    assert_eq!(line.push_pop(3), 0);
    assert_eq!(line.push_pop(4), 1);
    assert_eq!(line.push_pop(5), 2);
    assert_eq!(line.oldest(), 3);
    assert_eq!(line.newest(), 5);
    line.reset(9);
    assert_eq!(line.push_pop(7), 9);
    assert_eq!(line.newest(), 7);
    assert_eq!(line.len(), 3);
}

#[test]
fn delay_line_of_one_sample_delays_by_one() {
    let mut line = DelayLine::new(1, 0.0f32);
    assert_eq!(line.push_pop(0.5), 0.0);
    assert_eq!(line.push_pop(0.25), 0.5);
    assert_eq!(line.oldest(), 0.25);
    assert_eq!(line.newest(), 0.25);
}

#[test]
fn shares_split_the_total_evenly() {
    assert_eq!(share_start(800, 0, 8), 0);
    assert_eq!(share_start(800, 3, 8), 300);
    assert_eq!(share_start(800, 8, 8), 800);
    assert_eq!(share_start(10, 1, 4), 2);
    assert_eq!(share_start(usize::MAX, 1, 2), usize::MAX / 2);
}

#[test]
fn diffuser_delays_lie_in_their_shares() {
    let channels = DiffuserChannels::new(8, 800, 42);
    assert_eq!(channels.delays.len(), 8);
    assert_eq!(channels.flipped.len(), 8);
    for (i, delay) in channels.delays.iter().enumerate() {
        assert!(*delay >= 1);
        assert!(*delay >= 100 * i && *delay < 100 * (i + 1) || (i == 0 && *delay == 1));
    }
    assert!(channels.delays.iter().enumerate().any(|(i, d)| *d != (100 * i).max(1)));
}

#[test]
fn diffuser_without_room_uses_the_start_of_each_share() {
    let mut channels = DiffuserChannels::new(4, 2, 7);
    assert_eq!(channels.delays, vec![1, 1, 1, 1]);
    channels.configure_channels(0);
    assert!(channels.delays.is_empty());
    assert!(channels.flipped.is_empty());
    channels.configure_channels(2);
    assert_eq!(channels.delays, vec![1, 1]);
    assert_eq!(channels.total_delay_samples, 2);
}

#[test]
fn hadamard_pairs_follow_the_stages() {
    assert_eq!(hadamard_pairs(0), Vec::<(usize, usize)>::new());
    assert_eq!(hadamard_pairs(1), Vec::<(usize, usize)>::new());
    assert_eq!(hadamard_pairs(2), vec![(0, 1)]);
    assert_eq!(hadamard_pairs(4), vec![(0, 1), (2, 3), (0, 2), (1, 3)]);
    let eight = hadamard_pairs(8);
    assert_eq!(eight.len(), 12);
    assert_eq!(&eight[4..8], &[(0, 2), (1, 3), (4, 6), (5, 7)]);
    assert_eq!(&eight[8..], &[(0, 4), (1, 5), (2, 6), (3, 7)]);
}

#[test]
fn hadamard_pairs_transform_an_impulse_into_ones() {
    let mut values = vec![0i64; 16];
    values[0] = 1;
    for (low, high) in hadamard_pairs(16) {
        let (x, y) = (values[low], values[high]);
        values[low] = x + y;
        values[high] = x - y;
    }
    assert_eq!(values, vec![1i64; 16]);
    let mut twice = vec![3i64, -1, 4, 1];
    for _ in 0..2 {
        for (low, high) in hadamard_pairs(4) {
            let (x, y) = (twice[low], twice[high]);
            twice[low] = x + y;
            twice[high] = x - y;
        }
    }
    assert_eq!(twice, vec![12, -4, 16, 4]);
}
