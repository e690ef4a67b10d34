use vstd::prelude::*;
use vstd::arithmetic::div_mod::lemma_fundamental_div_mod;
use crate::primes::{
    is_next_prime, is_prime, is_prime_by_division, lemma_multiple, lemma_quotient, sieve,
};

verus! {

/// The reverberation algorithms the effect chain offers.
#[derive(Debug, PartialEq, Eq, Clone, Copy, Structural)]
pub enum ReverbType {
    FDN,
}

/// Fewest channels of a feedback delay network.
pub const MIN_CHANNELS: usize = 2;

/// Most channels of a feedback delay network.
pub const MAX_CHANNELS: usize = 128;

/// The largest number for which the search for delays builds a sieve;
/// beyond it primes are found by trial division.
pub const SIEVE_CAP: usize = 4_000_000;

/// Longest delay, in samples, that a target may ask for.
pub const PRACTICAL_MAX_INPUT_DELAY: usize = 2_000_000;

/// `x` is a power of two.
pub open spec fn is_power_of_two(x: int) -> bool
    decreases x,
{
    x == 1 || (x > 1 && x % 2 == 0 && is_power_of_two(x / 2))
}

/// `x` limited to the range from `low` to `high`.
pub open spec fn clamped(x: int, low: int, high: int) -> int {
    if x < low {
        low
    } else if x > high {
        high
    } else {
        x
    }
}

/// The distance between two numbers.
pub open spec fn distance(a: int, b: int) -> int {
    if a <= b {
        b - a
    } else {
        a - b
    }
}

/// Between a power of two and its double there is no power of two.
pub proof fn lemma_power_of_two_gap(p: int, q: int)
    requires
        is_power_of_two(p),
        is_power_of_two(q),
        p < q,
    ensures
        2 * p <= q,
    decreases q,
{
    if p > 1 {
        lemma_power_of_two_gap(p / 2, q / 2);
    }
}

/// The channel count a feedback delay network uses when `channels` are
/// asked for: the request is limited to the range from [`MIN_CHANNELS`] to
/// [`MAX_CHANNELS`] and moved to the nearest power of two, to the smaller
/// one when two are equally near.
pub fn get_channels_pow2(channels: usize) -> (count: usize)
    ensures
        is_power_of_two(count as int),
        MIN_CHANNELS <= count <= MAX_CHANNELS,
        forall|p: int|
            is_power_of_two(p) ==> {
                let wanted = clamped(channels as int, MIN_CHANNELS as int, MAX_CHANNELS as int);
                distance(wanted, count as int) < distance(wanted, p) || (distance(
                    wanted,
                    count as int,
                ) == distance(wanted, p) && count <= p)
            },
{
    let clamped_val: usize = if channels < MIN_CHANNELS {
        MIN_CHANNELS
    } else if channels > MAX_CHANNELS {
        MAX_CHANNELS
    } else {
        channels
    };
    let mut lower_pow2: usize = 2;
    proof {
        assert(is_power_of_two(2)) by {
            assert(is_power_of_two(1));
        }
    }
    while lower_pow2 * 2 <= clamped_val
        invariant
            2 <= lower_pow2 <= clamped_val <= 128,
            is_power_of_two(lower_pow2 as int),
        decreases clamped_val - lower_pow2,
    {
        proof {
            assert((lower_pow2 * 2) / 2 == lower_pow2);
        }
        lower_pow2 = lower_pow2 * 2;
    }
    let upper_pow2: usize = lower_pow2 * 2;
    proof {
        assert((lower_pow2 * 2) / 2 == lower_pow2);
        assert(is_power_of_two(upper_pow2 as int));
    }
    let count = if clamped_val - lower_pow2 <= upper_pow2 - clamped_val {
        lower_pow2
    } else {
        upper_pow2
    };
    proof {
        assert(count <= 128) by {
            if count == upper_pow2 && upper_pow2 > 128 {
                lemma_128_is_power_of_two();
                lemma_power_of_two_gap(lower_pow2 as int, 128);
            }
        }
        assert forall|p: int| is_power_of_two(p) implies {
            let wanted = clamped(channels as int, MIN_CHANNELS as int, MAX_CHANNELS as int);
            distance(wanted, count as int) < distance(wanted, p) || (distance(wanted, count as int)
                == distance(wanted, p) && count <= p)
        } by {
            if p < lower_pow2 {
                lemma_power_of_two_gap(p, lower_pow2 as int);
            } else if p > lower_pow2 {
                lemma_power_of_two_gap(lower_pow2 as int, p);
                if p > upper_pow2 {
                    lemma_power_of_two_gap(upper_pow2 as int, p);
                }
            }
        }
    }
    count
}

proof fn lemma_128_is_power_of_two()
    ensures
        is_power_of_two(128),
{
    assert(is_power_of_two(1));
    assert(is_power_of_two(2));
    assert(is_power_of_two(4));
    assert(is_power_of_two(8));
    assert(is_power_of_two(16));
    assert(is_power_of_two(32));
    assert(is_power_of_two(64));
}

/// Where the search for the next delay starts: `delta` above the delay
/// before it, and above that delay in any case.
pub open spec fn search_from(previous: int, delta: int) -> int {
    if delta >= 1 {
        previous + delta
    } else {
        previous + 1
    }
}

/// The delay before position `k`, or zero at the start.
pub open spec fn previous_delay(delays: Seq<usize>, k: int) -> int {
    if k <= 0 {
        0
    } else {
        delays[k - 1] as int
    }
}

/// The delay at position `k` is the least prime that lies at least the
/// matching delta above the delay before it.
pub open spec fn delay_follows(delays: Seq<usize>, deltas: Seq<usize>, k: int) -> bool {
    is_next_prime(delays[k] as int, search_from(previous_delay(delays, k), deltas[k] as int))
}

/// Every delay is the least prime that lies at least the matching delta
/// above the delay before it, and the delays stop early only where no such
/// prime fits the machine's numbers.
pub open spec fn delays_follow(delays: Seq<usize>, deltas: Seq<usize>) -> bool {
    &&& delays.len() <= deltas.len()
    &&& forall|k: int| 0 <= k < delays.len() ==> #[trigger] delay_follows(delays, deltas, k)
    &&& delays.len() < deltas.len() ==> forall|q: int|
        search_from(
            previous_delay(delays, delays.len() as int),
            deltas[delays.len() as int] as int,
        ) <= q <= usize::MAX ==> !#[trigger] is_prime(q)
}

/// Delays that follow their deltas are distinct and increase.
pub proof fn lemma_delays_increase(delays: Seq<usize>, deltas: Seq<usize>, i: int, j: int)
    requires
        delays_follow(delays, deltas),
        0 <= i < j < delays.len(),
    ensures
        delays[i] < delays[j],
    decreases j - i,
{
    assert(delay_follows(delays, deltas, j));
    if i < j - 1 {
        lemma_delays_increase(delays, deltas, i, j - 1);
    }
}

/// Turns a list of target deltas into prime delay lengths: each delay is
/// the least prime that lies at least its delta above the delay before it.
pub fn find_prime_delays_from_deltas(deltas: &[usize]) -> (delays: Vec<usize>)
    ensures
        delays_follow(delays@, deltas@),
{
    let num_delays = deltas.len();
    let mut total: usize = 0;
    let mut i: usize = 0;
    while i < num_delays
        invariant
            i <= num_delays,
            num_delays == deltas@.len(),
            total <= SIEVE_CAP,
        decreases num_delays - i,
    {
        total = if deltas[i] > SIEVE_CAP - total {
            SIEVE_CAP
        } else {
            total + deltas[i]
        };
        i += 1;
    }
    let doubled: usize = if total > SIEVE_CAP / 2 {
        SIEVE_CAP
    } else {
        2 * total
    };
    let margin: usize = if num_delays > SIEVE_CAP / 100 {
        SIEVE_CAP
    } else {
        100 * num_delays
    };
    let sieve_limit: usize = if margin > SIEVE_CAP - doubled {
        SIEVE_CAP
    } else {
        doubled + margin
    };
    let is_composite = sieve(sieve_limit);
    let mut result_primes: Vec<usize> = Vec::new();
    let mut last_prime_found: usize = 0;
    while result_primes.len() < num_delays
        invariant
            num_delays == deltas@.len(),
            result_primes@.len() <= num_delays,
            is_composite@.len() == sieve_limit + 1,
            forall|m: int|
                2 <= m <= sieve_limit ==> #[trigger] is_composite@[m] == crate::primes::composite(
                    m,
                ),
            last_prime_found == previous_delay(result_primes@, result_primes@.len() as int),
            forall|k: int|
                0 <= k < result_primes@.len() ==> #[trigger] delay_follows(
                    result_primes@,
                    deltas@,
                    k,
                ),
        decreases num_delays - result_primes@.len(),
    {
        let current_target_idx = result_primes.len();
        let delta = deltas[current_target_idx];
        let step: usize = if delta >= 1 {
            delta
        } else {
            1
        };
        let ghost from = search_from(last_prime_found as int, delta as int);
        if step > usize::MAX - last_prime_found {
            return result_primes;
        }
        let mut p: usize = last_prime_found + step;
        let mut found = false;
        while !found
            invariant
                from <= p,
                from >= 1,
                is_composite@.len() == sieve_limit + 1,
                forall|m: int|
                    2 <= m <= sieve_limit ==> #[trigger] is_composite@[m]
                        == crate::primes::composite(m),
                forall|q: int| from <= q < p ==> !#[trigger] is_prime(q),
                found ==> is_prime(p as int),
                num_delays == deltas@.len(),
                current_target_idx == result_primes@.len(),
                current_target_idx < num_delays,
                from == search_from(last_prime_found as int, deltas@[current_target_idx as int] as int),
                last_prime_found == previous_delay(result_primes@, result_primes@.len() as int),
                forall|k: int|
                    0 <= k < result_primes@.len() ==> #[trigger] delay_follows(
                        result_primes@,
                        deltas@,
                        k,
                    ),
            decreases
                usize::MAX - p + if found {
                    0int
                } else {
                    1int
                },
        {
            let prime = if p < 2 {
                false
            } else if p <= sieve_limit {
                !is_composite[p]
            } else {
                is_prime_by_division(p)
            };
            if prime {
                found = true;
            } else if p == usize::MAX {
                return result_primes;
            } else {
                p += 1;
            }
        }
        let ghost before = result_primes@;
        result_primes.push(p);
        last_prime_found = p;
        proof {
            assert(is_next_prime(p as int, from));
            assert forall|k: int| 0 <= k < result_primes@.len() implies #[trigger] delay_follows(
                result_primes@,
                deltas@,
                k,
            ) by {
                if k < before.len() {
                    assert(delay_follows(before, deltas@, k));
                    assert(result_primes@[k] == before[k]);
                    assert(previous_delay(result_primes@, k) == previous_delay(before, k));
                }
            }
        }
    }
    result_primes
}

/// The deltas that spread `num_delays` delays evenly from the shortest to
/// the longest: the shortest delay itself, then the same rounded step
/// again and again. The shortest delay is limited to the range from 2 to
/// [`PRACTICAL_MAX_INPUT_DELAY`], the longest to the range from the
/// shortest to [`PRACTICAL_MAX_INPUT_DELAY`]; the step is their distance
/// divided by `num_delays - 1`, rounded half up.
pub open spec fn linear_deltas(min_delay: int, max_delay: int, num_delays: int) -> Seq<usize> {
    let low = clamped(min_delay, 2, PRACTICAL_MAX_INPUT_DELAY as int);
    let high = clamped(max_delay, low, PRACTICAL_MAX_INPUT_DELAY as int);
    let step = if num_delays >= 2 {
        (2 * (high - low) + (num_delays - 1)) / (2 * (num_delays - 1))
    } else {
        0
    };
    Seq::new(
        if num_delays > 0 {
            num_delays as nat
        } else {
            0
        },
        |i: int|
            if i == 0 {
                low as usize
            } else {
                step as usize
            },
    )
}

/// Computes [`linear_deltas`].
pub fn linear_delay_target_deltas(
    min_delay_samples: usize,
    max_delay_samples: usize,
    num_delays: usize,
) -> (deltas: Vec<usize>)
    ensures
        deltas@ == linear_deltas(
            min_delay_samples as int,
            max_delay_samples as int,
            num_delays as int,
        ),
{
    let low: usize = if min_delay_samples < 2 {
        2
    } else if min_delay_samples > PRACTICAL_MAX_INPUT_DELAY {
        PRACTICAL_MAX_INPUT_DELAY
    } else {
        min_delay_samples
    };
    let high: usize = if max_delay_samples < low {
        low
    } else if max_delay_samples > PRACTICAL_MAX_INPUT_DELAY {
        PRACTICAL_MAX_INPUT_DELAY
    } else {
        max_delay_samples
    };
    let mut deltas: Vec<usize> = Vec::new();
    if num_delays == 0 {
        proof {
            assert(deltas@ =~= linear_deltas(
                min_delay_samples as int,
                max_delay_samples as int,
                num_delays as int,
            ));
        }
        return deltas;
    }
    let span2: usize = 2 * (high - low);
    let gaps: usize = num_delays - 1;
    let step: usize = if gaps == 0 {
        0
    } else if gaps > span2 {
        proof {
            assert((span2 + gaps) / (2 * gaps) == 0) by (nonlinear_arith)
                requires
                    0 <= span2 < gaps,
            ;
        }
        0
    } else {
        (span2 + gaps) / (2 * gaps)
    };
    deltas.push(low);
    let mut i: usize = 1;
    while i < num_delays
        invariant
            1 <= i <= num_delays,
            deltas@.len() == i,
            deltas@[0] == low,
            forall|k: int| 1 <= k < i ==> deltas@[k] == step,
        decreases num_delays - i,
    {
        deltas.push(step);
        i += 1;
    }
    proof {
        assert(deltas@ =~= linear_deltas(
            min_delay_samples as int,
            max_delay_samples as int,
            num_delays as int,
        ));
    }
    deltas
}

/// The longest delay asked for when `num_delays` delays are spaced
/// `spacing` samples apart, in samples and no more than the machine can
/// count.
pub open spec fn spaced_span(spacing: int, num_delays: int) -> int {
    if spacing * (num_delays + 1) > usize::MAX {
        usize::MAX as int
    } else {
        spacing * (num_delays + 1)
    }
}

/// Prime delay lengths about `sample_delay_spacing` samples apart. A
/// single delay is the spacing itself; several delays follow the linear
/// deltas from the spacing to the spacing times `num_delays + 1`.
pub fn get_delay_samples_by_spacing(sample_delay_spacing: usize, num_delays: usize) -> (delays:
    Vec<usize>)
    ensures
        num_delays == 1 ==> delays@ == seq![sample_delay_spacing],
        num_delays != 1 ==> delays_follow(
            delays@,
            linear_deltas(
                sample_delay_spacing as int,
                spaced_span(sample_delay_spacing as int, num_delays as int),
                num_delays as int,
            ),
        ),
{
    if num_delays == 1 {
        let mut single: Vec<usize> = Vec::new();
        single.push(sample_delay_spacing);
        proof {
            assert(single@ =~= seq![sample_delay_spacing]);
        }
        return single;
    }
    let longest: usize = if num_delays == usize::MAX {
        proof {
            assert(sample_delay_spacing * (num_delays + 1) > usize::MAX
                || sample_delay_spacing == 0) by (nonlinear_arith)
                requires
                    num_delays == usize::MAX,
                    sample_delay_spacing >= 0,
            ;
        }
        if sample_delay_spacing == 0 {
            0
        } else {
            usize::MAX
        }
    } else if sample_delay_spacing > 0 && num_delays + 1 > usize::MAX / sample_delay_spacing {
        proof {
            assert(sample_delay_spacing * (num_delays + 1) > usize::MAX) by (nonlinear_arith)
                requires
                    sample_delay_spacing > 0,
                    num_delays + 1 > (usize::MAX as int) / (sample_delay_spacing as int),
            ;
        }
        usize::MAX
    } else {
        proof {
            assert(sample_delay_spacing * (num_delays + 1) <= usize::MAX) by (nonlinear_arith)
                requires
                    sample_delay_spacing == 0 || num_delays + 1 <= (usize::MAX as int) / (
                    sample_delay_spacing as int),
                    sample_delay_spacing >= 0,
                    num_delays >= 0,
            ;
        }
        sample_delay_spacing * (num_delays + 1)
    };
    let deltas = linear_delay_target_deltas(sample_delay_spacing, longest, num_delays);
    find_prime_delays_from_deltas(deltas.as_slice())
}

/// Where channel `i` is sent by the permutation with the given odd
/// multiplier and seed over `channels` channels.
pub open spec fn permuted(i: int, multiplier: int, seed: int, channels: int) -> int {
    (i * multiplier + seed) % channels
}

/// `v` names every channel below its length exactly once.
pub open spec fn is_permutation(v: Seq<usize>) -> bool {
    &&& forall|i: int| 0 <= i < v.len() ==> (#[trigger] v[i]) < v.len()
    &&& v.no_duplicates()
}

/// Below a power of two, only zero has an odd multiple that the power of
/// two divides.
pub proof fn lemma_odd_multiple(c: int, m: int, d: int)
    requires
        is_power_of_two(c),
        m >= 0,
        m % 2 == 1,
        0 <= d < c,
        (d * m) % c == 0,
    ensures
        d == 0,
    decreases c,
{
    if c > 1 {
        let half = c / 2;
        assert(d * m >= 0) by (nonlinear_arith)
            requires
                d >= 0,
                m >= 0,
        ;
        lemma_quotient(d * m, c);
        let q = (d * m) / c;
        assert(d % 2 == 0) by {
            if d % 2 == 1 {
                let a = d / 2;
                let b = m / 2;
                let t = 2 * a * b + a + b;
                assert(d * m == 2 * t + 1) by (nonlinear_arith)
                    requires
                        d == 2 * a + 1,
                        m == 2 * b + 1,
                        t == 2 * a * b + a + b,
                ;
                let u = half * q;
                assert(c * q == 2 * u) by (nonlinear_arith)
                    requires
                        c == 2 * half,
                        u == half * q,
                ;
                assert(false);
            }
        }
        let e = d / 2;
        assert(e * m == half * q) by (nonlinear_arith)
            requires
                d * m == c * q,
                d == 2 * e,
                c == 2 * half,
        ;
        lemma_multiple(half, q);
        lemma_odd_multiple(half, m, e);
    }
}

/// Two channels sent to the same place by a permutation with an odd
/// multiplier over a power of two are the same channel.
pub proof fn lemma_permuted_is_injective(i: int, j: int, multiplier: int, seed: int, channels: int)
    requires
        is_power_of_two(channels),
        multiplier >= 0,
        multiplier % 2 == 1,
        0 <= j <= i < channels,
        permuted(i, multiplier, seed, channels) == permuted(j, multiplier, seed, channels),
    ensures
        i == j,
{
    let x = i * multiplier + seed;
    let y = j * multiplier + seed;
    lemma_fundamental_div_mod(x, channels);
    lemma_fundamental_div_mod(y, channels);
    let k = x / channels - y / channels;
    assert((i - j) * multiplier == channels * k) by (nonlinear_arith)
        requires
            x == channels * (x / channels) + x % channels,
            y == channels * (y / channels) + y % channels,
            x % channels == y % channels,
            x == i * multiplier + seed,
            y == j * multiplier + seed,
            k == x / channels - y / channels,
    ;
    lemma_multiple(channels, k);
    lemma_odd_multiple(channels, multiplier, i - j);
}

/// A permutation of the channels of a feedback delay network: channel
/// `i` is sent to `(i * multiplier + seed) mod channels`. With a power of
/// two for the channel count and an odd multiplier no two channels meet.
pub fn permutation_vector(channels: usize, multiplier: usize, seed: usize) -> (places: Vec<usize>)
    requires
        is_power_of_two(channels as int),
        multiplier % 2 == 1,
    ensures
        places@.len() == channels,
        forall|i: int|
            0 <= i < channels ==> #[trigger] places@[i] == permuted(
                i,
                multiplier as int,
                seed as int,
                channels as int,
            ),
        is_permutation(places@),
{
    let mut places: Vec<usize> = Vec::new();
    let mut i: usize = 0;
    while i < channels
        invariant
            i <= channels,
            channels > 0,
            places@.len() == i,
            forall|k: int|
                0 <= k < i ==> #[trigger] places@[k] == permuted(
                    k,
                    multiplier as int,
                    seed as int,
                    channels as int,
                ),
        decreases channels - i,
    {
        let wide_i = i as u128;
        let wide_m = multiplier as u128;
        proof {
            assert(wide_i * wide_m <= 0xffff_ffff_ffff_ffff * 0xffff_ffff_ffff_ffff)
                by (nonlinear_arith)
                requires
                    0 <= wide_i <= 0xffff_ffff_ffff_ffff,
                    0 <= wide_m <= 0xffff_ffff_ffff_ffff,
            ;
        }
        let place = (wide_i * wide_m + seed as u128) % (channels as u128);
        places.push(place as usize);
        i += 1;
    }
    proof {
        assert forall|a: int, b: int|
            0 <= a < places@.len() && 0 <= b < places@.len() && a != b implies places@[a]
            != places@[b] by {
            if places@[a] == places@[b] {
                if a > b {
                    lemma_permuted_is_injective(
                        a,
                        b,
                        multiplier as int,
                        seed as int,
                        channels as int,
                    );
                } else {
                    lemma_permuted_is_injective(
                        b,
                        a,
                        multiplier as int,
                        seed as int,
                        channels as int,
                    );
                }
            }
        }
    }
    places
}

} // verus!
