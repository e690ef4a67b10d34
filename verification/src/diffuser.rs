use vstd::prelude::*;
use rand::rngs::SmallRng;
use rand::seq::IndexedRandom;
use rand::{Rng, SeedableRng};
use crate::reverb::is_power_of_two;

verus! {

/// The small, fast generator of the `rand` crate. Nothing is known of its
/// state.
#[verifier::external_type_specification]
#[verifier::external_body]
pub struct ExSmallRng(SmallRng);

/// `SmallRng::seed_from_u64`: a generator seeded with `seed`. Nothing is
/// claimed of the generator.
#[verifier::external_body]
fn seeded_generator(seed: u64) -> (rng: SmallRng) {
    SmallRng::seed_from_u64(seed)
}

/// `Rng::random_range` on the half-open range from `low` to `high`. The
/// call panics on an empty range, which the precondition excludes; the
/// value it returns lies in the range. Which value it is depends on the
/// state of the generator, so no more is claimed.
#[verifier::external_body]
fn random_in_range(rng: &mut SmallRng, low: usize, high: usize) -> (value: usize)
    requires
        low < high,
    ensures
        low <= value < high,
{
    rng.random_range(low..high)
}

/// `IndexedRandom::choose` on the two polarities: `true` stands for a
/// flipped channel. Either may come back, so nothing is claimed.
#[verifier::external_body]
fn random_polarity(rng: &mut SmallRng) -> (flipped: bool) {
    *[true, false].choose(rng).unwrap_or(&false)
}

/// Where the range of delays of channel `channel` starts when
/// `total_delay_samples` samples are shared out evenly among
/// `num_channels` channels.
pub open spec fn range_start(total_delay_samples: int, channel: int, num_channels: int) -> int {
    total_delay_samples * channel / num_channels
}

/// The delay of a channel lies in the share of the channel, and is one
/// sample at least: a share without room gives its start.
pub open spec fn delay_in_share(
    delay: int,
    total_delay_samples: int,
    channel: int,
    num_channels: int,
) -> bool {
    let low = range_start(total_delay_samples, channel, num_channels);
    let high = range_start(total_delay_samples, channel + 1, num_channels);
    if low >= high {
        delay == if low >= 1 {
            low
        } else {
            1
        }
    } else {
        1 <= delay && low <= delay && (delay < high || delay == 1)
    }
}

/// The part of a multi-channel diffuser that is drawn at random: a short
/// delay and a polarity for every channel.
pub struct DiffuserChannels {
    /// The delay of every channel, in samples.
    pub delays: Vec<usize>,
    /// Whether the polarity of a channel is flipped.
    pub flipped: Vec<bool>,
    /// The longest delay a channel may get, in samples.
    pub total_delay_samples: usize,
    pub rng: SmallRng,
}

impl DiffuserChannels {
    /// The invariant of the type: one delay and one polarity per channel,
    /// every delay in the share of its channel.
    pub open spec fn wf(&self) -> bool {
        &&& self.delays@.len() == self.flipped@.len()
        &&& forall|i: int|
            0 <= i < self.delays@.len() ==> delay_in_share(
                #[trigger] self.delays@[i] as int,
                self.total_delay_samples as int,
                i,
                self.delays@.len() as int,
            )
    }

    /// Draws delays and polarities for `num_channels` channels from a
    /// generator seeded with `seed`.
    pub fn new(num_channels: usize, total_delay_samples: usize, seed: u64) -> (channels: Self)
        requires
            num_channels == 0 || is_power_of_two(num_channels as int),
        ensures
            channels.wf(),
            channels.delays@.len() == num_channels,
            channels.total_delay_samples == total_delay_samples,
    {
        let mut channels = DiffuserChannels {
            delays: Vec::new(),
            flipped: Vec::new(),
            total_delay_samples,
            rng: seeded_generator(seed),
        };
        channels.configure_channels(num_channels);
        channels
    }

    /// Draws delays and polarities anew for `num_channels` channels. The
    /// generator goes on from where it stands.
    pub fn configure_channels(&mut self, num_channels: usize)
        requires
            num_channels == 0 || is_power_of_two(num_channels as int),
        ensures
            final(self).wf(),
            final(self).delays@.len() == num_channels,
            final(self).total_delay_samples == old(self).total_delay_samples,
    {
        self.delays.clear();
        self.flipped.clear();
        let total = self.total_delay_samples;
        let mut i: usize = 0;
        while i < num_channels
            invariant
                i <= num_channels,
                total == self.total_delay_samples,
                self.total_delay_samples == old(self).total_delay_samples,
                self.delays@.len() == i,
                self.flipped@.len() == i,
                forall|k: int|
                    0 <= k < i ==> delay_in_share(
                        #[trigger] self.delays@[k] as int,
                        total as int,
                        k,
                        num_channels as int,
                    ),
            decreases num_channels - i,
        {
            let low = share_start(total, i, num_channels);
            let high = share_start(total, i + 1, num_channels);
            let drawn = if low >= high {
                low
            } else {
                random_in_range(&mut self.rng, low, high)
            };
            let delay = if drawn >= 1 {
                drawn
            } else {
                1
            };
            let ghost before = self.delays@;
            self.delays.push(delay);
            let flip = random_polarity(&mut self.rng);
            self.flipped.push(flip);
            proof {
                assert forall|k: int| 0 <= k < i + 1 implies delay_in_share(
                    #[trigger] self.delays@[k] as int,
                    total as int,
                    k,
                    num_channels as int,
                ) by {
                    if k < i {
                        assert(self.delays@[k] == before[k]);
                    }
                }
            }
            i += 1;
        }
    }
}

/// Computes [`range_start`].
pub fn share_start(total_delay_samples: usize, channel: usize, num_channels: usize) -> (start:
    usize)
    requires
        channel <= num_channels,
        num_channels > 0,
    ensures
        start == range_start(total_delay_samples as int, channel as int, num_channels as int),
        start <= total_delay_samples,
{
    let wide_total = total_delay_samples as u128;
    let wide_channel = channel as u128;
    let wide_count = num_channels as u128;
    proof {
        assert(wide_total * wide_channel <= 0xffff_ffff_ffff_ffff * 0xffff_ffff_ffff_ffff)
            by (nonlinear_arith)
            requires
                0 <= wide_total <= 0xffff_ffff_ffff_ffff,
                0 <= wide_channel <= 0xffff_ffff_ffff_ffff,
        ;
        assert((total_delay_samples * channel) / (num_channels as int) <= total_delay_samples)
            by (nonlinear_arith)
            requires
                0 <= channel <= num_channels,
                num_channels > 0,
                total_delay_samples >= 0,
        ;
    }
    let start = wide_total * wide_channel / wide_count;
    start as usize
}

} // verus!
