use vstd::prelude::*;
use vstd::arithmetic::div_mod::lemma_fundamental_div_mod_converse;
use crate::primes::{lemma_multiple, lemma_quotient};
use crate::reverb::{is_power_of_two, lemma_power_of_two_gap};

verus! {

/// The lower channel of the `k`-th butterfly of the stage that pairs
/// channels `h` apart: the stage works on blocks of `2 * h` channels and
/// pairs the first half of a block with its second half.
pub open spec fn butterfly_low(h: int, k: int) -> int {
    (k / h) * (2 * h) + k % h
}

/// The butterflies of the stage that pairs channels `h` apart, over `n`
/// channels: half as many pairs as there are channels, each a lower
/// channel and the channel `h` above it.
pub open spec fn stage_pairs(n: int, h: int) -> Seq<(usize, usize)> {
    Seq::new(
        (n / 2) as nat,
        |k: int| (butterfly_low(h, k) as usize, (butterfly_low(h, k) + h) as usize),
    )
}

/// The butterflies of a fast Walsh–Hadamard transform over `n` channels
/// from the stage that pairs channels `h` apart on: stage after stage,
/// the distance doubling, until it reaches `n`.
pub open spec fn hadamard_schedule(n: int, h: int) -> Seq<(usize, usize)>
    decreases
        if h < n {
            n - h
        } else {
            0
        },
{
    if 0 < h < n {
        stage_pairs(n, h) + hadamard_schedule(n, 2 * h)
    } else {
        Seq::empty()
    }
}

/// A power of two divides every power of two that is not smaller.
pub proof fn lemma_power_of_two_divides(p: int, q: int)
    requires
        is_power_of_two(p),
        is_power_of_two(q),
        p <= q,
    ensures
        q % p == 0,
    decreases q,
{
    if p < q {
        lemma_power_of_two_gap(p, q);
        let half = q / 2;
        lemma_power_of_two_divides(p, half);
        lemma_quotient(half, p);
        let c = half / p;
        assert(q == p * (2 * c)) by (nonlinear_arith)
            requires
                q == 2 * half,
                half == p * c,
        ;
        lemma_multiple(p, 2 * c);
    } else {
        lemma_multiple(p, 1);
    }
}

/// The pairs of channels that a fast Walsh–Hadamard transform over
/// `channels` channels combines, in the order in which it combines them.
/// Every pair names two channels of the transform, the lower one first.
pub fn hadamard_pairs(channels: usize) -> (pairs: Vec<(usize, usize)>)
    requires
        channels == 0 || is_power_of_two(channels as int),
    ensures
        pairs@ == hadamard_schedule(channels as int, 1),
        forall|k: int| 0 <= k < pairs@.len() ==> (#[trigger] pairs@[k]).0 < pairs@[k].1 < channels,
{
    let mut pairs: Vec<(usize, usize)> = Vec::new();
    if channels == 0 {
        return pairs;
    }
    let mut h: usize = 1;
    proof {
        assert(is_power_of_two(1));
        if channels < 1 {
            assert(!is_power_of_two(channels as int));
        }
        assert(pairs@ + hadamard_schedule(channels as int, 1) =~= hadamard_schedule(
            channels as int,
            1,
        ));
    }
    while h < channels
        invariant
            1 <= h,
            is_power_of_two(h as int),
            is_power_of_two(channels as int),
            h <= channels,
            pairs@ + hadamard_schedule(channels as int, h as int) == hadamard_schedule(
                channels as int,
                1,
            ),
            forall|k: int|
                0 <= k < pairs@.len() ==> (#[trigger] pairs@[k]).0 < pairs@[k].1 < channels,
        decreases channels - h,
    {
        let ghost done = pairs@;
        let ghost stage = stage_pairs(channels as int, h as int);
        proof {
            lemma_power_of_two_gap(h as int, channels as int);
            assert((2 * h) / 2 == h as int);
            assert(is_power_of_two(2 * h));
            lemma_power_of_two_divides(2 * h, channels as int);
            lemma_quotient(channels as int, 2 * h);
            assert(done + stage.take(0) =~= done);
        }
        let blocks: usize = channels / (2 * h);
        let mut block: usize = 0;
        while block < blocks
            invariant
                1 <= h,
                2 * h <= channels,
                channels == (2 * h) * blocks,
                block <= blocks,
                stage == stage_pairs(channels as int, h as int),
                pairs@ == done + stage.take(block * h),
                forall|k: int|
                    0 <= k < pairs@.len() ==> (#[trigger] pairs@[k]).0 < pairs@[k].1 < channels,
            decreases blocks - block,
        {
            proof {
                assert((2 * h) * block + 2 * h <= (2 * h) * blocks) by (nonlinear_arith)
                    requires
                        block < blocks,
                        h >= 1,
                ;
                assert(block * h + h <= blocks * h) by (nonlinear_arith)
                    requires
                        block < blocks,
                        h >= 1,
                ;
                assert(blocks * h == channels / 2) by (nonlinear_arith)
                    requires
                        channels == (2 * h) * blocks,
                ;
            }
            let start: usize = 2 * h * block;
            let mut offset: usize = 0;
            while offset < h
                invariant
                    1 <= h,
                    offset <= h,
                    start == (2 * h) * block,
                    start + 2 * h <= channels,
                    block * h + h <= channels / 2,
                    stage == stage_pairs(channels as int, h as int),
                    pairs@ == done + stage.take(block * h + offset),
                    forall|k: int|
                        0 <= k < pairs@.len() ==> (#[trigger] pairs@[k]).0 < pairs@[k].1
                            < channels,
                decreases h - offset,
            {
                let low = start + offset;
                let ghost before = pairs@;
                let ghost k = block * h + offset;
                pairs.push((low, low + h));
                proof {
                    lemma_fundamental_div_mod_converse(k, h as int, block as int, offset as int);
                    assert((block as int) * (2 * h) == (2 * h) * block) by (nonlinear_arith);
                    assert(butterfly_low(h as int, k) == low);
                    assert(stage[k] == (low, (low + h) as usize));
                    assert(stage.take(k + 1) =~= stage.take(k).push(stage[k]));
                    assert(pairs@ =~= done + stage.take(k + 1));
                    assert forall|i: int| 0 <= i < pairs@.len() implies (#[trigger] pairs@[i]).0
                        < pairs@[i].1 < channels by {
                        if i < before.len() {
                            assert(pairs@[i] == before[i]);
                        }
                    }
                }
                offset += 1;
            }
            proof {
                assert((block + 1) * h == block * h + h) by (nonlinear_arith);
            }
            block += 1;
        }
        proof {
            assert(blocks * h == channels / 2) by (nonlinear_arith)
                requires
                    channels == (2 * h) * blocks,
            ;
            assert(stage.take(blocks * h) =~= stage);
            assert((done + stage) + hadamard_schedule(channels as int, 2 * h) =~= done + (stage
                + hadamard_schedule(channels as int, 2 * h)));
        }
        h = 2 * h;
    }
    proof {
        assert(pairs@ + Seq::<(usize, usize)>::empty() =~= pairs@);
    }
    pairs
}

} // verus!
