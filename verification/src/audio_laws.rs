//! What holds of the audio, however it comes in.
use crate::audio;
use crate::audio::{DecodeInput, SampleRing};
use vstd::prelude::*;

verus! {

/// The samples of blocks, one block after the other.
pub open spec fn concatenated<T>(blocks: Seq<Seq<T>>) -> Seq<T>
    decreases blocks.len(),
{
    if blocks.len() == 0 {
        Seq::empty()
    } else {
        blocks[0] + concatenated(blocks.drop_first())
    }
}

/// What a ring with room for `cap` samples keeps after it took in the blocks.
pub open spec fn absorbed<T>(kept: Seq<T>, blocks: Seq<Seq<T>>, cap: int) -> Seq<T>
    decreases blocks.len(),
{
    if blocks.len() == 0 {
        kept
    } else {
        absorbed(audio::tail(kept + blocks[0], cap), blocks.drop_first(), cap)
    }
}

/// Cutting into blocks loses no sample and changes no order; no block is empty
/// or longer than the others, and only the last may be shorter.
pub proof fn law_blocks_are_the_samples<T>(s: Seq<T>, size: int)
    requires
        size > 0,
    ensures
        concatenated(audio::blocks_of(s, size)) == s,
        forall|i: int|
            0 <= i < audio::blocks_of(s, size).len() ==> 0 < (#[trigger] audio::blocks_of(
                s,
                size,
            )[i]).len() <= size,
        forall|i: int|
            0 <= i < audio::blocks_of(s, size).len() - 1 ==> (#[trigger] audio::blocks_of(
                s,
                size,
            )[i]).len() == size,
    decreases s.len(),
{
    let all = audio::blocks_of(s, size);
    assert(concatenated(Seq::<Seq<T>>::empty()) == Seq::<T>::empty());
    if s.len() == 0 {
        assert(s == Seq::<T>::empty());
    } else if s.len() <= size {
        assert(all == seq![s]);
        assert(all.drop_first() == Seq::<Seq<T>>::empty());
        assert(s + Seq::<T>::empty() == s);
    } else {
        let rest = audio::blocks_of(s.skip(size), size);
        law_blocks_are_the_samples(s.skip(size), size);
        assert(all.drop_first() == rest);
        assert(s.take(size) + s.skip(size) == s);
        assert forall|i: int| 0 <= i < all.len() implies 0 < (#[trigger] all[i]).len()
            <= size by {
            if i > 0 {
                assert(all[i] == rest[i - 1]);
            }
        }
        assert forall|i: int| 0 <= i < all.len() - 1 implies (#[trigger] all[i]).len()
            == size by {
            if i > 0 {
                assert(all[i] == rest[i - 1]);
            }
        }
    }
}

/// A ring keeps the last samples of all it ever took in, whatever blocks they
/// came in.
pub proof fn law_ring_keeps_the_last_samples<T>(kept: Seq<T>, blocks: Seq<Seq<T>>, cap: int)
    requires
        0 <= cap,
        kept.len() <= cap,
    ensures
        absorbed(kept, blocks, cap) == audio::tail(kept + concatenated(blocks), cap),
    decreases blocks.len(),
{
    if blocks.len() == 0 {
        assert(kept + Seq::<T>::empty() == kept);
    } else {
        let now = audio::tail(kept + blocks[0], cap);
        let rest = concatenated(blocks.drop_first());
        law_ring_keeps_the_last_samples(now, blocks.drop_first(), cap);
        assert(audio::tail(now + rest, cap) =~= audio::tail(kept + (blocks[0] + rest), cap));
    }
}

/// Cut into blocks and taken in one by one, samples leave in the ring what they
/// would leave if they were taken in at once.
pub proof fn law_blocks_do_not_matter<T>(kept: Seq<T>, samples: Seq<T>, size: int, cap: int)
    requires
        size > 0,
        0 <= cap,
        kept.len() <= cap,
    ensures
        absorbed(kept, audio::blocks_of(samples, size), cap) == audio::tail(kept + samples, cap),
{
    law_blocks_are_the_samples(samples, size);
    law_ring_keeps_the_last_samples(kept, audio::blocks_of(samples, size), cap);
}

/// What is decoded is never shorter than half a second nor longer than three,
/// whatever the rate of the capture; and where enough was captured at the
/// decoder's own rate, it is decoded as it came.
pub proof fn law_decoded_length<T, W, L: Fn(usize, u32, u32) -> (usize, W), B: Fn(T, T, W) -> T>(
    kept: Seq<T>,
    rate: u32,
    locate: L,
    blend: B,
    input: DecodeInput<T>,
)
    requires
        audio::to_decode(kept, rate, locate, blend, input),
    ensures
        input matches DecodeInput::Samples(a) ==> audio::SHORTEST <= a@.len() <= audio::WINDOW,
        rate == audio::DECODER_HZ && kept.len() >= audio::SHORTEST ==> (
        input matches DecodeInput::Samples(a) && a@ == audio::tail(kept, audio::WINDOW as int)),
{
}

/// The tail of a sequence is its last elements, in their order.
pub proof fn law_tail_is_the_last_elements<T>(s: Seq<T>, n: int, k: int)
    requires
        n >= 0,
    ensures
        audio::tail(s, n).len() == (if s.len() < n {
            s.len() as int
        } else {
            n
        }),
        0 <= k < audio::tail(s, n).len() ==> audio::tail(s, n)[k] == s[s.len() - audio::tail(
            s,
            n,
        ).len() + k],
{
}

/// A ring has room for four seconds, and holds no more.
pub proof fn law_ring_has_room_for_four_seconds<T>(ring: SampleRing<T>)
    ensures
        ring.capacity() == ring.rate() * 4,
        ring.wf() ==> ring@.len() <= ring.rate() * 4,
{
}

/// The vectors of a list hold what they hold, one by one.
pub proof fn law_views_one_by_one<T>(v: Seq<Vec<T>>, i: int)
    ensures
        audio::views(v).len() == v.len(),
        0 <= i < v.len() ==> audio::views(v)[i] == v[i]@,
{
}

/// Block `i` holds the samples from `i * size` on, and there are as many blocks
/// as it takes to hold all.
pub proof fn law_block_holds_its_stretch<T>(s: Seq<T>, size: int, i: int)
    requires
        size > 0,
    ensures
        (audio::blocks_of(s, size).len() - 1) * size < s.len() <= audio::blocks_of(s, size).len()
            * size,
        0 <= i < audio::blocks_of(s, size).len() ==> 0 <= i * size < s.len()
            && audio::blocks_of(s, size)[i] == s.subrange(
            i * size,
            if i * size + size < s.len() {
                i * size + size
            } else {
                s.len() as int
            },
        ),
    decreases s.len(),
{
    let all = audio::blocks_of(s, size);
    let n = all.len() as int;
    if s.len() == 0 {
        assert((n - 1) * size < 0 && n * size == 0) by (nonlinear_arith)
            requires
                n == 0,
                size > 0,
        ;
    } else if s.len() <= size {
        assert((n - 1) * size == 0 && n * size == size) by (nonlinear_arith)
            requires
                n == 1,
        ;
        assert(s.subrange(0, s.len() as int) == s);
        if i == 0 {
            assert(i * size == 0);
        }
    } else {
        let r = s.skip(size);
        let rest = audio::blocks_of(r, size);
        law_block_holds_its_stretch(r, size, i - 1);
        let m = rest.len() as int;
        assert(n * size == m * size + size && (n - 1) * size == (m - 1) * size + size)
            by (nonlinear_arith)
            requires
                n == m + 1,
        ;
        if i == 0 {
            assert(i * size == 0);
            assert(all[0] == s.take(size));
            assert(s.take(size) == s.subrange(0, size));
        } else if 0 < i < all.len() {
            assert(i * size == (i - 1) * size + size) by (nonlinear_arith);
            assert(all[i] == rest[i - 1]);
            let from = (i - 1) * size;
            let to = if from + size < r.len() {
                from + size
            } else {
                r.len() as int
            };
            assert(r.subrange(from, to) == s.subrange(from + size, to + size));
        }
    }
}

/// One channel holds the mean of every whole frame, frame by frame: sample `k`
/// is the mean of exactly the samples of frame `k`, and only what is left of a
/// frame at the end is dropped. Data of one channel stays as it is.
pub proof fn law_mono_is_the_mean_of_each_frame<T, A: Fn(&[T]) -> T>(
    data: Seq<T>,
    chans: int,
    mean: A,
    mono: Seq<T>,
    k: int,
)
    requires
        audio::downmixed(data, chans, mean, mono),
    ensures
        chans <= 1 ==> mono == data,
        chans > 1 ==> mono.len() * chans <= data.len() < mono.len() * chans + chans,
        chans > 1 && 0 <= k < mono.len() ==> exists|frame: &[T]|
            {
                &&& #[trigger] mean.ensures((frame,), mono[k])
                &&& frame@.len() == chans
                &&& forall|c: int|
                    0 <= c < chans ==> #[trigger] frame@[c] == data[k * chans + c]
            },
{
    if chans > 1 {
        let n = data.len() as int;
        vstd::arithmetic::div_mod::lemma_fundamental_div_mod(n, chans);
        vstd::arithmetic::div_mod::lemma_mod_bound(n, chans);
        assert(mono.len() * chans == chans * (n / chans)) by (nonlinear_arith)
            requires
                mono.len() == n / chans,
        ;
        if 0 <= k < mono.len() {
            assert(audio::mean_of_frame(data, chans, mean, k, mono[k]));
            assert(0 <= k * chans && k * chans + chans <= mono.len() * chans)
                by (nonlinear_arith)
                requires
                    0 <= k < mono.len(),
                    chans > 1,
            ;
            let frame = choose|frame: &[T]| #[trigger]
                mean.ensures((frame,), mono[k]) && frame@ == data.subrange(
                    k * chans,
                    k * chans + chans,
                );
            assert(frame@.len() == chans);
            assert forall|c: int| 0 <= c < chans implies #[trigger] frame@[c] == data[k * chans
                + c] by {}
        }
    }
}

/// Where every channel of each frame holds one value, and the mean of such a
/// frame is that value, one channel holds these values.
pub proof fn law_mono_of_equal_channels<T, A: Fn(&[T]) -> T>(
    data: Seq<T>,
    chans: int,
    mean: A,
    mono: Seq<T>,
    k: int,
)
    requires
        audio::downmixed(data, chans, mean, mono),
        chans > 1,
        0 <= k < mono.len(),
        forall|frame: &[T], m: T|
            {
                &&& #[trigger] mean.ensures((frame,), m)
                &&& frame@.len() == chans
                &&& forall|c: int| 0 <= c < chans ==> #[trigger] frame@[c] == frame@[0]
            } ==> m == frame@[0],
        forall|c: int| 0 <= c < chans ==> #[trigger] data[k * chans + c] == data[k * chans],
    ensures
        mono[k] == data[k * chans],
{
    law_mono_is_the_mean_of_each_frame(data, chans, mean, mono, k);
    let frame = choose|frame: &[T]|
        {
            &&& #[trigger] mean.ensures((frame,), mono[k])
            &&& frame@.len() == chans
            &&& forall|c: int| 0 <= c < chans ==> #[trigger] frame@[c] == data[k * chans + c]
        };
    assert(frame@[0] == data[k * chans + 0]);
    assert forall|c: int| 0 <= c < chans implies #[trigger] frame@[c] == frame@[0] by {
        assert(frame@[c] == data[k * chans + c]);
    }
}

/// Each sample of a resample is the blend at the place that `locate` gives for
/// its own number and the two rates, with the sample there and the one behind
/// it, or the last one twice; and there are as many samples as the rates say.
pub proof fn law_resample_blends_at_its_own_place<
    T,
    W,
    L: Fn(usize, u32, u32) -> (usize, W),
    B: Fn(T, T, W) -> T,
>(input: Seq<T>, in_hz: u32, out_hz: u32, locate: L, blend: B, out: Seq<T>, i: usize)
    requires
        audio::resampled(input, in_hz, out_hz, locate, blend, out),
    ensures
        input.len() == 0 || in_hz == out_hz ==> out == input,
        input.len() > 0 && in_hz != out_hz && in_hz > 0 ==> out.len() * in_hz <= input.len() * out_hz
            < out.len() * in_hz + in_hz,
        input.len() > 0 && in_hz != out_hz && i < out.len() ==> exists|at: usize, weight: W|
            {
                &&& #[trigger] locate.ensures((i, in_hz, out_hz), (at, weight))
                &&& at < input.len()
                &&& blend.ensures(
                    (
                        input[at as int],
                        input[if at + 1 < input.len() {
                            at + 1
                        } else {
                            at as int
                        }],
                        weight,
                    ),
                    out[i as int],
                )
            },
{
    if input.len() > 0 && in_hz != out_hz {
        let all = (input.len() * out_hz) as int;
        let hz = in_hz as int;
        if in_hz > 0 {
            vstd::arithmetic::div_mod::lemma_fundamental_div_mod(all, hz);
            vstd::arithmetic::div_mod::lemma_mod_bound(all, hz);
            assert(out.len() * hz == hz * (all / hz)) by (nonlinear_arith)
                requires
                    out.len() == all / hz,
            ;
        }
        if i < out.len() {
            assert(audio::interpolated(
                input,
                in_hz,
                out_hz,
                locate,
                blend,
                i,
                out[i as int],
            ));
        }
    }
}

/// Where `locate` gives the place that number and rates say, and `blend` its
/// first sample, the resample picks the input at those places.
pub proof fn law_resample_picks_by_the_rates<
    T,
    W,
    L: Fn(usize, u32, u32) -> (usize, W),
    B: Fn(T, T, W) -> T,
>(input: Seq<T>, in_hz: u32, out_hz: u32, locate: L, blend: B, out: Seq<T>, i: usize)
    requires
        audio::resampled(input, in_hz, out_hz, locate, blend, out),
        in_hz != out_hz,
        input.len() > 0,
        i < out.len(),
        forall|n: usize, at: usize, weight: W| #[trigger]
            locate.ensures((n, in_hz, out_hz), (at, weight)) ==> at == n * in_hz / (out_hz as int),
        forall|a: T, b: T, weight: W, v: T| #[trigger] blend.ensures((a, b, weight), v) ==> v == a,
    ensures
        out[i as int] == input[i * in_hz / (out_hz as int)],
{
    law_resample_blends_at_its_own_place(input, in_hz, out_hz, locate, blend, out, i);
}

/// A sample is misplaced only where `locate` puts one of those that the rates
/// ask for outside the input.
pub proof fn law_misplaced_sample_is_outside<W, L: Fn(usize, u32, u32) -> (usize, W)>(
    len: int,
    in_hz: u32,
    out_hz: u32,
    locate: L,
)
    requires
        audio::misplaced(len, in_hz, out_hz, locate),
        in_hz > 0,
        len >= 0,
    ensures
        exists|i: usize, at: usize, weight: W|
            {
                &&& #[trigger] locate.ensures((i, in_hz, out_hz), (at, weight))
                &&& i * in_hz + in_hz <= len * out_hz
                &&& at >= len
            },
{
    let (i, at, weight) = choose|i: usize, at: usize, weight: W| #[trigger]
        locate.ensures((i, in_hz, out_hz), (at, weight)) && i < len * out_hz / (in_hz as int)
            && at >= len;
    let all = len * out_hz;
    let hz = in_hz as int;
    let q = all / hz;
    let n = i as int;
    vstd::arithmetic::div_mod::lemma_fundamental_div_mod(all, hz);
    vstd::arithmetic::div_mod::lemma_mod_bound(all, hz);
    assert(n * hz + hz <= hz * q) by (nonlinear_arith)
        requires
            n + 1 <= q,
            hz > 0,
    ;
}

/// What is decoded is the newest of the resample, at every rate: its last three
/// seconds in their order, or all of it, down to half a second; with less there
/// is nothing to decode.
pub proof fn law_the_newest_samples_are_decoded<
    T,
    W,
    L: Fn(usize, u32, u32) -> (usize, W),
    B: Fn(T, T, W) -> T,
>(kept: Seq<T>, rate: u32, locate: L, blend: B, input: DecodeInput<T>)
    requires
        audio::to_decode(kept, rate, locate, blend, input),
    ensures
        input matches DecodeInput::Samples(a) ==> exists|all: Seq<T>|
            {
                &&& #[trigger] audio::resampled(kept, rate, 16_000, locate, blend, all)
                &&& all.len() >= 8_000
                &&& a@.len() == (if all.len() < 48_000 {
                    all.len() as int
                } else {
                    48_000
                })
                &&& a@.last() == all.last()
                &&& forall|k: int|
                    0 <= k < a@.len() ==> #[trigger] a@[k] == all[all.len() - a@.len() + k]
            },
        input is TooShort ==> exists|all: Seq<T>|
            {
                &&& #[trigger] audio::resampled(kept, rate, 16_000, locate, blend, all)
                &&& all.len() < 8_000
            },
        input is Misplaced ==> kept.len() > 0 && rate != 16_000 && audio::misplaced(
            kept.len() as int,
            rate,
            16_000,
            locate,
        ),
{
    if let DecodeInput::Samples(a) = input {
        let all = choose|all: Seq<T>|
            {
                &&& #[trigger] audio::resampled(
                    kept,
                    rate,
                    audio::DECODER_HZ,
                    locate,
                    blend,
                    all,
                )
                &&& all.len() >= audio::SHORTEST
                &&& a@ == audio::tail(all, audio::WINDOW as int)
            };
        assert(audio::resampled(kept, rate, 16_000, locate, blend, all));
    }
}

/// Where `locate` gives the place that number and rates say, and `blend` its
/// first sample, what is decoded can be told from the samples kept alone: sample
/// `k` is the one kept at the place of the `k`-th of the last that the decoder's
/// rate asks for.
pub proof fn law_decoded_samples_by_the_rates<
    T,
    W,
    L: Fn(usize, u32, u32) -> (usize, W),
    B: Fn(T, T, W) -> T,
>(kept: Seq<T>, rate: u32, locate: L, blend: B, decoded: Vec<T>, k: int)
    requires
        audio::to_decode(kept, rate, locate, blend, DecodeInput::Samples(decoded)),
        rate > 0,
        kept.len() * 16_000int / (rate as int) <= usize::MAX,
        forall|n: usize, at: usize, weight: W| #[trigger]
            locate.ensures((n, rate, 16_000), (at, weight)) ==> at == n * rate / 16_000,
        forall|a: T, b: T, weight: W, v: T| #[trigger] blend.ensures((a, b, weight), v) ==> v == a,
        0 <= k < decoded@.len(),
    ensures
        decoded@[k] == kept[(kept.len() * 16_000int / (rate as int) - decoded@.len() + k) * rate
            / 16_000],
{
    let n = kept.len() * 16_000int / (rate as int);
    law_the_newest_samples_are_decoded(kept, rate, locate, blend, DecodeInput::Samples(decoded));
    let all = choose|all: Seq<T>|
        {
            &&& #[trigger] audio::resampled(kept, rate, 16_000, locate, blend, all)
            &&& all.len() >= 8_000
            &&& decoded@.len() == (if all.len() < 48_000 {
                all.len() as int
            } else {
                48_000
            })
            &&& decoded@.last() == all.last()
            &&& forall|j: int|
                0 <= j < decoded@.len() ==> #[trigger] decoded@[j] == all[all.len()
                    - decoded@.len() + j]
        };
    let i = all.len() - decoded@.len() + k;
    if rate == 16_000 {
        let len = kept.len() as int;
        assert(len * 16_000 / (rate as int) == len && i * rate / 16_000 == i) by (nonlinear_arith)
            requires
                rate == 16_000,
        ;
    } else {
        assert(all.len() == n);
        law_resample_picks_by_the_rates(
            kept,
            rate,
            16_000,
            locate,
            blend,
            all,
            i as usize,
        );
    }
}

} // verus!
