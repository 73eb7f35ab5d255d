//! The captured audio on its way to the decoder. The samples are of any type
//! `T`; the arithmetic on them is the caller's.
use std::collections::VecDeque;
use vstd::prelude::*;
use vstd::slice::slice_subrange;

verus! {

/// The sample rate that the decoder works at.
pub const DECODER_HZ: u32 = 16_000;

/// How many samples at the decoder's rate are decoded at a time: three seconds.
pub const WINDOW: usize = 48_000;

/// How many samples there have to be for a decode: half a second.
pub const SHORTEST: usize = 8_000;

/// How many seconds of audio are kept.
pub const KEPT_SECONDS: u32 = 4;

/// The last `n` elements, or all where there are fewer.
pub open spec fn tail<T>(s: Seq<T>, n: int) -> Seq<T> {
    if s.len() > n {
        s.skip(s.len() - n)
    } else {
        s
    }
}

/// The elements in blocks of `size`, the last of which may be shorter.
pub open spec fn blocks_of<T>(s: Seq<T>, size: int) -> Seq<Seq<T>>
    decreases s.len(),
{
    if s.len() == 0 || size <= 0 {
        Seq::empty()
    } else if s.len() <= size {
        seq![s]
    } else {
        seq![s.take(size)] + blocks_of(s.skip(size), size)
    }
}

/// The sequences that a list of vectors holds.
pub open spec fn views<T>(v: Seq<Vec<T>>) -> Seq<Seq<T>> {
    v.map_values(|b: Vec<T>| b@)
}

/// Whether `m` is what `mean` makes of frame `k` of interleaved data.
pub open spec fn mean_of_frame<T, A: Fn(&[T]) -> T>(
    data: Seq<T>,
    chans: int,
    mean: A,
    k: int,
    m: T,
) -> bool {
    exists|frame: &[T]| #[trigger]
        mean.ensures((frame,), m) && frame@ == data.subrange(k * chans, k * chans + chans)
}

/// Whether `mono` is the interleaved data brought down to one channel: the data
/// itself where it has only one, and else the mean of each whole frame.
pub open spec fn downmixed<T, A: Fn(&[T]) -> T>(
    data: Seq<T>,
    chans: int,
    mean: A,
    mono: Seq<T>,
) -> bool {
    if chans <= 1 {
        mono == data
    } else {
        &&& mono.len() == data.len() / (chans as nat)
        &&& forall|k: int|
            0 <= k < mono.len() ==> mean_of_frame(data, chans, mean, k, #[trigger] mono[k])
    }
}

/// Brings interleaved data down to one channel. What is left of a frame at the
/// end is dropped.
pub fn downmix<T: Copy, A: Fn(&[T]) -> T>(data: &[T], chans: usize, mean: &A) -> (mono: Vec<T>)
    requires
        forall|frame: &[T]|
            chans > 1 && frame@.len() == chans ==> #[trigger] mean.requires((frame,)),
    ensures
        downmixed(data@, chans as int, *mean, mono@),
{
    if chans <= 1 {
        return vstd::slice::slice_to_vec(data);
    }
    let mut mono: Vec<T> = Vec::new();
    let mut at: usize = 0;
    while data.len() - at >= chans
        invariant
            chans > 1,
            at <= data@.len(),
            at == mono@.len() * chans,
            forall|frame: &[T]| frame@.len() == chans ==> #[trigger] mean.requires((frame,)),
            forall|k: int|
                0 <= k < mono@.len() ==> mean_of_frame(
                    data@,
                    chans as int,
                    *mean,
                    k,
                    #[trigger] mono@[k],
                ),
        decreases data@.len() - at,
    {
        let frame: &[T] = slice_subrange(data, at, at + chans);
        let m: T = mean(frame);
        assert(mean_of_frame(data@, chans as int, *mean, mono@.len() as int, m));
        mono.push(m);
        assert((mono@.len() - 1) * chans + chans == mono@.len() * chans) by (nonlinear_arith);
        at += chans;
    }
    proof {
        let n = mono@.len() as int;
        let rest = data@.len() - at;
        vstd::arithmetic::div_mod::lemma_fundamental_div_mod_converse(
            data@.len() as int,
            chans as int,
            n,
            rest,
        );
    }
    mono
}

/// Cuts samples into blocks of a tenth of a second.
pub fn blocks<T: Copy>(mono: &Vec<T>, rate: u32) -> (out: Vec<Vec<T>>)
    requires
        rate >= 10,
    ensures
        views(out@) == blocks_of(mono@, (rate / 10) as int),
{
    let size: usize = (rate / 10) as usize;
    let mut out: Vec<Vec<T>> = Vec::new();
    let mut at: usize = 0;
    assert(mono@.skip(0) == mono@);
    assert(views(out@) + blocks_of(mono@, size as int) == blocks_of(mono@, size as int));
    while at < mono.len()
        invariant
            size > 0,
            at <= mono@.len(),
            blocks_of(mono@, size as int) == views(out@) + blocks_of(
                mono@.skip(at as int),
                size as int,
            ),
        decreases mono@.len() - at,
    {
        let end: usize = if mono.len() - at > size {
            at + size
        } else {
            mono.len()
        };
        let block: Vec<T> = vstd::slice::slice_to_vec(
            slice_subrange(mono.as_slice(), at, end),
        );
        let ghost before = views(out@);
        let ghost rest = mono@.skip(at as int);
        out.push(block);
        proof {
            assert(views(out@) == before.push(block@));
            if rest.len() <= size {
                assert(block@ == rest);
                assert(mono@.skip(end as int) == Seq::<T>::empty());
            } else {
                assert(block@ == rest.take(size as int));
                assert(mono@.skip(end as int) == rest.skip(size as int));
            }
            let last = blocks_of(mono@.skip(end as int), size as int);
            assert(before + (seq![block@] + last) == before.push(block@) + last);
            assert(seq![block@] + Seq::<Seq<T>>::empty() == seq![block@]);
        }
        at = end;
    }
    assert(mono@.skip(at as int) == Seq::<T>::empty());
    assert(views(out@) + Seq::<Seq<T>>::empty() == views(out@));
    out
}

/// What one call of the capture hands on: the data in one channel, cut into
/// blocks of a tenth of a second.
pub fn capture<T: Copy, A: Fn(&[T]) -> T>(
    data: &[T],
    chans: usize,
    rate: u32,
    mean: &A,
) -> (out: Vec<Vec<T>>)
    requires
        rate >= 10,
        forall|frame: &[T]|
            chans > 1 && frame@.len() == chans ==> #[trigger] mean.requires((frame,)),
    ensures
        exists|mono: Seq<T>|
            {
                &&& #[trigger] downmixed(data@, chans as int, *mean, mono)
                &&& views(out@) == blocks_of(mono, (rate / 10) as int)
            },
{
    let mono: Vec<T> = downmix(data, chans, mean);
    blocks(&mono, rate)
}

/// The last seconds of what was captured, at the capture's own rate.
pub struct SampleRing<T> {
    samples: VecDeque<T>,
    rate: u32,
}

impl<T> View for SampleRing<T> {
    type V = Seq<T>;

    /// The samples kept, the oldest first.
    closed spec fn view(&self) -> Seq<T> {
        self.samples@
    }
}

impl<T> SampleRing<T> {
    /// The rate of the samples.
    pub closed spec fn rate(&self) -> u32 {
        self.rate
    }

    /// How many samples are kept at most.
    pub open spec fn capacity(&self) -> int {
        self.rate() * KEPT_SECONDS
    }

    /// No more samples are kept than there is room for.
    pub open spec fn wf(&self) -> bool {
        self@.len() <= self.capacity() <= usize::MAX
    }
}

impl<T: Copy> SampleRing<T> {
    /// An empty ring for samples of a rate.
    pub fn new(rate: u32) -> (ring: Self)
        requires
            rate * KEPT_SECONDS <= usize::MAX,
        ensures
            ring.wf(),
            ring.rate() == rate,
            ring@ == Seq::<T>::empty(),
    {
        SampleRing { samples: VecDeque::with_capacity(rate as usize * KEPT_SECONDS as usize), rate }
    }

    /// Takes in new samples, and lets go of the oldest for which there is no
    /// room.
    pub fn absorb(&mut self, chunk: &Vec<T>)
        requires
            old(self).wf(),
        ensures
            final(self).wf(),
            final(self).rate() == old(self).rate(),
            final(self)@ == tail(old(self)@ + chunk@, old(self).capacity()),
    {
        let ghost all = self@ + chunk@;
        assert(self@ + chunk@.take(0) == self@);
        for i in 0..chunk.len()
            invariant
                self.rate == old(self).rate,
                self.samples@ == old(self)@ + chunk@.take(i as int),
        {
            self.samples.push_back(chunk[i]);
            assert(chunk@.take(i + 1) == chunk@.take(i as int).push(chunk@[i as int]));
        }
        assert(chunk@.take(chunk@.len() as int) == chunk@);
        let cap: usize = self.rate as usize * KEPT_SECONDS as usize;
        assert(all.skip(0) == all);
        while self.samples.len() > cap
            invariant
                cap == self.capacity(),
                self.rate == old(self).rate,
                self.samples@.len() <= all.len(),
                self.samples@ == all.skip(all.len() - self.samples@.len()),
                all.len() > cap ==> self.samples@.len() >= cap,
                all.len() <= cap ==> self.samples@ == all,
            decreases self.samples@.len(),
        {
            self.samples.pop_front();
        }
    }

    /// The samples kept.
    pub fn to_vec(&self) -> (v: Vec<T>)
        ensures
            v@ == self@,
    {
        let mut v: Vec<T> = Vec::with_capacity(self.samples.len());
        for i in 0..self.samples.len()
            invariant
                v@ == self.samples@.take(i as int),
        {
            v.push(self.samples[i]);
            assert(self.samples@.take(i + 1) == self.samples@.take(i as int).push(
                self.samples@[i as int],
            ));
        }
        assert(self.samples@.take(self.samples@.len() as int) == self.samples@);
        v
    }
}

/// The place next to `at`, or the last place where there is none.
pub open spec fn neighbour(at: int, len: int) -> int {
    if at + 1 < len {
        at + 1
    } else {
        len - 1
    }
}

/// Whether `v` is a blend of the input at a place that `locate` gives for
/// sample `i` at these rates and at the place next to it.
pub open spec fn interpolated<T, W, L: Fn(usize, u32, u32) -> (usize, W), B: Fn(T, T, W) -> T>(
    input: Seq<T>,
    in_hz: u32,
    out_hz: u32,
    locate: L,
    blend: B,
    i: usize,
    v: T,
) -> bool {
    exists|at: usize, weight: W|
        {
            &&& #[trigger] locate.ensures((i, in_hz, out_hz), (at, weight))
            &&& at < input.len()
            &&& blend.ensures(
                (input[at as int], input[neighbour(at as int, input.len() as int)], weight),
                v,
            )
        }
}

/// Whether at these rates `locate` puts some sample of the result outside an
/// input of this length.
pub open spec fn misplaced<W, L: Fn(usize, u32, u32) -> (usize, W)>(
    len: int,
    in_hz: u32,
    out_hz: u32,
    locate: L,
) -> bool {
    exists|i: usize, at: usize, weight: W| #[trigger]
        locate.ensures((i, in_hz, out_hz), (at, weight)) && i < len * out_hz / (in_hz as int) && at >= len
}

/// Whether `out` is the input brought from one rate to another.
pub open spec fn resampled<T, W, L: Fn(usize, u32, u32) -> (usize, W), B: Fn(T, T, W) -> T>(
    input: Seq<T>,
    in_hz: u32,
    out_hz: u32,
    locate: L,
    blend: B,
    out: Seq<T>,
) -> bool {
    if input.len() == 0 || in_hz == out_hz {
        out == input
    } else {
        &&& out.len() == input.len() * out_hz / (in_hz as int)
        &&& forall|i: int|
            0 <= i < out.len() ==> interpolated(
                input,
                in_hz,
                out_hz,
                locate,
                blend,
                i as usize,
                #[trigger] out[i],
            )
    }
}

/// Brings samples from one rate to another by linear interpolation. For each
/// sample of the result `locate` gives, from its number and the two rates, the
/// place in the input that it lies at or behind, with a weight, and `blend` mixes the samples at that place and at the
/// next one. There is no result where a place lies outside the input.
pub fn resample_linear_mono<T: Copy, W, L: Fn(usize, u32, u32) -> (usize, W), B: Fn(T, T, W) -> T>(
    input: &Vec<T>,
    in_hz: u32,
    out_hz: u32,
    locate: &L,
    blend: &B,
) -> (r: Option<Vec<T>>)
    requires
        input@.len() > 0 && in_hz != out_hz ==> {
            &&& in_hz > 0
            &&& input@.len() * out_hz <= u64::MAX
            &&& input@.len() * out_hz / (in_hz as int) <= usize::MAX
        },
        forall|i: usize| #[trigger] locate.requires((i, in_hz, out_hz)),
        forall|a: T, b: T, weight: W| #[trigger] blend.requires((a, b, weight)),
    ensures
        match r {
            Some(out) => resampled(input@, in_hz, out_hz, *locate, *blend, out@),
            None => {
                &&& input@.len() > 0
                &&& in_hz != out_hz
                &&& misplaced(input@.len() as int, in_hz, out_hz, *locate)
            },
        },
{
    if input.is_empty() || in_hz == out_hz {
        return Some(vstd::slice::slice_to_vec(input.as_slice()));
    }
    let len: usize = input.len();
    let out_len: usize = ((len as u64) * (out_hz as u64) / (in_hz as u64)) as usize;
    let mut out: Vec<T> = Vec::with_capacity(out_len);
    for i in 0..out_len
        invariant
            len == input@.len(),
            len > 0,
            in_hz != out_hz,
            out_len == input@.len() * out_hz / (in_hz as int),
            out@.len() == i,
            forall|i: usize| #[trigger] locate.requires((i, in_hz, out_hz)),
            forall|a: T, b: T, weight: W| #[trigger] blend.requires((a, b, weight)),
            forall|k: int|
                0 <= k < i ==> interpolated(
                    input@,
                    in_hz,
                    out_hz,
                    *locate,
                    *blend,
                    k as usize,
                    #[trigger] out@[k],
                ),
    {
        let (at, weight): (usize, W) = locate(i, in_hz, out_hz);
        let ghost w = weight;
        assert(locate.ensures((i, in_hz, out_hz), (at, w)));
        if at >= len {
            return None;
        }
        let next: usize = if at + 1 < len {
            at + 1
        } else {
            len - 1
        };
        let v: T = blend(input[at], input[next], weight);
        assert(interpolated(input@, in_hz, out_hz, *locate, *blend, i, v));
        out.push(v);
    }
    Some(out)
}

/// The last `n` samples, or all where there are fewer.
pub fn last_samples<T: Copy>(samples: Vec<T>, n: usize) -> (r: Vec<T>)
    ensures
        r@ == tail(samples@, n as int),
{
    if samples.len() > n {
        vstd::slice::slice_to_vec(
            slice_subrange(samples.as_slice(), samples.len() - n, samples.len()),
        )
    } else {
        samples
    }
}

/// What there is to decode.
pub enum DecodeInput<T> {
    /// These samples, at the decoder's rate.
    Samples(Vec<T>),
    /// Too little yet.
    TooShort,
    /// A sample of the new rate was placed outside the samples kept.
    Misplaced,
}

/// Whether `r` is what there is to decode of the samples kept: the last three
/// seconds of them at the decoder's rate, where that is half a second at least.
pub open spec fn to_decode<T, W, L: Fn(usize, u32, u32) -> (usize, W), B: Fn(T, T, W) -> T>(
    kept: Seq<T>,
    rate: u32,
    locate: L,
    blend: B,
    r: DecodeInput<T>,
) -> bool {
    match r {
        DecodeInput::Samples(audio) => exists|all: Seq<T>|
            {
                &&& #[trigger] resampled(kept, rate, DECODER_HZ, locate, blend, all)
                &&& all.len() >= SHORTEST
                &&& audio@ == tail(all, WINDOW as int)
            },
        DecodeInput::TooShort => exists|all: Seq<T>|
            {
                &&& #[trigger] resampled(kept, rate, DECODER_HZ, locate, blend, all)
                &&& all.len() < SHORTEST
            },
        DecodeInput::Misplaced => {
            &&& kept.len() > 0
            &&& rate != DECODER_HZ
            &&& misplaced(kept.len() as int, rate, DECODER_HZ, locate)
        },
    }
}

impl<T: Copy> SampleRing<T> {
    /// The samples to decode: the last three seconds of those kept, at the
    /// decoder's rate, where that is half a second at least.
    pub fn decode_input<W, L: Fn(usize, u32, u32) -> (usize, W), B: Fn(T, T, W) -> T>(
        &self,
        locate: &L,
        blend: &B,
    ) -> (r: DecodeInput<T>)
        requires
            self.wf(),
            forall|i: usize| #[trigger] locate.requires((i, self.rate(), DECODER_HZ)),
            forall|a: T, b: T, weight: W| #[trigger] blend.requires((a, b, weight)),
        ensures
            to_decode(self@, self.rate(), *locate, *blend, r),
    {
        let kept: Vec<T> = self.to_vec();
        proof {
            let n = self@.len() as int;
            let hz = self.rate as int;
            if n > 0 {
                assert(hz > 0);
                assert(n * DECODER_HZ <= 64_000 * hz);
                assert(n * DECODER_HZ / hz <= 64_000) by (nonlinear_arith)
                    requires
                        hz > 0,
                        n * DECODER_HZ <= 64_000 * hz,
                ;
            }
        }
        match resample_linear_mono(&kept, self.rate, DECODER_HZ, locate, blend) {
            Some(all) => {
                let audio: Vec<T> = last_samples(all, WINDOW);
                if audio.len() >= SHORTEST {
                    DecodeInput::Samples(audio)
                } else {
                    DecodeInput::TooShort
                }
            },
            None => DecodeInput::Misplaced,
        }
    }
}

} // verus!
