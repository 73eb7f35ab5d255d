//! The decisions of the worker: which device it listens to, when it decodes
//! and what, which segment of a decode counts, and what is made of its text.
use crate::audio;
use crate::audio::{DecodeInput, SampleRing};
use crate::matcher;
use crate::matcher::{Clock, Listener};
use crate::queue::EventQueue;
use crate::text;
use crate::triggers::Triggers;
use vstd::prelude::*;

verus! {

/// The time between two decodes, in nanoseconds.
pub const TICK: u64 = 400_000_000;

/// The first of the names, all in lower case, that has the wanted text in it.
pub fn first_match(lowered: &Vec<String>, wanted: &str) -> (r: Option<usize>)
    ensures
        match r {
            Some(i) => {
                &&& i < lowered@.len()
                &&& text::contains_text(lowered@[i as int]@, wanted@)
                &&& forall|j: int|
                    0 <= j < i ==> !text::contains_text((#[trigger] lowered@[j])@, wanted@)
            },
            None => forall|j: int|
                0 <= j < lowered@.len() ==> !text::contains_text((#[trigger] lowered@[j])@, wanted@),
        },
{
    for i in 0..lowered.len()
        invariant
            forall|j: int| 0 <= j < i ==> !text::contains_text((#[trigger] lowered@[j])@, wanted@),
    {
        if text::contains(lowered[i].as_str(), wanted) {
            return Some(i);
        }
    }
    None
}

/// The device to listen to: the first one whose name has the wanted text in it,
/// capital letters or not; none, for the default device, where no text is
/// wanted or no name has it.
pub fn pick_device(names: &Vec<String>, wanted: &Option<String>) -> (r: Option<usize>)
    ensures
        match (r, *wanted) {
            (Some(i), Some(sel)) => {
                &&& i < names@.len()
                &&& text::contains_text(text::lowercase(names@[i as int]@), text::lowercase(sel@))
                &&& forall|j: int|
                    0 <= j < i ==> !text::contains_text(
                        text::lowercase((#[trigger] names@[j])@),
                        text::lowercase(sel@),
                    )
            },
            (Some(_), None) => false,
            (None, Some(sel)) => forall|j: int|
                0 <= j < names@.len() ==> !text::contains_text(
                    text::lowercase((#[trigger] names@[j])@),
                    text::lowercase(sel@),
                ),
            (None, None) => true,
        },
{
    match wanted {
        None => None,
        Some(sel) => {
            let sel_lowered: String = sel.as_str().to_lowercase();
            let mut lowered: Vec<String> = Vec::new();
            for i in 0..names.len()
                invariant
                    lowered@.len() == i,
                    forall|j: int|
                        0 <= j < i ==> (#[trigger] lowered@[j])@ == text::lowercase(names@[j]@),
            {
                lowered.push(names[i].as_str().to_lowercase());
            }
            let r: Option<usize> = first_match(&lowered, sel_lowered.as_str());
            proof {
                assert forall|j: int|
                    0 <= j < names@.len() && !text::contains_text(
                        lowered@[j]@,
                        sel_lowered@,
                    ) implies !text::contains_text(
                    text::lowercase((#[trigger] names@[j])@),
                    text::lowercase(sel@),
                ) by {
                    assert(lowered@[j]@ == text::lowercase(names@[j]@));
                }
            }
            r
        },
    }
}

/// When the next decode is due.
pub struct Schedule {
    pub next: u64,
}

/// When the decode after the next is due, if the clock shows `now`.
pub open spec fn next_after(next: u64, now: u64) -> int {
    if now >= next {
        next + TICK
    } else {
        next as int
    }
}

impl Schedule {
    /// The first decode is due at once.
    pub fn new(now: u64) -> (s: Self)
        ensures
            s.next == now,
    {
        Schedule { next: now }
    }

    /// Whether a decode is due. If so, the next one is due a tick after this one
    /// was, however late it is.
    pub fn due(&mut self, now: u64) -> (r: bool)
        requires
            next_after(old(self).next, now) <= u64::MAX,
        ensures
            r == (now >= old(self).next),
            final(self).next == next_after(old(self).next, now),
    {
        if now >= self.next {
            self.next = self.next + TICK;
            true
        } else {
            false
        }
    }
}

/// How many decodes are made when the clock is looked at at these times.
pub open spec fn decodes(start: int, times: Seq<u64>) -> nat
    decreases times.len(),
{
    if times.len() == 0 {
        0
    } else {
        let before = decodes(start, times.drop_last());
        if times.last() >= start + before * TICK {
            before + 1
        } else {
            before
        }
    }
}

/// When the next decode is due after the clock was looked at at these times.
pub open spec fn next_after_all(start: u64, times: Seq<u64>) -> int
    decreases times.len(),
{
    if times.len() == 0 {
        start as int
    } else {
        let before = next_after_all(start, times.drop_last());
        if times.last() >= before {
            before + TICK
        } else {
            before
        }
    }
}

/// Decodes keep to the tick: after `n` of them the next is due `n` ticks after
/// the start, whenever the clock was looked at.
pub proof fn law_decodes_keep_to_the_tick(start: u64, times: Seq<u64>)
    ensures
        next_after_all(start, times) == start + decodes(start as int, times) * TICK,
    decreases times.len(),
{
    if times.len() > 0 {
        law_decodes_keep_to_the_tick(start, times.drop_last());
    }
}

/// No decode is early: one that is due when `n` were made before it is not made
/// before `n` ticks have passed since the start.
pub proof fn law_no_decode_is_early(start: u64, times: Seq<u64>, i: int)
    requires
        0 <= i < times.len(),
        times[i] >= next_after_all(start, times.take(i)),
    ensures
        times[i] >= start + decodes(start as int, times.take(i)) * TICK,
        decodes(start as int, times.take(i + 1)) == decodes(start as int, times.take(i)) + 1,
{
    law_decodes_keep_to_the_tick(start, times.take(i));
    assert(times.take(i + 1).drop_last() == times.take(i));
}

/// The segment of a decode that is looked at: the last one, if there is any.
pub fn last_segment(segments: i32) -> (r: Option<i32>)
    ensures
        r == (if segments > 0 {
            Some((segments - 1) as i32)
        } else {
            None
        }),
{
    if segments > 0 {
        Some(segments - 1)
    } else {
        None
    }
}

/// Where a worker is in its round. A round begins with a look at the flag that
/// keeps the worker running.
#[derive(Clone, Copy, Debug, PartialEq, Eq, Structural)]
pub enum Phase {
    /// It is about to look at the flag.
    CheckingFlag,
    /// It takes in the audio that has come.
    TakingAudio,
    /// It is about to look at the clock.
    ReadingClock,
    /// It has a decode made.
    Decoding,
    /// It is about to rest.
    Resting,
    /// It has ended.
    Ended,
}

/// What a worker is told.
pub enum WorkerEvent<T> {
    /// The flag that keeps it running.
    Flag(bool),
    /// The next block of audio; none where no more has come yet.
    Audio(Option<Vec<T>>),
    /// The time.
    Time(u64),
    /// The rest is over.
    Rested,
}

/// What a worker wants done next.
pub enum WorkerAction<T> {
    /// Tell it the flag.
    CheckFlag,
    /// Tell it the next block of audio.
    TakeAudio,
    /// Tell it the time.
    ReadClock,
    /// Decode these samples, and tell it the text.
    Decode(Vec<T>),
    /// Wait a little, and tell it so.
    Rest,
    /// Nothing: it has ended.
    End,
    /// Nothing: it has ended, for a sample was placed outside the audio kept.
    Fail,
    /// It was told what it did not ask for, and took no notice.
    Unexpected,
}

/// A worker that listens: the audio it keeps, the words it last heard, when it
/// decodes next, and where it is in its round.
pub struct Worker<T> {
    pub ring: SampleRing<T>,
    pub listener: Listener,
    pub schedule: Schedule,
    pub phase: Phase,
}

/// The flag that an event tells, if it is that event.
pub open spec fn told_flag<T>(event: WorkerEvent<T>) -> Option<bool> {
    match event {
        WorkerEvent::Flag(running) => Some(running),
        _ => None,
    }
}

/// Which phase may follow on which, `flag` being the flag where the worker was
/// told it.
pub open spec fn follows(phase: Phase, flag: Option<bool>, next: Phase) -> bool {
    match phase {
        Phase::CheckingFlag => next == (match flag {
            Some(true) => Phase::TakingAudio,
            Some(false) => Phase::Ended,
            None => Phase::CheckingFlag,
        }),
        Phase::TakingAudio => next == Phase::TakingAudio || next == Phase::ReadingClock,
        Phase::ReadingClock => next != Phase::CheckingFlag && next != Phase::TakingAudio,
        Phase::Decoding => next == Phase::Decoding || next == Phase::Resting,
        Phase::Resting => next == Phase::Resting || next == Phase::CheckingFlag,
        Phase::Ended => next == Phase::Ended,
    }
}

impl<T: Copy> Worker<T> {
    /// The audio and the words kept are well formed.
    pub open spec fn wf(&self) -> bool {
        self.ring.wf() && self.listener.wf()
    }

    /// Whether the two keep the same audio.
    pub open spec fn same_audio(&self, other: &Self) -> bool {
        self.ring.rate() == other.ring.rate() && self.ring@ == other.ring@
    }

    /// Whether the two are alike in all but the phase.
    pub open spec fn same_but_phase(&self, other: &Self) -> bool {
        &&& self.same_audio(other)
        &&& self.listener@ == other.listener@
        &&& self.schedule == other.schedule
    }

    /// A worker for audio of a rate, that starts now.
    pub fn new(rate: u32, now: u64) -> (w: Self)
        requires
            rate * audio::KEPT_SECONDS <= usize::MAX,
        ensures
            w.wf(),
            w.ring.rate() == rate,
            w.ring@ == Seq::<T>::empty(),
            w.listener@ == Seq::<Seq<char>>::empty(),
            w.schedule.next == now,
            w.phase == Phase::CheckingFlag,
    {
        Worker {
            ring: SampleRing::new(rate),
            listener: Listener::new(),
            schedule: Schedule::new(now),
            phase: Phase::CheckingFlag,
        }
    }

    /// Tells the worker something, and gives what it wants done next. In each
    /// round it looks at the flag, takes in all audio that has come, looks at the
    /// clock, wants a decode if one is due and there is enough to decode, and
    /// rests. When it finds the flag down it ends, and stays so.
    pub fn step<W, L: Fn(usize, u32, u32) -> (usize, W), B: Fn(T, T, W) -> T>(
        &mut self,
        event: WorkerEvent<T>,
        locate: &L,
        blend: &B,
    ) -> (act: WorkerAction<T>)
        requires
            old(self).wf(),
            event matches WorkerEvent::Time(now) ==> next_after(old(self).schedule.next, now)
                <= u64::MAX,
            forall|i: usize| #[trigger] locate.requires((i, old(self).ring.rate(), audio::DECODER_HZ)),
            forall|a: T, b: T, weight: W| #[trigger] blend.requires((a, b, weight)),
        ensures
            final(self).wf(),
            follows(old(self).phase, told_flag(event), final(self).phase),
            match (old(self).phase, event) {
                (Phase::CheckingFlag, WorkerEvent::Flag(running)) => {
                    &&& final(self).same_but_phase(old(self))
                    &&& running ==> final(self).phase == Phase::TakingAudio && act is TakeAudio
                    &&& !running ==> final(self).phase == Phase::Ended && act is End
                },
                (Phase::TakingAudio, WorkerEvent::Audio(Some(chunk))) => {
                    &&& final(self).ring.rate() == old(self).ring.rate()
                    &&& final(self).ring@ == audio::tail(
                        old(self).ring@ + chunk@,
                        old(self).ring.capacity(),
                    )
                    &&& final(self).listener@ == old(self).listener@
                    &&& final(self).schedule == old(self).schedule
                    &&& final(self).phase == Phase::TakingAudio
                    &&& act is TakeAudio
                },
                (Phase::TakingAudio, WorkerEvent::Audio(None)) => {
                    &&& final(self).same_but_phase(old(self))
                    &&& final(self).phase == Phase::ReadingClock
                    &&& act is ReadClock
                },
                (Phase::ReadingClock, WorkerEvent::Time(now)) => {
                    &&& final(self).same_audio(old(self))
                    &&& final(self).listener@ == old(self).listener@
                    &&& final(self).schedule.next == next_after(old(self).schedule.next, now)
                    &&& if now < old(self).schedule.next {
                        final(self).phase == Phase::Resting && act is Rest
                    } else {
                        exists|input: DecodeInput<T>|
                            {
                                &&& #[trigger] audio::to_decode(
                                    old(self).ring@,
                                    old(self).ring.rate(),
                                    *locate,
                                    *blend,
                                    input,
                                )
                                &&& match input {
                                    DecodeInput::Samples(samples) => final(self).phase
                                        == Phase::Decoding && act == WorkerAction::Decode(
                                        samples,
                                    ),
                                    DecodeInput::TooShort => final(self).phase == Phase::Resting
                                        && act is Rest,
                                    DecodeInput::Misplaced => final(self).phase == Phase::Ended
                                        && act is Fail,
                                }
                            }
                    }
                },
                (Phase::Resting, WorkerEvent::Rested) => {
                    &&& final(self).same_but_phase(old(self))
                    &&& final(self).phase == Phase::CheckingFlag
                    &&& act is CheckFlag
                },
                (Phase::Ended, _) => {
                    &&& final(self).same_but_phase(old(self))
                    &&& final(self).phase == Phase::Ended
                    &&& act is End
                },
                _ => {
                    &&& final(self).same_but_phase(old(self))
                    &&& final(self).phase == old(self).phase
                    &&& act is Unexpected
                },
            },
    {
        match (self.phase, event) {
            (Phase::CheckingFlag, WorkerEvent::Flag(running)) => if running {
                self.phase = Phase::TakingAudio;
                WorkerAction::TakeAudio
            } else {
                self.phase = Phase::Ended;
                WorkerAction::End
            },
            (Phase::TakingAudio, WorkerEvent::Audio(Some(chunk))) => {
                self.ring.absorb(&chunk);
                WorkerAction::TakeAudio
            },
            (Phase::TakingAudio, WorkerEvent::Audio(None)) => {
                self.phase = Phase::ReadingClock;
                WorkerAction::ReadClock
            },
            (Phase::ReadingClock, WorkerEvent::Time(now)) => {
                if !self.schedule.due(now) {
                    self.phase = Phase::Resting;
                    return WorkerAction::Rest;
                }
                match self.ring.decode_input(locate, blend) {
                    DecodeInput::Samples(samples) => {
                        self.phase = Phase::Decoding;
                        WorkerAction::Decode(samples)
                    },
                    DecodeInput::TooShort => {
                        self.phase = Phase::Resting;
                        WorkerAction::Rest
                    },
                    DecodeInput::Misplaced => {
                        self.phase = Phase::Ended;
                        WorkerAction::Fail
                    },
                }
            },
            (Phase::Resting, WorkerEvent::Rested) => {
                self.phase = Phase::CheckingFlag;
                WorkerAction::CheckFlag
            },
            (Phase::Ended, _) => WorkerAction::End,
            _ => WorkerAction::Unexpected,
        }
    }

    /// Tells the worker what the decode that it wanted gave. Where that is a text
    /// all its keys are tried. Where no decode was wanted nothing happens: a
    /// worker that has ended queues nothing.
    pub fn decoded<C: Copy, K: Fn() -> u64>(
        &mut self,
        heard: &Option<String>,
        table: &mut Triggers<C>,
        queue: &mut Option<EventQueue>,
        clock: &mut Clock<K>,
    ) -> (act: WorkerAction<T>)
        requires
            old(self).wf(),
            old(table).wf(),
            matcher::queue_wf(*old(queue)),
            old(clock).source().requires(()),
        ensures
            final(self).wf(),
            final(table).wf(),
            matcher::queue_wf(*final(queue)),
            follows(old(self).phase, None, final(self).phase),
            final(self).same_audio(old(self)),
            final(self).schedule == old(self).schedule,
            old(self).phase == Phase::Decoding ==> final(self).phase == Phase::Resting
                && act is Rest,
            old(self).phase != Phase::Decoding ==> final(self).phase == old(self).phase,
            old(self).phase == Phase::Ended ==> act is End,
            old(self).phase != Phase::Decoding && old(self).phase != Phase::Ended
                ==> act is Unexpected,
            match *heard {
                Some(text) if old(self).phase == Phase::Decoding => {
                    let keys = matcher::keys_heard(
                        old(self).listener@,
                        text::heard_words(text@),
                    );
                    let times = matcher::shown_since(*old(clock), *final(clock));
                    &&& final(self).listener@ == matcher::last_two(
                        old(self).listener@ + text::heard_words(text@),
                    )
                    &&& matcher::clock_showed(*old(clock), *final(clock), times)
                    &&& times.len() == keys.len()
                    &&& final(table)@ == matcher::run(old(table)@, keys, times)
                    &&& matcher::queue_gets(
                        *old(queue),
                        *final(queue),
                        matcher::fired(old(table)@, keys, times),
                    )
                },
                _ => {
                    &&& final(self).listener@ == old(self).listener@
                    &&& *final(table) == *old(table)
                    &&& *final(queue) == *old(queue)
                    &&& *final(clock) == *old(clock)
                },
            },
    {
        match self.phase {
            Phase::Decoding => {
                if let Some(text) = heard {
                    self.listener.hear(text.as_str(), table, queue, clock);
                }
                self.phase = Phase::Resting;
                WorkerAction::Rest
            },
            Phase::Ended => WorkerAction::End,
            _ => WorkerAction::Unexpected,
        }
    }
}

/// Whether phases follow on one another as a worker's do, `flags` being what it
/// was told of the flag at each step.
pub open spec fn course(phases: Seq<Phase>, flags: Seq<Option<bool>>) -> bool {
    &&& phases.len() == flags.len() + 1
    &&& forall|k: int, l: int|
        0 <= k < flags.len() && l == k + 1 ==> follows(
            #[trigger] phases[k],
            flags[k],
            #[trigger] phases[l],
        )
}

/// Whether a decode is begun at step `k`.
pub open spec fn begins_decode(phases: Seq<Phase>, k: int) -> bool {
    phases[k] != Phase::Decoding && phases[k + 1] == Phase::Decoding
}

/// How far a phase is on the way from the look at the flag to the next one, and
/// to the end.
spec fn progress(phase: Phase) -> int {
    match phase {
        Phase::TakingAudio => 0,
        Phase::ReadingClock => 1,
        Phase::Decoding => 2,
        Phase::Resting => 3,
        Phase::CheckingFlag => 4,
        Phase::Ended => 5,
    }
}

/// Without a flag that is up there is no way back.
proof fn lemma_no_way_back(phases: Seq<Phase>, flags: Seq<Option<bool>>, i: int, j: int)
    requires
        course(phases, flags),
        0 <= i <= j < phases.len(),
        forall|k: int| i <= k < j ==> #[trigger] flags[k] != Some(true),
    ensures
        progress(phases[i]) <= progress(phases[j]),
    decreases j - i,
{
    if i < j {
        lemma_no_way_back(phases, flags, i, j - 1);
        assert(follows(phases[j - 1], flags[j - 1], phases[j]));
        assert(flags[j - 1] != Some(true));
    }
}

/// A worker that has ended stays so, whatever it is told.
pub proof fn law_ended_worker_stays_ended(
    phases: Seq<Phase>,
    flags: Seq<Option<bool>>,
    i: int,
    j: int,
)
    requires
        course(phases, flags),
        0 <= i <= j < phases.len(),
        phases[i] == Phase::Ended,
    ensures
        phases[j] == Phase::Ended,
    decreases j - i,
{
    if i < j {
        law_ended_worker_stays_ended(phases, flags, i, j - 1);
        assert(follows(phases[j - 1], flags[j - 1], phases[j]));
    }
}

/// Between two decodes the worker finds the flag up.
pub proof fn law_flag_is_up_between_decodes(
    phases: Seq<Phase>,
    flags: Seq<Option<bool>>,
    i: int,
    j: int,
)
    requires
        course(phases, flags),
        0 <= i < j < flags.len(),
        begins_decode(phases, i),
        begins_decode(phases, j),
    ensures
        exists|k: int| i < k < j && #[trigger] flags[k] == Some(true),
{
    if forall|k: int| i < k < j ==> #[trigger] flags[k] != Some(true) {
        lemma_no_way_back(phases, flags, i + 1, j);
        assert(follows(phases[j], flags[j], phases[j + 1]));
        assert(false);
    }
}

/// Once the flag stays down, no more than one decode is begun: that of the round
/// under way.
pub proof fn law_one_decode_at_most_once_the_flag_is_down(
    phases: Seq<Phase>,
    flags: Seq<Option<bool>>,
    down: int,
    i: int,
    j: int,
)
    requires
        course(phases, flags),
        0 <= down <= i < j < flags.len(),
        forall|k: int| down <= k < flags.len() ==> #[trigger] flags[k] != Some(true),
        begins_decode(phases, i),
    ensures
        !begins_decode(phases, j),
{
    if begins_decode(phases, j) {
        law_flag_is_up_between_decodes(phases, flags, i, j);
    }
}

/// A worker that looks at the flag and finds it down has ended, and stays so
/// whatever it is told: it begins no decode any more.
pub proof fn law_worker_ends_when_the_flag_is_down(
    phases: Seq<Phase>,
    flags: Seq<Option<bool>>,
    i: int,
    j: int,
)
    requires
        course(phases, flags),
        0 <= i < j < phases.len(),
        phases[i] == Phase::CheckingFlag,
        flags[i] == Some(false),
    ensures
        phases[j] == Phase::Ended,
{
    assert(follows(phases[i], flags[i], phases[i + 1]));
    law_ended_worker_stays_ended(phases, flags, i + 1, j);
}

/// A decode that is due moves the next one on by 400 milliseconds, and one that
/// is not leaves it.
pub proof fn law_next_decode_is_a_tick_later(next: u64, now: u64)
    ensures
        now >= next ==> next_after(next, now) == next + 400_000_000,
        now < next ==> next_after(next, now) == next,
{
}

/// The time of the next decode moves look by look, each time by what one look
/// does.
pub proof fn law_next_decode_look_by_look(start: u64, times: Seq<u64>, now: u64)
    requires
        next_after_all(start, times) <= u64::MAX,
    ensures
        next_after_all(start, Seq::empty()) == start,
        next_after_all(start, times.push(now)) == next_after(
            next_after_all(start, times) as u64,
            now,
        ),
{
    law_decodes_keep_to_the_tick(start, times);
    assert(times.push(now).drop_last() == times);
}

/// The flag is told by the event that tells it, and by no other.
pub proof fn law_only_the_flag_tells_the_flag<T>(event: WorkerEvent<T>, running: bool)
    ensures
        told_flag(event) == Some(running) <==> event == WorkerEvent::<T>::Flag(running),
{
}

/// The round in full: which phase can come after which.
pub proof fn law_round_of_a_worker(flag: Option<bool>, next: Phase)
    ensures
        follows(Phase::CheckingFlag, Some(true), next) <==> next == Phase::TakingAudio,
        follows(Phase::CheckingFlag, Some(false), next) <==> next == Phase::Ended,
        follows(Phase::CheckingFlag, None, next) <==> next == Phase::CheckingFlag,
        follows(Phase::TakingAudio, flag, next) <==> next == Phase::TakingAudio || next
            == Phase::ReadingClock,
        follows(Phase::ReadingClock, flag, next) <==> next == Phase::ReadingClock || next
            == Phase::Decoding || next == Phase::Resting || next == Phase::Ended,
        follows(Phase::Decoding, flag, next) <==> next == Phase::Decoding || next
            == Phase::Resting,
        follows(Phase::Resting, flag, next) <==> next == Phase::Resting || next
            == Phase::CheckingFlag,
        follows(Phase::Ended, flag, next) <==> next == Phase::Ended,
{
}

/// Workers that are alike in all but the phase keep the same audio at the same
/// rate, the same words, and the same time of the next decode.
pub proof fn law_alike_in_all_but_the_phase<T: Copy>(a: Worker<T>, b: Worker<T>)
    ensures
        a.same_audio(&b) <==> a.ring.rate() == b.ring.rate() && a.ring@ == b.ring@,
        a.same_but_phase(&b) <==> a.ring.rate() == b.ring.rate() && a.ring@ == b.ring@
            && a.listener@ == b.listener@ && a.schedule.next == b.schedule.next,
{
}

} // verus!
