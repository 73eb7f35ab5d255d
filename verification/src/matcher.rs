//! Matching what is heard against the triggers.
use crate::queue::{Event, EventQueue};
use crate::text;
use crate::text_laws;
use crate::triggers;
use crate::triggers::{Trigger, Triggers};
use std::collections::VecDeque;
use vstd::prelude::*;

verus! {

/// Whether a queue, where there is one, is well formed.
pub open spec fn queue_wf(q: Option<EventQueue>) -> bool {
    q matches Some(queue) ==> queue.wf()
}

/// Whether a queue, where there is one, has got these phrases at its end and
/// has otherwise stayed as it was.
pub open spec fn queue_gets(
    before: Option<EventQueue>,
    now: Option<EventQueue>,
    phrases: Seq<Seq<char>>,
) -> bool {
    match before {
        Some(q) => now matches Some(r) && r@ == q@ + phrases,
        None => now is None,
    }
}

/// The phrases that one key sets off: itself in normal form, or none.
pub open spec fn fired_by<C>(m: Map<Seq<char>, Trigger<C>>, key: Seq<char>, now: u64) -> Seq<
    Seq<char>,
> {
    if triggers::fires(m, text::normalized(key), now) {
        seq![text::normalized(key)]
    } else {
        Seq::empty()
    }
}

/// Tries one key: where its normal form has a trigger of which the cooldown is
/// over, the trigger is set off, and the queue, where there is one, gets the
/// event.
pub fn try_fire<C: Copy>(
    table: &mut Triggers<C>,
    queue: &mut Option<EventQueue>,
    key: &str,
    now: u64,
)
    requires
        old(table).wf(),
        queue_wf(*old(queue)),
    ensures
        final(table).wf(),
        queue_wf(*final(queue)),
        final(table)@ == triggers::after(old(table)@, text::normalized(key@), now),
        queue_gets(*old(queue), *final(queue), fired_by(old(table)@, key@, now)),
{
    let phrase: String = text::norm(key);
    if table.fire(&phrase, now) {
        if let Some(q) = queue {
            q.push(Event { phrase });
        }
    }
    proof {
        if let Some(q) = *old(queue) {
            let p = text::normalized(key@);
            assert(q@ + seq![p] == q@.push(p));
            assert(q@ + Seq::<Seq<char>>::empty() == q@);
        }
    }
}

/// The table after each key was tried at its time.
pub open spec fn run<C>(
    m: Map<Seq<char>, Trigger<C>>,
    keys: Seq<Seq<char>>,
    times: Seq<u64>,
) -> Map<Seq<char>, Trigger<C>>
    decreases keys.len(),
{
    if keys.len() == 0 {
        m
    } else {
        triggers::after(
            run(m, keys.drop_last(), times.drop_last()),
            text::normalized(keys.last()),
            times.last(),
        )
    }
}

/// The phrases set off as each key was tried at its time, in their order.
pub open spec fn fired<C>(
    m: Map<Seq<char>, Trigger<C>>,
    keys: Seq<Seq<char>>,
    times: Seq<u64>,
) -> Seq<Seq<char>>
    decreases keys.len(),
{
    if keys.len() == 0 {
        Seq::empty()
    } else {
        fired(m, keys.drop_last(), times.drop_last()) + fired_by(
            run(m, keys.drop_last(), times.drop_last()),
            keys.last(),
            times.last(),
        )
    }
}

/// A clock, with the times that it has shown.
pub struct Clock<K> {
    source: K,
    shown: Ghost<Seq<u64>>,
}

impl<K: Fn() -> u64> Clock<K> {
    /// What the clock takes its times from.
    pub closed spec fn source(&self) -> K {
        self.source
    }

    /// The times that the clock has shown, the first one first.
    pub closed spec fn shown(&self) -> Seq<u64> {
        self.shown@
    }

    /// A clock that has shown nothing yet.
    pub fn new(source: K) -> (c: Self)
        ensures
            c.source() == source,
            c.shown() == Seq::<u64>::empty(),
    {
        Clock { source, shown: Ghost(Seq::empty()) }
    }

    /// The time now.
    pub fn read(&mut self) -> (now: u64)
        requires
            old(self).source().requires(()),
        ensures
            final(self).source() == old(self).source(),
            final(self).source().ensures((), now),
            final(self).shown() == old(self).shown().push(now),
    {
        let now: u64 = (self.source)();
        proof {
            self.shown@ = self.shown@.push(now);
        }
        now
    }
}

/// Whether the clock went from `before` to `now` by showing these times.
pub open spec fn clock_showed<K: Fn() -> u64>(
    before: Clock<K>,
    now: Clock<K>,
    times: Seq<u64>,
) -> bool {
    &&& now.source() == before.source()
    &&& now.shown() == before.shown() + times
    &&& forall|i: int| 0 <= i < times.len() ==> now.source().ensures((), #[trigger] times[i])
}

/// The times that the clock showed since `before`.
pub open spec fn shown_since<K: Fn() -> u64>(before: Clock<K>, now: Clock<K>) -> Seq<u64> {
    now.shown().skip(before.shown().len() as int)
}

/// Tries each key in turn. The clock is read once for each key, right before it
/// is tried.
pub fn fire_all<C: Copy, K: Fn() -> u64>(
    table: &mut Triggers<C>,
    queue: &mut Option<EventQueue>,
    keys: &Vec<String>,
    clock: &mut Clock<K>,
)
    requires
        old(table).wf(),
        queue_wf(*old(queue)),
        old(clock).source().requires(()),
    ensures
        final(table).wf(),
        queue_wf(*final(queue)),
        ({
            let times = shown_since(*old(clock), *final(clock));
            &&& clock_showed(*old(clock), *final(clock), times)
            &&& times.len() == keys@.len()
            &&& final(table)@ == run(old(table)@, text::texts(keys@), times)
            &&& queue_gets(
                *old(queue),
                *final(queue),
                fired(old(table)@, text::texts(keys@), times),
            )
        }),
{
    let ghost mut times: Seq<u64> = Seq::empty();
    let ghost all = text::texts(keys@);
    proof {
        if let Some(q) = *old(queue) {
            assert(q@ + Seq::<Seq<char>>::empty() == q@);
        }
        assert(clock.shown() + times == clock.shown());
    }
    for i in 0..keys.len()
        invariant
            all == text::texts(keys@),
            clock.source().requires(()),
            table.wf(),
            queue_wf(*queue),
            clock_showed(*old(clock), *clock, times),
            times.len() == i,
            table@ == run(old(table)@, all.take(i as int), times),
            queue_gets(*old(queue), *queue, fired(old(table)@, all.take(i as int), times)),
    {
        let now: u64 = clock.read();
        let ghost earlier = times;
        let ghost sent = fired(old(table)@, all.take(i as int), times);
        let ghost new = fired_by(table@, keys@[i as int]@, now);
        try_fire(table, queue, keys[i].as_str(), now);
        proof {
            times = times.push(now);
            assert(times.drop_last() == earlier);
            assert(old(clock).shown() + times == (old(clock).shown() + earlier).push(now));
            assert(all.take(i + 1).drop_last() == all.take(i as int));
            if let Some(q) = *old(queue) {
                assert(q@ + (sent + new) == (q@ + sent) + new);
            }
        }
    }
    proof {
        assert(all.take(keys@.len() as int) == all);
        assert(shown_since(*old(clock), *clock) == times);
    }
}

/// The last words heard, two at most, the older one first.
pub struct Listener {
    last_words: VecDeque<String>,
}

/// Whether a text can be a word that was heard.
pub open spec fn is_word(w: Seq<char>) -> bool {
    text_laws::in_normal_form(w) && w.len() > 0
}

/// The last two of the words, or all where there are fewer.
pub open spec fn last_two(words: Seq<Seq<char>>) -> Seq<Seq<char>> {
    if words.len() > 2 {
        words.skip(words.len() - 2)
    } else {
        words
    }
}

/// The keys that a word is tried under when it is heard last: the word alone,
/// and the word before it with it.
pub open spec fn keys_of_last(words: Seq<Seq<char>>) -> Seq<Seq<char>> {
    if words.len() >= 2 {
        seq![words.last(), text::bigram(words[words.len() - 2], words.last())]
    } else {
        seq![words.last()]
    }
}

/// The keys that words are tried under when they are heard after `earlier`.
pub open spec fn keys_heard(earlier: Seq<Seq<char>>, words: Seq<Seq<char>>) -> Seq<Seq<char>>
    decreases words.len(),
{
    if words.len() == 0 {
        Seq::empty()
    } else {
        keys_heard(earlier, words.drop_last()) + keys_of_last(earlier + words)
    }
}

impl View for Listener {
    type V = Seq<Seq<char>>;

    /// The last words heard.
    closed spec fn view(&self) -> Seq<Seq<char>> {
        text::texts(self.last_words@)
    }
}

impl Listener {
    /// No more than two words are kept, each in normal form and not empty.
    pub open spec fn wf(&self) -> bool {
        &&& self@.len() <= 2
        &&& forall|i: int| 0 <= i < self@.len() ==> is_word(#[trigger] self@[i])
    }

    /// Nothing heard yet.
    pub fn new() -> (l: Self)
        ensures
            l.wf(),
            l@ == Seq::<Seq<char>>::empty(),
    {
        let l = Listener { last_words: VecDeque::new() };
        assert(l@ == Seq::<Seq<char>>::empty());
        l
    }

    /// Takes in one word, and gives the keys it is to be tried under.
    fn hear_word(&mut self, word: String) -> (keys: Vec<String>)
        requires
            old(self).wf(),
            is_word(word@),
        ensures
            final(self).wf(),
            final(self)@ == last_two(old(self)@.push(word@)),
            text::texts(keys@) == keys_of_last(old(self)@.push(word@)),
    {
        let ghost words = self@.push(word@);
        let mut keys: Vec<String> = Vec::new();
        keys.push(word.clone());
        self.last_words.push_back(word);
        assert(self@ == words);
        if self.last_words.len() > 2 {
            self.last_words.pop_front();
            assert(self@ == words.skip(1));
        }
        if self.last_words.len() == 2 {
            assert(self@ == last_two(words));
            assert(self@[0] == self.last_words@[0]@ && self@[1] == self.last_words@[1]@);
            keys.push(text::join_words(&self.last_words[0], &self.last_words[1]));
        }
        assert(text::texts(keys@) == keys_of_last(words));
        assert(self@ == last_two(words));
        keys
    }

    /// Takes in a decoded text, and gives the keys it is to be tried under:
    /// each word, and each word with the one heard before it.
    pub fn keys(&mut self, heard: &str) -> (keys: Vec<String>)
        requires
            old(self).wf(),
        ensures
            final(self).wf(),
            final(self)@ == last_two(old(self)@ + text::heard_words(heard@)),
            text::texts(keys@) == keys_heard(old(self)@, text::heard_words(heard@)),
    {
        let words: Vec<String> = text::tokens(heard);
        let mut keys: Vec<String> = Vec::new();
        let ghost all = text::heard_words(heard@);
        let ghost earlier = self@;
        assert(earlier + all.take(0) == earlier);
        proof {
            text_laws::law_heard_words_in_normal_form(heard@);
        }
        for i in 0..words.len()
            invariant
                text::texts(words@) == all,
                forall|k: int| 0 <= k < all.len() ==> is_word(#[trigger] all[k]),
                self.wf(),
                earlier == old(self)@,
                earlier.len() <= 2,
                self@ == last_two(earlier + all.take(i as int)),
                text::texts(keys@) == keys_heard(earlier, all.take(i as int)),
        {
            let ghost before = earlier + all.take(i as int);
            let ghost known = text::texts(keys@);
            let ghost held = self@;
            assert(all[i as int] == words@[i as int]@);
            assert(earlier + all.take(i + 1) == before.push(all[i as int]));
            assert(all.take(i + 1).drop_last() == all.take(i as int));
            let mut more: Vec<String> = self.hear_word(words[i].clone());
            assert(self@ == last_two(before.push(all[i as int])));
            assert(keys_of_last(held.push(all[i as int])) == keys_of_last(
                before.push(all[i as int]),
            ));
            let ghost new = text::texts(more@);
            keys.append(&mut more);
            assert(text::texts(keys@) == known + new);
        }
        assert(all.take(words@.len() as int) == all);
        keys
    }

    /// Takes in a decoded text and tries all its keys, the clock being read once
    /// for each.
    pub fn hear<C: Copy, K: Fn() -> u64>(
        &mut self,
        heard: &str,
        table: &mut Triggers<C>,
        queue: &mut Option<EventQueue>,
        clock: &mut Clock<K>,
    )
        requires
            old(self).wf(),
            old(table).wf(),
            queue_wf(*old(queue)),
            old(clock).source().requires(()),
        ensures
            final(self).wf(),
            final(table).wf(),
            queue_wf(*final(queue)),
            final(self)@ == last_two(old(self)@ + text::heard_words(heard@)),
            ({
                let keys = keys_heard(old(self)@, text::heard_words(heard@));
                let times = shown_since(*old(clock), *final(clock));
                &&& clock_showed(*old(clock), *final(clock), times)
                &&& times.len() == keys.len()
                &&& final(table)@ == run(old(table)@, keys, times)
                &&& queue_gets(*old(queue), *final(queue), fired(old(table)@, keys, times))
            }),
    {
        let keys: Vec<String> = self.keys(heard);
        assert(text::texts(keys@).len() == keys@.len());
        fire_all(table, queue, &keys, clock);
    }
}

} // verus!
