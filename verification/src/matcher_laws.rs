//! What holds of the triggers over any course of events.
use crate::matcher;
use crate::matcher::Clock;
use crate::queue::EventQueue;
use crate::text;
use crate::text_laws;
use crate::triggers;
use crate::triggers::Trigger;
use vstd::prelude::*;

verus! {

/// Whether the key at `i` sets its trigger off.
pub open spec fn fires_at<C>(
    m: Map<Seq<char>, Trigger<C>>,
    keys: Seq<Seq<char>>,
    times: Seq<u64>,
    i: int,
) -> bool {
    triggers::fires(
        matcher::run(m, keys.take(i), times.take(i)),
        text::normalized(keys[i]),
        times[i],
    )
}

proof fn lemma_run_step<C>(
    m: Map<Seq<char>, Trigger<C>>,
    keys: Seq<Seq<char>>,
    times: Seq<u64>,
    i: int,
)
    requires
        keys.len() == times.len(),
        0 <= i < keys.len(),
    ensures
        matcher::run(m, keys.take(i + 1), times.take(i + 1)) == triggers::after(
            matcher::run(m, keys.take(i), times.take(i)),
            text::normalized(keys[i]),
            times[i],
        ),
        matcher::fired(m, keys.take(i + 1), times.take(i + 1)) == matcher::fired(
            m,
            keys.take(i),
            times.take(i),
        ) + matcher::fired_by(
            matcher::run(m, keys.take(i), times.take(i)),
            keys[i],
            times[i],
        ),
{
    assert(keys.take(i + 1).drop_last() == keys.take(i));
    assert(times.take(i + 1).drop_last() == times.take(i));
}

/// Hearing things registers no phrase and removes none, and changes neither
/// cooldown nor wait of any.
pub proof fn law_hearing_keeps_the_table<C>(
    m: Map<Seq<char>, Trigger<C>>,
    keys: Seq<Seq<char>>,
    times: Seq<u64>,
)
    requires
        keys.len() == times.len(),
    ensures
        matcher::run(m, keys, times).dom() == m.dom(),
        forall|p: Seq<char>| #[trigger]
            m.contains_key(p) ==> {
                &&& matcher::run(m, keys, times)[p].cooldown == m[p].cooldown
                &&& matcher::run(m, keys, times)[p].wait == m[p].wait
            },
    decreases keys.len(),
{
    if keys.len() > 0 {
        law_hearing_keeps_the_table(m, keys.drop_last(), times.drop_last());
        assert(matcher::run(m, keys, times).dom() =~= m.dom());
    }
}

/// Once it has fired, the last firing of a trigger with a wait never lies before
/// that time.
proof fn lemma_last_fire_since<C>(
    m: Map<Seq<char>, Trigger<C>>,
    keys: Seq<Seq<char>>,
    times: Seq<u64>,
    i: int,
    k: int,
)
    requires
        keys.len() == times.len(),
        0 <= i < k <= keys.len(),
        fires_at(m, keys, times, i),
        m[text::normalized(keys[i])].wait matches Some(w) && w > 0,
    ensures
        matcher::run(m, keys.take(k), times.take(k))[text::normalized(keys[i])].last_fire
            >= times[i],
    decreases k,
{
    lemma_run_step(m, keys, times, k - 1);
    if k > i + 1 {
        lemma_last_fire_since(m, keys, times, i, k - 1);
        law_hearing_keeps_the_table(m, keys.take(i), times.take(i));
        law_hearing_keeps_the_table(m, keys.take(k - 1), times.take(k - 1));
        assert(m.contains_key(text::normalized(keys[i])));
    }
}

/// The cooldown is kept: whatever is heard in between, and whatever the clock
/// shows, two firings of one trigger lie at least its wait apart.
pub proof fn law_cooldown_kept<C>(
    m: Map<Seq<char>, Trigger<C>>,
    keys: Seq<Seq<char>>,
    times: Seq<u64>,
    i: int,
    j: int,
)
    requires
        keys.len() == times.len(),
        0 <= i < j < keys.len(),
        text::normalized(keys[i]) == text::normalized(keys[j]),
        fires_at(m, keys, times, i),
        fires_at(m, keys, times, j),
    ensures
        m[text::normalized(keys[i])].wait matches Some(w) && (w > 0 ==> times[j] - times[i] >= w),
{
    law_hearing_keeps_the_table(m, keys.take(i), times.take(i));
    law_hearing_keeps_the_table(m, keys.take(j), times.take(j));
    let p = text::normalized(keys[i]);
    assert(m.contains_key(p));
    if m[p].wait->0 > 0 {
        lemma_last_fire_since(m, keys, times, i, j);
    }
}

/// Keys of other phrases leave a trigger as it was.
pub proof fn law_other_keys_leave_a_trigger<C>(
    m: Map<Seq<char>, Trigger<C>>,
    keys: Seq<Seq<char>>,
    times: Seq<u64>,
    phrase: Seq<char>,
)
    requires
        keys.len() == times.len(),
        forall|i: int| 0 <= i < keys.len() ==> text::normalized(#[trigger] keys[i]) != phrase,
    ensures
        matcher::run(m, keys, times).contains_key(phrase) == m.contains_key(phrase),
        matcher::run(m, keys, times)[phrase] == m[phrase],
    decreases keys.len(),
{
    if keys.len() > 0 {
        assert(text::normalized(keys[keys.len() - 1]) != phrase);
        assert forall|i: int| 0 <= i < keys.drop_last().len() implies text::normalized(
            #[trigger] keys.drop_last()[i],
        ) != phrase by {
            assert(text::normalized(keys[i]) != phrase);
        }
        law_other_keys_leave_a_trigger(m, keys.drop_last(), times.drop_last(), phrase);
    }
}

/// Only registered phrases are dispatched.
pub proof fn law_only_registered_phrases_fire<C>(
    m: Map<Seq<char>, Trigger<C>>,
    keys: Seq<Seq<char>>,
    times: Seq<u64>,
)
    requires
        keys.len() == times.len(),
    ensures
        forall|i: int|
            0 <= i < matcher::fired(m, keys, times).len() ==> m.contains_key(
                #[trigger] matcher::fired(m, keys, times)[i],
            ),
    decreases keys.len(),
{
    if keys.len() > 0 {
        law_only_registered_phrases_fire(m, keys.drop_last(), times.drop_last());
        law_hearing_keeps_the_table(m, keys.drop_last(), times.drop_last());
        let before = matcher::run(m, keys.drop_last(), times.drop_last());
        let p = text::normalized(keys.last());
        assert(before.contains_key(p) ==> m.contains_key(p)) by {
            assert(before.dom().contains(p) == m.dom().contains(p));
        }
        let old_ones = matcher::fired(m, keys.drop_last(), times.drop_last());
        let all = matcher::fired(m, keys, times);
        assert forall|i: int| 0 <= i < all.len() implies m.contains_key(#[trigger] all[i]) by {
            if i < old_ones.len() {
                assert(all[i] == old_ones[i]);
            }
        }
    }
}

/// After its trigger is removed a phrase is not dispatched, whatever is heard.
pub proof fn law_removed_phrase_is_silent<C>(
    m: Map<Seq<char>, Trigger<C>>,
    phrase: Seq<char>,
    keys: Seq<Seq<char>>,
    times: Seq<u64>,
)
    requires
        keys.len() == times.len(),
    ensures
        !matcher::fired(m.remove(phrase), keys, times).contains(phrase),
{
    law_only_registered_phrases_fire(m.remove(phrase), keys, times);
}

/// Removing a phrase undoes its registration.
pub proof fn law_removing_undoes_registering<C>(
    m: Map<Seq<char>, Trigger<C>>,
    phrase: Seq<char>,
    t: Trigger<C>,
)
    requires
        !m.contains_key(phrase),
    ensures
        m.insert(phrase, t).remove(phrase) == m,
{
    assert(m.insert(phrase, t).remove(phrase) =~= m);
}

/// A phrase fires after its registration when, and only when, its wait is over,
/// counted from one second before the registration.
pub proof fn law_registered_phrase_fires<C>(
    m: Map<Seq<char>, Trigger<C>>,
    phrase: Seq<char>,
    cooldown: C,
    wait: Option<u64>,
    registered: u64,
    now: u64,
)
    requires
        phrase.len() > 0,
        triggers::SECOND <= registered <= now,
    ensures
        triggers::fires(
            m.insert(phrase, triggers::fresh(cooldown, wait, registered)),
            phrase,
            now,
        ) <==> (wait matches Some(w) && now - registered + triggers::SECOND >= w),
{
}

/// The first key of a phrase that comes when its trigger is ready sets it off,
/// whatever other keys come before.
pub proof fn law_ready_phrase_is_dispatched<C>(
    m: Map<Seq<char>, Trigger<C>>,
    keys: Seq<Seq<char>>,
    times: Seq<u64>,
    i: int,
)
    requires
        keys.len() == times.len(),
        0 <= i < keys.len(),
        forall|k: int|
            0 <= k < i ==> text::normalized(#[trigger] keys[k]) != text::normalized(keys[i]),
        triggers::fires(m, text::normalized(keys[i]), times[i]),
    ensures
        fires_at(m, keys, times, i),
        matcher::fired(m, keys, times).contains(text::normalized(keys[i])),
{
    let p = text::normalized(keys[i]);
    assert forall|k: int| 0 <= k < keys.take(i).len() implies text::normalized(
        #[trigger] keys.take(i)[k],
    ) != p by {
        assert(text::normalized(keys[k]) != p);
    }
    law_other_keys_leave_a_trigger(m, keys.take(i), times.take(i), p);
    lemma_fired_contains(m, keys, times, i, keys.len() as int);
    assert(keys.take(keys.len() as int) == keys);
    assert(times.take(times.len() as int) == times);
}

proof fn lemma_fired_contains<C>(
    m: Map<Seq<char>, Trigger<C>>,
    keys: Seq<Seq<char>>,
    times: Seq<u64>,
    i: int,
    k: int,
)
    requires
        keys.len() == times.len(),
        0 <= i < k <= keys.len(),
        fires_at(m, keys, times, i),
    ensures
        matcher::fired(m, keys.take(k), times.take(k)).contains(text::normalized(keys[i])),
    decreases k,
{
    lemma_run_step(m, keys, times, k - 1);
    let p = text::normalized(keys[i]);
    let before = matcher::fired(m, keys.take(k - 1), times.take(k - 1));
    let all = matcher::fired(m, keys.take(k), times.take(k));
    if k == i + 1 {
        assert(all[before.len() as int] == p);
    } else {
        lemma_fired_contains(m, keys, times, i, k - 1);
        let at = choose|at: int| 0 <= at < before.len() && before[at] == p;
        assert(all[at] == p);
    }
}

/// Trying keys in two goes is trying them in one.
pub proof fn law_trying_in_parts<C>(
    m: Map<Seq<char>, Trigger<C>>,
    keys: Seq<Seq<char>>,
    times: Seq<u64>,
    more_keys: Seq<Seq<char>>,
    more_times: Seq<u64>,
)
    requires
        keys.len() == times.len(),
        more_keys.len() == more_times.len(),
    ensures
        matcher::run(m, keys + more_keys, times + more_times) == matcher::run(
            matcher::run(m, keys, times),
            more_keys,
            more_times,
        ),
        matcher::fired(m, keys + more_keys, times + more_times) == matcher::fired(m, keys, times)
            + matcher::fired(matcher::run(m, keys, times), more_keys, more_times),
    decreases more_keys.len(),
{
    let a = matcher::fired(m, keys, times);
    if more_keys.len() == 0 {
        assert(keys + more_keys == keys);
        assert(times + more_times == times);
        assert(a + Seq::<Seq<char>>::empty() == a);
    } else {
        law_trying_in_parts(m, keys, times, more_keys.drop_last(), more_times.drop_last());
        assert((keys + more_keys).drop_last() == keys + more_keys.drop_last());
        assert((times + more_times).drop_last() == times + more_times.drop_last());
        let m1 = matcher::run(m, keys, times);
        let b = matcher::fired(m1, more_keys.drop_last(), more_times.drop_last());
        let c = matcher::fired_by(
            matcher::run(m1, more_keys.drop_last(), more_times.drop_last()),
            more_keys.last(),
            more_times.last(),
        );
        assert((a + b) + c == a + (b + c));
    }
}

/// Hearing a text in two parts is hearing it in one: a word and the one before
/// it make a key wherever the text is cut.
pub proof fn law_hearing_in_parts(
    earlier: Seq<Seq<char>>,
    words: Seq<Seq<char>>,
    more: Seq<Seq<char>>,
)
    ensures
        matcher::keys_heard(earlier, words + more) == matcher::keys_heard(earlier, words)
            + matcher::keys_heard(matcher::last_two(earlier + words), more),
        matcher::last_two(matcher::last_two(earlier + words) + more) == matcher::last_two(
            earlier + (words + more),
        ),
    decreases more.len(),
{
    let held = matcher::last_two(earlier + words);
    let a = matcher::keys_heard(earlier, words);
    assert(matcher::last_two(held + more) == matcher::last_two(earlier + (words + more)));
    if more.len() == 0 {
        assert(words + more == words);
        assert(a + Seq::<Seq<char>>::empty() == a);
    } else {
        law_hearing_in_parts(earlier, words, more.drop_last());
        assert((words + more).drop_last() == words + more.drop_last());
        let b = matcher::keys_heard(held, more.drop_last());
        let c = matcher::keys_of_last(held + more);
        assert(c == matcher::keys_of_last(earlier + (words + more)));
        assert((a + b) + c == a + (b + c));
    }
}

/// Every word heard is tried alone, and with the word before it.
pub proof fn law_words_and_bigrams_are_tried(
    earlier: Seq<Seq<char>>,
    words: Seq<Seq<char>>,
    i: int,
)
    requires
        0 <= i < words.len(),
    ensures
        matcher::keys_heard(earlier, words).contains(words[i]),
        i > 0 ==> matcher::keys_heard(earlier, words).contains(
            text::bigram(words[i - 1], words[i]),
        ),
        i == 0 && earlier.len() > 0 ==> matcher::keys_heard(earlier, words).contains(
            text::bigram(earlier.last(), words[i]),
        ),
    decreases words.len(),
{
    let before = matcher::keys_heard(earlier, words.drop_last());
    let all = matcher::keys_heard(earlier, words);
    let heard = earlier + words;
    if i == words.len() - 1 {
        assert(all[before.len() as int] == words[i]);
        if heard.len() >= 2 {
            assert(all[before.len() as int + 1] == text::bigram(heard[heard.len() - 2], words[i]));
        }
    } else {
        law_words_and_bigrams_are_tried(earlier, words.drop_last(), i);
        assert(forall|k: Seq<char>| before.contains(k) ==> all.contains(k)) by {
            assert forall|k: Seq<char>| before.contains(k) implies all.contains(k) by {
                let at = choose|at: int| 0 <= at < before.len() && before[at] == k;
                assert(all[at] == k);
            }
        }
    }
}

/// What a phrase is registered under is in normal form, whatever the phrase,
/// and so stays every phrase of the table.
pub proof fn law_table_stays_in_normal_form<C>(
    m: Map<Seq<char>, Trigger<C>>,
    phrase: Seq<char>,
    t: Trigger<C>,
)
    requires
        forall|p: Seq<char>| #[trigger] m.contains_key(p) ==> text_laws::in_normal_form(p),
    ensures
        forall|p: Seq<char>| #[trigger]
            m.insert(text::normalized(phrase), t).contains_key(p) ==> text_laws::in_normal_form(
                p,
            ),
{
    text_laws::law_normal_form_shape(text::lowercase(phrase));
}

/// Whether a longer time reaches a cooldown whenever a shorter one does.
pub open spec fn monotone<C, F: Fn(C, u64) -> bool>(reached: F, cooldown: C) -> bool {
    forall|a: u64, b: u64|
        a <= b && #[trigger] reached.ensures((cooldown, a), true) ==> !(
        #[trigger] reached.ensures((cooldown, b), false))
}

/// Where a longer time reaches a cooldown whenever a shorter one does, a
/// threshold tells exactly which times reach it.
pub proof fn law_threshold_is_exact<C, F: Fn(C, u64) -> bool>(
    reached: F,
    cooldown: C,
    wait: Option<u64>,
    n: u64,
    answer: bool,
)
    requires
        triggers::threshold(reached, cooldown, wait),
        monotone(reached, cooldown),
        reached.ensures((cooldown, n), answer),
    ensures
        answer <==> (wait matches Some(w) && n >= w),
{
}

/// Whether every trigger waits for the cooldown that it reports.
pub open spec fn waits_for_cooldowns<C, F: Fn(C, u64) -> bool>(
    m: Map<Seq<char>, Trigger<C>>,
    reached: F,
) -> bool {
    forall|p: Seq<char>| #[trigger]
        m.contains_key(p) ==> triggers::threshold(reached, m[p].cooldown, m[p].wait)
}

/// The cooldown that is reported is the one that is kept: registering, removing
/// and hearing leave every trigger waiting for the cooldown that it reports.
pub proof fn law_reported_cooldown_is_kept<C, F: Fn(C, u64) -> bool>(
    m: Map<Seq<char>, Trigger<C>>,
    reached: F,
    phrase: Seq<char>,
    cooldown: C,
    wait: Option<u64>,
    now: u64,
    keys: Seq<Seq<char>>,
    times: Seq<u64>,
)
    requires
        waits_for_cooldowns(m, reached),
        triggers::threshold(reached, cooldown, wait),
        keys.len() == times.len(),
    ensures
        waits_for_cooldowns(m.insert(phrase, triggers::fresh(cooldown, wait, now)), reached),
        waits_for_cooldowns(m.remove(phrase), reached),
        waits_for_cooldowns(matcher::run(m, keys, times), reached),
{
    law_hearing_keeps_the_table(m, keys, times);
    let after = matcher::run(m, keys, times);
    assert forall|p: Seq<char>| #[trigger] after.contains_key(p) implies triggers::threshold(
        reached,
        after[p].cooldown,
        after[p].wait,
    ) by {
        assert(m.dom().contains(p) == after.dom().contains(p));
        assert(m.contains_key(p));
    }
}

/// A registered phrase fires exactly when the time since its last firing reaches
/// the cooldown that it reports.
pub proof fn law_phrase_fires_when_its_cooldown_is_reached<C, F: Fn(C, u64) -> bool>(
    m: Map<Seq<char>, Trigger<C>>,
    reached: F,
    phrase: Seq<char>,
    now: u64,
    answer: bool,
)
    requires
        waits_for_cooldowns(m, reached),
        phrase.len() > 0,
        m.contains_key(phrase),
        monotone(reached, m[phrase].cooldown),
        reached.ensures(
            (m[phrase].cooldown, triggers::elapsed(m[phrase].last_fire, now) as u64),
            answer,
        ),
    ensures
        triggers::fires(m, phrase, now) <==> answer,
{
    let t = m[phrase];
    law_threshold_is_exact(
        reached,
        t.cooldown,
        t.wait,
        triggers::elapsed(t.last_fire, now) as u64,
        answer,
    );
}

/// A phrase whose trigger is ready all the while is dispatched if one of the
/// keys has it as its normal form.
pub proof fn law_key_of_ready_phrase_dispatches_it<C>(
    m: Map<Seq<char>, Trigger<C>>,
    keys: Seq<Seq<char>>,
    times: Seq<u64>,
    i: int,
)
    requires
        keys.len() == times.len(),
        0 <= i < keys.len(),
        forall|k: int|
            0 <= k < times.len() ==> triggers::fires(
                m,
                text::normalized(keys[i]),
                #[trigger] times[k],
            ),
    ensures
        matcher::fired(m, keys, times).contains(text::normalized(keys[i])),
    decreases i,
{
    let p = text::normalized(keys[i]);
    if forall|k: int| 0 <= k < i ==> text::normalized(#[trigger] keys[k]) != p {
        assert(triggers::fires(m, p, times[i]));
        law_ready_phrase_is_dispatched(m, keys, times, i);
    } else {
        let k = choose|k: int| 0 <= k < i && text::normalized(#[trigger] keys[k]) == p;
        law_key_of_ready_phrase_dispatches_it(m, keys, times, k);
    }
}

/// A phrase of one word is dispatched when the word is heard and its trigger is
/// ready, in an ASCII text and in any other of which the word is in lower case.
pub proof fn law_heard_word_is_dispatched<C>(
    m: Map<Seq<char>, Trigger<C>>,
    earlier: Seq<Seq<char>>,
    heard: Seq<char>,
    times: Seq<u64>,
    i: int,
)
    requires
        0 <= i < text::heard_words(heard).len(),
        times.len() == matcher::keys_heard(earlier, text::heard_words(heard)).len(),
        vstd::utf8::is_ascii_chars(heard) || text::lowercase(text::heard_words(heard)[i])
            == text::heard_words(heard)[i],
        forall|k: int|
            0 <= k < times.len() ==> triggers::fires(
                m,
                text::heard_words(heard)[i],
                #[trigger] times[k],
            ),
    ensures
        matcher::fired(
            m,
            matcher::keys_heard(earlier, text::heard_words(heard)),
            times,
        ).contains(text::heard_words(heard)[i]),
{
    let words = text::heard_words(heard);
    let keys = matcher::keys_heard(earlier, words);
    text_laws::law_heard_words_in_normal_form(heard);
    assert(text_laws::in_normal_form(words[i]));
    if vstd::utf8::is_ascii_chars(heard) {
        text_laws::law_words_of_ascii_text_are_lower(heard);
        assert(text_laws::lower_ascii(words[i]));
    }
    text_laws::law_lower_normal_form_is_its_own_key(words[i]);
    law_words_and_bigrams_are_tried(earlier, words, i);
    let at = choose|at: int| 0 <= at < keys.len() && keys[at] == words[i];
    law_key_of_ready_phrase_dispatches_it(m, keys, times, at);
}

/// The word heard before word `i`: the one before it in the text, or the last
/// one of what was heard earlier.
pub open spec fn word_before(earlier: Seq<Seq<char>>, words: Seq<Seq<char>>, i: int) -> Seq<char> {
    if i > 0 {
        words[i - 1]
    } else {
        earlier.last()
    }
}

/// A phrase of two words is dispatched when the words are heard one after the
/// other and its trigger is ready, be they in one text or the first the last
/// word of an earlier one; in ASCII, and wherever the two words are in lower
/// case.
pub proof fn law_heard_bigram_is_dispatched<C>(
    m: Map<Seq<char>, Trigger<C>>,
    earlier: Seq<Seq<char>>,
    heard: Seq<char>,
    times: Seq<u64>,
    i: int,
)
    requires
        0 <= i < text::heard_words(heard).len(),
        i == 0 ==> earlier.len() > 0 && matcher::is_word(earlier.last()),
        times.len() == matcher::keys_heard(earlier, text::heard_words(heard)).len(),
        ({
            let first = word_before(earlier, text::heard_words(heard), i);
            let key = text::bigram(first, text::heard_words(heard)[i]);
            &&& (vstd::utf8::is_ascii_chars(heard) && (i == 0 ==> text_laws::lower_ascii(first)))
                || text::lowercase(key) == key
            &&& forall|k: int|
                0 <= k < times.len() ==> triggers::fires(m, key, #[trigger] times[k])
        }),
    ensures
        matcher::fired(
            m,
            matcher::keys_heard(earlier, text::heard_words(heard)),
            times,
        ).contains(
            text::bigram(
                word_before(earlier, text::heard_words(heard), i),
                text::heard_words(heard)[i],
            ),
        ),
{
    let words = text::heard_words(heard);
    let keys = matcher::keys_heard(earlier, words);
    let first = word_before(earlier, words, i);
    let key = text::bigram(first, words[i]);
    text_laws::law_heard_words_in_normal_form(heard);
    assert(text_laws::in_normal_form(first) && first.len() > 0) by {
        if i > 0 {
            assert(text_laws::in_normal_form(words[i - 1]));
        }
    }
    assert(text_laws::in_normal_form(words[i]));
    text_laws::law_bigram_in_normal_form(first, words[i]);
    if text::lowercase(key) != key {
        text_laws::law_words_of_ascii_text_are_lower(heard);
        assert(text_laws::lower_ascii(words[i]));
        assert(text_laws::lower_ascii(first)) by {
            if i > 0 {
                assert(text_laws::lower_ascii(words[i - 1]));
            }
        }
        assert(text_laws::lower_ascii(key));
    }
    text_laws::law_lower_normal_form_is_its_own_key(key);
    law_words_and_bigrams_are_tried(earlier, words, i);
    let at = choose|at: int| 0 <= at < keys.len() && keys[at] == key;
    law_key_of_ready_phrase_dispatches_it(m, keys, times, at);
}

/// Trying no keys does nothing.
pub proof fn law_no_keys_do_nothing<C>(m: Map<Seq<char>, Trigger<C>>)
    ensures
        matcher::run(m, Seq::empty(), Seq::empty()) == m,
        matcher::fired(m, Seq::empty(), Seq::empty()) == Seq::<Seq<char>>::empty(),
{
}

/// Trying one key sets off the trigger of its normal form, if that is ready, and
/// that one alone is dispatched, once.
pub proof fn law_one_key_sets_off_its_own_phrase<C>(
    m: Map<Seq<char>, Trigger<C>>,
    key: Seq<char>,
    now: u64,
)
    ensures
        matcher::run(m, seq![key], seq![now]) == triggers::after(m, text::normalized(key), now),
        matcher::fired_by(m, key, now) == (if triggers::fires(m, text::normalized(key), now) {
            seq![text::normalized(key)]
        } else {
            Seq::<Seq<char>>::empty()
        }),
        matcher::fired(m, seq![key], seq![now]) == (if triggers::fires(
            m,
            text::normalized(key),
            now,
        ) {
            seq![text::normalized(key)]
        } else {
            Seq::<Seq<char>>::empty()
        }),
{
    assert(seq![key].drop_last() == Seq::<Seq<char>>::empty());
    assert(seq![now].drop_last() == Seq::<u64>::empty());
    assert(matcher::run(m, Seq::empty(), Seq::empty()) == m);
    assert(matcher::fired(m, Seq::empty(), Seq::empty()) == Seq::<Seq<char>>::empty());
    let f = matcher::fired_by(m, key, now);
    assert(Seq::<Seq<char>>::empty() + f == f);
}

/// A queue that gets phrases has them behind what it had, and nothing else; no
/// queue stays none.
pub proof fn law_queue_gets_at_its_end(
    before: Option<EventQueue>,
    now: Option<EventQueue>,
    phrases: Seq<Seq<char>>,
)
    requires
        matcher::queue_gets(before, now, phrases),
    ensures
        before is Some <==> now is Some,
        before is Some ==> now->0@ == before->0@ + phrases,
{
}

/// The times shown since are the new ones, in their order, each a reading of the
/// clock's source.
pub proof fn law_shown_times_are_new_readings<K: Fn() -> u64>(
    before: Clock<K>,
    now: Clock<K>,
    times: Seq<u64>,
    i: int,
)
    requires
        matcher::clock_showed(before, now, times),
    ensures
        now.source() == before.source(),
        now.shown() == before.shown() + times,
        matcher::shown_since(before, now) == times,
        0 <= i < times.len() ==> now.source().ensures((), times[i]),
{
    assert(matcher::shown_since(before, now) == times);
}

/// A word is tried alone, and then behind the word before it, if one was heard;
/// no words are tried under no keys.
pub proof fn law_keys_of_one_word(earlier: Seq<Seq<char>>, word: Seq<char>)
    ensures
        matcher::keys_heard(earlier, Seq::empty()) == Seq::<Seq<char>>::empty(),
        matcher::keys_heard(earlier, seq![word]) == (if earlier.len() == 0 {
            seq![word]
        } else {
            seq![word, earlier.last() + seq![' '] + word]
        }),
{
    assert(seq![word].drop_last() == Seq::<Seq<char>>::empty());
    assert(matcher::keys_heard(earlier, Seq::empty()) == Seq::<Seq<char>>::empty());
    let all = earlier + seq![word];
    let keys = matcher::keys_of_last(all);
    assert(Seq::<Seq<char>>::empty() + keys == keys);
    if earlier.len() > 0 {
        assert(all[all.len() - 2] == earlier.last());
        text_laws::law_bigram_by_parts(earlier.last(), word);
    }
}

/// Of the words heard the last two are kept, in their order, or all where there
/// are fewer.
pub proof fn law_last_two_words_are_kept(words: Seq<Seq<char>>, i: int)
    ensures
        matcher::last_two(words).len() == (if words.len() < 2 {
            words.len()
        } else {
            2
        }),
        0 <= i < matcher::last_two(words).len() ==> matcher::last_two(words)[i] == words[words.len()
            - matcher::last_two(words).len() + i],
{
}

} // verus!
