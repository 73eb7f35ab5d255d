//! What the cooldown means, in plain time.
use crate::triggers;
use crate::triggers::Trigger;
use vstd::prelude::*;

verus! {

/// A phrase fires exactly when it is registered and as many nanoseconds as its
/// wait have passed since it last fired. A clock that went back counts as none.
pub proof fn law_fires_by_the_clock<C>(
    m: Map<Seq<char>, Trigger<C>>,
    phrase: Seq<char>,
    now: u64,
)
    ensures
        triggers::fires(m, phrase, now) <==> {
            &&& phrase.len() > 0
            &&& m.contains_key(phrase)
            &&& m[phrase].wait matches Some(w) && (if now >= m[phrase].last_fire {
                now - m[phrase].last_fire >= w
            } else {
                w == 0
            })
        },
{
}

/// Waiting longer never keeps a phrase from firing.
pub proof fn law_ready_stays_ready<C>(
    m: Map<Seq<char>, Trigger<C>>,
    phrase: Seq<char>,
    now: u64,
    later: u64,
)
    requires
        triggers::fires(m, phrase, now),
        now <= later,
    ensures
        triggers::fires(m, phrase, later),
{
}

/// A firing moves the last firing of its own trigger to now, and changes nothing
/// else; without a firing nothing changes.
pub proof fn law_firing_moves_only_its_last_fire<C>(
    m: Map<Seq<char>, Trigger<C>>,
    phrase: Seq<char>,
    now: u64,
    other: Seq<char>,
)
    ensures
        !triggers::fires(m, phrase, now) ==> triggers::after(m, phrase, now) == m,
        triggers::after(m, phrase, now).dom() == m.dom(),
        other != phrase ==> triggers::after(m, phrase, now)[other] == m[other],
        triggers::after(m, phrase, now)[phrase].cooldown == m[phrase].cooldown,
        triggers::after(m, phrase, now)[phrase].wait == m[phrase].wait,
        triggers::fires(m, phrase, now) ==> triggers::after(m, phrase, now)[phrase].last_fire
            == now,
{
    assert(triggers::after(m, phrase, now).dom() =~= m.dom());
}

/// After a firing a phrase is silent until its wait has passed, and fires again
/// as soon as it has.
pub proof fn law_fires_again_after_its_wait<C>(
    m: Map<Seq<char>, Trigger<C>>,
    phrase: Seq<char>,
    wait: u64,
    now: u64,
    later: u64,
)
    requires
        triggers::fires(m, phrase, now),
        m[phrase].wait == Some(wait),
        now <= later,
    ensures
        triggers::fires(triggers::after(m, phrase, now), phrase, later) <==> later - now >= wait,
{
}

/// A trigger is registered with what its owner gave, as if it had fired a second
/// ago.
pub proof fn law_registered_as_fired_a_second_ago<C>(cooldown: C, wait: Option<u64>, now: u64)
    requires
        now >= 1_000_000_000,
    ensures
        triggers::fresh(cooldown, wait, now).cooldown == cooldown,
        triggers::fresh(cooldown, wait, now).wait == wait,
        triggers::fresh(cooldown, wait, now).last_fire + 1_000_000_000 == now,
{
}

/// Where a longer time reaches a cooldown whenever a shorter one does, the
/// threshold of the cooldown parts the times that reach it from the others.
pub proof fn law_threshold_parts_the_times<C, F: Fn(C, u64) -> bool>(
    reached: F,
    cooldown: C,
    wait: Option<u64>,
    n: u64,
    answer: bool,
)
    requires
        triggers::threshold(reached, cooldown, wait),
        forall|a: u64, b: u64|
            a <= b && #[trigger] reached.ensures((cooldown, a), true) ==> !(
            #[trigger] reached.ensures((cooldown, b), false)),
        reached.ensures((cooldown, n), answer),
    ensures
        answer <==> (wait matches Some(w) && n >= w),
{
}

/// A registered phrase fires exactly when the nanoseconds since it last fired
/// reach the cooldown that it reports.
pub proof fn law_fires_when_the_time_since_reaches_the_cooldown<C, F: Fn(C, u64) -> bool>(
    m: Map<Seq<char>, Trigger<C>>,
    reached: F,
    phrase: Seq<char>,
    now: u64,
    answer: bool,
)
    requires
        phrase.len() > 0,
        m.contains_key(phrase),
        triggers::threshold(reached, m[phrase].cooldown, m[phrase].wait),
        forall|a: u64, b: u64|
            a <= b && #[trigger] reached.ensures((m[phrase].cooldown, a), true) ==> !(
            #[trigger] reached.ensures((m[phrase].cooldown, b), false)),
        now >= m[phrase].last_fire,
        reached.ensures((m[phrase].cooldown, (now - m[phrase].last_fire) as u64), answer),
    ensures
        triggers::fires(m, phrase, now) <==> answer,
{
    law_threshold_parts_the_times(
        reached,
        m[phrase].cooldown,
        m[phrase].wait,
        (now - m[phrase].last_fire) as u64,
        answer,
    );
}

} // verus!
