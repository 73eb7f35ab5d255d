//! What the functions of the `speech` table do to the triggers.
use crate::text;
use crate::triggers;
use crate::triggers::Triggers;
use vstd::prelude::*;

verus! {

/// The cooldown of a trigger that is registered without one, in milliseconds.
pub const DEFAULT_COOLDOWN_MILLIS: u32 = 500;

/// Where the cooldown of a new trigger comes from.
#[derive(Clone, Copy, Debug, PartialEq, Eq, Structural)]
pub enum CooldownSource {
    /// It was left out.
    Default,
    /// It is the second argument, which has to be a number.
    SecondArgument,
}

/// Where `AddTrigger(phrase[, cooldown], callback)` has its cooldown, given the
/// number of arguments. With two arguments a function in second place is the
/// callback.
pub fn cooldown_source(top: i32, second_is_function: bool) -> (r: CooldownSource)
    ensures
        r == (if top <= 1 || (top == 2 && second_is_function) {
            CooldownSource::Default
        } else {
            CooldownSource::SecondArgument
        }),
{
    if top <= 1 || (top == 2 && second_is_function) {
        CooldownSource::Default
    } else {
        CooldownSource::SecondArgument
    }
}

/// The place of the callback among the arguments: the argument behind the
/// cooldown, or behind the phrase where the cooldown is left out.
pub open spec fn callback_place(
    top: i32,
    second_is_function: bool,
    third_is_function: bool,
) -> Option<i32> {
    if top == 2 && second_is_function {
        Some(2i32)
    } else if top >= 3 && third_is_function {
        Some(3i32)
    } else {
        None
    }
}

/// The place of the callback among the arguments of `AddTrigger`, if there is
/// a function in it.
pub fn callback_index(top: i32, second_is_function: bool, third_is_function: bool) -> (r: Option<
    i32,
>)
    ensures
        r == callback_place(top, second_is_function, third_is_function),
{
    if top == 2 && second_is_function {
        Some(2)
    } else if top >= 3 && third_is_function {
        Some(3)
    } else {
        None
    }
}

/// `AddTrigger`: registers a phrase under its normal form, unless that is empty
/// or there is no callback. `reached` tells whether a number of nanoseconds
/// reaches a cooldown; the trigger waits for the very cooldown that it reports.
/// Gives the phrase in normal form, and the place of the callback that is to be
/// kept for it.
pub fn add_trigger<C: Copy, F: Fn(C, u64) -> bool>(
    table: &mut Triggers<C>,
    phrase: &str,
    cooldown: C,
    reached: &F,
    callback: Option<i32>,
    now: u64,
) -> (r: Option<(String, i32)>)
    requires
        old(table).wf(),
        now >= triggers::SECOND,
        forall|n: u64| #[trigger] reached.requires((cooldown, n)),
    ensures
        final(table).wf(),
        r is Some <==> text::normalized(phrase@).len() > 0 && callback is Some,
        match r {
            Some((key, place)) => {
                &&& key@ == text::normalized(phrase@)
                &&& callback == Some(place)
                &&& exists|wait: Option<u64>|
                    {
                        &&& #[trigger] triggers::threshold(*reached, cooldown, wait)
                        &&& final(table)@ == old(table)@.insert(
                            text::normalized(phrase@),
                            triggers::fresh(cooldown, wait, now),
                        )
                    }
            },
            None => final(table)@ == old(table)@,
        },
{
    let key: String = text::norm(phrase);
    if key.as_str().is_empty() {
        return None;
    }
    match callback {
        Some(place) => {
            let wait: Option<u64> = triggers::cooldown_wait(reached, cooldown);
            table.register(key.clone(), cooldown, wait, now);
            Some((key, place))
        },
        None => None,
    }
}

/// `RemoveTrigger`: takes a phrase's trigger out of the table. Gives the phrase
/// in normal form, whose callback is to be forgotten.
pub fn remove_trigger<C: Copy>(table: &mut Triggers<C>, phrase: &str) -> (key: String)
    requires
        old(table).wf(),
    ensures
        final(table).wf(),
        key@ == text::normalized(phrase@),
        final(table)@ == old(table)@.remove(text::normalized(phrase@)),
{
    let key: String = text::norm(phrase);
    table.unregister(&key);
    key
}

/// The callback is the function in second place where there are two arguments,
/// the one in third place where there are more, and else there is none.
pub proof fn law_place_of_the_callback(
    top: i32,
    second_is_function: bool,
    third_is_function: bool,
)
    ensures
        callback_place(top, second_is_function, third_is_function) == Some(2i32) <==> top == 2
            && second_is_function,
        callback_place(top, second_is_function, third_is_function) == Some(3i32) <==> top >= 3
            && third_is_function,
        callback_place(top, second_is_function, third_is_function) matches Some(place) ==> place
            == 2 || place == 3,
{
}

} // verus!
