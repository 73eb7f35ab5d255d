//! What the voice hooks do to the worker.
use vstd::prelude::*;

verus! {

/// What is to be done with the worker.
#[derive(Clone, Copy, Debug, PartialEq, Eq, Structural)]
pub enum VoiceAction {
    /// Nothing.
    Ignore,
    /// Start it.
    Start,
    /// Tell it to stop.
    Stop,
}

/// A voice hook was called.
#[derive(Clone, Copy, Debug, PartialEq, Eq, Structural)]
pub enum VoiceEvent {
    /// A player begins to speak. `local` tells whether it is the local player;
    /// none where the local player cannot be found out.
    Began { local: Option<bool> },
    /// A player ceases to speak.
    Ended { local: Option<bool> },
}

/// What a voice event does to the worker: the local player's voice starts it,
/// unless it is running, and stops it.
pub open spec fn action(event: VoiceEvent, running: bool) -> VoiceAction {
    match event {
        VoiceEvent::Began { local } => if local == Some(true) && !running {
            VoiceAction::Start
        } else {
            VoiceAction::Ignore
        },
        VoiceEvent::Ended { local } => if local == Some(true) {
            VoiceAction::Stop
        } else {
            VoiceAction::Ignore
        },
    }
}

/// Whether the worker is to run after an action.
pub open spec fn running_after(act: VoiceAction, running: bool) -> bool {
    match act {
        VoiceAction::Ignore => running,
        VoiceAction::Start => true,
        VoiceAction::Stop => false,
    }
}

/// What a voice event does to the worker.
pub fn on_voice(event: VoiceEvent, running: bool) -> (act: VoiceAction)
    ensures
        act == action(event, running),
{
    match event {
        VoiceEvent::Began { local: Some(true) } => if running {
            VoiceAction::Ignore
        } else {
            VoiceAction::Start
        },
        VoiceEvent::Ended { local: Some(true) } => VoiceAction::Stop,
        _ => VoiceAction::Ignore,
    }
}

/// Whether an event is one of the local player's voice.
pub open spec fn is_local(event: VoiceEvent) -> bool {
    match event {
        VoiceEvent::Began { local } => local == Some(true),
        VoiceEvent::Ended { local } => local == Some(true),
    }
}

/// Whether the worker is to run after a course of voice events.
pub open spec fn running_after_all(events: Seq<VoiceEvent>, running: bool) -> bool
    decreases events.len(),
{
    if events.len() == 0 {
        running
    } else {
        let before = running_after_all(events.drop_last(), running);
        running_after(action(events.last(), before), before)
    }
}

/// Other players' voices change nothing.
pub proof fn law_other_voices_change_nothing(events: Seq<VoiceEvent>, running: bool)
    requires
        forall|i: int| 0 <= i < events.len() ==> !is_local(#[trigger] events[i]),
    ensures
        running_after_all(events, running) == running,
    decreases events.len(),
{
    if events.len() > 0 {
        assert(!is_local(events[events.len() - 1]));
        assert forall|i: int| 0 <= i < events.drop_last().len() implies !is_local(
            #[trigger] events.drop_last()[i],
        ) by {
            assert(!is_local(events[i]));
        }
        law_other_voices_change_nothing(events.drop_last(), running);
    }
}

/// The worker is to run exactly while the local player speaks: the last event
/// of the local player's voice decides, whatever came before it and whatever
/// other players do after it.
pub proof fn law_worker_follows_the_local_voice(
    events: Seq<VoiceEvent>,
    last: VoiceEvent,
    others: Seq<VoiceEvent>,
    running: bool,
)
    requires
        is_local(last),
        forall|i: int| 0 <= i < others.len() ==> !is_local(#[trigger] others[i]),
    ensures
        running_after_all(events.push(last) + others, running) == (last is Began),
    decreases others.len(),
{
    if others.len() == 0 {
        assert(events.push(last) + others == events.push(last));
        assert(events.push(last).drop_last() == events);
    } else {
        let all = events.push(last) + others;
        assert(!is_local(others[others.len() - 1]));
        assert forall|i: int| 0 <= i < others.drop_last().len() implies !is_local(
            #[trigger] others.drop_last()[i],
        ) by {
            assert(!is_local(others[i]));
        }
        assert(all.drop_last() == events.push(last) + others.drop_last());
        law_worker_follows_the_local_voice(events, last, others.drop_last(), running);
    }
}

/// The worker is started when the local player begins to speak and it is not
/// running, stopped when the local player ceases, and else left alone.
pub proof fn law_only_the_local_player_counts(event: VoiceEvent, running: bool)
    ensures
        action(event, running) == VoiceAction::Start <==> event == (VoiceEvent::Began {
            local: Some(true),
        }) && !running,
        action(event, running) == VoiceAction::Stop <==> event == (VoiceEvent::Ended {
            local: Some(true),
        }),
{
}

} // verus!
