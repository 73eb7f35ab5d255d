use gmcl_speech::commands::add_trigger;
use gmcl_speech::matcher::Clock;
use gmcl_speech::queue::EventQueue;
use gmcl_speech::triggers::{Triggers, SECOND};
use gmcl_speech::voice::{on_voice, VoiceAction, VoiceEvent};
use gmcl_speech::worker::{
    first_match, last_segment, pick_device, Phase, Schedule, Worker, WorkerAction, WorkerEvent,
    TICK,
};

fn names() -> Vec<String> {
    ["Speakers", "Mikrofon (ÄUSSERES)", "USB Microphone", "usb microphone 2"]
        .iter()
        .map(|s| s.to_string())
        .collect()
}

#[test]
fn the_first_device_that_matches_is_picked() {
    assert_eq!(pick_device(&names(), &Some("MICROPHONE".to_string())), Some(2));
    assert_eq!(pick_device(&names(), &Some("phone 2".to_string())), Some(3));
    assert_eq!(pick_device(&names(), &Some("äusseres".to_string())), Some(1));
    assert_eq!(pick_device(&names(), &Some("".to_string())), Some(0));
}

#[test]
fn the_default_device_is_picked_otherwise() {
    assert_eq!(pick_device(&names(), &Some("line in".to_string())), None);
    assert_eq!(pick_device(&names(), &None), None);
    assert_eq!(pick_device(&Vec::new(), &Some("".to_string())), None);
}

#[test]
fn first_match_compares_as_it_stands() {
    assert_eq!(first_match(&names(), "usb"), Some(3));
    assert_eq!(first_match(&names(), "USB"), Some(2));
}

#[test]
fn decodes_keep_to_the_tick() {
    let mut s = Schedule::new(1_000);
    assert!(s.due(1_000));
    assert!(!s.due(1_000));
    assert!(!s.due(1_000 + TICK - 1));
    assert!(s.due(1_000 + TICK + 5));
    assert_eq!(s.next, 1_000 + 2 * TICK);
    // A worker that was held up makes up for the decodes it missed.
    assert!(s.due(1_000 + 4 * TICK));
    assert!(s.due(1_000 + 4 * TICK));
    assert!(s.due(1_000 + 4 * TICK));
    assert!(!s.due(1_000 + 4 * TICK));
}

#[test]
fn the_last_segment_counts() {
    assert_eq!(last_segment(3), Some(2));
    assert_eq!(last_segment(1), Some(0));
    assert_eq!(last_segment(0), None);
    assert_eq!(last_segment(-1), None);
}

fn locate(i: usize, _in_hz: u32, _out_hz: u32) -> (usize, f32) {
    (i, 0.0)
}

fn blend(a: f32, _b: f32, _weight: f32) -> f32 {
    a
}

fn tell(w: &mut Worker<f32>, event: WorkerEvent<f32>) -> WorkerAction<f32> {
    w.step(event, &locate, &blend)
}

fn table() -> Triggers<f32> {
    let mut t: Triggers<f32> = Triggers::new();
    add_trigger(&mut t, "Open Door", 0.5, &|_c: f32, n: u64| n >= SECOND / 2, Some(3), 5 * SECOND);
    t
}

#[test]
fn a_worker_from_audio_to_event() {
    let mut t = table();
    let mut q = Some(EventQueue::new());
    let mut clock = Clock::new(|| 6 * SECOND);
    let mut w: Worker<f32> = Worker::new(16_000, 5 * SECOND);
    assert!(matches!(tell(&mut w, WorkerEvent::Flag(true)), WorkerAction::TakeAudio));
    assert!(matches!(tell(&mut w, WorkerEvent::Audio(None)), WorkerAction::ReadClock));
    // The first decode is due, and there is nothing to decode.
    assert!(matches!(tell(&mut w, WorkerEvent::Time(5 * SECOND)), WorkerAction::Rest));
    assert_eq!(w.schedule.next, 5 * SECOND + TICK);
    assert!(matches!(tell(&mut w, WorkerEvent::Rested), WorkerAction::CheckFlag));
    assert!(matches!(tell(&mut w, WorkerEvent::Flag(true)), WorkerAction::TakeAudio));
    for _ in 0..2 {
        let block = WorkerEvent::Audio(Some(vec![0.25; 4_000]));
        assert!(matches!(tell(&mut w, block), WorkerAction::TakeAudio));
    }
    assert!(matches!(tell(&mut w, WorkerEvent::Audio(None)), WorkerAction::ReadClock));
    // Not due yet.
    assert!(matches!(tell(&mut w, WorkerEvent::Time(5 * SECOND + TICK - 1)), WorkerAction::Rest));
    tell(&mut w, WorkerEvent::Rested);
    tell(&mut w, WorkerEvent::Flag(true));
    tell(&mut w, WorkerEvent::Audio(None));
    match tell(&mut w, WorkerEvent::Time(5 * SECOND + TICK)) {
        WorkerAction::Decode(a) => assert_eq!(a, vec![0.25; 8_000]),
        _ => panic!(),
    }
    let heard = Some("open the... open door".to_string());
    assert!(matches!(w.decoded(&heard, &mut t, &mut q, &mut clock), WorkerAction::Rest));
    assert_eq!(q.as_mut().unwrap().pop().unwrap().phrase, "open door");
    assert!(q.as_mut().unwrap().pop().is_none());
}

#[test]
fn a_worker_ends_when_the_flag_is_down() {
    let mut t = table();
    let mut q = Some(EventQueue::new());
    let mut clock = Clock::new(|| 6 * SECOND);
    let mut w: Worker<f32> = Worker::new(16_000, 5 * SECOND);
    tell(&mut w, WorkerEvent::Flag(true));
    tell(&mut w, WorkerEvent::Audio(Some(vec![0.25; 8_000])));
    tell(&mut w, WorkerEvent::Audio(None));
    // The flag falls now: the round under way is finished.
    assert!(matches!(tell(&mut w, WorkerEvent::Time(5 * SECOND)), WorkerAction::Decode(_)));
    let heard = Some("open door".to_string());
    w.decoded(&heard, &mut t, &mut q, &mut clock);
    assert!(q.as_mut().unwrap().pop().is_some());
    assert!(matches!(tell(&mut w, WorkerEvent::Rested), WorkerAction::CheckFlag));
    assert!(matches!(tell(&mut w, WorkerEvent::Flag(false)), WorkerAction::End));
    // It has ended for good, and queues nothing.
    assert!(matches!(tell(&mut w, WorkerEvent::Flag(true)), WorkerAction::End));
    assert!(matches!(tell(&mut w, WorkerEvent::Time(9 * SECOND)), WorkerAction::End));
    let mut later = Clock::new(|| 60 * SECOND);
    assert!(matches!(w.decoded(&heard, &mut t, &mut q, &mut later), WorkerAction::End));
    assert!(q.as_mut().unwrap().pop().is_none());
    assert_eq!(w.phase, Phase::Ended);
}

#[test]
fn a_worker_takes_no_notice_of_what_it_did_not_ask_for() {
    let mut t = table();
    let mut q = Some(EventQueue::new());
    let mut clock = Clock::new(|| 6 * SECOND);
    let mut w: Worker<f32> = Worker::new(16_000, 5 * SECOND);
    assert!(matches!(tell(&mut w, WorkerEvent::Rested), WorkerAction::Unexpected));
    assert!(matches!(tell(&mut w, WorkerEvent::Time(5 * SECOND)), WorkerAction::Unexpected));
    let heard = Some("open door".to_string());
    assert!(matches!(w.decoded(&heard, &mut t, &mut q, &mut clock), WorkerAction::Unexpected));
    assert!(q.as_mut().unwrap().pop().is_none());
    assert_eq!(w.phase, Phase::CheckingFlag);
    assert_eq!(w.schedule.next, 5 * SECOND);
}

#[test]
fn a_decode_without_a_text_does_nothing() {
    let mut t = table();
    let mut q = Some(EventQueue::new());
    let mut clock = Clock::new(|| 6 * SECOND);
    let mut w: Worker<f32> = Worker::new(16_000, 5 * SECOND);
    tell(&mut w, WorkerEvent::Flag(true));
    tell(&mut w, WorkerEvent::Audio(Some(vec![0.25; 8_000])));
    tell(&mut w, WorkerEvent::Audio(None));
    tell(&mut w, WorkerEvent::Time(5 * SECOND));
    assert!(matches!(w.decoded(&None, &mut t, &mut q, &mut clock), WorkerAction::Rest));
    assert!(q.as_mut().unwrap().pop().is_none());
}

#[test]
fn a_misplaced_sample_ends_the_worker() {
    let mut w: Worker<f32> = Worker::new(8_000, 5 * SECOND);
    tell(&mut w, WorkerEvent::Flag(true));
    tell(&mut w, WorkerEvent::Audio(Some(vec![0.25; 8_000])));
    tell(&mut w, WorkerEvent::Audio(None));
    let outside = |_i: usize, _a: u32, _b: u32| (usize::MAX, 0.0f32);
    let act = w.step(WorkerEvent::Time(5 * SECOND), &outside, &blend);
    assert!(matches!(act, WorkerAction::Fail));
    assert_eq!(w.phase, Phase::Ended);
}

#[test]
fn the_local_voice_starts_and_stops_the_worker() {
    let began = VoiceEvent::Began { local: Some(true) };
    let ended = VoiceEvent::Ended { local: Some(true) };
    assert_eq!(on_voice(began, false), VoiceAction::Start);
    assert_eq!(on_voice(began, true), VoiceAction::Ignore);
    assert_eq!(on_voice(ended, true), VoiceAction::Stop);
    assert_eq!(on_voice(ended, false), VoiceAction::Stop);
}

#[test]
fn other_voices_change_nothing() {
    for running in [false, true] {
        for local in [None, Some(false)] {
            assert_eq!(on_voice(VoiceEvent::Began { local }, running), VoiceAction::Ignore);
            assert_eq!(on_voice(VoiceEvent::Ended { local }, running), VoiceAction::Ignore);
        }
    }
}
