use gmcl_speech::queue::{Dispatch, Event, EventQueue, DISPATCH_LIMIT};

fn event(n: u32) -> Event {
    Event { phrase: format!("phrase {n}") }
}

#[test]
fn events_come_out_in_their_order() {
    let mut q = EventQueue::new();
    assert!(q.pop().is_none());
    for n in 0..100 {
        q.push(event(n));
    }
    for n in 0..100 {
        assert_eq!(q.pop().unwrap().phrase, format!("phrase {n}"));
    }
    assert!(q.pop().is_none());
}

#[test]
fn a_frame_has_a_limit() {
    let mut q = EventQueue::new();
    for n in 0..150 {
        q.push(event(n));
    }
    let mut next = 0;
    for expected in [64, 64, 22, 0] {
        let mut frame = Dispatch::new();
        let mut count = 0;
        while let Some(e) = frame.next(&mut q) {
            assert_eq!(e.phrase, format!("phrase {next}"));
            next += 1;
            count += 1;
        }
        assert_eq!(count, expected);
        assert!(frame.next(&mut q).is_none());
    }
    assert_eq!(DISPATCH_LIMIT, 64);
}

#[test]
fn a_frame_that_found_the_queue_empty_is_over() {
    let mut q = EventQueue::new();
    let mut frame = Dispatch::new();
    assert!(frame.next(&mut q).is_none());
    q.push(event(1));
    assert!(frame.next(&mut q).is_none());
    assert_eq!(Dispatch::new().next(&mut q).unwrap().phrase, "phrase 1");
}

fn can_go_to_another_thread<T: Send>(value: T) -> T {
    value
}

#[test]
fn a_queue_can_go_to_another_thread() {
    let mut q = can_go_to_another_thread(EventQueue::new());
    let e = event(1);
    q.push(e.clone());
    assert_eq!(q.pop().unwrap().phrase, e.phrase);
}
