//! The queue of matched phrases between the matcher and the dispatcher.
use crossbeam_channel::{Receiver, Sender};
use vstd::prelude::*;

verus! {

/// A phrase that was heard and whose trigger fired, in normal form.
#[derive(Debug)]
pub struct Event {
    pub phrase: String,
}

impl Clone for Event {
    fn clone(&self) -> (r: Self)
        ensures
            r == *self,
    {
        Event { phrase: self.phrase.clone() }
    }
}

/// The sending end of a channel.
#[verifier::external_type_specification]
#[verifier::external_body]
#[verifier::reject_recursive_types(T)]
pub struct ExSender<T>(crossbeam_channel::Sender<T>);

/// The receiving end of a channel.
#[verifier::external_type_specification]
#[verifier::external_body]
#[verifier::reject_recursive_types(T)]
pub struct ExReceiver<T>(crossbeam_channel::Receiver<T>);

/// The phrases that wait in the channel of a receiver, the oldest first.
pub uninterp spec fn waiting(rx: Receiver<Event>) -> Seq<Seq<char>>;

/// Whether the two are the ends of one unbounded channel that has no others.
pub uninterp spec fn sole_ends(tx: Sender<Event>, rx: Receiver<Event>) -> bool;

/// `crossbeam_channel::unbounded`: a new channel, with nothing in it, of which
/// these are the only two ends.
#[verifier::external_body]
fn open_channel() -> (ends: (Sender<Event>, Receiver<Event>))
    ensures
        sole_ends(ends.0, ends.1),
        waiting(ends.1) == Seq::<Seq<char>>::empty(),
{
    crossbeam_channel::unbounded::<Event>()
}

/// `Sender::send`: puts the event behind those that wait. It would fail only
/// if the receiving end were gone, and here the caller holds that end, which
/// stands for what the channel holds.
#[allow(unused_variables)]
#[verifier::external_body]
fn send(tx: &Sender<Event>, rx: &mut Receiver<Event>, event: Event)
    requires
        sole_ends(*tx, *old(rx)),
    ensures
        sole_ends(*tx, *final(rx)),
        waiting(*final(rx)) == waiting(*old(rx)).push(event.phrase@),
{
    let _ = tx.send(event);
}

/// `Receiver::try_recv`: takes the event that has waited longest, and gives
/// none if and only if none waits. The caller holds the sending end too, so
/// that no other thread can be in the middle of sending.
#[allow(unused_variables)]
#[verifier::external_body]
fn try_recv(tx: &Sender<Event>, rx: &mut Receiver<Event>) -> (r: Option<Event>)
    requires
        sole_ends(*tx, *old(rx)),
    ensures
        sole_ends(*tx, *final(rx)),
        match r {
            Some(event) => {
                &&& waiting(*old(rx)).len() > 0
                &&& event.phrase@ == waiting(*old(rx))[0]
                &&& waiting(*final(rx)) == waiting(*old(rx)).drop_first()
            },
            None => {
                &&& waiting(*old(rx)).len() == 0
                &&& waiting(*final(rx)) == waiting(*old(rx))
            },
        },
{
    rx.try_recv().ok()
}

/// A queue of events: both ends of one channel, kept together so that nothing
/// else can send to it or take from it.
pub struct EventQueue {
    tx: Sender<Event>,
    rx: Receiver<Event>,
}

impl View for EventQueue {
    type V = Seq<Seq<char>>;

    /// The phrases of the events in the queue, the oldest first.
    closed spec fn view(&self) -> Seq<Seq<char>> {
        waiting(self.rx)
    }
}

impl EventQueue {
    /// The two ends belong together.
    pub closed spec fn wf(&self) -> bool {
        sole_ends(self.tx, self.rx)
    }

    /// A queue with nothing in it.
    pub fn new() -> (q: Self)
        ensures
            q.wf(),
            q@ == Seq::<Seq<char>>::empty(),
    {
        let (tx, rx) = open_channel();
        EventQueue { tx, rx }
    }

    /// Puts an event at the end of the queue.
    pub fn push(&mut self, event: Event)
        requires
            old(self).wf(),
        ensures
            final(self).wf(),
            final(self)@ == old(self)@.push(event.phrase@),
    {
        send(&self.tx, &mut self.rx, event);
    }

    /// Takes the oldest event.
    pub fn pop(&mut self) -> (r: Option<Event>)
        requires
            old(self).wf(),
        ensures
            final(self).wf(),
            match r {
                Some(event) => {
                    &&& old(self)@.len() > 0
                    &&& event.phrase@ == old(self)@[0]
                    &&& final(self)@ == old(self)@.drop_first()
                },
                None => {
                    &&& old(self)@.len() == 0
                    &&& final(self)@ == old(self)@
                },
            },
    {
        try_recv(&self.tx, &mut self.rx)
    }
}

/// How many events one frame dispatches at most.
pub const DISPATCH_LIMIT: u32 = 64;

/// The dispatch of one frame.
pub struct Dispatch {
    left: u32,
}

impl View for Dispatch {
    type V = nat;

    /// How many events the frame may still dispatch.
    closed spec fn view(&self) -> nat {
        self.left as nat
    }
}

impl Dispatch {
    /// A frame in which nothing was dispatched yet.
    pub fn new() -> (d: Self)
        ensures
            d@ == DISPATCH_LIMIT,
    {
        Dispatch { left: DISPATCH_LIMIT }
    }

    /// The next event of the frame, the oldest in the queue. The frame ends when
    /// its limit is reached or the queue is empty.
    pub fn next(&mut self, queue: &mut EventQueue) -> (r: Option<Event>)
        requires
            old(queue).wf(),
        ensures
            final(queue).wf(),
            r is Some <==> old(self)@ > 0 && old(queue)@.len() > 0,
            match r {
                Some(event) => {
                    &&& event.phrase@ == old(queue)@[0]
                    &&& final(queue)@ == old(queue)@.drop_first()
                    &&& final(self)@ == old(self)@ - 1
                },
                None => {
                    &&& final(queue)@ == old(queue)@
                    &&& final(self)@ == 0
                },
            },
    {
        if self.left == 0 {
            return None;
        }
        match queue.pop() {
            Some(event) => {
                self.left -= 1;
                Some(event)
            },
            None => {
                self.left = 0;
                None
            },
        }
    }
}

/// What a frame that may dispatch `left` events takes from a queue.
pub open spec fn dispatched(q: Seq<Seq<char>>, left: nat) -> Seq<Seq<char>>
    decreases left,
{
    if left == 0 || q.len() == 0 {
        Seq::empty()
    } else {
        seq![q[0]] + dispatched(q.drop_first(), (left - 1) as nat)
    }
}

/// What `n` frames take from a queue that gets nothing new.
pub open spec fn frames(q: Seq<Seq<char>>, n: nat) -> Seq<Seq<char>>
    decreases n,
{
    if n == 0 {
        Seq::empty()
    } else {
        let first = dispatched(q, DISPATCH_LIMIT as nat);
        first + frames(q.skip(first.len() as int), (n - 1) as nat)
    }
}

/// A frame dispatches the oldest events, in the order in which they came, and
/// all of them where they are within its limit.
pub proof fn law_frame_takes_the_oldest(q: Seq<Seq<char>>, left: nat)
    ensures
        dispatched(q, left) == q.take(if q.len() <= left {
            q.len() as int
        } else {
            left as int
        }),
    decreases left,
{
    if left == 0 || q.len() == 0 {
        assert(q.take(0) == Seq::<Seq<char>>::empty());
    } else {
        law_frame_takes_the_oldest(q.drop_first(), (left - 1) as nat);
    }
}

/// Frame by frame every event is dispatched, once and in its order.
pub proof fn law_frames_dispatch_all_in_order(q: Seq<Seq<char>>, n: nat)
    requires
        q.len() <= n * DISPATCH_LIMIT,
    ensures
        frames(q, n) == q,
    decreases n,
{
    if n > 0 {
        let first = dispatched(q, DISPATCH_LIMIT as nat);
        law_frame_takes_the_oldest(q, DISPATCH_LIMIT as nat);
        let rest = q.skip(first.len() as int);
        law_frames_dispatch_all_in_order(rest, (n - 1) as nat);
        assert(first + rest == q);
    }
}

/// One frame takes the 64 oldest events, or all where there are fewer.
pub proof fn law_one_frame_takes_sixty_four(q: Seq<Seq<char>>)
    ensures
        dispatched(q, DISPATCH_LIMIT as nat) == q.take(if q.len() <= 64 {
            q.len() as int
        } else {
            64
        }),
{
    law_frame_takes_the_oldest(q, DISPATCH_LIMIT as nat);
}

} // verus!
