//! A bounded queue of button events for clients that poll.

use vstd::prelude::*;
use std::collections::VecDeque;
use crate::canvas::CanvasMessage;

verus! {

/// How many events a poller holds before it refuses more.
pub const POLLER_CAPACITY: usize = 50;

/// Utility to process the messages of a layout by polling: a queue that
/// hands events out in the order in which they came in, and that never
/// holds more than `POLLER_CAPACITY` of them.
pub struct CanvasLayoutPoller {
    queue: VecDeque<CanvasMessage>,
}

impl View for CanvasLayoutPoller {
    type V = Seq<CanvasMessage>;

    /// The waiting events, oldest first.
    closed spec fn view(&self) -> Seq<CanvasMessage> {
        self.queue@
    }
}

impl CanvasLayoutPoller {
    /// What holds of a poller between calls: it is not over its capacity.
    pub open spec fn inv(&self) -> bool {
        self@.len() <= POLLER_CAPACITY
    }

    /// A poller with no event waiting.
    pub fn new() -> (poller: CanvasLayoutPoller)
        ensures
            poller.inv(),
            poller@ == Seq::<CanvasMessage>::empty(),
    {
        CanvasLayoutPoller { queue: VecDeque::new() }
    }

    /// How many events are waiting.
    pub fn len(&self) -> (n: usize)
        ensures
            n == self@.len(),
    {
        self.queue.len()
    }

    /// Puts an event at the back of the queue. A full queue takes nothing
    /// and hands the event back: the sender has to wait and try again, no
    /// event is dropped to make room.
    pub fn try_send(&mut self, msg: CanvasMessage) -> (result: Result<(), CanvasMessage>)
        requires
            old(self).inv(),
        ensures
            final(self).inv(),
            final(self)@ == after_send(old(self)@, msg),
            result == if old(self)@.len() < POLLER_CAPACITY {
                Ok::<(), CanvasMessage>(())
            } else {
                Err::<(), CanvasMessage>(msg)
            },
    {
        if self.queue.len() < POLLER_CAPACITY {
            self.queue.push_back(msg);
            Ok(())
        } else {
            Err(msg)
        }
    }

    /// Takes the oldest waiting event, or returns `None` at once where none
    /// is waiting.
    pub fn try_recv(&mut self) -> (msg: Option<CanvasMessage>)
        requires
            old(self).inv(),
        ensures
            final(self).inv(),
            msg == front(old(self)@),
            final(self)@ == after_recv(old(self)@),
    {
        self.queue.pop_front()
    }
}

/// The queue after an attempt to send `msg`: longer by `msg` at the back,
/// or unchanged where it was full.
pub open spec fn after_send(queue: Seq<CanvasMessage>, msg: CanvasMessage) -> Seq<CanvasMessage> {
    if queue.len() < POLLER_CAPACITY {
        queue.push(msg)
    } else {
        queue
    }
}

/// The queue after attempts to send each of `msgs` in turn.
pub open spec fn after_sends(queue: Seq<CanvasMessage>, msgs: Seq<CanvasMessage>) -> Seq<
    CanvasMessage,
>
    decreases msgs.len(),
{
    if msgs.len() == 0 {
        queue
    } else {
        after_send(after_sends(queue, msgs.drop_last()), msgs.last())
    }
}

/// What an attempt to receive returns: the oldest event, if there is one.
pub open spec fn front(queue: Seq<CanvasMessage>) -> Option<CanvasMessage> {
    if queue.len() > 0 {
        Some(queue[0])
    } else {
        None
    }
}

/// The queue after one attempt to receive.
pub open spec fn after_recv(queue: Seq<CanvasMessage>) -> Seq<CanvasMessage> {
    if queue.len() > 0 {
        queue.subrange(1, queue.len() as int)
    } else {
        queue
    }
}

/// The queue after `count` attempts to receive.
pub open spec fn after_recvs(queue: Seq<CanvasMessage>, count: nat) -> Seq<CanvasMessage>
    decreases count,
{
    if count == 0 {
        queue
    } else {
        after_recv(after_recvs(queue, (count - 1) as nat))
    }
}

/// Sending events to an empty poller, as many as it has room for, leaves
/// exactly these events waiting, in the order in which they were sent.
pub proof fn lemma_sends_queue_up(msgs: Seq<CanvasMessage>)
    requires
        msgs.len() <= POLLER_CAPACITY,
    ensures
        after_sends(Seq::empty(), msgs) == msgs,
    decreases msgs.len(),
{
    if msgs.len() > 0 {
        lemma_sends_queue_up(msgs.drop_last());
        assert(msgs.drop_last().push(msgs.last()) =~= msgs);
    }
}

proof fn lemma_recvs_drop(queue: Seq<CanvasMessage>, count: nat)
    requires
        count <= queue.len(),
    ensures
        after_recvs(queue, count) == queue.subrange(count as int, queue.len() as int),
    decreases count,
{
    if count == 0 {
        assert(queue.subrange(0, queue.len() as int) =~= queue);
    } else {
        lemma_recvs_drop(queue, (count - 1) as nat);
        let rest = queue.subrange(count - 1, queue.len() as int);
        assert(rest.subrange(1, rest.len() as int) =~= queue.subrange(
            count as int,
            queue.len() as int,
        ));
    }
}

/// Events are received in the order in which they were sent: after the
/// events `msgs` were sent to an empty poller and `k` of them were received,
/// the next one received is `msgs[k]`; once all were received, the next
/// attempt finds nothing.
pub proof fn lemma_fifo(msgs: Seq<CanvasMessage>, k: nat)
    requires
        msgs.len() <= POLLER_CAPACITY,
        k <= msgs.len(),
    ensures
        k < msgs.len() ==> front(after_recvs(after_sends(Seq::empty(), msgs), k)) == Some(
            msgs[k as int],
        ),
        k == msgs.len() ==> front(after_recvs(after_sends(Seq::empty(), msgs), k)).is_none(),
{
    lemma_sends_queue_up(msgs);
    lemma_recvs_drop(msgs, k);
}

} // verus!
