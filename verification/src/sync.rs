//! The rules of the ordered channel.
//!
//! Senders hold values for given indices, in any order; the receiver reads them in the
//! order 0, 1, 2, ... A sender may hand its value over only when the receiver asks for
//! its index, so values never pile up between them. The state below is what both sides
//! share; every decision of the channel is taken on it.

use vstd::prelude::*;

verus! {

/// What senders and receiver share, as numbers and flags.
#[verifier::ext_equal]
pub struct ChannelView {
    /// The index that the receiver asked for last, if it ever asked.
    pub wanted: Option<nat>,
    /// No more values are to be sent.
    pub closed: bool,
    /// A receive was begun and has not got its value yet.
    pub receiving: bool,
}

/// What a sender may do with its value.
#[derive(Debug, Clone, Copy, PartialEq, Eq, Structural)]
pub enum SendDecision {
    /// Give up: the channel is closed.
    Closed,
    /// Hand the value over: it is the one asked for.
    Ready,
    /// Wait to be notified and decide again.
    Wait,
}

/// What a receive that was begun comes to.
#[derive(Debug, Clone, Copy, PartialEq, Eq, Structural)]
pub enum RecvDecision {
    /// Take the value: it is there.
    Ready,
    /// Give up: there is no value, and none will come.
    Over,
    /// Wait to be notified and decide again.
    Wait,
}

impl ChannelView {
    /// A channel on which nothing happened yet.
    pub open spec fn initial() -> ChannelView {
        ChannelView { wanted: None, closed: false, receiving: false }
    }

    /// A receive begins, or one that was cancelled is taken up again: the next index is
    /// asked for, unless the current one has not been received yet.
    pub open spec fn begun(self) -> ChannelView {
        if self.receiving {
            self
        } else {
            ChannelView {
                wanted: match self.wanted {
                    None => Some(0),
                    Some(i) => Some(i + 1),
                },
                closed: self.closed,
                receiving: true,
            }
        }
    }

    /// The value asked for was received.
    pub open spec fn finished(self) -> ChannelView {
        ChannelView { wanted: self.wanted, closed: self.closed, receiving: false }
    }

    /// Either side closed the channel.
    pub open spec fn ended(self) -> ChannelView {
        ChannelView { wanted: self.wanted, closed: true, receiving: self.receiving }
    }

    /// What the sender of the value at `idx` may do.
    pub open spec fn decision(self, idx: nat) -> SendDecision {
        if self.closed {
            SendDecision::Closed
        } else if self.wanted == Some(idx) {
            SendDecision::Ready
        } else {
            SendDecision::Wait
        }
    }

    /// What a receive comes to, by whether a value was handed over and whether there are
    /// senders left.
    pub open spec fn reception(self, buffered: bool, senders_left: bool) -> RecvDecision {
        if buffered {
            RecvDecision::Ready
        } else if self.closed || !senders_left {
            RecvDecision::Over
        } else {
            RecvDecision::Wait
        }
    }
}

/// What senders and receiver share, under a lock.
pub struct SharedState {
    wanted_idx: Option<usize>,
    recv_closed: bool,
    receiving: bool,
}

impl SharedState {
    pub closed spec fn view(&self) -> ChannelView {
        ChannelView {
            wanted: match self.wanted_idx {
                None => None,
                Some(i) => Some(i as nat),
            },
            closed: self.recv_closed,
            receiving: self.receiving,
        }
    }

    /// The state of a channel on which nothing happened yet.
    pub fn new() -> (state: Self)
        ensures
            state@ == ChannelView::initial(),
    {
        SharedState { wanted_idx: None, recv_closed: false, receiving: false }
    }

    /// What the sender of the value at `idx` may do.
    pub fn send(&self, idx: usize) -> (decision: SendDecision)
        ensures
            decision == self@.decision(idx as nat),
    {
        if self.recv_closed {
            SendDecision::Closed
        } else {
            let can_send: bool = match self.wanted_idx {
                Some(wanted) => wanted == idx,
                None => false,
            };
            if can_send {
                SendDecision::Ready
            } else {
                SendDecision::Wait
            }
        }
    }

    /// Whether a receive can be begun or taken up again: the index that it asks for has to
    /// fit.
    pub fn can_begin(&self) -> (r: bool)
        ensures
            r == (self@.receiving || self@.wanted != Some(usize::MAX as nat)),
    {
        self.receiving || match self.wanted_idx {
            Some(i) => i != usize::MAX,
            None => true,
        }
    }

    /// Begins a receive, or takes up one that was cancelled. Returns whether waiting
    /// senders are to be notified, because the index asked for is a new one.
    pub fn begin_recv(&mut self) -> (notify: bool)
        requires
            !old(self)@.receiving ==> old(self)@.wanted != Some(usize::MAX as nat),
        ensures
            final(self)@ == old(self)@.begun(),
            notify == !old(self)@.receiving,
    {
        if !self.receiving {
            self.wanted_idx = match self.wanted_idx {
                None => Some(0),
                Some(i) => Some(i + 1),
            };
            self.receiving = true;
            true
        } else {
            false
        }
    }

    /// What a receive that was begun comes to: the value if one was handed over, and
    /// otherwise nothing if the channel is closed or all senders are gone.
    pub fn recv(&self, buffered: bool, senders_left: bool) -> (decision: RecvDecision)
        ensures
            decision == self@.reception(buffered, senders_left),
    {
        if buffered {
            RecvDecision::Ready
        } else if self.recv_closed || !senders_left {
            RecvDecision::Over
        } else {
            RecvDecision::Wait
        }
    }

    /// Ends a receive that got its value.
    pub fn finish_recv(&mut self)
        ensures
            final(self)@ == old(self)@.finished(),
    {
        self.receiving = false;
    }

    /// Closes the channel. Returns whether it was open until now.
    pub fn close(&mut self) -> (first: bool)
        ensures
            final(self)@ == old(self)@.ended(),
            first == !old(self)@.closed,
    {
        let first: bool = !self.recv_closed;
        self.recv_closed = true;
        first
    }
}

/// A receive that was cancelled can be begun again without losing or skipping a value.
pub proof fn law_recv_is_cancel_safe(state: ChannelView)
    ensures
        state.begun().begun() == state.begun(),
        state.begun().receiving,
{
}

/// Once the channel is closed no sender waits any more: each of them is told so,
/// whatever happens on the channel afterwards.
pub proof fn law_close_releases_senders(state: ChannelView, idx: nat)
    ensures
        state.ended().decision(idx) == SendDecision::Closed,
        state.closed ==> state.begun().closed && state.finished().closed,
{
}

/// A receive on a closed channel does not wait either: it gives the value that was handed
/// over before, if there is one, and else nothing.
pub proof fn law_close_releases_receiver(state: ChannelView, buffered: bool, senders_left: bool)
    ensures
        state.ended().reception(buffered, senders_left) == (if buffered {
            RecvDecision::Ready
        } else {
            RecvDecision::Over
        }),
        state.ended().begun().reception(buffered, senders_left) == state.ended().reception(
            buffered,
            senders_left,
        ),
{
}

/// A sender is told that the channel is closed exactly when it is; and neither a receive
/// that begins nor one that ends closes or opens it.
pub proof fn law_only_closing_closes(state: ChannelView, idx: nat)
    ensures
        state.decision(idx) == SendDecision::Closed <==> state.closed,
        state.begun().closed == state.closed,
        state.finished().closed == state.closed,
        state.ended().closed,
        state.ended().wanted == state.wanted,
        state.ended().receiving == state.receiving,
        state.finished().wanted == state.wanted,
        !state.finished().receiving,
        !ChannelView::initial().closed,
{
}

/// A receive that was begun asks for the index after the last one, and for the first
/// index at first.
pub proof fn law_receive_asks_for_next_index(state: ChannelView)
    requires
        !state.receiving,
    ensures
        state.wanted is None ==> state.begun().wanted == Some(0nat),
        state.wanted matches Some(i) ==> state.begun().wanted == Some(i + 1),
        state.begun().finished().begun().wanted == Some(state.begun().wanted->0 + 1),
        ChannelView::initial().wanted is None && !ChannelView::initial().receiving,
{
}

/// A receive takes a value if there is one. It gives up only where none can come, because
/// the channel is closed or no sender is left, and waits only where one can.
pub proof fn law_receive_waits_for_senders(state: ChannelView, senders_left: bool)
    ensures
        state.reception(true, senders_left) == RecvDecision::Ready,
        state.reception(false, senders_left) == RecvDecision::Over <==> state.closed
            || !senders_left,
        state.reception(false, senders_left) == RecvDecision::Wait <==> !state.closed
            && senders_left,
{
}

/// On an open channel at most one index can be sent: the one asked for.
pub proof fn law_only_wanted_index_is_sent(state: ChannelView, one: nat, other: nat)
    requires
        state.decision(one) == SendDecision::Ready,
        state.decision(other) == SendDecision::Ready,
    ensures
        one == other,
        state.wanted == Some(one),
{
}

/// While a receive is under way on an open channel, the sender of the index asked for
/// does not have to wait.
pub proof fn law_wanted_sender_does_not_wait(state: ChannelView)
    requires
        !state.closed,
        state.receiving ==> state.wanted is Some,
    ensures
        state.begun().wanted matches Some(idx) && state.begun().decision(idx)
            == SendDecision::Ready,
{
}

/// What can happen on a channel.
pub enum ChannelEvent {
    /// A receive is begun or taken up again.
    Begin,
    /// A receive is cancelled before it got its value.
    Cancel,
    /// The sender of this index hands its value over.
    Send(nat),
    /// The receive under way takes the value from the buffer.
    Finish,
    /// The receive under way gives up: it gets nothing.
    Over,
    /// The last sender is gone.
    Leave,
    /// Either side closes the channel.
    Close,
}

/// A channel with the indices of the values that passed through it.
#[verifier::ext_equal]
pub struct Channel {
    pub state: ChannelView,
    /// Whether there are senders.
    pub senders_left: bool,
    /// The values between senders and receiver.
    pub buffer: Seq<nat>,
    /// The values that were handed over by senders, each at most once.
    pub sent: Set<nat>,
    /// The values that the receiver got, in order.
    pub received: Seq<nat>,
    /// Whether the receiver was told that nothing comes any more.
    pub over: bool,
}

impl Channel {
    /// A channel on which nothing happened yet.
    pub open spec fn initial() -> Channel {
        Channel {
            state: ChannelView::initial(),
            senders_left: true,
            buffer: Seq::empty(),
            sent: Set::empty(),
            received: Seq::empty(),
            over: false,
        }
    }

    /// What a receive comes to now.
    pub open spec fn reception(self) -> RecvDecision {
        self.state.reception(self.buffer.len() > 0, self.senders_left)
    }

    /// Whether `event` can happen now. A sender sends a value of its own, when it is
    /// told that it may; the buffer has room for one value.
    pub open spec fn admits(self, event: ChannelEvent) -> bool {
        match event {
            ChannelEvent::Begin => true,
            ChannelEvent::Cancel => true,
            ChannelEvent::Send(idx) => {
                &&& self.senders_left
                &&& self.state.decision(idx) == SendDecision::Ready
                &&& !self.sent.contains(idx)
                &&& self.buffer.len() < 1
            },
            ChannelEvent::Finish => self.state.receiving && self.reception()
                == RecvDecision::Ready,
            ChannelEvent::Over => self.state.receiving && self.reception() == RecvDecision::Over,
            ChannelEvent::Leave => true,
            ChannelEvent::Close => true,
        }
    }

    /// The channel after `event`.
    pub open spec fn after(self, event: ChannelEvent) -> Channel {
        match event {
            ChannelEvent::Begin => Channel { state: self.state.begun(), ..self },
            ChannelEvent::Cancel => self,
            ChannelEvent::Send(idx) => Channel {
                buffer: self.buffer.push(idx),
                sent: self.sent.insert(idx),
                ..self
            },
            ChannelEvent::Finish => Channel {
                state: self.state.finished(),
                buffer: self.buffer.skip(1),
                received: self.received.push(self.buffer[0]),
                ..self
            },
            ChannelEvent::Over => Channel { over: true, ..self },
            ChannelEvent::Leave => Channel { senders_left: false, ..self },
            ChannelEvent::Close => Channel { state: self.state.ended(), ..self },
        }
    }

    /// The channel after all of `events`, from the initial one.
    pub open spec fn run(events: Seq<ChannelEvent>) -> Channel
        decreases events.len(),
    {
        if events.len() == 0 {
            Channel::initial()
        } else {
            Channel::run(events.drop_last()).after(events.last())
        }
    }

    /// Whether each of `events` can happen after those before it.
    pub open spec fn possible(events: Seq<ChannelEvent>) -> bool
        decreases events.len(),
    {
        events.len() == 0 || {
            &&& Channel::possible(events.drop_last())
            &&& Channel::run(events.drop_last()).admits(events.last())
        }
    }

    /// What holds of a channel at all times.
    pub open spec fn in_order(self) -> bool {
        let n = self.received.len();
        &&& self.received == Seq::new(n, |i: int| i as nat)
        &&& self.state.wanted == (if self.state.receiving {
            Some(n)
        } else if n == 0 {
            None
        } else {
            Some((n - 1) as nat)
        })
        &&& self.buffer.len() <= 1
        &&& self.buffer.len() == 1 ==> self.state.receiving && self.buffer[0] == n
            && self.sent.contains(n)
        &&& forall|i: nat| i < n ==> #[trigger] self.sent.contains(i)
        &&& forall|i: nat| #[trigger]
            self.sent.contains(i) ==> i < n || (i == n && self.buffer.len() == 1)
        &&& self.over ==> self.buffer.len() == 0 && (self.state.closed || !self.senders_left)
    }
}

/// What each event does to a channel keeps its values in order.
pub proof fn lemma_event_keeps_order(before: Channel, event: ChannelEvent)
    requires
        before.in_order(),
        before.admits(event),
    ensures
        before.after(event).in_order(),
{
    let after = before.after(event);
    match event {
        ChannelEvent::Finish => {
            assert(after.received =~= Seq::new(after.received.len(), |i: int| i as nat));
        },
        ChannelEvent::Send(idx) => {
            assert(before.received == after.received);
            if !before.state.receiving {
                assert(before.sent.contains(idx));
            }
        },
        _ => {},
    }
}

/// Whatever senders, receiver, cancellations and closing do, the values received are
/// those of the indices 0, 1, 2, ... without a gap, and the buffer holds a value only
/// while a receive is under way, and then just the one asked for. Once a receive got
/// nothing, nothing comes any more: the channel is closed or without senders, and its
/// buffer is empty.
pub proof fn law_values_arrive_in_order(events: Seq<ChannelEvent>)
    requires
        Channel::possible(events),
    ensures
        Channel::run(events).in_order(),
    decreases events.len(),
{
    if events.len() > 0 {
        law_values_arrive_in_order(events.drop_last());
        lemma_event_keeps_order(Channel::run(events.drop_last()), events.last());
    } else {
        assert(Channel::initial().received =~= Seq::new(0, |i: int| i as nat));
    }
}

} // verus!
