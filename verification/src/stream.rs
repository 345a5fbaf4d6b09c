//! What the workers that hash a file achieve together with the ordered channel: the
//! stream of the blocks of the file.

use crate::delta;
use crate::hash_file;
use crate::hash_file::HashAlgorithm;
use crate::sync::{Channel, ChannelEvent};
use vstd::prelude::*;

verus! {

/// What can happen while a file is hashed.
pub enum StreamEvent {
    /// The worker with this index hands over the block that it is at, and goes on to its
    /// next one.
    Send(nat),
    /// Something else happens on the channel.
    Channel(ChannelEvent),
}

/// The workers, the channel and what passed through it.
pub struct Stream {
    /// The block that each worker is at, or one past the end of the file.
    pub workers: Seq<nat>,
    pub channel: Channel,
    /// The blocks between workers and receiver, with their hashes.
    pub buffer: Seq<(Seq<char>, Seq<u8>)>,
    /// The blocks that the receiver got, with their hashes.
    pub delivered: Seq<(Seq<char>, Seq<u8>)>,
}

impl Stream {
    /// The stream before anything has happened: each worker is at the block of its own
    /// index.
    pub open spec fn initial(workers: nat) -> Stream {
        Stream {
            workers: Seq::new(workers, |w: int| hash_file::nth_block(workers, w as nat, 0)),
            channel: Channel::initial(),
            buffer: Seq::empty(),
            delivered: Seq::empty(),
        }
    }

    /// Whether all workers are past the end of a file of `count` blocks.
    pub open spec fn past_end(self, count: nat) -> bool {
        forall|w: int| 0 <= w < self.workers.len() ==> #[trigger] self.workers[w] >= count
    }

    /// Whether `event` can happen now. A worker hands over blocks of the file only; the
    /// workers are gone once all of them are past its end, or the channel is closed.
    pub open spec fn admits(self, count: nat, event: StreamEvent) -> bool {
        match event {
            StreamEvent::Send(w) => {
                &&& w < self.workers.len()
                &&& self.workers[w as int] < count
                &&& self.channel.admits(ChannelEvent::Send(self.workers[w as int]))
            },
            StreamEvent::Channel(e) => {
                &&& e !is Send
                &&& self.channel.admits(e)
                &&& e is Leave ==> self.channel.state.closed || self.past_end(count)
            },
        }
    }

    /// The stream after `event`, on a file with these blocks.
    pub open spec fn after(
        self,
        file_blocks: Seq<(Seq<char>, Seq<u8>)>,
        event: StreamEvent,
    ) -> Stream {
        match event {
            StreamEvent::Send(w) => {
                let idx = self.workers[w as int];
                Stream {
                    workers: self.workers.update(
                        w as int,
                        hash_file::block_after(self.workers.len(), idx),
                    ),
                    channel: self.channel.after(ChannelEvent::Send(idx)),
                    buffer: self.buffer.push(file_blocks[idx as int]),
                    ..self
                }
            },
            StreamEvent::Channel(ChannelEvent::Finish) => Stream {
                channel: self.channel.after(ChannelEvent::Finish),
                buffer: self.buffer.skip(1),
                delivered: self.delivered.push(self.buffer[0]),
                ..self
            },
            StreamEvent::Channel(e) => Stream { channel: self.channel.after(e), ..self },
        }
    }

    /// The stream after all of `events`.
    pub open spec fn run(
        workers: nat,
        file_blocks: Seq<(Seq<char>, Seq<u8>)>,
        events: Seq<StreamEvent>,
    ) -> Stream
        decreases events.len(),
    {
        if events.len() == 0 {
            Stream::initial(workers)
        } else {
            Stream::run(workers, file_blocks, events.drop_last()).after(file_blocks, events.last())
        }
    }

    /// Whether each of `events` can happen after those before it.
    pub open spec fn possible(
        workers: nat,
        file_blocks: Seq<(Seq<char>, Seq<u8>)>,
        events: Seq<StreamEvent>,
    ) -> bool
        decreases events.len(),
    {
        events.len() == 0 || {
            &&& Stream::possible(workers, file_blocks, events.drop_last())
            &&& Stream::run(workers, file_blocks, events.drop_last()).admits(
                file_blocks.len(),
                events.last(),
            )
        }
    }

    /// What holds of a stream at all times.
    pub open spec fn sound(self, file_blocks: Seq<(Seq<char>, Seq<u8>)>) -> bool {
        let n = self.delivered.len();
        &&& self.channel.in_order()
        &&& self.workers.len() > 0
        &&& forall|w: int|
            0 <= w < self.workers.len() ==> #[trigger] self.workers[w] % self.workers.len() == w
        &&& forall|i: nat| #[trigger]
            self.channel.sent.contains(i) <==> i < self.workers[(i % self.workers.len()) as int]
        &&& forall|i: nat| #[trigger] self.channel.sent.contains(i) ==> i < file_blocks.len()
        &&& self.buffer.len() == self.channel.buffer.len()
        &&& self.buffer.len() == 1 ==> n < file_blocks.len() && self.buffer[0]
            == file_blocks[n as int]
        &&& n == self.channel.received.len()
        &&& n <= file_blocks.len()
        &&& self.delivered == file_blocks.take(n as int)
        &&& !self.channel.senders_left ==> self.channel.state.closed || self.past_end(
            file_blocks.len(),
        )
    }
}

/// Numbers with the same remainder are equal, or as far apart as the divisor.
proof fn lemma_same_remainder(a: nat, b: nat, d: nat)
    requires
        d > 0,
        a % d == b % d,
    ensures
        (b + d) % d == b % d,
        a < b + d <==> a <= b,
{
    vstd::arithmetic::div_mod::lemma_mod_add_multiples_vanish(b as int, d as int);
    vstd::arithmetic::div_mod::lemma_fundamental_div_mod(a as int, d as int);
    vstd::arithmetic::div_mod::lemma_fundamental_div_mod(b as int, d as int);
    let p = a / d;
    let q = b / d;
    assert(a < b + d <==> a <= b) by (nonlinear_arith)
        requires
            d > 0,
            a == d * p + a % d,
            b == d * q + a % d,
    ;
}

proof fn lemma_initial_sound(workers: nat, file_blocks: Seq<(Seq<char>, Seq<u8>)>)
    requires
        workers > 0,
    ensures
        Stream::initial(workers).sound(file_blocks),
{
    let stream = Stream::initial(workers);
    crate::sync::law_values_arrive_in_order(Seq::empty());
    assert forall|w: int| 0 <= w < workers implies #[trigger] stream.workers[w] % workers == w by {
        vstd::arithmetic::div_mod::lemma_small_mod(w as nat, workers);
    }
    assert forall|i: nat| #[trigger]
        stream.channel.sent.contains(i) <==> i < stream.workers[(i % workers) as int] by {
        vstd::arithmetic::div_mod::lemma_mod_decreases(i, workers);
    }
    assert(stream.delivered =~= file_blocks.take(0));
}

proof fn lemma_event_keeps_stream(
    before: Stream,
    file_blocks: Seq<(Seq<char>, Seq<u8>)>,
    event: StreamEvent,
)
    requires
        before.sound(file_blocks),
        before.admits(file_blocks.len(), event),
    ensures
        before.after(file_blocks, event).sound(file_blocks),
{
    let after = before.after(file_blocks, event);
    let d = before.workers.len();
    match event {
        StreamEvent::Send(w) => {
            let idx = before.workers[w as int];
            crate::sync::lemma_event_keeps_order(before.channel, ChannelEvent::Send(idx));
            assert(idx % d == w);
            assert(after.workers.len() == d);
            assert forall|v: int| 0 <= v < d implies #[trigger] after.workers[v] % d == v by {
                if v == w {
                    lemma_same_remainder(idx, idx, d);
                } else {
                    assert(after.workers[v] == before.workers[v]);
                }
            }
            assert forall|i: nat| #[trigger]
                after.channel.sent.contains(i) <==> i < after.workers[(i % d) as int] by {
                assert(before.channel.sent.contains(i) <==> i < before.workers[(i % d) as int]);
                if i % d == w {
                    lemma_same_remainder(i, idx, d);
                } else {
                    assert(i != idx);
                    assert(after.workers[(i % d) as int] == before.workers[(i % d) as int]);
                }
            }
            assert(after.channel.sent.contains(idx));
        },
        StreamEvent::Channel(e) => {
            crate::sync::lemma_event_keeps_order(before.channel, e);
            if e is Finish {
                assert(after.delivered =~= file_blocks.take(after.delivered.len() as int));
            }
        },
    }
}

/// Whatever workers and receiver do, and however many workers there are, the receiver
/// gets the blocks of the file with their hashes, from the first one on and in the order
/// of the file. If it is told that nothing comes any more, then it got all of them, or
/// the channel was closed.
pub proof fn law_stream_delivers_file(
    file: Seq<u8>,
    block_size: nat,
    hash_algorithm: HashAlgorithm,
    workers: nat,
    events: Seq<StreamEvent>,
)
    requires
        block_size > 0,
        workers > 0,
        Stream::possible(
            workers,
            delta::blocks_of(file, block_size, hash_algorithm),
            events,
        ),
    ensures
        ({
            let file_blocks = delta::blocks_of(file, block_size, hash_algorithm);
            let stream = Stream::run(workers, file_blocks, events);
            &&& stream.sound(file_blocks)
            &&& stream.workers.len() == workers
            &&& stream.delivered.len() <= file_blocks.len()
            &&& stream.delivered == file_blocks.take(stream.delivered.len() as int)
            &&& stream.channel.over && !stream.channel.state.closed ==> stream.delivered
                == file_blocks
        }),
    decreases events.len(),
{
    let file_blocks = delta::blocks_of(file, block_size, hash_algorithm);
    let stream = Stream::run(workers, file_blocks, events);
    if events.len() == 0 {
        lemma_initial_sound(workers, file_blocks);
    } else {
        law_stream_delivers_file(file, block_size, hash_algorithm, workers, events.drop_last());
        lemma_event_keeps_stream(
            Stream::run(workers, file_blocks, events.drop_last()),
            file_blocks,
            events.last(),
        );
    }
    if stream.channel.over && !stream.channel.state.closed {
        let n = stream.delivered.len();
        if n < file_blocks.len() {
            let home = (n % workers) as int;
            vstd::arithmetic::div_mod::lemma_mod_bound(n as int, workers as int);
            assert(stream.workers[home] >= file_blocks.len());
            assert(stream.channel.sent.contains(n));
        }
        assert(file_blocks.take(n as int) =~= file_blocks);
    }
}

/// The stream does not get stuck before its end: while a receive is under way on an open
/// channel and a block is missing, either it is in the buffer, or the worker that it falls
/// to is at it and may hand it over.
pub proof fn law_stream_does_not_get_stuck(
    file: Seq<u8>,
    block_size: nat,
    hash_algorithm: HashAlgorithm,
    workers: nat,
    events: Seq<StreamEvent>,
)
    requires
        block_size > 0,
        workers > 0,
        Stream::possible(
            workers,
            delta::blocks_of(file, block_size, hash_algorithm),
            events,
        ),
        ({
            let file_blocks = delta::blocks_of(file, block_size, hash_algorithm);
            let stream = Stream::run(workers, file_blocks, events);
            &&& stream.channel.state.receiving
            &&& !stream.channel.state.closed
            &&& stream.delivered.len() < file_blocks.len()
        }),
    ensures
        ({
            let file_blocks = delta::blocks_of(file, block_size, hash_algorithm);
            let stream = Stream::run(workers, file_blocks, events);
            let n = stream.delivered.len();
            if stream.buffer.len() > 0 {
                stream.admits(file_blocks.len(), StreamEvent::Channel(ChannelEvent::Finish))
            } else {
                &&& stream.workers[(n % workers) as int] == n
                &&& stream.admits(file_blocks.len(), StreamEvent::Send(n % workers))
            }
        }),
{
    law_stream_delivers_file(file, block_size, hash_algorithm, workers, events);
    let file_blocks = delta::blocks_of(file, block_size, hash_algorithm);
    let stream = Stream::run(workers, file_blocks, events);
    let n = stream.delivered.len();
    if stream.buffer.len() == 0 {
        vstd::arithmetic::div_mod::lemma_mod_bound(n as int, workers as int);
        let home = (n % workers) as int;
        let idx = stream.workers[home];
        assert(!stream.channel.sent.contains(n));
        assert(idx % workers == home);
        assert(!stream.channel.sent.contains(idx));
        assert(idx == n);
        if !stream.channel.senders_left {
            assert(stream.workers[home] >= file_blocks.len());
        }
    }
}

} // verus!
