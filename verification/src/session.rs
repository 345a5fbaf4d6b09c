//! A client and a server at work at the same time: blocks of the destination are hashed
//! while others are overwritten.

use crate::blocks;
use crate::delta;
use crate::delta::{ClientEvent, Exchange};
use crate::hash_file;
use crate::hash_file::HashAlgorithm;
use vstd::prelude::*;

verus! {

/// What is synchronised: the source, the destination as it was before, and how.
pub struct Task {
    pub src: Seq<u8>,
    pub dest: Seq<u8>,
    pub block_size: nat,
    pub hash_algorithm: HashAlgorithm,
}

impl Task {
    /// Whether the two files can be synchronised.
    pub open spec fn valid(self) -> bool {
        &&& self.block_size > 0
        &&& 0 < self.src.len() <= usize::MAX
        &&& self.src.len() == self.dest.len()
    }

    /// The number of blocks of either file.
    pub open spec fn count(self) -> nat {
        blocks::count(self.block_size, self.src.len())
    }

    /// The hash of block `i` of `file`.
    pub open spec fn hash(self, file: Seq<u8>, i: nat) -> Seq<char> {
        hash_file::hash_text(blocks::block(file, self.block_size, i), self.hash_algorithm)
    }

    /// The blocks of the source with their hashes.
    pub open spec fn source(self) -> Seq<(Seq<char>, Seq<u8>)> {
        delta::blocks_of(self.src, self.block_size, self.hash_algorithm)
    }
}

/// What can happen in a session.
pub enum SessionEvent {
    /// A worker of the server reads block `i` of the destination and hashes it.
    HashBlock(nat),
    /// The server sends the next hash.
    SendHash,
    /// Something happens on the side of the client.
    Client(ClientEvent<Seq<u8>>),
    /// The server writes this many bytes of the block that it has to write next.
    WriteBytes(nat),
}

/// A client and a server at work.
pub struct Session {
    pub exchange: Exchange<Seq<u8>>,
    /// The destination as it is now.
    pub file: Seq<u8>,
    /// The hashes of the blocks that the server has read, each once.
    pub hashed: Map<nat, Seq<char>>,
    /// The hashes that the server has sent, in the order of the file.
    pub sent: Seq<Seq<char>>,
    /// How many blocks of the client the server has written.
    pub applied: nat,
    /// How many bytes of the block after these it has written.
    pub partial: nat,
}

impl Session {
    /// The session before anything has happened.
    pub open spec fn initial(task: Task) -> Session {
        Session {
            exchange: Exchange::initial(task.block_size, task.src.len()),
            file: task.dest,
            hashed: Map::empty(),
            sent: Seq::empty(),
            applied: 0,
            partial: 0,
        }
    }

    /// Whether `event` can happen now. The connection keeps the order of what is sent:
    /// the client gets the hashes of the server one after the other, and the server
    /// writes the blocks of the client one after the other.
    pub open spec fn admits(self, task: Task, event: SessionEvent) -> bool {
        match event {
            SessionEvent::HashBlock(i) => i < task.count() && !self.hashed.dom().contains(i),
            SessionEvent::SendHash => self.hashed.dom().contains(self.sent.len()),
            SessionEvent::Client(e) => {
                &&& self.exchange.admits(e)
                &&& e matches ClientEvent::HashReceived(hash) ==> {
                    &&& self.exchange.server_hashes.len() < self.sent.len()
                    &&& hash == self.sent[self.exchange.server_hashes.len() as int]
                }
                &&& e matches ClientEvent::BlockHashed(hash, data) ==> {
                    &&& self.exchange.client_blocks.len() < task.source().len()
                    &&& (hash, data) == task.source()[self.exchange.client_blocks.len() as int]
                }
            },
            SessionEvent::WriteBytes(n) => {
                &&& self.applied < self.exchange.written.len()
                &&& self.partial + n <= self.exchange.written[self.applied as int].1.len()
            },
        }
    }

    /// The session after `event`.
    pub open spec fn after(self, task: Task, event: SessionEvent) -> Session {
        match event {
            SessionEvent::HashBlock(i) => Session {
                hashed: self.hashed.insert(i, task.hash(self.file, i)),
                ..self
            },
            SessionEvent::SendHash => Session {
                sent: self.sent.push(self.hashed[self.sent.len()]),
                ..self
            },
            SessionEvent::Client(e) => Session { exchange: self.exchange.after(e), ..self },
            SessionEvent::WriteBytes(n) => {
                let (offset, data) = self.exchange.written[self.applied as int];
                let done = self.partial + n == data.len();
                Session {
                    file: blocks::patched(
                        self.file,
                        offset + self.partial,
                        data.subrange(self.partial as int, (self.partial + n) as int),
                    ),
                    applied: if done {
                        self.applied + 1
                    } else {
                        self.applied
                    },
                    partial: if done {
                        0
                    } else {
                        self.partial + n
                    },
                    ..self
                }
            },
        }
    }

    /// The session after all of `events`.
    pub open spec fn run(task: Task, events: Seq<SessionEvent>) -> Session
        decreases events.len(),
    {
        if events.len() == 0 {
            Session::initial(task)
        } else {
            Session::run(task, events.drop_last()).after(task, events.last())
        }
    }

    /// Whether each of `events` can happen after those before it.
    pub open spec fn possible(task: Task, events: Seq<SessionEvent>) -> bool
        decreases events.len(),
    {
        events.len() == 0 || {
            &&& Session::possible(task, events.drop_last())
            &&& Session::run(task, events.drop_last()).admits(task, events.last())
        }
    }

    /// The destination that comes of the blocks written so far.
    pub open spec fn written_file(self, dest: Seq<u8>) -> Seq<u8> {
        let whole = delta::applied(dest, self.exchange.written.take(self.applied as int));
        if self.applied < self.exchange.written.len() {
            let (offset, data) = self.exchange.written[self.applied as int];
            blocks::patched(whole, offset, data.take(self.partial as int))
        } else {
            whole
        }
    }

    /// Whether the client has compared and sent all it had to, and the server has written
    /// all of it.
    pub open spec fn finished(self) -> bool {
        &&& self.exchange.finished
        &&& self.applied == self.exchange.written.len()
    }

    /// What holds of a session at all times.
    pub open spec fn sound(self, task: Task) -> bool {
        let known = self.exchange.server_hashes.len();
        &&& self.exchange.sound()
        &&& self.exchange.view.block_size == task.block_size
        &&& self.exchange.view.file_size == task.src.len()
        &&& forall|i: nat| #[trigger]
            self.hashed.dom().contains(i) ==> i < task.count() && self.hashed[i] == task.hash(
                task.dest,
                i,
            )
        &&& forall|i: nat| i < self.sent.len() ==> #[trigger] self.hashed.dom().contains(i)
        &&& forall|i: int|
            0 <= i < self.sent.len() ==> #[trigger] self.sent[i] == task.hash(task.dest, i as nat)
        &&& known <= self.sent.len() <= task.count()
        &&& self.exchange.server_hashes == self.sent.take(known as int)
        &&& self.exchange.client_blocks.len() <= task.source().len()
        &&& self.exchange.client_blocks == task.source().take(
            self.exchange.client_blocks.len() as int,
        )
        &&& self.applied <= self.exchange.written.len()
        &&& self.applied == self.exchange.written.len() ==> self.partial == 0
        &&& self.applied < self.exchange.written.len() ==> self.partial
            <= self.exchange.written[self.applied as int].1.len()
        &&& self.file.len() == task.dest.len()
        &&& self.file == self.written_file(task.dest)
        &&& forall|j: int|
            blocks::start(task.block_size, known) <= j < task.dest.len() ==> #[trigger] self.file[j]
                == task.dest[j]
    }
}

proof fn lemma_start_monotone(block_size: nat, i: nat, j: nat)
    requires
        i <= j,
    ensures
        blocks::start(block_size, i) <= blocks::start(block_size, j),
{
    assert(i * block_size <= j * block_size) by (nonlinear_arith)
        requires
            i <= j,
    ;
}

/// What the client sends lies within the blocks for which it has the hash of the server.
proof fn lemma_written_within(session: Session, task: Task, k: int)
    requires
        task.valid(),
        session.sound(task),
        0 <= k < session.exchange.written.len(),
    ensures
        session.exchange.written[k].0 + session.exchange.written[k].1.len() <= blocks::start(
            task.block_size,
            session.exchange.server_hashes.len(),
        ),
{
    let exchange = session.exchange;
    let n = exchange.view.compared;
    let all = delta::diverging(
        task.block_size,
        exchange.server_hashes,
        exchange.client_blocks,
        n,
    );
    assert(all[k] == exchange.written[k]);
    assert(exchange.server_hashes.take(exchange.server_hashes.len() as int)
        =~= exchange.server_hashes);
    delta::lemma_diverging_grows(
        task.block_size,
        exchange.server_hashes,
        exchange.client_blocks,
        exchange.server_hashes,
        task.source(),
        n,
    );
    delta::lemma_diverging_within_file(
        task.src,
        exchange.server_hashes,
        task.block_size,
        task.hash_algorithm,
        n,
    );
    delta::lemma_diverging_starts(
        task.block_size,
        exchange.server_hashes,
        exchange.client_blocks,
        n,
        k,
    );
    let i = choose|i: nat| i < n && all[k].0 == #[trigger] blocks::start(task.block_size, i);
    blocks::lemma_start_next(task.block_size, i);
    lemma_start_monotone(task.block_size, i + 1, exchange.server_hashes.len());
}

/// A block of which nothing has been overwritten has the hash that it had before.
proof fn lemma_untouched_block(session: Session, task: Task, i: nat)
    requires
        task.valid(),
        session.sound(task),
        session.exchange.server_hashes.len() <= i < task.count(),
    ensures
        task.hash(session.file, i) == task.hash(task.dest, i),
{
    blocks::lemma_start_in_file(task.block_size, task.src.len(), i);
    lemma_start_monotone(task.block_size, session.exchange.server_hashes.len(), i);
    assert(blocks::block(session.file, task.block_size, i) =~= blocks::block(
        task.dest,
        task.block_size,
        i,
    ));
}

proof fn lemma_client_event_keeps_session(
    before: Session,
    task: Task,
    event: ClientEvent<Seq<u8>>,
)
    requires
        task.valid(),
        before.sound(task),
        before.admits(task, SessionEvent::Client(event)),
    ensures
        before.after(task, SessionEvent::Client(event)).sound(task),
{
    let after = before.after(task, SessionEvent::Client(event));
    delta::lemma_event_keeps_sound(before.exchange, event);
    let old_written = before.exchange.written;
    let new_written = after.exchange.written;
    assert(new_written.take(old_written.len() as int) =~= old_written);
    assert(new_written.take(before.applied as int) =~= old_written.take(before.applied as int));
    if before.applied < old_written.len() {
        assert(new_written[before.applied as int] == old_written[before.applied as int]);
        assert(after.written_file(task.dest) == before.written_file(task.dest));
    } else {
        assert(before.partial == 0);
        if before.applied < new_written.len() {
            let (offset, data) = new_written[before.applied as int];
            assert(blocks::patched(before.file, offset, data.take(0)) =~= before.file);
        }
        assert(after.written_file(task.dest) == before.written_file(task.dest));
    }
    let old_known = before.exchange.server_hashes.len();
    let new_known = after.exchange.server_hashes.len();
    lemma_start_monotone(task.block_size, old_known, new_known);
    assert(after.exchange.server_hashes =~= after.sent.take(new_known as int));
    assert(after.exchange.client_blocks =~= task.source().take(
        after.exchange.client_blocks.len() as int,
    ));
}

proof fn lemma_applied_len(file: Seq<u8>, writes: Seq<(nat, Seq<u8>)>)
    ensures
        delta::applied(file, writes).len() == file.len(),
    decreases writes.len(),
{
    if writes.len() > 0 {
        lemma_applied_len(file, writes.drop_last());
    }
}

proof fn lemma_write_keeps_session(before: Session, task: Task, n: nat)
    requires
        task.valid(),
        before.sound(task),
        before.admits(task, SessionEvent::WriteBytes(n)),
    ensures
        before.after(task, SessionEvent::WriteBytes(n)).sound(task),
{
    let after = before.after(task, SessionEvent::WriteBytes(n));
    let written = before.exchange.written;
    let (offset, data) = written[before.applied as int];
    let whole = delta::applied(task.dest, written.take(before.applied as int));
    lemma_applied_len(task.dest, written.take(before.applied as int));
    lemma_written_within(before, task, before.applied as int);
    let so_far = data.take((before.partial + n) as int);
    assert(after.file =~= blocks::patched(whole, offset, so_far));
    if before.partial + n == data.len() {
        assert(so_far =~= data);
        let more = written.take(after.applied as int);
        assert(more.drop_last() =~= written.take(before.applied as int));
        assert(delta::applied(task.dest, more) == after.file);
        if after.applied < written.len() {
            let (next_offset, next_data) = written[after.applied as int];
            assert(blocks::patched(after.file, next_offset, next_data.take(0)) =~= after.file);
        }
    }
    assert(after.file == after.written_file(task.dest));
}

proof fn lemma_event_keeps_session(before: Session, task: Task, event: SessionEvent)
    requires
        task.valid(),
        before.sound(task),
        before.admits(task, event),
    ensures
        before.after(task, event).sound(task),
{
    let after = before.after(task, event);
    match event {
        SessionEvent::HashBlock(i) => {
            if i < before.sent.len() {
                assert(before.hashed.dom().contains(i));
            }
            lemma_untouched_block(before, task, i);
            assert(after.exchange == before.exchange);
            assert(after.written_file(task.dest) == before.written_file(task.dest));
        },
        SessionEvent::SendHash => {
            let known = before.exchange.server_hashes.len();
            assert(after.sent.take(known as int) =~= before.sent.take(known as int));
            assert(after.written_file(task.dest) == before.written_file(task.dest));
        },
        SessionEvent::Client(e) => lemma_client_event_keeps_session(before, task, e),
        SessionEvent::WriteBytes(n) => lemma_write_keeps_session(before, task, n),
    }
}

/// Although the destination changes while it is hashed, every hash that the server sends
/// and that the client compares is the one of the destination as it was before: whatever
/// the order of events, no block is overwritten before it has been hashed.
pub proof fn law_hashes_are_of_the_old_destination(task: Task, events: Seq<SessionEvent>)
    requires
        task.valid(),
        Session::possible(task, events),
    ensures
        ({
            let session = Session::run(task, events);
            let hashes = session.exchange.server_hashes;
            &&& session.sound(task)
            &&& session.sent.len() <= task.count()
            &&& forall|i: int|
                0 <= i < session.sent.len() ==> #[trigger] session.sent[i]
                    == hash_file::hash_text(
                    blocks::block(task.dest, task.block_size, i as nat),
                    task.hash_algorithm,
                )
            &&& hashes.len() <= session.sent.len()
            &&& forall|i: int|
                0 <= i < hashes.len() ==> #[trigger] hashes[i] == hash_file::hash_text(
                    blocks::block(task.dest, task.block_size, i as nat),
                    task.hash_algorithm,
                )
        }),
    decreases events.len(),
{
    if events.len() == 0 {
        let session = Session::initial(task);
        delta::law_client_writes_diverging_blocks::<Seq<u8>>(
            task.block_size,
            task.src.len(),
            Seq::empty(),
        );
        assert(session.exchange.server_hashes =~= session.sent.take(0));
        assert(session.exchange.client_blocks =~= task.source().take(0));
        assert(session.exchange.written.take(0) =~= Seq::<(nat, Seq<u8>)>::empty());
    } else {
        law_hashes_are_of_the_old_destination(task, events.drop_last());
        lemma_event_keeps_session(
            Session::run(task, events.drop_last()),
            task,
            events.last(),
        );
    }
}

/// Client and server never wait for each other in vain: as long as the session is not at
/// its end and the source does not end early, there is something that one of them can do,
/// and that brings the session further.
pub proof fn law_session_does_not_get_stuck(task: Task, events: Seq<SessionEvent>)
    requires
        task.valid(),
        Session::possible(task, events),
        !Session::run(task, events).finished(),
        !Session::run(task, events).exchange.view.blocks_over,
    ensures
        exists|event: SessionEvent| #[trigger]
            Session::run(task, events).admits(task, event) && Session::run(task, events).after(
                task,
                event,
            ) != Session::run(task, events),
{
    law_hashes_are_of_the_old_destination(task, events);
    let session = Session::run(task, events);
    let exchange = session.exchange;
    let event = if session.applied < exchange.written.len() {
        let data = exchange.written[session.applied as int].1;
        SessionEvent::WriteBytes((data.len() - session.partial) as nat)
    } else if exchange.view.writing {
        SessionEvent::Client(ClientEvent::BlockWritten)
    } else if exchange.view.server_hash is Some {
        let (hash, data) = task.source()[exchange.client_blocks.len() as int];
        SessionEvent::Client(ClientEvent::BlockHashed(hash, data))
    } else if exchange.server_hashes.len() < session.sent.len() {
        let hash = session.sent[exchange.server_hashes.len() as int];
        SessionEvent::Client(ClientEvent::HashReceived(hash))
    } else if session.hashed.dom().contains(session.sent.len()) {
        SessionEvent::SendHash
    } else {
        SessionEvent::HashBlock(session.sent.len())
    };
    let after = session.after(task, event);
    assert(session.admits(task, event));
    match event {
        SessionEvent::HashBlock(i) => assert(after.hashed.dom().contains(i)),
        SessionEvent::SendHash => assert(after.sent.len() == session.sent.len() + 1),
        SessionEvent::WriteBytes(_) => assert(after.applied == session.applied + 1),
        SessionEvent::Client(e) => match e {
            ClientEvent::HashReceived(_) => {
                assert(after.exchange.server_hashes.len() == exchange.server_hashes.len() + 1);
            },
            ClientEvent::BlockHashed(_, _) => {
                assert(after.exchange.client_blocks.len() == exchange.client_blocks.len() + 1);
            },
            _ => {
                assert(after.exchange.finished || !after.exchange.view.writing
                    || after.exchange.view.queue.len() + 1 == exchange.view.queue.len());
            },
        },
    }
}

/// A session that comes to its end has made the destination equal to the source, whatever
/// the order of events on the two sides, as long as no two blocks that differ have the
/// same hash.
pub proof fn law_session_synchronises(task: Task, events: Seq<SessionEvent>)
    requires
        task.valid(),
        delta::no_collision(task.dest, task.src, task.block_size, task.hash_algorithm),
        Session::possible(task, events),
        Session::run(task, events).finished(),
    ensures
        Session::run(task, events).file == task.src,
{
    law_hashes_are_of_the_old_destination(task, events);
    let session = Session::run(task, events);
    let exchange = session.exchange;
    let n = task.count();
    assert(exchange.server_hashes =~= delta::hashes_of(
        task.dest,
        task.block_size,
        task.hash_algorithm,
    ));
    assert(exchange.client_blocks =~= task.source());
    assert(exchange.written + exchange.waiting() =~= exchange.written);
    assert(exchange.written.take(session.applied as int) =~= exchange.written);
    delta::law_diverging_blocks_suffice(
        task.src,
        task.dest,
        task.block_size,
        task.hash_algorithm,
    );
}

} // verus!
