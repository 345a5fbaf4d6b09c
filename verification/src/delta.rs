//! What a client and a server achieve together: laws that relate the two sides.

use crate::blocks;
use crate::client;
use crate::client::{ClientStep, ClientView};
use crate::common;
use crate::common::{StatusCode, MAX_HASH_SIZE, MAX_PATH_SIZE, PROTOCOL_VERSION};
use crate::endian;
use crate::hash_file;
use crate::hash_file::HashAlgorithm;
use crate::server;
use crate::server::{HandshakeOutcome, HandshakePhase, RequestView};
use vstd::prelude::*;

verus! {

/// A client with the secret of the server gets its request through the handshake: each
/// of its messages, cut into the fields that the server reads, is accepted, and the
/// server opens the very request that the client made.
pub proof fn law_handshake_passes_request(
    secret: Seq<char>,
    dest: Seq<char>,
    block_size: usize,
    src_size: u64,
    force_truncate: bool,
    hash_algorithm: HashAlgorithm,
)
    requires
        vstd::utf8::encode_utf8(secret).len() <= 255,
        vstd::utf8::encode_utf8(dest).len() <= MAX_PATH_SIZE,
    ensures
        ({
            let secret_phase = HandshakePhase::Secret(vstd::utf8::encode_utf8(secret).len());
            let path_phase = HandshakePhase::Path(vstd::utf8::encode_utf8(dest).len());
            let secret_message = client::secret_message(secret);
            let path_message = common::string_frame(dest);
            let request = client::request_message(
                block_size,
                src_size,
                force_truncate,
                hash_algorithm,
            );
            &&& server::handshake_step(secret, HandshakePhase::SecretLen, secret_message.take(1))
                == (secret_phase, HandshakeOutcome::Continue)
            &&& secret_message.skip(1).len() == server::field_size(secret_phase)
            &&& server::handshake_step(secret, secret_phase, secret_message.skip(1)) == (
                HandshakePhase::Version,
                HandshakeOutcome::Acknowledge,
            )
            &&& client::version_message().len() == server::field_size(HandshakePhase::Version)
            &&& server::handshake_step(secret, HandshakePhase::Version, client::version_message())
                == (HandshakePhase::PathSize, HandshakeOutcome::Acknowledge)
            &&& path_message.len() >= server::field_size(HandshakePhase::PathSize)
            &&& server::handshake_step(secret, HandshakePhase::PathSize, path_message.take(8)) == (
                path_phase,
                HandshakeOutcome::Continue,
            )
            &&& path_message.skip(8).len() == server::field_size(path_phase)
            &&& server::handshake_step(secret, path_phase, path_message.skip(8)) == (
                HandshakePhase::Request(dest),
                HandshakeOutcome::Continue,
            )
            &&& request.len() == server::field_size(HandshakePhase::Request(dest))
            &&& server::handshake_step(secret, HandshakePhase::Request(dest), request) == (
                HandshakePhase::Over,
                HandshakeOutcome::Open(
                    RequestView {
                        dest_path: dest,
                        block_size,
                        file_size: src_size,
                        force_truncate,
                        hash_algorithm,
                    },
                ),
            )
        }),
{
    let secret_bytes = vstd::utf8::encode_utf8(secret);
    let dest_bytes = vstd::utf8::encode_utf8(dest);
    let secret_message = client::secret_message(secret);
    assert(secret_message.take(1)[0] == secret_bytes.len() as u8);
    assert(secret_message.skip(1) =~= secret_bytes);
    endian::law_word_round_trip(dest_bytes.len() as u64);
    assert(common::string_frame(dest).take(8) =~= endian::word(dest_bytes.len() as u64));
    assert(common::string_frame(dest).skip(8) =~= dest_bytes);
    vstd::utf8::encode_utf8_valid_utf8(dest);
    vstd::utf8::encode_utf8_decode_utf8(dest);
    let request = client::request_message(block_size, src_size, force_truncate, hash_algorithm);
    endian::law_word_round_trip(block_size as u64);
    endian::law_word_round_trip(src_size);
    assert(request.take(8) =~= endian::word(block_size as u64));
    assert(request.subrange(8, 16) =~= endian::word(src_size));
    hash_file::law_algorithm_round_trip(hash_algorithm, 0);
}

/// A client without the secret of the server is refused as such, at the length of its
/// secret or at the secret itself.
pub proof fn law_wrong_secret_is_refused(ours: Seq<char>, theirs: Seq<char>)
    requires
        vstd::utf8::encode_utf8(theirs).len() <= 255,
        ours != theirs,
    ensures
        ({
            let message = client::secret_message(theirs);
            let (phase, outcome) = server::handshake_step(
                ours,
                HandshakePhase::SecretLen,
                message.take(1),
            );
            let refused = HandshakeOutcome::Reject(StatusCode::InvalidSecret);
            ||| outcome == refused
            ||| {
                &&& outcome == HandshakeOutcome::Continue
                &&& message.skip(1).len() == server::field_size(phase)
                &&& server::handshake_step(ours, phase, message.skip(1)).1 == refused
            }
        }),
{
    let message = client::secret_message(theirs);
    let bytes = vstd::utf8::encode_utf8(theirs);
    assert(message.take(1)[0] == bytes.len() as u8);
    assert(message.skip(1) =~= bytes);
    vstd::utf8::encode_utf8_decode_utf8(ours);
    vstd::utf8::encode_utf8_decode_utf8(theirs);
}

/// A client is refused for its protocol exactly when it speaks another version.
pub proof fn law_other_version_is_refused(secret: Seq<char>, version: u8)
    ensures
        server::handshake_step(secret, HandshakePhase::Version, seq![version]).1 == (if version
            == PROTOCOL_VERSION {
            HandshakeOutcome::Acknowledge
        } else {
            HandshakeOutcome::Reject(StatusCode::UnsupportedProtocolVersion)
        }),
{
}

/// The hash of a block is short enough for every reader, and its text is one byte for
/// each digit.
pub proof fn law_hash_fits_reader(bytes: Seq<u8>)
    requires
        2 * bytes.len() <= MAX_HASH_SIZE,
    ensures
        vstd::utf8::encode_utf8(hash_file::hex_text(bytes)).len() == 2 * bytes.len(),
        vstd::utf8::encode_utf8(hash_file::hex_text(bytes)).len() <= MAX_HASH_SIZE,
{
    let hash = hash_file::hex_text(bytes);
    assert forall|i: int| 0 <= i < hash.len() implies 0 <= #[trigger] hash[i] as nat <= 127 by {
        assert(bytes[i / 2] / 16 < 16 && bytes[i / 2] % 16 < 16);
    }
    assert(vstd::utf8::is_ascii_chars(hash));
    vstd::utf8::is_ascii_chars_encode_utf8(hash);
}

/// The blocks among the first `n` for which the server has another hash than the client:
/// where they belong, and their bytes.
pub open spec fn diverging<T>(
    block_size: nat,
    server_hashes: Seq<Seq<char>>,
    client_blocks: Seq<(Seq<char>, T)>,
    n: nat,
) -> Seq<(nat, T)>
    decreases n,
{
    if n == 0 {
        Seq::empty()
    } else {
        let i = (n - 1) as nat;
        let before = diverging(block_size, server_hashes, client_blocks, i);
        if server_hashes[i as int] != client_blocks[i as int].0 {
            before.push((blocks::start(block_size, i), client_blocks[i as int].1))
        } else {
            before
        }
    }
}

/// What can happen during the exchange of a client.
pub enum ClientEvent<T> {
    /// The hash of the server for the next block has come.
    HashReceived(Seq<char>),
    /// The next block of the source has been hashed.
    BlockHashed(Seq<char>, T),
    /// The source has ended although its next block is wanted.
    BlocksEnded,
    /// The block that was being written is written.
    BlockWritten,
}

/// An exchange of a client with all that came and went.
pub struct Exchange<T> {
    pub view: ClientView<T>,
    pub server_hashes: Seq<Seq<char>>,
    pub client_blocks: Seq<(Seq<char>, T)>,
    /// The blocks whose writing has begun: where they belong, and their bytes.
    pub written: Seq<(nat, T)>,
    pub finished: bool,
}

impl<T> Exchange<T> {
    /// The exchange before anything has happened.
    pub open spec fn initial(block_size: nat, file_size: nat) -> Exchange<T> {
        Exchange {
            view: ClientView::initial(block_size, file_size),
            server_hashes: Seq::empty(),
            client_blocks: Seq::empty(),
            written: Seq::empty(),
            finished: false,
        }
    }

    /// Whether `event` can happen now: the client asked for it and is not finished.
    pub open spec fn admits(self, event: ClientEvent<T>) -> bool {
        !self.finished && match event {
            ClientEvent::HashReceived(_) => self.view.server_hash is None,
            ClientEvent::BlockHashed(_, _) | ClientEvent::BlocksEnded => {
                &&& self.view.server_hash is Some
                &&& !self.view.over()
                &&& !self.view.blocks_over
            },
            ClientEvent::BlockWritten => self.view.writing,
        }
    }

    /// The exchange with what the client answered to an event.
    pub open spec fn stepped(self, next: (ClientView<T>, ClientStep<T>)) -> Exchange<T> {
        Exchange {
            view: next.0,
            written: match next.1 {
                ClientStep::Write(offset, data) => self.written.push((offset as nat, data)),
                _ => self.written,
            },
            finished: next.1 is Finish,
            ..self
        }
    }

    /// The exchange after `event`.
    pub open spec fn after(self, event: ClientEvent<T>) -> Exchange<T> {
        match event {
            ClientEvent::HashReceived(hash) => Exchange {
                view: self.view.hash_received(hash),
                server_hashes: self.server_hashes.push(hash),
                ..self
            },
            ClientEvent::BlockHashed(hash, data) => Exchange {
                client_blocks: self.client_blocks.push((hash, data)),
                ..self
            }.stepped(self.view.block_hashed(hash, data)),
            ClientEvent::BlocksEnded => Exchange { view: self.view.blocks_ended(), ..self },
            ClientEvent::BlockWritten => self.stepped(self.view.block_written()),
        }
    }

    /// The exchange after all of `events`.
    pub open spec fn run(
        block_size: nat,
        file_size: nat,
        events: Seq<ClientEvent<T>>,
    ) -> Exchange<T>
        decreases events.len(),
    {
        if events.len() == 0 {
            Exchange::initial(block_size, file_size)
        } else {
            Exchange::run(block_size, file_size, events.drop_last()).after(events.last())
        }
    }

    /// Whether each of `events` can happen after those before it.
    pub open spec fn possible(
        block_size: nat,
        file_size: nat,
        events: Seq<ClientEvent<T>>,
    ) -> bool
        decreases events.len(),
    {
        events.len() == 0 || {
            &&& Exchange::possible(block_size, file_size, events.drop_last())
            &&& Exchange::run(block_size, file_size, events.drop_last()).admits(events.last())
        }
    }

    /// The blocks that wait to be written: where they belong, and their bytes.
    pub open spec fn waiting(self) -> Seq<(nat, T)> {
        Seq::new(
            self.view.queue.len(),
            |i: int|
                (
                    blocks::start(self.view.block_size, self.view.queue[i].0 as nat),
                    self.view.queue[i].1,
                ),
        )
    }

    /// What holds of an exchange at all times.
    pub open spec fn sound(self) -> bool {
        &&& self.view.valid()
        &&& self.client_blocks.len() == self.view.compared
        &&& self.server_hashes.len() == self.view.compared + (if self.view.server_hash is Some {
            1nat
        } else {
            0nat
        })
        &&& self.view.server_hash matches Some(hash) ==> hash == self.server_hashes.last()
        &&& self.written + self.waiting() == diverging(
            self.view.block_size,
            self.server_hashes,
            self.client_blocks,
            self.view.compared,
        )
        &&& self.finished <==> self.view.over() && !self.view.writing
    }
}

/// What has been compared stays so when more comes.
pub proof fn lemma_diverging_grows<T>(
    block_size: nat,
    server_hashes: Seq<Seq<char>>,
    client_blocks: Seq<(Seq<char>, T)>,
    more_hashes: Seq<Seq<char>>,
    more_blocks: Seq<(Seq<char>, T)>,
    n: nat,
)
    requires
        n <= server_hashes.len() <= more_hashes.len(),
        n <= client_blocks.len() <= more_blocks.len(),
        server_hashes == more_hashes.take(server_hashes.len() as int),
        client_blocks == more_blocks.take(client_blocks.len() as int),
    ensures
        diverging(block_size, more_hashes, more_blocks, n) == diverging(
            block_size,
            server_hashes,
            client_blocks,
            n,
        ),
    decreases n,
{
    if n > 0 {
        lemma_diverging_grows(
            block_size,
            server_hashes,
            client_blocks,
            more_hashes,
            more_blocks,
            (n - 1) as nat,
        );
        assert(server_hashes[n - 1] == more_hashes[n - 1]);
        assert(client_blocks[n - 1] == more_blocks[n - 1]);
    }
}

/// Whatever the order of events, a client writes the diverging blocks and no others, in
/// the order of the file: those of which the writing has begun, together with those
/// that wait, are the ones that diverge among the blocks compared so far. It finishes
/// exactly when all blocks are compared and all diverging ones are written.
pub proof fn law_client_writes_diverging_blocks<T>(
    block_size: nat,
    file_size: nat,
    events: Seq<ClientEvent<T>>,
)
    requires
        block_size > 0,
        0 < file_size <= usize::MAX,
        Exchange::possible(block_size, file_size, events),
    ensures
        Exchange::run(block_size, file_size, events).sound(),
        Exchange::run(block_size, file_size, events).view.block_size == block_size,
        Exchange::run(block_size, file_size, events).view.file_size == file_size,
        ({
            let exchange = Exchange::run(block_size, file_size, events);
            exchange.finished ==> exchange.written == diverging(
                block_size,
                exchange.server_hashes,
                exchange.client_blocks,
                blocks::count(block_size, file_size),
            )
        }),
    decreases events.len(),
{
    if events.len() == 0 {
        blocks::lemma_start_in_file(block_size, file_size, 0);
        assert(blocks::start(block_size, 0) == 0) by (nonlinear_arith);
        let exchange = Exchange::<T>::initial(block_size, file_size);
        assert(exchange.written + exchange.waiting() =~= Seq::<(nat, T)>::empty());
    } else {
        law_client_writes_diverging_blocks(block_size, file_size, events.drop_last());
        let before = Exchange::run(block_size, file_size, events.drop_last());
        let after = Exchange::run(block_size, file_size, events);
        lemma_event_keeps_sound(before, events.last());
        if after.finished {
            assert(after.written + after.waiting() =~= after.written);
        }
    }
}

pub proof fn lemma_event_keeps_sound<T>(before: Exchange<T>, event: ClientEvent<T>)
    requires
        before.sound(),
        before.admits(event),
    ensures
        before.after(event).sound(),
        before.after(event).view.block_size == before.view.block_size,
        before.after(event).view.file_size == before.view.file_size,
{
    let after = before.after(event);
    let bs = before.view.block_size;
    match event {
        ClientEvent::HashReceived(hash) => {
            assert(before.server_hashes =~= after.server_hashes.take(
                before.server_hashes.len() as int,
            ));
            assert(before.client_blocks =~= after.client_blocks.take(
                before.client_blocks.len() as int,
            ));
            lemma_diverging_grows(
                bs,
                before.server_hashes,
                before.client_blocks,
                after.server_hashes,
                after.client_blocks,
                before.view.compared,
            );
            assert(after.waiting() =~= before.waiting());
        },
        ClientEvent::BlockHashed(hash, data) => {
            let n = before.view.compared;
            assert(before.server_hashes =~= after.server_hashes.take(
                before.server_hashes.len() as int,
            ));
            assert(before.client_blocks =~= after.client_blocks.take(
                before.client_blocks.len() as int,
            ));
            lemma_diverging_grows(
                bs,
                before.server_hashes,
                before.client_blocks,
                after.server_hashes,
                after.client_blocks,
                n,
            );
            assert(after.client_blocks[n as int] == (hash, data));
            assert(before.server_hashes[n as int] == before.view.server_hash->0);
            blocks::lemma_start_in_file(bs, before.view.file_size, n);
            assert(n <= n * bs) by (nonlinear_arith)
                requires
                    bs >= 1,
            ;
            if before.view.server_hash != Some(hash) {
                let queued = before.view.queue.push((n as usize, data));
                if before.view.writing {
                    assert(after.view.queue == queued);
                } else {
                    assert(queued[0] == (n as usize, data));
                    assert(after.view.queue == queued.skip(1));
                }
                assert(after.written + after.waiting() =~= (before.written
                    + before.waiting()).push((blocks::start(bs, n), data)));
            } else {
                assert(after.waiting() =~= before.waiting());
            }
        },
        ClientEvent::BlocksEnded => {
            assert(after.waiting() =~= before.waiting());
        },
        ClientEvent::BlockWritten => {
            if after.finished {
                assert(after.waiting() =~= before.waiting());
            } else {
                if before.view.queue.len() > 0 {
                    blocks::lemma_start_in_file(
                        bs,
                        before.view.file_size,
                        before.view.queue[0].0 as nat,
                    );
                }
                assert(after.written + after.waiting() =~= before.written + before.waiting());
            }
        },
    }
}

pub proof fn lemma_diverging_starts<T>(
    block_size: nat,
    server_hashes: Seq<Seq<char>>,
    client_blocks: Seq<(Seq<char>, T)>,
    n: nat,
    k: int,
)
    requires
        0 <= k < diverging(block_size, server_hashes, client_blocks, n).len(),
    ensures
        exists|i: nat|
            i < n && diverging(block_size, server_hashes, client_blocks, n)[k].0
                == #[trigger] blocks::start(block_size, i),
    decreases n,
{
    if n > 0 {
        let i = (n - 1) as nat;
        let before = diverging(block_size, server_hashes, client_blocks, i);
        if k < before.len() {
            lemma_diverging_starts(block_size, server_hashes, client_blocks, i, k);
        }
    }
}

/// A client sends no block before it has the hash of the server for it, so a server
/// never overwrites a block that it has yet to hash.
pub proof fn law_block_follows_its_hash<T>(
    block_size: nat,
    file_size: nat,
    events: Seq<ClientEvent<T>>,
    k: int,
)
    requires
        block_size > 0,
        0 < file_size <= usize::MAX,
        Exchange::possible(block_size, file_size, events),
        0 <= k < Exchange::run(block_size, file_size, events).written.len(),
    ensures
        exists|i: nat|
            i < Exchange::run(block_size, file_size, events).server_hashes.len()
                && Exchange::run(block_size, file_size, events).written[k].0
                == #[trigger] blocks::start(block_size, i),
{
    law_client_writes_diverging_blocks(block_size, file_size, events);
    let exchange = Exchange::run(block_size, file_size, events);
    let n = exchange.view.compared;
    let all = diverging(block_size, exchange.server_hashes, exchange.client_blocks, n);
    assert(all[k] == exchange.written[k]);
    lemma_diverging_starts(block_size, exchange.server_hashes, exchange.client_blocks, n, k);
}

/// The hashes of all blocks of `file`, in order.
pub open spec fn hashes_of(
    file: Seq<u8>,
    block_size: nat,
    hash_algorithm: HashAlgorithm,
) -> Seq<Seq<char>> {
    Seq::new(
        blocks::count(block_size, file.len()),
        |i: int| hash_file::hash_text(blocks::block(file, block_size, i as nat), hash_algorithm),
    )
}

/// All blocks of `file` with their hashes, in order.
pub open spec fn blocks_of(
    file: Seq<u8>,
    block_size: nat,
    hash_algorithm: HashAlgorithm,
) -> Seq<(Seq<char>, Seq<u8>)> {
    Seq::new(
        blocks::count(block_size, file.len()),
        |i: int|
            (
                hash_file::hash_text(blocks::block(file, block_size, i as nat), hash_algorithm),
                blocks::block(file, block_size, i as nat),
            ),
    )
}

/// Whether the hash tells every block of `left` from the one of `right` in its place.
pub open spec fn no_collision(
    left: Seq<u8>,
    right: Seq<u8>,
    block_size: nat,
    hash_algorithm: HashAlgorithm,
) -> bool {
    forall|i: nat|
        i < blocks::count(block_size, left.len()) && hash_file::hash_text(
            #[trigger] blocks::block(left, block_size, i),
            hash_algorithm,
        ) == hash_file::hash_text(blocks::block(right, block_size, i), hash_algorithm)
            ==> blocks::block(left, block_size, i) == blocks::block(right, block_size, i)
}

/// `file` after each of `writes` was written at its offset, one after the other.
pub open spec fn applied(file: Seq<u8>, writes: Seq<(nat, Seq<u8>)>) -> Seq<u8>
    decreases writes.len(),
{
    if writes.len() == 0 {
        file
    } else {
        blocks::patched(
            applied(file, writes.drop_last()),
            writes.last().0,
            writes.last().1,
        )
    }
}

/// Once the first `n` blocks are compared and those that diverge are written, the
/// destination is like the source that far, and as it was from there on.
proof fn lemma_applied_so_far(
    src: Seq<u8>,
    dest: Seq<u8>,
    block_size: nat,
    hash_algorithm: HashAlgorithm,
    n: nat,
)
    requires
        block_size > 0,
        src.len() == dest.len(),
        no_collision(dest, src, block_size, hash_algorithm),
        n <= blocks::count(block_size, src.len()),
    ensures
        ({
            let file = applied(
                dest,
                diverging(
                    block_size,
                    hashes_of(dest, block_size, hash_algorithm),
                    blocks_of(src, block_size, hash_algorithm),
                    n,
                ),
            );
            &&& file.len() == src.len()
            &&& forall|j: int|
                0 <= j < src.len() ==> #[trigger] file[j] == (if j < blocks::start(block_size, n) {
                    src[j]
                } else {
                    dest[j]
                })
        }),
    decreases n,
{
    let hashes = hashes_of(dest, block_size, hash_algorithm);
    let source = blocks_of(src, block_size, hash_algorithm);
    if n == 0 {
        assert(blocks::start(block_size, 0) == 0) by (nonlinear_arith);
    } else {
        let i = (n - 1) as nat;
        lemma_applied_so_far(src, dest, block_size, hash_algorithm, i);
        blocks::lemma_start_in_file(block_size, src.len(), i);
        blocks::lemma_start_next(block_size, i);
        let before = diverging(block_size, hashes, source, i);
        let after = diverging(block_size, hashes, source, n);
        let from = blocks::start(block_size, i);
        let ours = blocks::block(src, block_size, i);
        let theirs = blocks::block(dest, block_size, i);
        assert(hashes[i as int] == hash_file::hash_text(theirs, hash_algorithm));
        assert(source[i as int] == (hash_file::hash_text(ours, hash_algorithm), ours));
        if hashes[i as int] != source[i as int].0 {
            assert(after.drop_last() =~= before);
            assert(after.last() == (from, ours));
        } else {
            assert(theirs == ours);
            assert forall|j: int| from <= j < from + ours.len() implies dest[j] == src[j] by {
                assert(dest[j] == theirs[j - from]);
                assert(src[j] == ours[j - from]);
            }
        }
    }
}

/// Writing the blocks whose hashes differ makes the destination equal to the source, as
/// long as the hash tells the blocks apart that differ.
pub proof fn law_diverging_blocks_suffice(
    src: Seq<u8>,
    dest: Seq<u8>,
    block_size: nat,
    hash_algorithm: HashAlgorithm,
)
    requires
        block_size > 0,
        src.len() == dest.len(),
        no_collision(dest, src, block_size, hash_algorithm),
    ensures
        applied(
            dest,
            diverging(
                block_size,
                hashes_of(dest, block_size, hash_algorithm),
                blocks_of(src, block_size, hash_algorithm),
                blocks::count(block_size, src.len()),
            ),
        ) == src,
{
    let n = blocks::count(block_size, src.len());
    lemma_applied_so_far(src, dest, block_size, hash_algorithm, n);
    blocks::lemma_start_in_file(block_size, src.len(), n);
    let file = applied(
        dest,
        diverging(
            block_size,
            hashes_of(dest, block_size, hash_algorithm),
            blocks_of(src, block_size, hash_algorithm),
            n,
        ),
    );
    assert(file =~= src);
}

/// Equal files cost no transfer: no block is sent.
pub proof fn law_equal_files_send_nothing(
    file: Seq<u8>,
    block_size: nat,
    hash_algorithm: HashAlgorithm,
    n: nat,
)
    requires
        n <= blocks::count(block_size, file.len()),
    ensures
        diverging(
            block_size,
            hashes_of(file, block_size, hash_algorithm),
            blocks_of(file, block_size, hash_algorithm),
            n,
        ) == Seq::<(nat, Seq<u8>)>::empty(),
    decreases n,
{
    if n > 0 {
        law_equal_files_send_nothing(file, block_size, hash_algorithm, (n - 1) as nat);
    }
}

/// The messages of `writes`, one after the other.
pub open spec fn stream_of(writes: Seq<(nat, Seq<u8>)>) -> Seq<u8>
    decreases writes.len(),
{
    if writes.len() == 0 {
        Seq::empty()
    } else {
        common::file_block_frame(writes[0].0, writes[0].1) + stream_of(writes.skip(1))
    }
}

/// All the bytes of `chunks`.
pub open spec fn flat(chunks: Seq<Seq<u8>>) -> Seq<u8>
    decreases chunks.len(),
{
    if chunks.len() == 0 {
        Seq::empty()
    } else {
        chunks[0] + flat(chunks.skip(1))
    }
}

/// Whether `chunks` can be what a server reads one after the other, when it has
/// `received` the beginning of a block: each has bytes, and no more than the server asks
/// for.
pub open spec fn readable(
    block_size: nat,
    file_size: nat,
    received: Seq<u8>,
    chunks: Seq<Seq<u8>>,
) -> bool
    decreases chunks.len(),
{
    chunks.len() == 0 || {
        &&& 0 < chunks[0].len() <= common::file_block_needed(block_size, file_size, received)
        &&& readable(
            block_size,
            file_size,
            common::file_block_step(block_size, file_size, received, chunks[0]).1,
            chunks.skip(1),
        )
    }
}

/// The blocks that a server gets out of `chunks`, when it has `received` the beginning
/// of a block.
pub open spec fn delivered(
    block_size: nat,
    file_size: nat,
    received: Seq<u8>,
    chunks: Seq<Seq<u8>>,
) -> Seq<(nat, Seq<u8>)>
    decreases chunks.len(),
{
    if chunks.len() == 0 {
        Seq::empty()
    } else {
        let (outcome, rest) = common::file_block_step(block_size, file_size, received, chunks[0]);
        match outcome {
            Err(_) => Seq::empty(),
            Ok(None) => delivered(block_size, file_size, rest, chunks.skip(1)),
            Ok(Some(block)) => seq![block] + delivered(
                block_size,
                file_size,
                rest,
                chunks.skip(1),
            ),
        }
    }
}

/// Whether `writes` are blocks of a file of `file_size` bytes.
pub open spec fn within_file(
    block_size: nat,
    file_size: nat,
    writes: Seq<(nat, Seq<u8>)>,
) -> bool {
    forall|i: int|
        0 <= i < writes.len() ==> {
            &&& (#[trigger] writes[i]).0 <= file_size
            &&& writes[i].1.len() == blocks::len_at(block_size, file_size, writes[i].0)
        }
}

/// However the connection cuts the stream of a client, and also if it ends inside a
/// block, the server gets the blocks that arrived completely, in the order in which the
/// client wrote them, and nothing of the one that did not.
pub proof fn law_complete_blocks_reach_server(
    block_size: nat,
    file_size: nat,
    writes: Seq<(nat, Seq<u8>)>,
    last: (nat, Seq<u8>),
    cut: int,
    received: Seq<u8>,
    chunks: Seq<Seq<u8>>,
)
    requires
        file_size <= u64::MAX,
        within_file(block_size, file_size, writes.push(last)),
        0 <= cut < common::file_block_frame(last.0, last.1).len(),
        received + flat(chunks) == stream_of(writes) + common::file_block_frame(
            last.0,
            last.1,
        ).take(cut),
        received.len() < common::file_block_frame(
            writes.push(last)[0].0,
            writes.push(last)[0].1,
        ).len(),
        readable(block_size, file_size, received, chunks),
    ensures
        delivered(block_size, file_size, received, chunks) == writes,
    decreases chunks.len(),
{
    let all = writes.push(last);
    let rest = all.skip(1);
    let tail = common::file_block_frame(last.0, last.1).take(cut);
    let stream = stream_of(writes) + tail;
    let (offset, data) = all[0];
    let frame = common::file_block_frame(offset, data);
    endian::law_word_round_trip(offset as u64);
    assert(frame.len() == 8 + data.len());
    if writes.len() > 0 {
        assert(stream.len() >= frame.len());
        assert(stream.take(frame.len() as int) =~= frame);
        assert(stream.skip(frame.len() as int) =~= stream_of(writes.skip(1)) + tail);
    } else {
        assert(stream =~= frame.take(cut));
    }
    if chunks.len() == 0 {
        assert(received + flat(chunks) =~= received);
        assert(delivered(block_size, file_size, received, chunks) =~= writes);
    } else {
        let chunk = chunks[0];
        let from = received.len() as int;
        let to = from + chunk.len();
        assert(received + flat(chunks) =~= received + chunk + flat(chunks.skip(1)));
        assert(received =~= stream.take(from));
        assert(chunk =~= stream.subrange(from, to));
        assert(received =~= frame.take(from));
        if from >= 8 {
            assert(received.take(8) =~= endian::word(offset as u64));
        }
        assert(to <= frame.len());
        assert(chunk =~= frame.subrange(from, to));
        common::law_file_block_round_trip(block_size, file_size, offset, data, from, to);
        if to == frame.len() {
            assert(writes.len() > 0);
            assert(rest =~= writes.skip(1).push(last));
            assert(Seq::<u8>::empty() + flat(chunks.skip(1)) =~= stream.skip(to));
            assert(within_file(block_size, file_size, rest)) by {
                assert forall|i: int| 0 <= i < rest.len() implies {
                    &&& (#[trigger] rest[i]).0 <= file_size
                    &&& rest[i].1.len() == blocks::len_at(block_size, file_size, rest[i].0)
                } by {
                    assert(rest[i] == all[i + 1]);
                }
            }
            endian::law_word_round_trip(rest[0].0 as u64);
            law_complete_blocks_reach_server(
                block_size,
                file_size,
                writes.skip(1),
                last,
                cut,
                Seq::empty(),
                chunks.skip(1),
            );
            assert(seq![writes[0]] + writes.skip(1) =~= writes);
        } else {
            assert(frame.take(to) =~= received + chunk);
            law_complete_blocks_reach_server(
                block_size,
                file_size,
                writes,
                last,
                cut,
                frame.take(to),
                chunks.skip(1),
            );
        }
    }
}

/// However the connection cuts the stream of a client, the server gets the blocks that
/// the client wrote, in the same order.
pub proof fn law_blocks_reach_server(
    block_size: nat,
    file_size: nat,
    writes: Seq<(nat, Seq<u8>)>,
    chunks: Seq<Seq<u8>>,
)
    requires
        file_size <= u64::MAX,
        within_file(block_size, file_size, writes),
        flat(chunks) == stream_of(writes),
        readable(block_size, file_size, Seq::empty(), chunks),
    ensures
        delivered(block_size, file_size, Seq::empty(), chunks) == writes,
{
    let last = (file_size, Seq::<u8>::empty());
    let all = writes.push(last);
    endian::law_word_round_trip(file_size as u64);
    endian::law_word_round_trip(all[0].0 as u64);
    assert(within_file(block_size, file_size, all)) by {
        assert forall|i: int| 0 <= i < all.len() implies {
            &&& (#[trigger] all[i]).0 <= file_size
            &&& all[i].1.len() == blocks::len_at(block_size, file_size, all[i].0)
        } by {
            if i < writes.len() {
                assert(all[i] == writes[i]);
            }
        }
    }
    assert(Seq::<u8>::empty() + flat(chunks) =~= stream_of(writes) + common::file_block_frame(
        last.0,
        last.1,
    ).take(0));
    law_complete_blocks_reach_server(
        block_size,
        file_size,
        writes,
        last,
        0,
        Seq::empty(),
        chunks,
    );
}

/// The messages of `hashes`, one after the other.
pub open spec fn hash_stream_of(hashes: Seq<Seq<char>>) -> Seq<u8>
    decreases hashes.len(),
{
    if hashes.len() == 0 {
        Seq::empty()
    } else {
        common::string_frame(hashes[0]) + hash_stream_of(hashes.skip(1))
    }
}

/// Whether `chunks` can be what a client reads one after the other, when it has
/// `received` the beginning of a hash: each has bytes, and no more than the client asks
/// for.
pub open spec fn hash_readable(received: Seq<u8>, chunks: Seq<Seq<u8>>) -> bool
    decreases chunks.len(),
{
    chunks.len() == 0 || {
        &&& 0 < chunks[0].len() <= common::string_needed(received)
        &&& hash_readable(common::string_step(received, chunks[0]).1, chunks.skip(1))
    }
}

/// The hashes that a client gets out of `chunks`, when it has `received` the beginning
/// of a hash.
pub open spec fn hashes_delivered(received: Seq<u8>, chunks: Seq<Seq<u8>>) -> Seq<Seq<char>>
    decreases chunks.len(),
{
    if chunks.len() == 0 {
        Seq::empty()
    } else {
        let (outcome, rest) = common::string_step(received, chunks[0]);
        match outcome {
            Err(_) => Seq::empty(),
            Ok(None) => hashes_delivered(rest, chunks.skip(1)),
            Ok(Some(hash)) => seq![hash] + hashes_delivered(rest, chunks.skip(1)),
        }
    }
}

/// However the connection cuts the stream of a server, the client gets the hashes that
/// the server sent, in the same order.
pub proof fn law_hashes_reach_client(
    hashes: Seq<Seq<char>>,
    received: Seq<u8>,
    chunks: Seq<Seq<u8>>,
)
    requires
        forall|i: int|
            0 <= i < hashes.len() ==> vstd::utf8::encode_utf8(#[trigger] hashes[i]).len()
                <= MAX_HASH_SIZE,
        received + flat(chunks) == hash_stream_of(hashes),
        received.len() == 0 || (hashes.len() > 0 && received.len() < common::string_frame(
            hashes[0],
        ).len()),
        hash_readable(received, chunks),
    ensures
        hashes_delivered(received, chunks) == hashes,
    decreases chunks.len(),
{
    if chunks.len() == 0 {
        if hashes.len() > 0 {
            let frame = common::string_frame(hashes[0]);
            endian::law_word_round_trip(vstd::utf8::encode_utf8(hashes[0]).len() as u64);
            assert(hash_stream_of(hashes).len() >= frame.len());
            assert(received + flat(chunks) =~= received);
        }
        assert(hashes_delivered(received, chunks) =~= hashes);
    } else {
        let chunk = chunks[0];
        let stream = hash_stream_of(hashes);
        assert(stream.len() >= chunk.len());
        let bytes = vstd::utf8::encode_utf8(hashes[0]);
        let frame = common::string_frame(hashes[0]);
        let rest = hashes.skip(1);
        let from = received.len() as int;
        let to = from + chunk.len();
        endian::law_word_round_trip(bytes.len() as u64);
        assert(frame.len() == 8 + bytes.len());
        assert(received =~= frame.take(from)) by {
            assert(received =~= stream.take(from));
            assert(frame =~= stream.take(frame.len() as int));
        }
        if from >= 8 {
            assert(received.take(8) =~= endian::word(bytes.len() as u64));
        }
        assert(to <= frame.len());
        assert(chunk =~= frame.subrange(from, to)) by {
            assert(received + flat(chunks) =~= received + chunk + flat(chunks.skip(1)));
            assert(chunk =~= stream.subrange(from, to));
            assert(frame =~= stream.take(frame.len() as int));
        }
        common::law_string_round_trip(hashes[0], from, to);
        if to == frame.len() {
            assert(Seq::<u8>::empty() + flat(chunks.skip(1)) =~= hash_stream_of(rest)) by {
                assert(stream.skip(to) =~= hash_stream_of(rest));
                assert((received + flat(chunks)).skip(to) =~= flat(chunks.skip(1)));
            }
            law_hashes_reach_client(rest, Seq::empty(), chunks.skip(1));
            assert(seq![hashes[0]] + rest =~= hashes);
        } else {
            assert(frame.take(to) + flat(chunks.skip(1)) =~= received + flat(chunks)) by {
                assert(frame.take(to) =~= received + chunk);
            }
            law_hashes_reach_client(hashes, frame.take(to), chunks.skip(1));
        }
    }
}

pub proof fn lemma_diverging_within_file(
    src: Seq<u8>,
    hashes: Seq<Seq<char>>,
    block_size: nat,
    hash_algorithm: HashAlgorithm,
    n: nat,
)
    requires
        block_size > 0,
        n <= blocks::count(block_size, src.len()),
    ensures
        within_file(
            block_size,
            src.len(),
            diverging(block_size, hashes, blocks_of(src, block_size, hash_algorithm), n),
        ),
    decreases n,
{
    if n > 0 {
        let i = (n - 1) as nat;
        lemma_diverging_within_file(src, hashes, block_size, hash_algorithm, i);
        blocks::lemma_start_in_file(block_size, src.len(), i);
        let source = blocks_of(src, block_size, hash_algorithm);
        assert(source[i as int].1 == blocks::block(src, block_size, i));
    }
}

/// A synchronisation that comes to its end makes the destination equal to the source.
///
/// The client got the hashes of all blocks of the destination and compared the blocks of
/// the source with them, whatever the order of events; what it wrote reached the server
/// in whatever pieces; the server wrote each block where it belongs; and no two blocks
/// that differ have the same hash.
pub proof fn law_synchronised(
    src: Seq<u8>,
    dest: Seq<u8>,
    block_size: nat,
    hash_algorithm: HashAlgorithm,
    events: Seq<ClientEvent<Seq<u8>>>,
    chunks: Seq<Seq<u8>>,
)
    requires
        block_size > 0,
        0 < src.len() <= usize::MAX,
        src.len() == dest.len(),
        no_collision(dest, src, block_size, hash_algorithm),
        Exchange::possible(block_size, src.len(), events),
        ({
            let exchange = Exchange::run(block_size, src.len(), events);
            &&& exchange.finished
            &&& exchange.server_hashes == hashes_of(dest, block_size, hash_algorithm)
            &&& exchange.client_blocks == blocks_of(src, block_size, hash_algorithm)
            &&& flat(chunks) == stream_of(exchange.written)
        }),
        readable(block_size, src.len(), Seq::empty(), chunks),
    ensures
        applied(dest, delivered(block_size, src.len(), Seq::empty(), chunks)) == src,
{
    let exchange = Exchange::run(block_size, src.len(), events);
    law_client_writes_diverging_blocks(block_size, src.len(), events);
    let n = blocks::count(block_size, src.len());
    lemma_diverging_within_file(src, exchange.server_hashes, block_size, hash_algorithm, n);
    law_blocks_reach_server(block_size, src.len(), exchange.written, chunks);
    law_diverging_blocks_suffice(src, dest, block_size, hash_algorithm);
}

} // verus!
