//! The client side: the handshake with a server, and the comparison of hashes that
//! tells which blocks are sent.

use crate::blocks;
use crate::common;
use crate::common::{StatusError, PROTOCOL_VERSION};
use crate::endian;
use crate::hash_file;
use crate::hash_file::{FileBlockData, HashAlgorithm};
use std::collections::VecDeque;
use vstd::prelude::*;

verus! {

/// What a client is to synchronise, and how.
pub struct ClientProcessOptions {
    /// The address of the server, with its port.
    pub address: String,
    pub secret: String,
    pub src_path: String,
    pub dest: String,
    pub force_truncate: bool,
    pub workers: u8,
    pub block_size: usize,
    pub hash_algorithm: HashAlgorithm,
}

/// Why a client gives up before the exchange of hashes and blocks.
#[derive(Debug, Clone, Copy, PartialEq, Eq, Structural)]
pub enum ClientError {
    /// The length of the secret does not fit in a byte.
    SecretTooLong,
    /// The server did not acknowledge.
    Status(StatusError),
    /// There is nothing to synchronise.
    EmptySource,
}

impl ClientError {
    /// The text that a user is shown.
    pub open spec fn text(self) -> Seq<char> {
        match self {
            ClientError::SecretTooLong => "out of range integral type conversion attempted"@,
            ClientError::Status(e) => e.text(),
            ClientError::EmptySource => "Source file is empty, nothing to sync"@,
        }
    }

    /// The text that a user is shown.
    pub fn message(&self) -> (message: String)
        ensures
            message@ == self.text(),
    {
        match self {
            ClientError::SecretTooLong => {
                "out of range integral type conversion attempted".to_owned()
            },
            ClientError::Status(e) => e.message(),
            ClientError::EmptySource => "Source file is empty, nothing to sync".to_owned(),
        }
    }
}

/// A refusal of the server is shown as such, whatever it is.
pub proof fn law_refusal_is_shown(e: StatusError)
    ensures
        ClientError::Status(e).text() == e.text(),
{
}

/// What a client sends first: the length of its secret, and the secret.
pub open spec fn secret_message(secret: Seq<char>) -> Seq<u8> {
    let bytes = vstd::utf8::encode_utf8(secret);
    seq![bytes.len() as u8] + bytes
}

/// What a client sends once its secret is acknowledged.
pub open spec fn version_message() -> Seq<u8> {
    seq![PROTOCOL_VERSION]
}

/// What a client sends after the destination path: the sizes and options.
pub open spec fn request_message(
    block_size: usize,
    src_size: u64,
    force_truncate: bool,
    hash_algorithm: HashAlgorithm,
) -> Seq<u8> {
    endian::word(block_size as u64) + endian::word(src_size) + seq![
        if force_truncate {
            1u8
        } else {
            0u8
        },
        hash_file::algorithm_byte(hash_algorithm),
    ]
}

/// What a client sends holds its secret in full, after the number of its bytes.
pub proof fn law_secret_message_is_whole(secret: Seq<char>)
    requires
        vstd::utf8::encode_utf8(secret).len() <= 255,
    ensures
        secret_message(secret)[0] == vstd::utf8::encode_utf8(secret).len(),
        secret_message(secret).skip(1) == vstd::utf8::encode_utf8(secret),
        version_message() == seq![1u8],
{
    assert(secret_message(secret).skip(1) =~= vstd::utf8::encode_utf8(secret));
}

/// A request holds the size of the blocks, the size of the source, whether the client
/// insists, and the hash algorithm, in this order and in full.
pub proof fn law_request_message_is_whole(
    block_size: usize,
    src_size: u64,
    force_truncate: bool,
    hash_algorithm: HashAlgorithm,
)
    ensures
        ({
            let message = request_message(block_size, src_size, force_truncate, hash_algorithm);
            &&& message.len() == 18
            &&& endian::be_value(message.take(8)) == block_size
            &&& endian::be_value(message.subrange(8, 16)) == src_size
            &&& message[16] == 1 <==> force_truncate
            &&& message[16] == 0 <==> !force_truncate
            &&& hash_file::byte_algorithm(message[17]) == Ok::<HashAlgorithm, u8>(hash_algorithm)
        }),
{
    let message = request_message(block_size, src_size, force_truncate, hash_algorithm);
    endian::law_word_round_trip(block_size as u64);
    endian::law_word_round_trip(src_size);
    assert(message.take(8) =~= endian::word(block_size as u64));
    assert(message.subrange(8, 16) =~= endian::word(src_size));
    hash_file::law_algorithm_round_trip(hash_algorithm, 0);
}

/// What a client waits for during the handshake.
#[derive(Debug, Clone, Copy, PartialEq, Eq, Structural)]
pub enum ClientPhase {
    /// The answer to its secret.
    Secret,
    /// The answer to the version of its protocol.
    Version,
    /// The size of the source file.
    Source,
    /// The answer to its request.
    Request,
    /// Nothing: the handshake is over.
    Over,
}

/// What a client is to do after an answer of the server.
pub enum ClientAction {
    /// Send this, and wait for the next answer.
    Send(Vec<u8>),
    /// Send this, and open the source file.
    SendAndOpen(Vec<u8>),
    /// Exchange hashes and blocks.
    Sync,
}

/// The handshake of a client with its server.
pub struct ClientHandshake {
    phase: ClientPhase,
}

impl ClientHandshake {
    /// What the client waits for.
    pub closed spec fn phase(self) -> ClientPhase {
        self.phase
    }

    /// Begins the handshake. Returns what to send to the server, unless the secret is
    /// too long to be sent.
    pub fn new(options: &ClientProcessOptions) -> (started: Result<(Self, Vec<u8>), ClientError>)
        ensures
            match started {
                Ok((handshake, message)) => {
                    &&& vstd::utf8::encode_utf8(options.secret@).len() <= 255
                    &&& handshake.phase() == ClientPhase::Secret
                    &&& message@ == secret_message(options.secret@)
                },
                Err(e) => {
                    &&& e == ClientError::SecretTooLong
                    &&& vstd::utf8::encode_utf8(options.secret@).len() > 255
                },
            },
    {
        let bytes = options.secret.as_str().as_bytes();
        let len: usize = bytes.len();
        if len > 255 {
            return Err(ClientError::SecretTooLong);
        }
        let mut message: Vec<u8> = Vec::new();
        message.push(len as u8);
        message.extend_from_slice(bytes);
        assert(message@ =~= secret_message(options.secret@));
        Ok((ClientHandshake { phase: ClientPhase::Secret }, message))
    }

    /// Takes an answer of the server: anything but an acknowledgement ends the
    /// handshake.
    pub fn answered(&mut self, byte: u8, options: &ClientProcessOptions) -> (action: Result<
        ClientAction,
        ClientError,
    >)
        requires
            old(self).phase() == ClientPhase::Secret || old(self).phase() == ClientPhase::Version
                || old(self).phase() == ClientPhase::Request,
        ensures
            match common::status_check(byte) {
                Err(e) => {
                    &&& action == Err::<ClientAction, ClientError>(ClientError::Status(e))
                    &&& final(self).phase() == ClientPhase::Over
                },
                Ok(_) => match old(self).phase() {
                    ClientPhase::Secret => {
                        &&& action matches Ok(ClientAction::Send(message)) && message@
                            == version_message()
                        &&& final(self).phase() == ClientPhase::Version
                    },
                    ClientPhase::Version => {
                        &&& action matches Ok(ClientAction::SendAndOpen(message)) && message@
                            == common::string_frame(options.dest@)
                        &&& final(self).phase() == ClientPhase::Source
                    },
                    _ => {
                        &&& action matches Ok(ClientAction::Sync)
                        &&& final(self).phase() == ClientPhase::Over
                    },
                },
            },
    {
        let phase = self.phase;
        self.phase = ClientPhase::Over;
        match common::check_status(byte) {
            Err(e) => Err(ClientError::Status(e)),
            Ok(_) => match phase {
                ClientPhase::Secret => {
                    self.phase = ClientPhase::Version;
                    let message: Vec<u8> = vec![PROTOCOL_VERSION];
                    assert(message@ =~= version_message());
                    Ok(ClientAction::Send(message))
                },
                ClientPhase::Version => {
                    self.phase = ClientPhase::Source;
                    Ok(ClientAction::SendAndOpen(common::write_string(options.dest.as_str())))
                },
                _ => Ok(ClientAction::Sync),
            },
        }
    }

    /// Takes the size of the source file. Returns what to send to the server, unless the
    /// file is empty.
    pub fn source_opened(&mut self, src_size: u64, options: &ClientProcessOptions) -> (message:
        Result<Vec<u8>, ClientError>)
        requires
            old(self).phase() == ClientPhase::Source,
        ensures
            match message {
                Ok(m) => {
                    &&& src_size > 0
                    &&& m@ == request_message(
                        options.block_size,
                        src_size,
                        options.force_truncate,
                        options.hash_algorithm,
                    )
                    &&& final(self).phase() == ClientPhase::Request
                },
                Err(e) => {
                    &&& e == ClientError::EmptySource
                    &&& src_size == 0
                    &&& final(self).phase() == ClientPhase::Over
                },
            },
    {
        if src_size == 0 {
            self.phase = ClientPhase::Over;
            return Err(ClientError::EmptySource);
        }
        self.phase = ClientPhase::Request;
        let mut message = endian::encode_word(options.block_size as u64);
        let mut size = endian::encode_word(src_size);
        message.append(&mut size);
        message.push(
            if options.force_truncate {
                1u8
            } else {
                0u8
            },
        );
        message.push(u8::from(options.hash_algorithm));
        assert(message@ =~= request_message(
            options.block_size,
            src_size,
            options.force_truncate,
            options.hash_algorithm,
        ));
        Ok(message)
    }
}

/// What a client is to do after an event of the exchange.
pub enum ClientStep<T> {
    /// Wait for the next event.
    Continue,
    /// Write the block with these bytes, which belongs at this offset.
    Write(usize, T),
    /// Close the connection: all is compared and sent.
    Finish,
}

/// The exchange of a client, with its strings and its queue by their contents.
#[verifier::ext_equal]
pub struct ClientView<T> {
    pub block_size: nat,
    pub file_size: nat,
    /// How many blocks have been compared.
    pub compared: nat,
    /// The hash of the server for the next block, if it has come.
    pub server_hash: Option<Seq<char>>,
    /// The diverging blocks that wait to be written: their indices and bytes.
    pub queue: Seq<(usize, T)>,
    /// Whether a block is being written.
    pub writing: bool,
    /// Whether the source ended before all its blocks were compared.
    pub blocks_over: bool,
}

impl<T> ClientView<T> {
    /// The exchange before anything has happened.
    pub open spec fn initial(block_size: nat, file_size: nat) -> ClientView<T> {
        ClientView {
            block_size,
            file_size,
            compared: 0,
            server_hash: None,
            queue: Seq::empty(),
            writing: false,
            blocks_over: false,
        }
    }

    /// The number of blocks of the source.
    pub open spec fn end(self) -> nat {
        blocks::count(self.block_size, self.file_size)
    }

    /// Whether all blocks have been compared.
    pub open spec fn over(self) -> bool {
        self.compared == self.end()
    }

    /// The next block of the queue is written, unless one is being written already.
    pub open spec fn prepared(self) -> (ClientView<T>, ClientStep<T>) {
        if self.writing || self.queue.len() == 0 {
            (self, ClientStep::Continue)
        } else {
            (
                ClientView { queue: self.queue.skip(1), writing: true, ..self },
                ClientStep::Write(
                    blocks::start(self.block_size, self.queue[0].0 as nat) as usize,
                    self.queue[0].1,
                ),
            )
        }
    }

    /// The block that was being written is written.
    pub open spec fn block_written(self) -> (ClientView<T>, ClientStep<T>) {
        let idle = ClientView { writing: false, ..self };
        if idle.over() && idle.queue.len() == 0 {
            (idle, ClientStep::Finish)
        } else {
            idle.prepared()
        }
    }

    /// The hash of the server for the next block has come.
    pub open spec fn hash_received(self, hash: Seq<char>) -> ClientView<T> {
        ClientView { server_hash: Some(hash), ..self }
    }

    /// The next block of the source has been hashed.
    pub open spec fn block_hashed(self, hash: Seq<char>, data: T) -> (
        ClientView<T>,
        ClientStep<T>,
    ) {
        let (queued, step) = if self.server_hash != Some(hash) {
            ClientView {
                queue: self.queue.push((self.compared as usize, data)),
                ..self
            }.prepared()
        } else {
            (self, ClientStep::Continue)
        };
        let after = ClientView { server_hash: None, compared: self.compared + 1, ..queued };
        if after.over() && !after.writing {
            (after, ClientStep::Finish)
        } else {
            (after, step)
        }
    }

    /// The source has ended although its next block is wanted.
    pub open spec fn blocks_ended(self) -> ClientView<T> {
        ClientView { blocks_over: true, ..self }
    }

    /// What holds of an exchange at all times.
    pub open spec fn valid(self) -> bool {
        &&& self.block_size > 0
        &&& 0 < self.file_size <= usize::MAX
        &&& self.compared <= self.end()
        &&& self.queue.len() > 0 ==> self.writing
        &&& forall|i: int|
            0 <= i < self.queue.len() ==> (#[trigger] self.queue[i]).0 < self.compared
    }
}

/// An exchange begins with no block compared, received, waiting or being written.
pub proof fn law_exchange_begins_with_nothing<T>(block_size: nat, file_size: nat)
    ensures
        ({
            let view = ClientView::<T>::initial(block_size, file_size);
            &&& view.block_size == block_size
            &&& view.file_size == file_size
            &&& view.compared == 0
            &&& view.server_hash is None
            &&& view.queue.len() == 0
            &&& !view.writing
            &&& !view.blocks_over
        }),
{
}

/// Comparing a block sends it if and only if the hashes differ in any character: then it
/// is written now, or after those that wait. In either case the next block is compared
/// next, and the exchange is over when the last one is compared and nothing is being
/// written.
pub proof fn law_block_is_sent_if_hashes_differ<T>(
    view: ClientView<T>,
    server_hash: Seq<char>,
    hash: Seq<char>,
    data: T,
)
    requires
        view.valid(),
        view.server_hash == Some(server_hash),
        view.compared < blocks::count(view.block_size, view.file_size),
    ensures
        ({
            let (after, step) = view.block_hashed(hash, data);
            let last = view.compared + 1 == blocks::count(view.block_size, view.file_size);
            &&& after.compared == view.compared + 1
            &&& after.server_hash is None
            &&& after.block_size == view.block_size && after.file_size == view.file_size
            &&& after.blocks_over == view.blocks_over
            &&& server_hash == hash ==> after.queue == view.queue && after.writing == view.writing
                && step !is Write
            &&& server_hash != hash && view.writing ==> after.writing && after.queue
                == view.queue.push((view.compared as usize, data)) && step is Continue
            &&& server_hash != hash && !view.writing ==> after.writing && after.queue == view.queue
                && step == ClientStep::Write((view.compared * view.block_size) as usize, data)
            &&& step is Finish <==> last && !after.writing
        }),
{
    if server_hash != hash && !view.writing {
        let queued = view.queue.push((view.compared as usize, data));
        assert(view.queue.len() == 0);
        assert(queued.skip(1) =~= view.queue);
        blocks::lemma_start_in_file(view.block_size, view.file_size, view.compared);
        assert(view.compared * view.block_size >= view.compared) by (nonlinear_arith)
            requires
                view.block_size > 0,
        ;
    }
}

/// Once a block is written the one that has waited longest is written next. The exchange
/// is over only when none waits and all blocks are compared.
pub proof fn law_waiting_blocks_are_sent_in_order<T>(view: ClientView<T>)
    requires
        view.valid(),
        view.writing,
    ensures
        ({
            let (after, step) = view.block_written();
            &&& after.compared == view.compared && after.server_hash == view.server_hash
            &&& after.block_size == view.block_size && after.file_size == view.file_size
            &&& after.blocks_over == view.blocks_over
            &&& view.queue.len() > 0 ==> after.writing && after.queue == view.queue.skip(1)
                && step == ClientStep::Write(
                (view.queue[0].0 * view.block_size) as usize,
                view.queue[0].1,
            )
            &&& view.queue.len() == 0 ==> !after.writing && after.queue == view.queue && (
            step is Finish <==> view.compared == blocks::count(view.block_size, view.file_size))
            &&& step is Finish ==> view.queue.len() == 0
        }),
{
}

/// A hash of the server is kept in full and changes nothing else; nor does the end of the
/// source.
pub proof fn law_hash_is_kept<T>(view: ClientView<T>, hash: Seq<char>)
    ensures
        view.hash_received(hash).server_hash == Some(hash),
        view.hash_received(hash).compared == view.compared,
        view.hash_received(hash).queue == view.queue,
        view.hash_received(hash).writing == view.writing,
        view.hash_received(hash).blocks_over == view.blocks_over,
        view.blocks_ended().blocks_over,
        view.blocks_ended().server_hash == view.server_hash,
        view.blocks_ended().compared == view.compared,
        view.blocks_ended().queue == view.queue,
        view.blocks_ended().writing == view.writing,
        view.end() == blocks::count(view.block_size, view.file_size),
        view.over() <==> view.compared == blocks::count(view.block_size, view.file_size),
{
}

/// The exchange of a client with its server, after the handshake.
///
/// The hashes of the server and the blocks of the source come in the order of the file,
/// and are compared one by one. Blocks that diverge are queued, and written one at a
/// time. Whoever shares the buffers of the blocks with others chooses the type `T` that
/// stands for them.
pub struct ClientSync<T> {
    block_size: usize,
    file_size: usize,
    end_block_idx: usize,
    block_idx: usize,
    processing_hash: Option<String>,
    hash_comparison_over: bool,
    blocks_idx_to_send: VecDeque<(usize, T)>,
    writing: bool,
    blocks_over: bool,
}

impl<T> ClientSync<T> {
    pub closed spec fn view(&self) -> ClientView<T> {
        ClientView {
            block_size: self.block_size as nat,
            file_size: self.file_size as nat,
            compared: self.block_idx as nat,
            server_hash: match self.processing_hash {
                None => None,
                Some(hash) => Some(hash@),
            },
            queue: self.blocks_idx_to_send@,
            writing: self.writing,
            blocks_over: self.blocks_over,
        }
    }

    pub closed spec fn wf(self) -> bool {
        &&& self@.valid()
        &&& self.end_block_idx == self@.end()
        &&& self.hash_comparison_over == self@.over()
    }

    /// The exchange about a source of `file_size` bytes.
    pub fn new(block_size: usize, file_size: usize) -> (sync: Self)
        requires
            block_size > 0,
            file_size > 0,
        ensures
            sync.wf(),
            sync@ == ClientView::<T>::initial(block_size as nat, file_size as nat),
    {
        proof {
            blocks::lemma_start_in_file(block_size as nat, file_size as nat, 0);
            assert(blocks::start(block_size as nat, 0) == 0) by (nonlinear_arith);
        }
        let sync = ClientSync {
            block_size,
            file_size,
            end_block_idx: blocks::block_count(block_size, file_size),
            block_idx: 0,
            processing_hash: None,
            hash_comparison_over: false,
            blocks_idx_to_send: VecDeque::new(),
            writing: false,
            blocks_over: false,
        };
        assert(sync@ =~= ClientView::<T>::initial(block_size as nat, file_size as nat));
        sync
    }

    /// Whether the hash of the server for the next block is wanted.
    pub fn wants_server_hash(&self) -> (r: bool)
        ensures
            r == (self@.server_hash is None),
    {
        self.processing_hash.is_none()
    }

    /// Whether the next block of the source is wanted.
    pub fn wants_block(&self) -> (r: bool)
        requires
            self.wf(),
        ensures
            r == (self@.server_hash is Some && !self@.over() && !self@.blocks_over),
    {
        self.processing_hash.is_some() && !self.hash_comparison_over && !self.blocks_over
    }

    /// The source has ended although its next block is wanted: no more blocks come.
    pub fn blocks_ended(&mut self)
        requires
            old(self).wf(),
        ensures
            final(self).wf(),
            final(self)@ == old(self)@.blocks_ended(),
    {
        self.blocks_over = true;
        assert(self@ =~= old(self)@.blocks_ended());
        assert(self@.end() == old(self)@.end());
    }

    /// How far the comparison is: the number of blocks compared, the number of blocks,
    /// and the one in percent of the other.
    pub fn progress(&self) -> (progress: (usize, usize, usize))
        requires
            self.wf(),
        ensures
            progress.0 == self@.compared,
            progress.1 == self@.end(),
            progress.2 == self@.compared * 100 / self@.end(),
    {
        let done: usize = self.block_idx;
        let end: usize = self.end_block_idx;
        proof {
            blocks::lemma_start_in_file(self.block_size as nat, self.file_size as nat, 0);
            assert(blocks::start(self.block_size as nat, 0) == 0) by (nonlinear_arith);
            assert(done * 100 / (end as int) <= 100) by (nonlinear_arith)
                requires
                    0 <= done <= end,
                    end > 0,
            ;
        }
        (done, end, (done as u128 * 100 / end as u128) as usize)
    }

    /// Begins to write the next block of the queue, unless one is being written already.
    fn prepare_next_write_block(&mut self) -> (step: ClientStep<T>)
        requires
            old(self)@.block_size > 0,
            old(self)@.file_size <= usize::MAX,
            forall|i: int|
                0 <= i < old(self)@.queue.len() ==> (#[trigger] old(self)@.queue[i]).0 < old(
                    self,
                )@.end(),
        ensures
            (final(self)@, step) == old(self)@.prepared(),
            final(self).end_block_idx == old(self).end_block_idx,
            final(self).hash_comparison_over == old(self).hash_comparison_over,
    {
        if self.writing {
            return ClientStep::Continue;
        }
        match self.blocks_idx_to_send.pop_front() {
            None => ClientStep::Continue,
            Some((idx, data)) => {
                self.writing = true;
                proof {
                    assert(old(self)@.queue[0].0 == idx);
                    blocks::lemma_start_in_file(
                        self.block_size as nat,
                        self.file_size as nat,
                        idx as nat,
                    );
                    assert(self@.queue =~= old(self)@.queue.skip(1));
                }
                ClientStep::Write(idx * self.block_size, data)
            },
        }
    }

    /// The block that was being written is written.
    pub fn block_written(&mut self) -> (step: ClientStep<T>)
        requires
            old(self).wf(),
            old(self)@.writing,
        ensures
            final(self).wf(),
            (final(self)@, step) == old(self)@.block_written(),
    {
        self.writing = false;
        assert(self@.queue == old(self)@.queue);
        assert(self@.end() == old(self)@.end());
        if self.hash_comparison_over && self.blocks_idx_to_send.len() == 0 {
            ClientStep::Finish
        } else {
            self.prepare_next_write_block()
        }
    }

    /// The hash of the server for the next block has come; or it cannot be read, which
    /// ends the exchange.
    pub fn hash_received<E>(&mut self, hash: Result<String, E>) -> (step: ClientStep<T>)
        requires
            old(self).wf(),
            old(self)@.server_hash is None,
        ensures
            final(self).wf(),
            match hash {
                Ok(h) => {
                    &&& final(self)@ == old(self)@.hash_received(h@)
                    &&& step == ClientStep::<T>::Continue
                },
                Err(_) => {
                    &&& final(self)@ == old(self)@
                    &&& step == ClientStep::<T>::Finish
                },
            },
    {
        match hash {
            Ok(h) => {
                self.processing_hash = Some(h);
                ClientStep::Continue
            },
            Err(_) => ClientStep::Finish,
        }
    }

    /// The next block of the source has been hashed: it is to be sent if the server has
    /// another hash for it.
    pub fn block_hashed(&mut self, block: FileBlockData<T>) -> (step: ClientStep<T>)
        requires
            old(self).wf(),
            old(self)@.server_hash is Some,
            !old(self)@.over(),
        ensures
            final(self).wf(),
            (final(self)@, step) == old(self)@.block_hashed(block.hash@, block.data),
    {
        let same: bool = match &self.processing_hash {
            Some(hash) => block.hash == *hash,
            None => false,
        };
        let mut step = ClientStep::Continue;
        if !same {
            self.blocks_idx_to_send.push_back((self.block_idx, block.data));
            assert(self@.queue == old(self)@.queue.push((self.block_idx, block.data)));
            assert(self@.end() == old(self)@.end());
            step = self.prepare_next_write_block();
        }
        self.processing_hash = None;
        self.block_idx += 1;
        if self.block_idx == self.end_block_idx {
            self.hash_comparison_over = true;
            if !self.writing {
                return ClientStep::Finish;
            }
        }
        step
    }
}

} // verus!
