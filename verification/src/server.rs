//! The server side: the handshake with a client, what is done with the destination
//! file, and the exchange of hashes and blocks.

use crate::common;
use crate::common::{
    ReadError, ResumableAsyncWriteAll, ResumableReadFileBlock, ResumableWriteString, StatusCode,
    MAX_PATH_SIZE, PROTOCOL_VERSION,
};
use crate::endian;
use crate::hash_file;
use crate::hash_file::HashAlgorithm;
use vstd::prelude::*;
use vstd::slice::slice_subrange;

verus! {

/// What a client asks a server to do.
pub struct SyncRequest {
    pub dest_path: String,
    pub block_size: usize,
    pub file_size: u64,
    pub force_truncate: bool,
    pub hash_algorithm: HashAlgorithm,
}

/// A request, with the path by its characters.
#[verifier::ext_equal]
pub struct RequestView {
    pub dest_path: Seq<char>,
    pub block_size: usize,
    pub file_size: u64,
    pub force_truncate: bool,
    pub hash_algorithm: HashAlgorithm,
}

impl SyncRequest {
    pub open spec fn view(&self) -> RequestView {
        RequestView {
            dest_path: self.dest_path@,
            block_size: self.block_size,
            file_size: self.file_size,
            force_truncate: self.force_truncate,
            hash_algorithm: self.hash_algorithm,
        }
    }
}

/// What a server is to do after a field of the handshake.
pub enum HandshakeStep {
    /// Read the next field.
    Continue,
    /// Answer `Ack`, then read the next field.
    Acknowledge,
    /// Answer with this status: the client is refused.
    Reject(StatusCode),
    /// Drop the client: its message cannot be read.
    Fail(ReadError),
    /// Open the destination of this request.
    Open(SyncRequest),
}

/// The field of the handshake that a server reads next, with what it knows by then.
#[verifier::ext_equal]
pub enum HandshakePhase {
    /// The length of the secret.
    SecretLen,
    /// The secret, of this many bytes.
    Secret(nat),
    /// The version of the protocol.
    Version,
    /// The length of the destination path.
    PathSize,
    /// The destination path, of this many bytes.
    Path(nat),
    /// The sizes and options for this destination path.
    Request(Seq<char>),
    /// Nothing: the handshake is over.
    Over,
}

/// What comes of a field of the handshake.
#[verifier::ext_equal]
pub enum HandshakeOutcome {
    Continue,
    Acknowledge,
    Reject(StatusCode),
    Fail(ReadError),
    Open(RequestView),
}

impl HandshakeStep {
    pub open spec fn view(&self) -> HandshakeOutcome {
        match self {
            HandshakeStep::Continue => HandshakeOutcome::Continue,
            HandshakeStep::Acknowledge => HandshakeOutcome::Acknowledge,
            HandshakeStep::Reject(status) => HandshakeOutcome::Reject(*status),
            HandshakeStep::Fail(e) => HandshakeOutcome::Fail(*e),
            HandshakeStep::Open(request) => HandshakeOutcome::Open(request@),
        }
    }
}

/// The size of the fields for sizes and options, taken together.
pub const REQUEST_SIZE: usize = 18;

/// The number of bytes of the next field.
pub open spec fn field_size(phase: HandshakePhase) -> nat {
    match phase {
        HandshakePhase::SecretLen => 1,
        HandshakePhase::Secret(n) => n,
        HandshakePhase::Version => 1,
        HandshakePhase::PathSize => 8,
        HandshakePhase::Path(n) => n,
        HandshakePhase::Request(_) => REQUEST_SIZE as nat,
        HandshakePhase::Over => 0,
    }
}

/// The byte that announces the length of a secret.
pub open spec fn secret_len_byte(secret: Seq<char>) -> u8 {
    (vstd::utf8::encode_utf8(secret).len() % 256) as u8
}

/// The request for `dest_path` that the field of sizes and options makes.
pub open spec fn request_of(dest_path: Seq<char>, field: Seq<u8>) -> Result<
    RequestView,
    StatusCode,
> {
    match hash_file::byte_algorithm(field[17]) {
        Err(_) => Err(StatusCode::UnknownHashAlgorithm),
        Ok(hash_algorithm) => Ok(
            RequestView {
                dest_path,
                block_size: endian::be_value(field.take(8)) as usize,
                file_size: endian::be_value(field.subrange(8, 16)) as u64,
                force_truncate: field[16] != 0,
                hash_algorithm,
            },
        ),
    }
}

/// What a server with this secret makes of the next field of the handshake: the phase
/// after it, and what comes of it.
pub open spec fn handshake_step(
    secret: Seq<char>,
    phase: HandshakePhase,
    field: Seq<u8>,
) -> (HandshakePhase, HandshakeOutcome) {
    match phase {
        HandshakePhase::SecretLen => if field[0] == secret_len_byte(secret) {
            (HandshakePhase::Secret(field[0] as nat), HandshakeOutcome::Continue)
        } else {
            (HandshakePhase::Over, HandshakeOutcome::Reject(StatusCode::InvalidSecret))
        },
        HandshakePhase::Secret(_) => if field == vstd::utf8::encode_utf8(secret) {
            (HandshakePhase::Version, HandshakeOutcome::Acknowledge)
        } else {
            (HandshakePhase::Over, HandshakeOutcome::Reject(StatusCode::InvalidSecret))
        },
        HandshakePhase::Version => if field[0] == PROTOCOL_VERSION {
            (HandshakePhase::PathSize, HandshakeOutcome::Acknowledge)
        } else {
            (
                HandshakePhase::Over,
                HandshakeOutcome::Reject(StatusCode::UnsupportedProtocolVersion),
            )
        },
        HandshakePhase::PathSize => if endian::be_value(field) <= MAX_PATH_SIZE {
            (HandshakePhase::Path(endian::be_value(field)), HandshakeOutcome::Continue)
        } else {
            (HandshakePhase::Over, HandshakeOutcome::Fail(ReadError::TooLong))
        },
        HandshakePhase::Path(_) => match common::decoded_string(field) {
            Ok(dest_path) => (HandshakePhase::Request(dest_path), HandshakeOutcome::Continue),
            Err(e) => (HandshakePhase::Over, HandshakeOutcome::Fail(e)),
        },
        HandshakePhase::Request(dest_path) => match request_of(dest_path, field) {
            Ok(request) => (HandshakePhase::Over, HandshakeOutcome::Open(request)),
            Err(status) => (HandshakePhase::Over, HandshakeOutcome::Reject(status)),
        },
        HandshakePhase::Over => (HandshakePhase::Over, HandshakeOutcome::Continue),
    }
}

/// A request is seen as it is.
pub proof fn law_request_view_is_whole(request: SyncRequest)
    ensures
        request@.dest_path == request.dest_path@,
        request@.block_size == request.block_size,
        request@.file_size == request.file_size,
        request@.force_truncate == request.force_truncate,
        request@.hash_algorithm == request.hash_algorithm,
{
}

/// A step of the handshake is seen as it is.
pub proof fn law_step_view_is_whole(step: HandshakeStep)
    ensures
        step@ is Continue <==> step is Continue,
        step@ is Acknowledge <==> step is Acknowledge,
        step@ matches HandshakeOutcome::Reject(status) ==> step == HandshakeStep::Reject(status),
        step@ matches HandshakeOutcome::Fail(e) ==> step == HandshakeStep::Fail(e),
        step@ matches HandshakeOutcome::Open(r) ==> (step matches HandshakeStep::Open(request)
            && request@ == r),
{
}

/// The field of sizes and options holds the size of the blocks, the size of the file, a
/// flag and the hash algorithm, in this order; a client is refused for it only if the
/// algorithm is unknown, and any flag but zero insists.
pub proof fn law_request_field_is_read_in_full(dest_path: Seq<char>, field: Seq<u8>)
    requires
        field.len() == 18,
    ensures
        match request_of(dest_path, field) {
            Ok(request) => {
                &&& request.dest_path == dest_path
                &&& endian::be_value(field.take(8)) <= usize::MAX ==> request.block_size
                    == endian::be_value(field.take(8))
                &&& request.file_size == endian::be_value(field.subrange(8, 16))
                &&& request.force_truncate <==> field[16] != 0
                &&& hash_file::algorithm_byte(request.hash_algorithm) == field[17]
            },
            Err(status) => status == StatusCode::UnknownHashAlgorithm && field[17] != 1
                && field[17] != 2,
        },
{
    endian::lemma_be_value_bound(field.subrange(8, 16));
    endian::lemma_pow256_word();
    hash_file::law_algorithm_round_trip(HashAlgorithm::CRC32, field[17]);
}

/// What a server makes of each field of the handshake, whoever sends it: it goes on
/// exactly where the field is right, and is done with every client that it refuses or
/// drops.
pub proof fn law_handshake_goes_on_or_is_over(
    secret: Seq<char>,
    phase: HandshakePhase,
    field: Seq<u8>,
)
    requires
        field.len() == field_size(phase),
        phase !is Over,
    ensures
        ({
            let (next, outcome) = handshake_step(secret, phase, field);
            let bytes = vstd::utf8::encode_utf8(secret);
            &&& outcome is Reject || outcome is Fail || outcome is Open ==> next is Over
            &&& outcome is Continue || outcome is Acknowledge ==> next !is Over
            &&& match phase {
                HandshakePhase::SecretLen => if field[0] == bytes.len() % 256 {
                    outcome is Continue && next == HandshakePhase::Secret(bytes.len() % 256)
                } else {
                    outcome == HandshakeOutcome::Reject(StatusCode::InvalidSecret)
                },
                HandshakePhase::Secret(_) => if field == bytes {
                    outcome is Acknowledge && next is Version
                } else {
                    outcome == HandshakeOutcome::Reject(StatusCode::InvalidSecret)
                },
                HandshakePhase::Version => if field[0] == 1 {
                    outcome is Acknowledge && next is PathSize
                } else {
                    outcome == HandshakeOutcome::Reject(StatusCode::UnsupportedProtocolVersion)
                },
                HandshakePhase::PathSize => if endian::be_value(field) <= 4096 {
                    outcome is Continue && next == HandshakePhase::Path(endian::be_value(field))
                } else {
                    outcome == HandshakeOutcome::Fail(ReadError::TooLong)
                },
                HandshakePhase::Path(_) => if vstd::utf8::valid_utf8(field) {
                    outcome is Continue && next == HandshakePhase::Request(
                        vstd::utf8::decode_utf8(field),
                    )
                } else {
                    outcome matches HandshakeOutcome::Fail(e) && common::decoded_string(field)
                        == Err::<Seq<char>, ReadError>(e)
                },
                HandshakePhase::Request(path) => if field[17] == 1 || field[17] == 2 {
                    outcome matches HandshakeOutcome::Open(request) && request.dest_path == path
                        && request_of(path, field) == Ok::<RequestView, StatusCode>(request)
                } else {
                    outcome == HandshakeOutcome::Reject(StatusCode::UnknownHashAlgorithm)
                },
                HandshakePhase::Over => true,
            }
        }),
{
}

/// The server reads as many bytes for a field as the field has on the wire.
pub proof fn law_field_sizes(n: nat, path: Seq<char>)
    ensures
        field_size(HandshakePhase::SecretLen) == 1,
        field_size(HandshakePhase::Secret(n)) == n,
        field_size(HandshakePhase::Version) == 1,
        field_size(HandshakePhase::PathSize) == 8,
        field_size(HandshakePhase::Path(n)) == n,
        field_size(HandshakePhase::Request(path)) == 8 + 8 + 1 + 1,
{
}

enum Field {
    SecretLen,
    Secret,
    Version,
    PathSize,
    Path,
    Request,
    Over,
}

/// The handshake of a server with one client.
pub struct ServerHandshake {
    secret: String,
    field: Field,
    size: usize,
    dest_path: String,
}

impl ServerHandshake {
    pub closed spec fn wf(self) -> bool {
        self.size == field_size(self.phase())
    }

    /// The secret that a client has to know.
    pub closed spec fn secret(self) -> Seq<char> {
        self.secret@
    }

    /// The field that is read next.
    pub closed spec fn phase(self) -> HandshakePhase {
        match self.field {
            Field::SecretLen => HandshakePhase::SecretLen,
            Field::Secret => HandshakePhase::Secret(self.size as nat),
            Field::Version => HandshakePhase::Version,
            Field::PathSize => HandshakePhase::PathSize,
            Field::Path => HandshakePhase::Path(self.size as nat),
            Field::Request => HandshakePhase::Request(self.dest_path@),
            Field::Over => HandshakePhase::Over,
        }
    }

    /// The handshake with a client that has just connected.
    pub fn new(secret: String) -> (handshake: Self)
        ensures
            handshake.wf(),
            handshake.secret() == secret@,
            handshake.phase() == HandshakePhase::SecretLen,
    {
        ServerHandshake { secret, field: Field::SecretLen, size: 1, dest_path: String::new() }
    }

    /// How many bytes to read from the client next.
    pub fn needed(&self) -> (n: usize)
        requires
            self.wf(),
        ensures
            n == field_size(self.phase()),
    {
        self.size
    }

    /// Takes the field that was read from the client.
    pub fn receive(&mut self, field: Vec<u8>) -> (step: HandshakeStep)
        requires
            old(self).wf(),
            old(self).phase() != HandshakePhase::Over,
            field@.len() == field_size(old(self).phase()),
        ensures
            final(self).wf(),
            final(self).secret() == old(self).secret(),
            (final(self).phase(), step@) == handshake_step(
                old(self).secret(),
                old(self).phase(),
                field@,
            ),
    {
        match self.field {
            Field::SecretLen => {
                let len: usize = self.secret.as_str().as_bytes().len();
                if field[0] == (len % 256) as u8 {
                    self.field = Field::Secret;
                    self.size = field[0] as usize;
                    HandshakeStep::Continue
                } else {
                    self.end();
                    HandshakeStep::Reject(StatusCode::InvalidSecret)
                }
            },
            Field::Secret => {
                if same_bytes(field.as_slice(), self.secret.as_str().as_bytes()) {
                    self.field = Field::Version;
                    self.size = 1;
                    HandshakeStep::Acknowledge
                } else {
                    self.end();
                    HandshakeStep::Reject(StatusCode::InvalidSecret)
                }
            },
            Field::Version => {
                if field[0] == PROTOCOL_VERSION {
                    self.field = Field::PathSize;
                    self.size = 8;
                    HandshakeStep::Acknowledge
                } else {
                    self.end();
                    HandshakeStep::Reject(StatusCode::UnsupportedProtocolVersion)
                }
            },
            Field::PathSize => {
                match common::read_string_size(field.as_slice(), MAX_PATH_SIZE) {
                    Ok(size) => {
                        self.field = Field::Path;
                        self.size = size;
                        HandshakeStep::Continue
                    },
                    Err(e) => {
                        self.end();
                        HandshakeStep::Fail(e)
                    },
                }
            },
            Field::Path => {
                match common::read_string(field) {
                    Ok(dest_path) => {
                        self.field = Field::Request;
                        self.size = REQUEST_SIZE;
                        self.dest_path = dest_path;
                        HandshakeStep::Continue
                    },
                    Err(e) => {
                        self.end();
                        HandshakeStep::Fail(e)
                    },
                }
            },
            Field::Request => {
                let mut dest_path: String = String::new();
                std::mem::swap(&mut dest_path, &mut self.dest_path);
                self.end();
                match read_request(dest_path, field.as_slice()) {
                    Ok(request) => HandshakeStep::Open(request),
                    Err(status) => HandshakeStep::Reject(status),
                }
            },
            Field::Over => HandshakeStep::Continue,
        }
    }

    /// Reads no more fields.
    fn end(&mut self)
        ensures
            final(self).wf(),
            final(self).secret() == old(self).secret(),
            final(self).phase() == HandshakePhase::Over,
    {
        self.field = Field::Over;
        self.size = 0;
    }
}

/// Whether two byte strings are the same.
fn same_bytes(left: &[u8], right: &[u8]) -> (same: bool)
    ensures
        same == (left@ == right@),
{
    if left.len() != right.len() {
        return false;
    }
    let mut i: usize = 0;
    while i < left.len()
        invariant
            i <= left@.len(),
            left@.len() == right@.len(),
            forall|j: int| 0 <= j < i ==> left@[j] == right@[j],
        decreases left@.len() - i,
    {
        if left[i] != right[i] {
            return false;
        }
        i += 1;
    }
    assert(left@ =~= right@);
    true
}

/// The request for `dest_path` that the field of sizes and options makes.
fn read_request(dest_path: String, field: &[u8]) -> (request: Result<SyncRequest, StatusCode>)
    requires
        field@.len() == REQUEST_SIZE,
    ensures
        match request {
            Ok(r) => request_of(dest_path@, field@) == Ok::<RequestView, StatusCode>(r@),
            Err(status) => request_of(dest_path@, field@) == Err::<RequestView, StatusCode>(status),
        },
{
    let hash_algorithm = match HashAlgorithm::try_from(field[17]) {
        Ok(algorithm) => algorithm,
        Err(_) => {
            return Err(StatusCode::UnknownHashAlgorithm);
        },
    };
    assert(field@.subrange(0, 8) =~= field@.take(8));
    let block_size: usize = endian::decode_word(slice_subrange(field, 0, 8)) as usize;
    let file_size: u64 = endian::decode_word(slice_subrange(field, 8, 16));
    Ok(
        SyncRequest {
            dest_path,
            block_size,
            file_size,
            force_truncate: field[16] != 0,
            hash_algorithm,
        },
    )
}

/// What was found when the destination was opened, or when it was to be created.
#[derive(Debug, Clone, Copy, PartialEq, Eq, Structural)]
pub enum Destination {
    /// A file of this size.
    Exists(u64),
    /// No file.
    Missing,
    /// A path that is not accessible.
    Denied,
    /// Something else went wrong.
    Failed,
}

/// What is to be done with the destination.
#[derive(Debug, Clone, Copy, PartialEq, Eq, Structural)]
pub enum DestinationAction {
    /// Set the size of the file, then answer `Ack` and synchronise.
    Resize(u64),
    /// Create the file with this size, then answer `Ack` and synchronise; if it cannot be
    /// created, decide again on what was found then.
    Create(u64),
    /// Answer with this status: the client is refused.
    Reject(StatusCode),
    /// Drop the client with the error of the system.
    Fail,
}

/// What is to be done with a destination for a file of `file_size` bytes.
pub open spec fn destination_action(
    found: Destination,
    file_size: u64,
    force_truncate: bool,
) -> DestinationAction {
    match found {
        Destination::Exists(size) => if size == file_size || force_truncate {
            DestinationAction::Resize(file_size)
        } else {
            DestinationAction::Reject(StatusCode::FileSizeDiffers)
        },
        Destination::Missing => DestinationAction::Create(file_size),
        Destination::Denied => DestinationAction::Reject(StatusCode::PermissionDenied),
        Destination::Failed => DestinationAction::Fail,
    }
}

/// Decides what is to be done with the destination of a request.
pub fn open_destination(found: Destination, file_size: u64, force_truncate: bool) -> (action:
    DestinationAction)
    ensures
        action == destination_action(found, file_size, force_truncate),
{
    match found {
        Destination::Exists(actual_size) => if actual_size == file_size || force_truncate {
            DestinationAction::Resize(file_size)
        } else {
            DestinationAction::Reject(StatusCode::FileSizeDiffers)
        },
        Destination::Missing => DestinationAction::Create(file_size),
        Destination::Denied => DestinationAction::Reject(StatusCode::PermissionDenied),
        Destination::Failed => DestinationAction::Fail,
    }
}

/// A server that goes on to synchronise works on a file of the size of the source, and
/// no file loses bytes, or gets any, unless the client insists or it is a new one. It
/// always goes on with a missing file, which is created, and with one that has the size
/// or may be given it; it gives up only on what has failed.
pub proof fn law_destination_gets_source_size(
    found: Destination,
    file_size: u64,
    force_truncate: bool,
)
    ensures
        found is Missing ==> destination_action(found, file_size, force_truncate)
            == DestinationAction::Create(file_size),
        found matches Destination::Exists(n) ==> n == file_size || force_truncate
            ==> destination_action(found, file_size, force_truncate) == DestinationAction::Resize(
            file_size,
        ),
        destination_action(found, file_size, force_truncate) matches DestinationAction::Resize(n)
            ==> n == file_size && (found == Destination::Exists(n) || (force_truncate
            && found is Exists)),
        destination_action(found, file_size, force_truncate) matches DestinationAction::Create(n)
            ==> n == file_size && found == Destination::Missing,
        destination_action(found, file_size, force_truncate) == DestinationAction::Reject(
            StatusCode::FileSizeDiffers,
        ) <==> found is Exists && found->Exists_0 != file_size && !force_truncate,
        destination_action(found, file_size, force_truncate) == DestinationAction::Reject(
            StatusCode::PermissionDenied,
        ) <==> found is Denied,
        destination_action(found, file_size, force_truncate) is Fail <==> found is Failed,
{
}

/// Insisting matters for a file of another size alone.
pub proof fn law_force_matters_for_other_sizes(found: Destination, file_size: u64)
    ensures
        destination_action(found, file_size, true) != destination_action(found, file_size, false)
            <==> found is Exists && found->Exists_0 != file_size,
{
}

/// What a server is to do after bytes of a client.
#[derive(Debug, Clone, Copy, PartialEq, Eq, Structural)]
pub enum ServerStep {
    /// Read more bytes.
    Continue,
    /// Position the file at this offset and write the pending block there.
    WriteAt(usize),
    /// The client has sent what it had to send: answer with this status.
    Finish(StatusCode),
}

/// A message that is being written: its bytes and how many of them are written.
#[verifier::ext_equal]
pub struct Progress {
    pub bytes: Seq<u8>,
    pub written: nat,
}

/// What is left of a write of which `n` more bytes are done.
pub open spec fn progressed(progress: Progress, n: nat) -> Option<Progress> {
    if progress.written + n == progress.bytes.len() {
        None
    } else {
        Some(Progress { bytes: progress.bytes, written: progress.written + n })
    }
}

/// A write goes on until all its bytes are written: it is over exactly when the last one
/// is, and until it is its bytes stay the same and each of them that is taken counts once.
pub proof fn law_write_is_over_when_all_is_written(progress: Progress, n: nat)
    requires
        progress.written + n <= progress.bytes.len(),
    ensures
        progressed(progress, n) is None <==> progress.written + n == progress.bytes.len(),
        progressed(progress, n) matches Some(after) ==> after.bytes == progress.bytes
            && after.written == progress.written + n && after.written < after.bytes.len(),
{
}

/// What is left of a write of which pieces of these sizes are done, one after the other.
pub open spec fn left_after(progress: Option<Progress>, sizes: Seq<nat>) -> Option<Progress>
    decreases sizes.len(),
{
    if sizes.len() == 0 || progress is None {
        progress
    } else {
        left_after(progressed(progress->0, sizes[0]), sizes.skip(1))
    }
}

/// The bytes of these pieces.
pub open spec fn handed_out(progress: Option<Progress>, sizes: Seq<nat>) -> Seq<u8>
    decreases sizes.len(),
{
    if sizes.len() == 0 || progress is None {
        Seq::empty()
    } else {
        let pending = progress->0.bytes.skip(progress->0.written as int);
        pending.take(sizes[0] as int) + handed_out(
            progressed(progress->0, sizes[0]),
            sizes.skip(1),
        )
    }
}

/// Whether each of these pieces is taken from bytes that are pending.
pub open spec fn can_be_taken(progress: Option<Progress>, sizes: Seq<nat>) -> bool
    decreases sizes.len(),
{
    sizes.len() == 0 || progress is None || {
        &&& progress->0.written + sizes[0] <= progress->0.bytes.len()
        &&& can_be_taken(progressed(progress->0, sizes[0]), sizes.skip(1))
    }
}

/// In whatever pieces a message or a block is taken, these make up all of it once the
/// write is over; and as long as it is not, what was taken and what is pending do.
pub proof fn law_pieces_make_up_the_whole(progress: Progress, sizes: Seq<nat>)
    requires
        progress.written <= progress.bytes.len(),
        can_be_taken(Some(progress), sizes),
    ensures
        match left_after(Some(progress), sizes) {
            None => handed_out(Some(progress), sizes) == progress.bytes.skip(
                progress.written as int,
            ),
            Some(after) => {
                &&& after.bytes == progress.bytes
                &&& after.written <= after.bytes.len()
                &&& handed_out(Some(progress), sizes) + after.bytes.skip(after.written as int)
                    == progress.bytes.skip(progress.written as int)
            },
        },
    decreases sizes.len(),
{
    let whole = progress.bytes.skip(progress.written as int);
    if sizes.len() == 0 {
        assert(handed_out(Some(progress), sizes) + whole =~= whole);
    } else {
        let n = sizes[0];
        let rest = sizes.skip(1);
        let next = progressed(progress, n);
        law_write_is_over_when_all_is_written(progress, n);
        assert(whole =~= whole.take(n as int) + whole.skip(n as int));
        match next {
            None => {
                assert(left_after(next, rest) is None);
                assert(handed_out(next, rest) =~= Seq::<u8>::empty());
                assert(handed_out(Some(progress), sizes) =~= whole);
            },
            Some(after) => {
                law_pieces_make_up_the_whole(after, rest);
                assert(after.bytes.skip(after.written as int) =~= whole.skip(n as int));
                match left_after(next, rest) {
                    None => {
                        assert(handed_out(Some(progress), sizes) =~= whole);
                    },
                    Some(last) => {
                        assert(handed_out(Some(progress), sizes) + last.bytes.skip(
                            last.written as int,
                        ) =~= whole.take(n as int) + (handed_out(next, rest) + last.bytes.skip(
                            last.written as int,
                        )));
                    },
                }
            },
        }
    }
}

/// The exchange of a server with one client, after the handshake.
///
/// Two things go on side by side: hashes are sent to the client one after the other,
/// and blocks that come from the client are written to the file. The next block is read
/// into a buffer of its own, and only when the one before is on disk.
pub struct ServerSync {
    reader: ResumableReadFileBlock,
    write_buffer: Vec<u8>,
    disk: Option<ResumableAsyncWriteAll>,
    hash: Option<ResumableWriteString>,
    hashes_over: bool,
}

impl ServerSync {
    pub closed spec fn wf(self) -> bool {
        &&& self.reader.wf()
        &&& self.disk matches Some(disk) ==> disk.written() <= self.write_buffer@.len()
        &&& self.hash matches Some(hash) ==> hash.wf()
    }

    pub closed spec fn block_size(self) -> nat {
        self.reader.block_size()
    }

    pub closed spec fn file_size(self) -> nat {
        self.reader.file_size()
    }

    /// What has been received of the block being read.
    pub closed spec fn received(self) -> Seq<u8> {
        self.reader.received()
    }

    /// The block that is being written to the file.
    pub closed spec fn disk(self) -> Option<Progress> {
        match self.disk {
            None => None,
            Some(disk) => Some(
                Progress { bytes: self.write_buffer@, written: disk.written() },
            ),
        }
    }

    /// The message that is being sent to the client.
    pub closed spec fn hash(self) -> Option<Progress> {
        match self.hash {
            None => None,
            Some(hash) => Some(Progress { bytes: hash.frame(), written: hash.written() }),
        }
    }

    /// Whether all hashes have been sent or are being sent.
    pub closed spec fn hashes_over(self) -> bool {
        self.hashes_over
    }

    /// Whether `self` reads blocks as `other` does.
    pub open spec fn same_reading(self, other: ServerSync) -> bool {
        &&& self.block_size() == other.block_size()
        &&& self.file_size() == other.file_size()
        &&& self.received() == other.received()
    }

    /// The exchange with a client about a file of `file_size` bytes.
    pub fn new(block_size: usize, file_size: usize) -> (sync: Self)
        ensures
            sync.wf(),
            sync.block_size() == block_size,
            sync.file_size() == file_size,
            sync.received() == Seq::<u8>::empty(),
            sync.disk() is None,
            sync.hash() is None,
            !sync.hashes_over(),
    {
        ServerSync {
            reader: ResumableReadFileBlock::new(block_size, file_size),
            write_buffer: Vec::new(),
            disk: None,
            hash: None,
            hashes_over: false,
        }
    }

    /// The bytes to write to the file, if a block is being written.
    pub fn disk_pending(&self) -> (bytes: Option<&[u8]>)
        requires
            self.wf(),
        ensures
            match bytes {
                None => self.disk() is None,
                Some(b) => {
                    &&& self.disk() is Some
                    &&& b@ == self.disk()->0.bytes.skip(self.disk()->0.written as int)
                    &&& b@.len() == self.disk()->0.bytes.len() - self.disk()->0.written
                },
            },
    {
        match &self.disk {
            None => None,
            Some(disk) => Some(disk.pending(self.write_buffer.as_slice())),
        }
    }

    /// Records that the file took `n` of the pending bytes.
    pub fn disk_written(&mut self, n: usize)
        requires
            old(self).wf(),
            old(self).disk() matches Some(p) && p.written + n <= p.bytes.len(),
        ensures
            final(self).wf(),
            final(self).hashes_over() == old(self).hashes_over(),
            final(self).same_reading(*old(self)),
            final(self).hash() == old(self).hash(),
            final(self).disk() == progressed(old(self).disk()->0, n as nat),
    {
        let mut disk: Option<ResumableAsyncWriteAll> = None;
        std::mem::swap(&mut disk, &mut self.disk);
        if let Some(mut writer) = disk {
            if !writer.write_all(self.write_buffer.as_slice(), n) {
                self.disk = Some(writer);
            }
        }
    }

    /// Gives up on the block that is being written: the file refused it.
    pub fn disk_failed(&mut self)
        requires
            old(self).wf(),
        ensures
            final(self).wf(),
            final(self).hashes_over() == old(self).hashes_over(),
            final(self).same_reading(*old(self)),
            final(self).hash() == old(self).hash(),
            final(self).disk() is None,
    {
        self.disk = None;
    }

    /// Whether blocks are to be read from the client: not while one is being written to
    /// the file.
    pub fn reads_blocks(&self) -> (r: bool)
        ensures
            r == (self.disk() is None),
    {
        self.disk.is_none()
    }

    /// How many bytes may be read from the client next.
    pub fn block_needed(&self) -> (n: usize)
        requires
            self.wf(),
        ensures
            n == common::file_block_needed(self.block_size(), self.file_size(), self.received()),
            n > 0,
    {
        self.reader.needed()
    }

    /// Takes bytes that were read from the client, of which there are none when it closed
    /// the connection. A complete block is to be written at its offset. What ends the
    /// blocks, be it the end of the connection or a block that cannot be read, is taken
    /// for the end of the synchronisation.
    pub fn block_received(&mut self, chunk: &[u8]) -> (step: ServerStep)
        requires
            old(self).wf(),
            old(self).disk() is None,
            chunk@.len() <= common::file_block_needed(
                old(self).block_size(),
                old(self).file_size(),
                old(self).received(),
            ),
        ensures
            final(self).wf(),
            final(self).hashes_over() == old(self).hashes_over(),
            final(self).block_size() == old(self).block_size(),
            final(self).file_size() == old(self).file_size(),
            final(self).hash() == old(self).hash(),
            ({
                let (outcome, received) = common::file_block_step(
                    old(self).block_size(),
                    old(self).file_size(),
                    old(self).received(),
                    chunk@,
                );
                &&& final(self).received() == received
                &&& match outcome {
                    Ok(None) => step == ServerStep::Continue && final(self).disk() is None,
                    Ok(Some((offset, data))) => {
                        &&& step == ServerStep::WriteAt(offset as usize)
                        &&& offset <= old(self).file_size()
                        &&& final(self).disk() == Some(Progress { bytes: data, written: 0 })
                    },
                    Err(_) => step == ServerStep::Finish(StatusCode::Ack)
                        && final(self).disk() is None,
                }
            }),
    {
        match self.reader.read_on(chunk, &mut self.write_buffer) {
            Ok(None) => ServerStep::Continue,
            Ok(Some(offset)) => {
                self.disk = Some(ResumableAsyncWriteAll::new());
                ServerStep::WriteAt(offset)
            },
            Err(_) => ServerStep::Finish(StatusCode::Ack),
        }
    }

    /// The bytes to send to the client, if a hash is being sent.
    pub fn hash_pending(&self) -> (bytes: Option<&[u8]>)
        requires
            self.wf(),
        ensures
            match bytes {
                None => self.hash() is None,
                Some(b) => {
                    &&& self.hash() is Some
                    &&& b@ == self.hash()->0.bytes.skip(self.hash()->0.written as int)
                    &&& b@.len() == self.hash()->0.bytes.len() - self.hash()->0.written
                },
            },
    {
        match &self.hash {
            None => None,
            Some(hash) => Some(hash.pending()),
        }
    }

    /// Records that the client took `n` of the pending bytes.
    pub fn hash_written(&mut self, n: usize)
        requires
            old(self).wf(),
            old(self).hash() matches Some(p) && p.written + n <= p.bytes.len(),
        ensures
            final(self).wf(),
            final(self).hashes_over() == old(self).hashes_over(),
            final(self).same_reading(*old(self)),
            final(self).disk() == old(self).disk(),
            final(self).hash() == progressed(old(self).hash()->0, n as nat),
    {
        let mut hash: Option<ResumableWriteString> = None;
        std::mem::swap(&mut hash, &mut self.hash);
        if let Some(mut writer) = hash {
            if !writer.write_to(n) {
                self.hash = Some(writer);
            }
        }
    }

    /// Gives up on the hash that is being sent: the connection refused it.
    pub fn hash_failed(&mut self)
        requires
            old(self).wf(),
        ensures
            final(self).wf(),
            final(self).hashes_over() == old(self).hashes_over(),
            final(self).same_reading(*old(self)),
            final(self).disk() == old(self).disk(),
            final(self).hash() is None,
    {
        self.hash = None;
    }

    /// Whether the next hash is wanted: not while one is being sent, nor after the last
    /// one.
    pub fn wants_hash(&self) -> (r: bool)
        ensures
            r == (self.hash() is None && !self.hashes_over()),
    {
        self.hash.is_none() && !self.hashes_over
    }

    /// There are no more hashes.
    pub fn hashes_ended(&mut self)
        requires
            old(self).wf(),
        ensures
            final(self).wf(),
            final(self).same_reading(*old(self)),
            final(self).disk() == old(self).disk(),
            final(self).hash() == old(self).hash(),
            final(self).hashes_over(),
    {
        self.hashes_over = true;
    }

    /// Sends the hash of the next block.
    pub fn next_hash(&mut self, hash: &str)
        requires
            old(self).wf(),
            old(self).hash() is None,
        ensures
            final(self).wf(),
            final(self).hashes_over() == old(self).hashes_over(),
            final(self).same_reading(*old(self)),
            final(self).disk() == old(self).disk(),
            final(self).hash() == Some(
                Progress { bytes: common::string_frame(hash@), written: 0 },
            ),
    {
        self.hash = Some(ResumableWriteString::new(hash));
    }
}

/// Exchanges that read blocks alike have received the same of the same file.
pub proof fn law_same_reading_is_same(left: ServerSync, right: ServerSync)
    requires
        left.same_reading(right),
    ensures
        left.block_size() == right.block_size(),
        left.file_size() == right.file_size(),
        left.received() == right.received(),
{
}

} // verus!
