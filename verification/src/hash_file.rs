//! Hashing a file block by block, shared out among workers.

use crate::blocks;
use crate::text;
use vstd::prelude::*;

verus! {

/// How the hash of a block is computed, one byte on the wire.
#[derive(Debug, Clone, Copy, PartialEq, Eq, Structural)]
pub enum HashAlgorithm {
    CRC32,
    MD5,
}

impl Default for HashAlgorithm {
    fn default() -> (algorithm: HashAlgorithm)
        ensures
            algorithm == HashAlgorithm::CRC32,
    {
        HashAlgorithm::CRC32
    }
}

/// The byte of a hash algorithm on the wire.
pub open spec fn algorithm_byte(algorithm: HashAlgorithm) -> u8 {
    match algorithm {
        HashAlgorithm::CRC32 => 1,
        HashAlgorithm::MD5 => 2,
    }
}

/// The hash algorithm that a byte stands for, or the byte itself when it stands for
/// none.
pub open spec fn byte_algorithm(byte: u8) -> Result<HashAlgorithm, u8> {
    if byte == 1 {
        Ok(HashAlgorithm::CRC32)
    } else if byte == 2 {
        Ok(HashAlgorithm::MD5)
    } else {
        Err(byte)
    }
}

/// A hash algorithm survives the wire, and every byte but two is refused.
pub proof fn law_algorithm_round_trip(algorithm: HashAlgorithm, byte: u8)
    ensures
        byte_algorithm(algorithm_byte(algorithm)) == Ok::<HashAlgorithm, u8>(algorithm),
        byte_algorithm(byte) matches Ok(a) ==> algorithm_byte(a) == byte,
        byte_algorithm(byte) is Err <==> byte != 1 && byte != 2,
{
}

impl vstd::std_specs::convert::FromSpecImpl<HashAlgorithm> for u8 {
    open spec fn obeys_from_spec() -> bool {
        true
    }

    open spec fn from_spec(algorithm: HashAlgorithm) -> u8 {
        algorithm_byte(algorithm)
    }
}

impl From<HashAlgorithm> for u8 {
    fn from(algorithm: HashAlgorithm) -> (byte: u8) {
        match algorithm {
            HashAlgorithm::CRC32 => 1,
            HashAlgorithm::MD5 => 2,
        }
    }
}

impl vstd::std_specs::convert::TryFromSpecImpl<u8> for HashAlgorithm {
    open spec fn obeys_try_from_spec() -> bool {
        true
    }

    open spec fn try_from_spec(byte: u8) -> Result<HashAlgorithm, u8> {
        byte_algorithm(byte)
    }
}

impl TryFrom<u8> for HashAlgorithm {
    type Error = u8;

    fn try_from(byte: u8) -> (algorithm: Result<HashAlgorithm, u8>) {
        match byte {
            1 => Ok(HashAlgorithm::CRC32),
            2 => Ok(HashAlgorithm::MD5),
            _ => Err(byte),
        }
    }
}

/// The remainder `crc`, `n` bits further on: dividing by the Castagnoli polynomial, with
/// the coefficient of the highest power in the lowest bit.
pub open spec fn crc32c_bits(crc: u32, n: nat) -> u32
    decreases n,
{
    if n == 0 {
        crc
    } else {
        let before = crc32c_bits(crc, (n - 1) as nat);
        if before & 1 == 1 {
            (before >> 1) ^ 0x82f63b78
        } else {
            before >> 1
        }
    }
}

/// The remainder after all of `data`, from the one with all bits set.
pub open spec fn crc32c_remainder(data: Seq<u8>) -> u32
    decreases data.len(),
{
    if data.len() == 0 {
        0xffff_ffff
    } else {
        crc32c_bits(crc32c_remainder(data.drop_last()) ^ (data.last() as u32), 8)
    }
}

/// The CRC-32C (Castagnoli) checksum of `data`: the complement of the remainder.
pub open spec fn crc32c_checksum(data: Seq<u8>) -> u32 {
    !crc32c_remainder(data)
}

/// The MD5 digest of `data`, as the crate `md-5` computes it.
pub uninterp spec fn md5_digest(data: Seq<u8>) -> Seq<u8>;

/// Calls `crc32c::crc32c`. The claim is what its documentation says: that it computes the
/// CRC-32-Castagnoli of the data.
#[verifier::external_body]
fn crc32c(data: &[u8]) -> (checksum: u32)
    ensures
        checksum == crc32c_checksum(data@),
{
    crc32c::crc32c(data)
}

/// Calls `Md5::digest` of the crate `md-5`. The claim is that the digest is a function
/// of the data alone and that it has 16 bytes.
#[verifier::external_body]
fn md5(data: &[u8]) -> (digest: Vec<u8>)
    ensures
        digest@ == md5_digest(data@),
        digest@.len() == 16,
{
    <md5::Md5 as md5::Digest>::digest(data).to_vec()
}

/// The character of a hexadecimal digit, in lower case.
pub open spec fn hex_digit(d: nat) -> char {
    if d < 10 {
        text::digit(d)
    } else {
        ((87 + d) as u8) as char
    }
}

/// The hexadecimal notation of `bytes`: two digits for each of them.
pub open spec fn hex_text(bytes: Seq<u8>) -> Seq<char> {
    Seq::new(
        2 * bytes.len(),
        |i: int|
            if i % 2 == 0 {
                hex_digit((bytes[i / 2] / 16) as nat)
            } else {
                hex_digit((bytes[i / 2] % 16) as nat)
            },
    )
}

/// Calls `hex::encode`. The claim is that it writes two lower-case digits for each
/// byte, the more significant one first.
#[verifier::external_body]
fn hex_encode(bytes: &[u8]) -> (encoded: String)
    requires
        2 * bytes@.len() <= isize::MAX,
    ensures
        encoded@ == hex_text(bytes@),
{
    hex::encode(bytes)
}

/// The four bytes of `value`, least significant first.
pub open spec fn little_endian(value: u32) -> Seq<u8> {
    seq![
        (value % 256) as u8,
        (value / 256 % 256) as u8,
        (value / 65536 % 256) as u8,
        (value / 16777216) as u8,
    ]
}

/// The hash of a block, as it is compared and sent.
pub open spec fn hash_text(data: Seq<u8>, algorithm: HashAlgorithm) -> Seq<char> {
    match algorithm {
        HashAlgorithm::CRC32 => hex_text(little_endian(crc32c_checksum(data))),
        HashAlgorithm::MD5 => hex_text(md5_digest(data)),
    }
}

fn little_endian_bytes(value: u32) -> (bytes: Vec<u8>)
    ensures
        bytes@ == little_endian(value),
{
    let bytes: Vec<u8> = vec![
        (value % 256) as u8,
        (value / 256 % 256) as u8,
        (value / 65536 % 256) as u8,
        (value / 16777216) as u8,
    ];
    assert(bytes@ =~= little_endian(value));
    bytes
}

/// The hexadecimal text of a checksum.
pub fn checksum_text(checksum: u32) -> (hash: String)
    ensures
        hash@ == hex_text(little_endian(checksum)),
{
    hex_encode(little_endian_bytes(checksum).as_slice())
}

/// The hexadecimal text of a digest.
pub fn digest_text(digest: &[u8]) -> (hash: String)
    requires
        2 * digest@.len() <= isize::MAX,
    ensures
        hash@ == hex_text(digest@),
{
    hex_encode(digest)
}

/// The hash of a block, as it is compared and sent: 8 hexadecimal digits for `CRC32`,
/// 32 for `MD5`.
pub fn hash_data(data: &[u8], algorithm: HashAlgorithm) -> (hash: String)
    ensures
        hash@ == hash_text(data@, algorithm),
        algorithm == HashAlgorithm::CRC32 ==> hash@ == hex_text(
            little_endian(crc32c_checksum(data@)),
        ),
        algorithm == HashAlgorithm::MD5 ==> hash@ == hex_text(md5_digest(data@)),
        hash@.len() == (match algorithm {
            HashAlgorithm::CRC32 => 8int,
            HashAlgorithm::MD5 => 32int,
        }),
{
    match algorithm {
        HashAlgorithm::CRC32 => checksum_text(crc32c(data)),
        HashAlgorithm::MD5 => {
            let digest = md5(data);
            digest_text(digest.as_slice())
        },
    }
}

/// The number that a hexadecimal digit stands for.
pub open spec fn hex_value(c: char) -> nat {
    if '0' <= c <= '9' {
        (c as nat - '0' as nat) as nat
    } else {
        (c as nat - 'a' as nat + 10) as nat
    }
}

/// Hexadecimal text gives back each byte: it has two digits for each of them, all of
/// them in lower case, the more significant one first.
pub proof fn law_hex_reads_back(bytes: Seq<u8>, i: int)
    requires
        0 <= i < bytes.len(),
    ensures
        hex_text(bytes).len() == 2 * bytes.len(),
        hex_value(hex_text(bytes)[2 * i]) * 16 + hex_value(hex_text(bytes)[2 * i + 1]) == bytes[i],
        '0' <= hex_text(bytes)[2 * i] <= '9' || 'a' <= hex_text(bytes)[2 * i] <= 'f',
        '0' <= hex_text(bytes)[2 * i + 1] <= '9' || 'a' <= hex_text(bytes)[2 * i + 1] <= 'f',
{
    let text = hex_text(bytes);
    assert((2 * i) / 2 == i && (2 * i) % 2 == 0);
    assert((2 * i + 1) / 2 == i && (2 * i + 1) % 2 == 1);
    assert(text[2 * i] == hex_digit((bytes[i] / 16) as nat));
    assert(text[2 * i + 1] == hex_digit((bytes[i] % 16) as nat));
}

/// Different bytes have different hexadecimal texts.
pub proof fn law_hex_tells_apart(left: Seq<u8>, right: Seq<u8>)
    requires
        left != right,
    ensures
        hex_text(left) != hex_text(right),
{
    if hex_text(left) == hex_text(right) {
        assert(hex_text(left).len() == 2 * left.len());
        assert(hex_text(right).len() == 2 * right.len());
        assert forall|i: int| 0 <= i < left.len() implies left[i] == right[i] by {
            law_hex_reads_back(left, i);
            law_hex_reads_back(right, i);
        }
        assert(left =~= right);
    }
}

/// The text of a hash of four bytes is the number that these stand for, the least
/// significant byte first.
pub proof fn law_little_endian_reads_back(value: u32)
    ensures
        little_endian(value).len() == 4,
        little_endian(value)[0] + 256 * little_endian(value)[1] + 65536 * little_endian(value)[2]
            + 16777216 * little_endian(value)[3] == value,
{
}

/// The hash of a block is made of all its bytes: its digits are those of the CRC-32C
/// checksum of the whole block, the least significant byte first, or those of the MD5
/// digest of the whole block.
pub proof fn law_hash_is_of_whole_block(data: Seq<u8>, i: int)
    ensures
        ({
            let hash = hash_text(data, HashAlgorithm::CRC32);
            let byte = |k: int| hex_value(hash[2 * k]) * 16 + hex_value(hash[2 * k + 1]);
            &&& hash.len() == 8
            &&& byte(0) + 256 * byte(1) + 65536 * byte(2) + 16777216 * byte(3)
                == crc32c_checksum(data)
        }),
        ({
            let hash = hash_text(data, HashAlgorithm::MD5);
            &&& hash.len() == 2 * md5_digest(data).len()
            &&& 0 <= i < md5_digest(data).len() ==> hex_value(hash[2 * i]) * 16 + hex_value(
                hash[2 * i + 1],
            ) == md5_digest(data)[i]
        }),
{
    let bytes = little_endian(crc32c_checksum(data));
    law_little_endian_reads_back(crc32c_checksum(data));
    law_hex_reads_back(bytes, 0);
    law_hex_reads_back(bytes, 1);
    law_hex_reads_back(bytes, 2);
    law_hex_reads_back(bytes, 3);
    if 0 <= i < md5_digest(data).len() {
        law_hex_reads_back(md5_digest(data), i);
    }
}

/// Blocks whose checksums or digests differ have different hashes, so that they are found
/// to diverge.
pub proof fn law_hash_tells_checksums_apart(left: Seq<u8>, right: Seq<u8>)
    ensures
        crc32c_checksum(left) != crc32c_checksum(right) ==> hash_text(left, HashAlgorithm::CRC32)
            != hash_text(right, HashAlgorithm::CRC32),
        md5_digest(left) != md5_digest(right) ==> hash_text(left, HashAlgorithm::MD5) != hash_text(
            right,
            HashAlgorithm::MD5,
        ),
{
    if crc32c_checksum(left) != crc32c_checksum(right) {
        law_hash_is_of_whole_block(left, 0);
        law_hash_is_of_whole_block(right, 0);
    }
    if md5_digest(left) != md5_digest(right) {
        law_hex_tells_apart(md5_digest(left), md5_digest(right));
    }
}

/// No two remainders become the same by going the same number of bits on.
proof fn lemma_bits_tell_apart(left: u32, right: u32, n: nat)
    requires
        left != right,
    ensures
        crc32c_bits(left, n) != crc32c_bits(right, n),
    decreases n,
{
    if n > 0 {
        lemma_bits_tell_apart(left, right, (n - 1) as nat);
        let x = crc32c_bits(left, (n - 1) as nat);
        let y = crc32c_bits(right, (n - 1) as nat);
        assert((if x & 1 == 1 {
            (x >> 1) ^ 0x82f63b78
        } else {
            x >> 1
        }) != (if y & 1 == 1 {
            (y >> 1) ^ 0x82f63b78
        } else {
            y >> 1
        })) by (bit_vector)
            requires
                x != y,
        ;
    }
}

proof fn lemma_remainder_tells_byte_apart(data: Seq<u8>, at: int, byte: u8)
    requires
        0 <= at < data.len(),
        byte != data[at],
    ensures
        crc32c_remainder(data) != crc32c_remainder(data.update(at, byte)),
    decreases data.len(),
{
    let changed = data.update(at, byte);
    let x = crc32c_remainder(data.drop_last());
    let y = crc32c_remainder(changed.drop_last());
    let a = data.last() as u32;
    let b = changed.last() as u32;
    if at == data.len() - 1 {
        assert(changed.drop_last() =~= data.drop_last());
        assert(a != b);
        assert(x ^ a != x ^ b) by (bit_vector)
            requires
                a != b,
        ;
    } else {
        assert(changed.drop_last() =~= data.drop_last().update(at, byte));
        lemma_remainder_tells_byte_apart(data.drop_last(), at, byte);
        assert(a == b);
        assert(x ^ a != y ^ a) by (bit_vector)
            requires
                x != y,
        ;
    }
    lemma_bits_tell_apart(x ^ a, y ^ b, 8);
}

/// A block in which one byte has changed, wherever it stands and however long the block
/// is, has another CRC-32C checksum and another hash.
pub proof fn law_changed_byte_is_found(data: Seq<u8>, at: int, byte: u8)
    requires
        0 <= at < data.len(),
        byte != data[at],
    ensures
        crc32c_checksum(data) != crc32c_checksum(data.update(at, byte)),
        hash_text(data, HashAlgorithm::CRC32) != hash_text(
            data.update(at, byte),
            HashAlgorithm::CRC32,
        ),
{
    lemma_remainder_tells_byte_apart(data, at, byte);
    let x = crc32c_remainder(data);
    let y = crc32c_remainder(data.update(at, byte));
    assert(!x != !y) by (bit_vector)
        requires
            x != y,
    ;
    law_hash_tells_checksums_apart(data, data.update(at, byte));
}

/// A block of a file: its hash and its bytes. Whoever shares the buffer of the bytes
/// with others chooses the type `T` that stands for it.
pub struct FileBlockData<T> {
    pub hash: String,
    pub data: T,
}

impl<T> FileBlockData<T> {
    /// A block whose hash is not known yet.
    pub fn new(data: T) -> (block: Self)
        ensures
            block.hash@ == Seq::<char>::empty(),
            block.data == data,
    {
        FileBlockData { hash: String::new(), data }
    }
}

/// The block that a worker goes on to after block `idx`.
pub open spec fn block_after(workers: nat, idx: nat) -> nat {
    idx + workers
}

/// The block that the worker `index` of `workers` is at on its turn number `turn`.
pub open spec fn nth_block(workers: nat, index: nat, turn: nat) -> nat
    decreases turn,
{
    if turn == 0 {
        index
    } else {
        block_after(workers, nth_block(workers, index, (turn - 1) as nat))
    }
}

/// A worker goes through every `workers`-th block from its own index on.
pub proof fn law_worker_strides(workers: nat, index: nat, turn: nat)
    ensures
        nth_block(workers, index, turn) == index + turn * workers,
    decreases turn,
{
    if turn > 0 {
        law_worker_strides(workers, index, (turn - 1) as nat);
        assert(turn * workers == (turn - 1) * workers + workers) by (nonlinear_arith);
    } else {
        assert(0 * workers == 0) by (nonlinear_arith);
    }
}

/// Every block falls to exactly one worker, on exactly one of its turns: to the worker
/// `idx % workers`, on the turn number `idx / workers`. On all turns before that the
/// worker is at blocks before it, so it does not stop on the way.
pub proof fn law_each_block_hashed_once(
    workers: nat,
    idx: nat,
    index: nat,
    turn: nat,
    earlier: nat,
)
    requires
        index < workers,
    ensures
        nth_block(workers, index, turn) == idx <==> index == idx % workers && turn == idx
            / workers,
        earlier < turn ==> nth_block(workers, index, earlier) < nth_block(workers, index, turn),
{
    law_worker_strides(workers, index, turn);
    law_worker_strides(workers, index, earlier);
    vstd::arithmetic::div_mod::lemma_fundamental_div_mod(idx as int, workers as int);
    if nth_block(workers, index, turn) == idx {
        vstd::arithmetic::div_mod::lemma_fundamental_div_mod_converse(
            idx as int,
            workers as int,
            turn as int,
            index as int,
        );
    }
    assert(workers * (idx / workers) == (idx / workers) * workers) by (nonlinear_arith);
    if earlier < turn {
        assert(earlier * workers < turn * workers) by (nonlinear_arith)
            requires
                earlier < turn,
                workers > 0,
        ;
    }
}

/// Which operation of a worker on the file failed.
#[derive(Debug, Clone, Copy, PartialEq, Eq, Structural)]
pub enum WorkerFailure {
    Open,
    Seek,
    /// Reading the block with this index.
    Read(usize),
    SeekToNext,
}

impl WorkerFailure {
    /// What a worker reports when the system gave `cause` for the failure.
    pub open spec fn report(self, cause: Seq<char>) -> Seq<char> {
        match self {
            WorkerFailure::Open => "Failed to open file: "@ + cause,
            WorkerFailure::Seek => "Failed to seek: "@ + cause,
            WorkerFailure::Read(idx) => "Failed to read block "@ + text::decimal(idx as nat) + ": "@
                + cause,
            WorkerFailure::SeekToNext => "Failed to seek to next block: "@ + cause,
        }
    }

    /// What a worker reports when the system gave `cause` for the failure.
    pub fn message(&self, cause: &str) -> (message: String)
        ensures
            message@ == self.report(cause@),
    {
        let mut message: String = String::new();
        match self {
            WorkerFailure::Open => message.append("Failed to open file: "),
            WorkerFailure::Seek => message.append("Failed to seek: "),
            WorkerFailure::Read(idx) => {
                message.append("Failed to read block ");
                text::push_decimal(&mut message, *idx as u64);
                message.append(": ");
            },
            WorkerFailure::SeekToNext => message.append("Failed to seek to next block: "),
        }
        message.append(cause);
        assert(message@ =~= self.report(cause@));
        message
    }
}

/// What a worker waits for.
#[derive(Debug, Clone, Copy, PartialEq, Eq, Structural)]
pub enum WorkerPhase {
    /// The file is being opened.
    Opening,
    /// The file is being positioned at the worker's first block.
    Seeking,
    /// The errors of the other workers are being looked up.
    Checking,
    /// The block is being read.
    Reading,
    /// The block is being sent, until its buffer has come back.
    Sending,
    /// The file is being positioned at the next block.
    SeekingNext,
    /// The worker is done.
    Stopped,
}

/// What is to be done for a worker.
pub enum WorkerAction {
    /// Position the file at this offset, then report to `positioned`.
    Seek(usize),
    /// See whether a worker has raised an error, then report to `checked`.
    Check,
    /// Read this many bytes, then report to `block_read`.
    Read(usize),
    /// Send the block that was read, with this index and hash, wait for its buffer to
    /// come back, then report to `sent`.
    Send(usize, String),
    /// Raise this error and close the channel: the worker is done.
    Fail(String),
    /// The worker is done.
    Stop,
}

/// One of the workers that hash a file.
///
/// The worker begins with the file being opened. It is told the outcome of each action,
/// and answers with the next one.
pub struct HashWorker {
    block_size: usize,
    file_size: usize,
    workers: u8,
    algorithm: HashAlgorithm,
    block_idx: usize,
    phase: WorkerPhase,
}

impl HashWorker {
    pub closed spec fn wf(self) -> bool {
        &&& self.workers > 0
        &&& self.phase != WorkerPhase::Opening && self.phase != WorkerPhase::Stopped
            ==> self.offset() <= usize::MAX
        &&& self.phase == WorkerPhase::Checking || self.phase == WorkerPhase::Reading || self.phase
            == WorkerPhase::Sending ==> self.has_block()
    }

    pub closed spec fn block_size(self) -> nat {
        self.block_size as nat
    }

    pub closed spec fn file_size(self) -> nat {
        self.file_size as nat
    }

    pub closed spec fn workers(self) -> nat {
        self.workers as nat
    }

    pub closed spec fn algorithm(self) -> HashAlgorithm {
        self.algorithm
    }

    /// What the worker waits for.
    pub closed spec fn phase(self) -> WorkerPhase {
        self.phase
    }

    /// The index of the block that the worker is at, or of one past the end of the file.
    pub closed spec fn block(self) -> nat {
        self.block_idx as nat
    }

    /// Whether the file reaches as far as the worker is.
    pub open spec fn has_block(self) -> bool {
        self.offset() < self.file_size()
    }

    /// Where in the file the block starts.
    pub open spec fn offset(self) -> nat {
        blocks::start(self.block_size(), self.block())
    }

    /// Whether `self` works as `other` does, on the same file.
    pub open spec fn same_work(self, other: HashWorker) -> bool {
        &&& self.block_size() == other.block_size()
        &&& self.file_size() == other.file_size()
        &&& self.workers() == other.workers()
        &&& self.algorithm() == other.algorithm()
    }

    /// Whether `self` works as `other` does and is at the same block.
    pub open spec fn same_block(self, other: HashWorker) -> bool {
        &&& self.same_work(other)
        &&& self.block() == other.block()
    }

    /// The worker after a failure that it reports and stops at.
    pub open spec fn fails(
        self,
        action: WorkerAction,
        after: HashWorker,
        failure: WorkerFailure,
        cause: Seq<char>,
    ) -> bool {
        &&& action matches WorkerAction::Fail(message) && message@ == failure.report(cause)
        &&& after.same_block(self)
        &&& after.phase() == WorkerPhase::Stopped
    }

    /// The worker after it stopped without a failure.
    pub open spec fn stops(self, action: WorkerAction, after: HashWorker) -> bool {
        &&& action is Stop
        &&& after.same_work(self)
        &&& after.phase() == WorkerPhase::Stopped
    }

    /// The worker after it asked for the file to be positioned at the block `idx`. It
    /// stops instead if there is no such index or no such offset.
    pub open spec fn seeks(
        self,
        action: WorkerAction,
        after: HashWorker,
        idx: nat,
        phase: WorkerPhase,
    ) -> bool {
        if idx <= usize::MAX && blocks::start(self.block_size(), idx) <= usize::MAX {
            &&& action matches WorkerAction::Seek(offset) && offset == blocks::start(
                self.block_size(),
                idx,
            )
            &&& after.same_work(self)
            &&& after.block() == idx
            &&& after.phase() == phase
        } else {
            self.stops(action, after)
        }
    }

    /// The worker `index` of `workers` on a file of `file_size` bytes.
    pub fn new(
        index: u8,
        workers: u8,
        block_size: usize,
        file_size: usize,
        algorithm: HashAlgorithm,
    ) -> (worker: Self)
        requires
            index < workers,
        ensures
            worker.wf(),
            worker.block_size() == block_size,
            worker.file_size() == file_size,
            worker.workers() == workers,
            worker.algorithm() == algorithm,
            worker.block() == index,
            worker.phase() == WorkerPhase::Opening,
    {
        HashWorker {
            block_size,
            file_size,
            workers,
            algorithm,
            block_idx: index as usize,
            phase: WorkerPhase::Opening,
        }
    }

    /// Stops with an error for the others to see.
    fn fail(&mut self, failure: WorkerFailure, cause: &str) -> (action: WorkerAction)
        requires
            old(self).wf(),
        ensures
            final(self).wf(),
            old(self).fails(action, *final(self), failure, cause@),
    {
        self.phase = WorkerPhase::Stopped;
        WorkerAction::Fail(failure.message(cause))
    }

    /// Stops without an error.
    fn stop(&mut self) -> (action: WorkerAction)
        requires
            old(self).wf(),
        ensures
            final(self).wf(),
            final(self).block() == old(self).block(),
            old(self).stops(action, *final(self)),
    {
        self.phase = WorkerPhase::Stopped;
        WorkerAction::Stop
    }

    /// Asks for the file to be positioned at the block `idx`.
    fn seek(&mut self, idx: usize, phase: WorkerPhase) -> (action: WorkerAction)
        requires
            old(self).wf(),
            phase == WorkerPhase::Seeking || phase == WorkerPhase::SeekingNext,
        ensures
            final(self).wf(),
            old(self).seeks(action, *final(self), idx as nat, phase),
    {
        match idx.checked_mul(self.block_size) {
            Some(offset) => {
                self.block_idx = idx;
                self.phase = phase;
                WorkerAction::Seek(offset)
            },
            None => self.stop(),
        }
    }

    /// The file was opened, or could not be for the cause given.
    pub fn opened(&mut self, outcome: Result<(), String>) -> (action: WorkerAction)
        requires
            old(self).wf(),
            old(self).phase() == WorkerPhase::Opening,
        ensures
            final(self).wf(),
            match outcome {
                Ok(_) => old(self).seeks(
                    action,
                    *final(self),
                    old(self).block(),
                    WorkerPhase::Seeking,
                ),
                Err(cause) => old(self).fails(action, *final(self), WorkerFailure::Open, cause@),
            },
    {
        match outcome {
            Ok(_) => self.seek(self.block_idx, WorkerPhase::Seeking),
            Err(cause) => self.fail(WorkerFailure::Open, cause.as_str()),
        }
    }

    /// The file was positioned, or could not be for the cause given. The worker stops if
    /// it is past the end of the file.
    pub fn positioned(&mut self, outcome: Result<(), String>) -> (action: WorkerAction)
        requires
            old(self).wf(),
            old(self).phase() == WorkerPhase::Seeking || old(self).phase()
                == WorkerPhase::SeekingNext,
        ensures
            final(self).wf(),
            match outcome {
                Ok(_) => if old(self).has_block() {
                    &&& action is Check
                    &&& final(self).same_block(*old(self))
                    &&& final(self).phase() == WorkerPhase::Checking
                } else {
                    old(self).stops(action, *final(self))
                },
                Err(cause) => old(self).fails(
                    action,
                    *final(self),
                    if old(self).phase() == WorkerPhase::Seeking {
                        WorkerFailure::Seek
                    } else {
                        WorkerFailure::SeekToNext
                    },
                    cause@,
                ),
            },
    {
        match outcome {
            Ok(_) => if self.block_idx * self.block_size < self.file_size {
                self.phase = WorkerPhase::Checking;
                WorkerAction::Check
            } else {
                self.stop()
            },
            Err(cause) => if self.phase == WorkerPhase::Seeking {
                self.fail(WorkerFailure::Seek, cause.as_str())
            } else {
                self.fail(WorkerFailure::SeekToNext, cause.as_str())
            },
        }
    }

    /// It was seen whether a worker has raised an error: then this one stops, else it
    /// reads its block, of which only the last one of the file may be short.
    pub fn checked(&mut self, error_raised: bool) -> (action: WorkerAction)
        requires
            old(self).wf(),
            old(self).phase() == WorkerPhase::Checking,
        ensures
            final(self).wf(),
            if error_raised {
                old(self).stops(action, *final(self))
            } else {
                &&& action matches WorkerAction::Read(len) && len == blocks::len_at(
                    old(self).block_size(),
                    old(self).file_size(),
                    old(self).offset(),
                )
                &&& final(self).same_block(*old(self))
                &&& final(self).phase() == WorkerPhase::Reading
            },
    {
        if error_raised {
            return self.stop();
        }
        self.phase = WorkerPhase::Reading;
        WorkerAction::Read(
            blocks::block_len(self.block_size, self.file_size, self.block_idx * self.block_size),
        )
    }

    /// The bytes of the block were read, or could not be for the cause given.
    pub fn block_read(&mut self, outcome: Result<&[u8], String>) -> (action: WorkerAction)
        requires
            old(self).wf(),
            old(self).phase() == WorkerPhase::Reading,
        ensures
            final(self).wf(),
            match outcome {
                Ok(data) => {
                    &&& action matches WorkerAction::Send(idx, hash) && idx == old(self).block()
                        && hash@ == hash_text(data@, old(self).algorithm())
                    &&& final(self).same_block(*old(self))
                    &&& final(self).phase() == WorkerPhase::Sending
                },
                Err(cause) => old(self).fails(
                    action,
                    *final(self),
                    WorkerFailure::Read(old(self).block() as usize),
                    cause@,
                ),
            },
    {
        match outcome {
            Ok(data) => {
                self.phase = WorkerPhase::Sending;
                WorkerAction::Send(self.block_idx, hash_data(data, self.algorithm))
            },
            Err(cause) => self.fail(WorkerFailure::Read(self.block_idx), cause.as_str()),
        }
    }

    /// The block was sent and its buffer has come back, and the worker goes on to its
    /// next block; or the channel is closed, and the worker stops.
    pub fn sent(&mut self, accepted: bool) -> (action: WorkerAction)
        requires
            old(self).wf(),
            old(self).phase() == WorkerPhase::Sending,
        ensures
            final(self).wf(),
            if accepted {
                old(self).seeks(
                    action,
                    *final(self),
                    block_after(old(self).workers(), old(self).block()),
                    WorkerPhase::SeekingNext,
                )
            } else {
                old(self).stops(action, *final(self))
            },
    {
        if !accepted {
            return self.stop();
        }
        match self.block_idx.checked_add(self.workers as usize) {
            Some(idx) => self.seek(idx, WorkerPhase::SeekingNext),
            None => self.stop(),
        }
    }
}

/// A worker stops for want of an index or an offset only where the file has no block.
pub proof fn law_worker_stops_past_the_end(block_size: nat, file_size: nat, idx: nat)
    requires
        block_size > 0,
        file_size <= usize::MAX,
        idx > usize::MAX || blocks::start(block_size, idx) > usize::MAX,
    ensures
        idx >= blocks::count(block_size, file_size),
{
    blocks::lemma_start_in_file(block_size, file_size, idx);
    assert(idx * block_size >= idx) by (nonlinear_arith)
        requires
            block_size > 0,
    ;
}

/// A worker is at a block of the file exactly as long as its offset, which is as many
/// times the size of a block as there are blocks before, lies inside the file; and those
/// are all the blocks of the file.
pub proof fn law_worker_reaches_every_block(worker: HashWorker)
    ensures
        worker.offset() == worker.block() * worker.block_size(),
        worker.has_block() <==> worker.block() * worker.block_size() < worker.file_size(),
        worker.block_size() > 0 ==> (worker.has_block() <==> worker.block() < blocks::count(
            worker.block_size(),
            worker.file_size(),
        )),
{
    if worker.block_size() > 0 {
        blocks::lemma_start_in_file(worker.block_size(), worker.file_size(), worker.block());
    }
}

/// A worker that goes on to a block of the file asks for the file to be positioned there,
/// and is at that block then, on the same file and with the same algorithm.
pub proof fn law_worker_seeks_its_block(
    worker: HashWorker,
    action: WorkerAction,
    after: HashWorker,
    idx: nat,
    phase: WorkerPhase,
)
    requires
        worker.seeks(action, after, idx, phase),
        worker.block_size() > 0,
        worker.file_size() <= usize::MAX,
        idx < blocks::count(worker.block_size(), worker.file_size()),
    ensures
        action matches WorkerAction::Seek(offset) && offset == idx * worker.block_size(),
        after.block() == idx,
        after.phase() == phase,
        after.block_size() == worker.block_size(),
        after.file_size() == worker.file_size(),
        after.workers() == worker.workers(),
        after.algorithm() == worker.algorithm(),
{
    blocks::lemma_start_in_file(worker.block_size(), worker.file_size(), idx);
    if idx > usize::MAX {
        law_worker_stops_past_the_end(worker.block_size(), worker.file_size(), idx);
    }
}

/// A worker that stops, with a failure or without, is told apart from one that goes on:
/// it waits for nothing any more. With a failure it reports the operation and the cause.
pub proof fn law_worker_stops(
    worker: HashWorker,
    action: WorkerAction,
    after: HashWorker,
    failure: WorkerFailure,
    cause: Seq<char>,
)
    ensures
        worker.stops(action, after) ==> action is Stop && after.phase() == WorkerPhase::Stopped,
        worker.fails(action, after, failure, cause) ==> after.phase() == WorkerPhase::Stopped
            && after.block() == worker.block() && (action matches WorkerAction::Fail(message)
            && message@ == failure.report(cause)),
{
}

/// Workers that are at the same block of the same work agree in everything but what they
/// wait for.
pub proof fn law_same_block_is_same(left: HashWorker, right: HashWorker)
    requires
        left.same_block(right),
    ensures
        left.block() == right.block(),
        left.block_size() == right.block_size(),
        left.file_size() == right.file_size(),
        left.workers() == right.workers(),
        left.algorithm() == right.algorithm(),
{
}

/// A report says which operation failed, on which block, and ends with the whole cause.
pub proof fn law_report_holds_cause(failure: WorkerFailure, cause: Seq<char>)
    ensures
        ({
            let report = failure.report(cause);
            let operation = report.take(report.len() - cause.len());
            &&& report.len() >= cause.len()
            &&& report.skip(report.len() - cause.len()) == cause
            &&& match failure {
                WorkerFailure::Open => operation == "Failed to open file: "@,
                WorkerFailure::Seek => operation == "Failed to seek: "@,
                WorkerFailure::Read(idx) => operation == "Failed to read block "@ + text::decimal(
                    idx as nat,
                ) + ": "@,
                WorkerFailure::SeekToNext => operation == "Failed to seek to next block: "@,
            }
        }),
{
    let report = failure.report(cause);
    let n = report.len() - cause.len();
    let operation = match failure {
        WorkerFailure::Open => "Failed to open file: "@,
        WorkerFailure::Seek => "Failed to seek: "@,
        WorkerFailure::Read(idx) => "Failed to read block "@ + text::decimal(idx as nat) + ": "@,
        WorkerFailure::SeekToNext => "Failed to seek to next block: "@,
    };
    assert(report =~= operation + cause);
    assert(report.take(n) =~= operation);
    assert(report.skip(n) =~= cause);
}

/// What a receiver of hashes gets: the error of a worker as soon as there is one, else
/// the next block, of which there is none at the end of the file.
pub fn recv<T>(error: Option<String>, next: Option<T>) -> (received: Result<Option<T>, String>)
    ensures
        match error {
            Some(e) => received matches Err(message) && message@ == "Hash worker failed: "@ + e@,
            None => received == Ok::<Option<T>, String>(next),
        },
{
    match error {
        Some(e) => {
            let mut message: String = "Hash worker failed: ".to_owned();
            message.append(e.as_str());
            Err(message)
        },
        None => Ok(next),
    }
}

} // verus!
