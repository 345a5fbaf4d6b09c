//! The wire protocol: status codes, length-prefixed strings and file blocks.
//!
//! Every message can be cut anywhere by the network. The `Resumable*` types keep
//! track of how much of a message has passed, so that reading or writing it can be
//! taken up again exactly where it stopped.

use crate::blocks;
use crate::endian;
use crate::text;
use vstd::prelude::*;
use vstd::slice::slice_subrange;

verus! {

/// The version of the protocol that client and server have to agree on.
pub const PROTOCOL_VERSION: u8 = 1;

/// The longest destination path, in bytes, that a server reads.
pub const MAX_PATH_SIZE: u64 = 4096;

/// The longest block hash, in bytes, that a client reads.
pub const MAX_HASH_SIZE: u64 = 1024;

/// The answer of a server to a step of the handshake, one byte on the wire.
#[derive(Debug, Clone, Copy, PartialEq, Eq, Structural)]
pub enum StatusCode {
    Ack,
    InvalidSecret,
    FileSizeDiffers,
    PermissionDenied,
    ClientAlreadyConnected,
    UnknownHashAlgorithm,
    UnsupportedProtocolVersion,
    InvalidBlockSize,
}

/// The byte of a status on the wire.
pub open spec fn status_byte(status: StatusCode) -> u8 {
    match status {
        StatusCode::Ack => 0,
        StatusCode::InvalidSecret => 1,
        StatusCode::FileSizeDiffers => 2,
        StatusCode::PermissionDenied => 3,
        StatusCode::ClientAlreadyConnected => 4,
        StatusCode::UnknownHashAlgorithm => 5,
        StatusCode::UnsupportedProtocolVersion => 6,
        StatusCode::InvalidBlockSize => 7,
    }
}

/// The status that a byte stands for, or the byte itself when it stands for none.
pub open spec fn byte_status(byte: u8) -> Result<StatusCode, u8> {
    if byte == 0 {
        Ok(StatusCode::Ack)
    } else if byte == 1 {
        Ok(StatusCode::InvalidSecret)
    } else if byte == 2 {
        Ok(StatusCode::FileSizeDiffers)
    } else if byte == 3 {
        Ok(StatusCode::PermissionDenied)
    } else if byte == 4 {
        Ok(StatusCode::ClientAlreadyConnected)
    } else if byte == 5 {
        Ok(StatusCode::UnknownHashAlgorithm)
    } else if byte == 6 {
        Ok(StatusCode::UnsupportedProtocolVersion)
    } else if byte == 7 {
        Ok(StatusCode::InvalidBlockSize)
    } else {
        Err(byte)
    }
}

/// A status survives the wire, and a byte that reads as a status is the byte of
/// that status.
pub proof fn law_status_round_trip(status: StatusCode, byte: u8)
    ensures
        byte_status(status_byte(status)) == Ok::<StatusCode, u8>(status),
        byte_status(byte) matches Ok(s) ==> status_byte(s) == byte,
        byte_status(byte) is Err <==> byte > 7,
{
}

impl vstd::std_specs::convert::FromSpecImpl<StatusCode> for u8 {
    open spec fn obeys_from_spec() -> bool {
        true
    }

    open spec fn from_spec(status: StatusCode) -> u8 {
        status_byte(status)
    }
}

impl From<StatusCode> for u8 {
    fn from(status: StatusCode) -> (byte: u8) {
        match status {
            StatusCode::Ack => 0,
            StatusCode::InvalidSecret => 1,
            StatusCode::FileSizeDiffers => 2,
            StatusCode::PermissionDenied => 3,
            StatusCode::ClientAlreadyConnected => 4,
            StatusCode::UnknownHashAlgorithm => 5,
            StatusCode::UnsupportedProtocolVersion => 6,
            StatusCode::InvalidBlockSize => 7,
        }
    }
}

impl vstd::std_specs::convert::TryFromSpecImpl<u8> for StatusCode {
    open spec fn obeys_try_from_spec() -> bool {
        true
    }

    open spec fn try_from_spec(byte: u8) -> Result<StatusCode, u8> {
        byte_status(byte)
    }
}

impl TryFrom<u8> for StatusCode {
    type Error = u8;

    fn try_from(byte: u8) -> (status: Result<StatusCode, u8>) {
        match byte {
            0 => Ok(StatusCode::Ack),
            1 => Ok(StatusCode::InvalidSecret),
            2 => Ok(StatusCode::FileSizeDiffers),
            3 => Ok(StatusCode::PermissionDenied),
            4 => Ok(StatusCode::ClientAlreadyConnected),
            5 => Ok(StatusCode::UnknownHashAlgorithm),
            6 => Ok(StatusCode::UnsupportedProtocolVersion),
            7 => Ok(StatusCode::InvalidBlockSize),
            _ => Err(byte),
        }
    }
}

/// Why a status byte ends the handshake of a client.
#[derive(Debug, Clone, Copy, PartialEq, Eq, Structural)]
pub enum StatusError {
    /// The byte stands for no status.
    Unknown,
    /// The server refused with this status, which is not `Ack`.
    Refused(StatusCode),
}

impl StatusError {
    /// The text that a user is shown.
    pub open spec fn text(self) -> Seq<char> {
        match self {
            StatusError::Unknown => "Unknown status code"@,
            StatusError::Refused(status) => match status {
                StatusCode::Ack => ""@,
                StatusCode::InvalidSecret => "Invalid Secret"@,
                StatusCode::FileSizeDiffers => "File size differs"@,
                StatusCode::PermissionDenied => "Permission denied"@,
                StatusCode::ClientAlreadyConnected => "A client is already connected"@,
                StatusCode::UnknownHashAlgorithm => "Hash algorithm is not supported on remote end"@,
                StatusCode::UnsupportedProtocolVersion => "Protocol version mismatch"@,
                StatusCode::InvalidBlockSize => "Invalid block size"@,
            },
        }
    }

    /// The text that a user is shown.
    pub fn message(&self) -> (message: String)
        ensures
            message@ == self.text(),
    {
        match self {
            StatusError::Unknown => "Unknown status code".to_owned(),
            StatusError::Refused(status) => match status {
                StatusCode::Ack => "".to_owned(),
                StatusCode::InvalidSecret => "Invalid Secret".to_owned(),
                StatusCode::FileSizeDiffers => "File size differs".to_owned(),
                StatusCode::PermissionDenied => "Permission denied".to_owned(),
                StatusCode::ClientAlreadyConnected => "A client is already connected".to_owned(),
                StatusCode::UnknownHashAlgorithm => {
                    "Hash algorithm is not supported on remote end".to_owned()
                },
                StatusCode::UnsupportedProtocolVersion => "Protocol version mismatch".to_owned(),
                StatusCode::InvalidBlockSize => "Invalid block size".to_owned(),
            },
        }
    }
}

/// What a client makes of the byte that a server answered.
pub open spec fn status_check(byte: u8) -> Result<(), StatusError> {
    match byte_status(byte) {
        Err(_) => Err(StatusError::Unknown),
        Ok(StatusCode::Ack) => Ok(()),
        Ok(status) => Err(StatusError::Refused(status)),
    }
}

/// The byte with which a server answers.
pub fn write_status(status: StatusCode) -> (byte: u8)
    ensures
        byte == status_byte(status),
{
    u8::from(status)
}

/// Reads the answer of a server: only `Ack` lets the client go on.
pub fn check_status(byte: u8) -> (checked: Result<(), StatusError>)
    ensures
        checked == status_check(byte),
{
    match StatusCode::try_from(byte) {
        Err(_) => Err(StatusError::Unknown),
        Ok(status) => match status {
            StatusCode::Ack => Ok(()),
            _ => Err(StatusError::Refused(status)),
        },
    }
}

/// What a client is told is what the server answered: the client goes on after
/// `Ack`, and every other status reaches it as that very refusal.
pub proof fn law_answer_reaches_client(status: StatusCode)
    ensures
        status_check(status_byte(status)) == (if status == StatusCode::Ack {
            Ok::<(), StatusError>(())
        } else {
            Err(StatusError::Refused(status))
        }),
{
}

/// A client goes on after the byte 0 alone. The bytes 1 to 7 reach it as the refusal that
/// has this byte, and all others as an unknown status.
pub proof fn law_every_byte_is_an_answer(byte: u8)
    ensures
        status_check(byte) is Ok <==> byte == 0,
        status_check(byte) == Err::<(), StatusError>(StatusError::Unknown) <==> byte > 7,
        status_check(byte) matches Err(StatusError::Refused(status)) ==> status_byte(status)
            == byte,
{
}

/// Why a message of the peer could not be read.
#[derive(Debug, Clone, Copy, PartialEq, Eq, Structural)]
pub enum ReadError {
    /// The peer closed the connection in the middle of a message.
    ConnectionClosed,
    /// The announced length is over the limit for this kind of string.
    TooLong,
    /// The bytes of a string are no UTF-8: this many of them, from this index on, begin
    /// no character.
    InvalidUtf8(usize, usize),
    /// The bytes of a string are no UTF-8: they end inside the character that begins at
    /// this index.
    IncompleteUtf8(usize),
    /// A file block is announced to start after the end of the file.
    OffsetOutOfRange,
}

impl ReadError {
    /// The text that a user is shown.
    pub open spec fn text(self) -> Seq<char> {
        match self {
            ReadError::ConnectionClosed => "Connection closed by peer"@,
            ReadError::TooLong => "String exceeds the acceptable size"@,
            ReadError::InvalidUtf8(len, index) => "invalid utf-8 sequence of "@ + text::decimal(
                len as nat,
            ) + " bytes from index "@ + text::decimal(index as nat),
            ReadError::IncompleteUtf8(index) => "incomplete utf-8 byte sequence from index "@
                + text::decimal(index as nat),
            ReadError::OffsetOutOfRange => "Block starts after the end of the file"@,
        }
    }

    /// The text that a user is shown.
    pub fn message(&self) -> (message: String)
        ensures
            message@ == self.text(),
    {
        match self {
            ReadError::ConnectionClosed => "Connection closed by peer".to_owned(),
            ReadError::TooLong => "String exceeds the acceptable size".to_owned(),
            ReadError::InvalidUtf8(len, index) => {
                let mut message: String = "invalid utf-8 sequence of ".to_owned();
                text::push_decimal(&mut message, *len as u64);
                message.append(" bytes from index ");
                text::push_decimal(&mut message, *index as u64);
                message
            },
            ReadError::IncompleteUtf8(index) => {
                let mut message: String = "incomplete utf-8 byte sequence from index ".to_owned();
                text::push_decimal(&mut message, *index as u64);
                message
            },
            ReadError::OffsetOutOfRange => "Block starts after the end of the file".to_owned(),
        }
    }
}

/// The text for a string that is not UTF-8 names the place where it is not.
pub proof fn law_utf8_error_names_place(len: usize, index: usize)
    ensures
        ReadError::InvalidUtf8(len, index).text() == "invalid utf-8 sequence of "@ + text::decimal(
            len as nat,
        ) + " bytes from index "@ + text::decimal(index as nat),
        ReadError::IncompleteUtf8(index).text() == "incomplete utf-8 byte sequence from index "@
            + text::decimal(index as nat),
{
}

/// A string on the wire: the number of its UTF-8 bytes as a word, then the bytes.
pub open spec fn string_frame(s: Seq<char>) -> Seq<u8> {
    let bytes = vstd::utf8::encode_utf8(s);
    endian::word(bytes.len() as u64) + bytes
}

/// What the payload of a string on the wire decodes to.
pub open spec fn decoded_string(payload: Seq<u8>) -> Result<Seq<char>, ReadError> {
    if vstd::utf8::valid_utf8(payload) {
        Ok(vstd::utf8::decode_utf8(payload))
    } else {
        let index = text::valid_prefix(payload, payload.len()) as usize;
        if text::continuable(payload) {
            Err(ReadError::IncompleteUtf8(index))
        } else {
            Err(ReadError::InvalidUtf8(text::utf8_error_len(payload), index))
        }
    }
}

/// A string of any length is on the wire in full: eight bytes with the number of the bytes
/// that follow, and these are the whole string.
pub proof fn law_string_frame_is_whole(s: Seq<char>)
    requires
        vstd::utf8::encode_utf8(s).len() <= u64::MAX,
    ensures
        string_frame(s).len() == 8 + vstd::utf8::encode_utf8(s).len(),
        endian::be_value(string_frame(s).take(8)) == vstd::utf8::encode_utf8(s).len(),
        string_frame(s).skip(8) == vstd::utf8::encode_utf8(s),
        decoded_string(string_frame(s).skip(8)) == Ok::<Seq<char>, ReadError>(s),
{
    let bytes = vstd::utf8::encode_utf8(s);
    endian::law_word_round_trip(bytes.len() as u64);
    assert(string_frame(s).take(8) =~= endian::word(bytes.len() as u64));
    assert(string_frame(s).skip(8) =~= bytes);
    vstd::utf8::encode_utf8_valid_utf8(s);
    vstd::utf8::encode_utf8_decode_utf8(s);
}

/// A payload that is read as a string holds exactly the bytes of that string. All others
/// are refused, at the index up to which they are valid and no further.
pub proof fn law_decoding_is_exact(payload: Seq<u8>)
    requires
        payload.len() <= usize::MAX,
    ensures
        match decoded_string(payload) {
            Ok(s) => vstd::utf8::encode_utf8(s) == payload,
            Err(e) => {
                &&& forall|s: Seq<char>| #[trigger] vstd::utf8::encode_utf8(s) != payload
                &&& e matches ReadError::InvalidUtf8(len, index) ==> {
                    &&& vstd::utf8::valid_utf8(payload.take(index as int))
                    &&& forall|m: int|
                        index < m <= payload.len() ==> !vstd::utf8::valid_utf8(
                            #[trigger] payload.take(m),
                        )
                    &&& forall|more: Seq<u8>| !vstd::utf8::valid_utf8(#[trigger] (payload + more))
                }
                &&& e matches ReadError::IncompleteUtf8(index) ==> {
                    &&& vstd::utf8::valid_utf8(payload.take(index as int))
                    &&& forall|m: int|
                        index < m <= payload.len() ==> !vstd::utf8::valid_utf8(
                            #[trigger] payload.take(m),
                        )
                    &&& exists|more: Seq<u8>| vstd::utf8::valid_utf8(#[trigger] (payload + more))
                }
                &&& e is InvalidUtf8 || e is IncompleteUtf8
            },
        },
{
    text::law_valid_prefix_is_longest(payload, payload.len());
    if vstd::utf8::valid_utf8(payload) {
        vstd::utf8::decode_utf8_encode_utf8(payload);
    } else {
        assert forall|s: Seq<char>| #[trigger] vstd::utf8::encode_utf8(s) != payload by {
            vstd::utf8::encode_utf8_valid_utf8(s);
        }
    }
}

/// The message that carries the string `s`.
pub fn write_string(s: &str) -> (message: Vec<u8>)
    ensures
        message@ == string_frame(s@),
{
    let bytes = s.as_bytes();
    let len: usize = bytes.len();
    let mut message = endian::encode_word(len as u64);
    message.extend_from_slice(bytes);
    assert(message@ =~= string_frame(s@));
    message
}

/// The length of the string that follows `header`, if it is within `limit`.
pub fn read_string_size(header: &[u8], limit: u64) -> (size: Result<usize, ReadError>)
    requires
        header@.len() == 8,
        limit <= usize::MAX,
    ensures
        match size {
            Ok(n) => n == endian::be_value(header@) && n <= limit,
            Err(e) => e == ReadError::TooLong && endian::be_value(header@) > limit,
        },
{
    let size: u64 = endian::decode_word(header);
    if size > limit {
        Err(ReadError::TooLong)
    } else {
        Ok(size as usize)
    }
}

/// The string that `payload` holds.
pub fn read_string(payload: Vec<u8>) -> (s: Result<String, ReadError>)
    ensures
        match s {
            Ok(s) => decoded_string(payload@) == Ok::<Seq<char>, ReadError>(s@),
            Err(e) => decoded_string(payload@) == Err::<Seq<char>, ReadError>(e),
        },
{
    match text::string_from_utf8(payload) {
        Ok(s) => Ok(s),
        Err((index, Some(len))) => Err(ReadError::InvalidUtf8(len, index)),
        Err((index, None)) => Err(ReadError::IncompleteUtf8(index)),
    }
}

/// How many bytes are missing from a string message of which `received` has come.
pub open spec fn string_needed(received: Seq<u8>) -> int {
    if received.len() < 8 {
        8 - received.len()
    } else {
        8 + endian::be_value(received.take(8)) - received.len()
    }
}

/// What comes of a string message when `chunk` follows `received`: the outcome, and
/// what has been received of the current message from then on.
pub open spec fn string_step(received: Seq<u8>, chunk: Seq<u8>) -> (
    Result<Option<Seq<char>>, ReadError>,
    Seq<u8>,
) {
    let all = received + chunk;
    if chunk.len() == 0 {
        (Err(ReadError::ConnectionClosed), received)
    } else if all.len() < 8 {
        (Ok(None), all)
    } else if endian::be_value(all.take(8)) > MAX_HASH_SIZE {
        (Err(ReadError::TooLong), Seq::empty())
    } else if string_needed(all) > 0 {
        (Ok(None), all)
    } else {
        match decoded_string(all.skip(8)) {
            Ok(s) => (Ok(Some(s)), Seq::empty()),
            Err(e) => (Err(e), Seq::empty()),
        }
    }
}

/// The outcome of reading a string, with the string by its characters.
pub open spec fn string_outcome(outcome: Result<Option<String>, ReadError>) -> Result<
    Option<Seq<char>>,
    ReadError,
> {
    match outcome {
        Ok(Some(s)) => Ok(Some(s@)),
        Ok(None) => Ok(None),
        Err(e) => Err(e),
    }
}

/// Reads strings from a connection that delivers them in pieces.
pub struct ResumableReadString {
    header: Vec<u8>,
    size: usize,
    buf: Vec<u8>,
}

impl ResumableReadString {
    pub closed spec fn wf(self) -> bool {
        &&& self.header@.len() <= 8
        &&& self.header@.len() < 8 ==> self.buf@.len() == 0
        &&& self.header@.len() == 8 ==> {
            &&& self.size == endian::be_value(self.header@)
            &&& self.buf@.len() < self.size <= MAX_HASH_SIZE
        }
    }

    /// What has been received of the string being read.
    pub closed spec fn received(self) -> Seq<u8> {
        self.header@ + self.buf@
    }

    /// A reader that waits for the first byte of a string.
    pub fn new() -> (reader: Self)
        ensures
            reader.wf(),
            reader.received() == Seq::<u8>::empty(),
    {
        let reader = ResumableReadString { header: Vec::new(), size: 0, buf: Vec::new() };
        assert(reader.received() =~= Seq::<u8>::empty());
        reader
    }

    /// How many bytes may be read from the connection next.
    pub fn needed(&self) -> (n: usize)
        requires
            self.wf(),
        ensures
            n == string_needed(self.received()),
            n > 0,
    {
        if self.header.len() < endian::WORD {
            endian::WORD - self.header.len()
        } else {
            assert(self.received().take(8) =~= self.header@);
            self.size - self.buf.len()
        }
    }

    /// Takes up reading with the bytes that the connection delivered, of which there
    /// are none when the peer closed it. Returns the string once it is complete; the
    /// reader then waits for the next one.
    pub fn read_on(&mut self, chunk: &[u8]) -> (outcome: Result<Option<String>, ReadError>)
        requires
            old(self).wf(),
            chunk@.len() <= string_needed(old(self).received()),
        ensures
            final(self).wf(),
            (string_outcome(outcome), final(self).received()) == string_step(
                old(self).received(),
                chunk@,
            ),
    {
        let ghost all = self.received() + chunk@;
        if chunk.len() == 0 {
            return Err(ReadError::ConnectionClosed);
        }
        if self.header.len() < endian::WORD {
            self.header.extend_from_slice(chunk);
            assert(self.header@ =~= all);
            assert(self.received() =~= all);
            if self.header.len() < endian::WORD {
                return Ok(None);
            }
            assert(all.take(8) =~= all);
            let size: u64 = endian::decode_word(self.header.as_slice());
            if size > MAX_HASH_SIZE {
                self.header.clear();
                assert(self.received() =~= Seq::<u8>::empty());
                return Err(ReadError::TooLong);
            }
            self.size = size as usize;
        } else {
            self.buf.extend_from_slice(chunk);
            assert(self.received() =~= all);
            assert(old(self).received().take(8) =~= self.header@);
        }
        assert(all.take(8) =~= self.header@);
        assert(all.skip(8) =~= self.buf@);
        if self.buf.len() < self.size {
            return Ok(None);
        }
        // prepare for the next string
        let mut payload: Vec<u8> = Vec::new();
        std::mem::swap(&mut payload, &mut self.buf);
        self.header.clear();
        assert(self.received() =~= Seq::<u8>::empty());
        match read_string(payload) {
            Ok(s) => Ok(Some(s)),
            Err(e) => Err(e),
        }
    }
}

/// A string comes out of the reader as it went into the frame, however the
/// connection cuts the frame: no piece but the last one completes it, and after the
/// last one the reader waits for the next string.
pub proof fn law_string_round_trip(s: Seq<char>, from: int, to: int)
    requires
        vstd::utf8::encode_utf8(s).len() <= MAX_HASH_SIZE,
        0 <= from < to <= string_frame(s).len(),
    ensures
        string_step(string_frame(s).take(from), string_frame(s).subrange(from, to)) == (if to
            == string_frame(s).len() {
            (Ok::<Option<Seq<char>>, ReadError>(Some(s)), Seq::<u8>::empty())
        } else {
            (Ok(None), string_frame(s).take(to))
        }),
{
    let frame = string_frame(s);
    let bytes = vstd::utf8::encode_utf8(s);
    endian::law_word_round_trip(bytes.len() as u64);
    assert(frame.take(from) + frame.subrange(from, to) =~= frame.take(to));
    if to >= 8 {
        assert(frame.take(to).take(8) =~= endian::word(bytes.len() as u64));
    }
    if to == frame.len() {
        assert(frame.take(to).skip(8) =~= bytes);
        vstd::utf8::encode_utf8_valid_utf8(s);
        vstd::utf8::encode_utf8_decode_utf8(s);
    }
}

/// Of a string that is on its way a reader asks for what is missing of its length first,
/// and then for what is missing of the string.
pub proof fn law_string_reader_asks_for_rest(s: Seq<char>, n: int)
    requires
        vstd::utf8::encode_utf8(s).len() <= u64::MAX,
        0 <= n < string_frame(s).len(),
    ensures
        string_needed(string_frame(s).take(n)) == (if n < 8 {
            8 - n
        } else {
            string_frame(s).len() - n
        }),
{
    law_string_frame_is_whole(s);
    if n >= 8 {
        assert(string_frame(s).take(n).take(8) =~= string_frame(s).take(8));
    }
}

/// A reader of strings refuses what it cannot read, and nothing else: the end of the
/// connection, a length over the limit as soon as it is known, and bytes that are no
/// string once all of them have come. It stays ready for the next string.
pub proof fn law_string_reader_refuses(received: Seq<u8>, chunk: Seq<u8>)
    requires
        chunk.len() <= string_needed(received),
        received.len() >= 8 ==> endian::be_value(received.take(8)) <= 1024,
    ensures
        ({
            let all = received + chunk;
            let announced = endian::be_value(all.take(8));
            let (outcome, rest) = string_step(received, chunk);
            &&& outcome == Err::<Option<Seq<char>>, ReadError>(ReadError::ConnectionClosed)
                <==> chunk.len() == 0
            &&& outcome == Err::<Option<Seq<char>>, ReadError>(ReadError::TooLong) <==> chunk.len()
                > 0 && all.len() >= 8 && announced > 1024
            &&& outcome == Ok::<Option<Seq<char>>, ReadError>(None) <==> chunk.len() > 0 && (
            all.len() < 8 || (announced <= 1024 && all.len() < 8 + announced))
            &&& outcome matches Ok(Some(s)) ==> vstd::utf8::encode_utf8(s) == all.skip(8)
                && all.len() == 8 + announced
            &&& chunk.len() > 0 && all.len() >= 8 && announced <= 1024 && all.len() == 8 + announced
                ==> match decoded_string(all.skip(8)) {
                Ok(s) => outcome == Ok::<Option<Seq<char>>, ReadError>(Some(s)),
                Err(e) => outcome == Err::<Option<Seq<char>>, ReadError>(e),
            }
            &&& outcome == Ok::<Option<Seq<char>>, ReadError>(None) ==> rest == all
            &&& chunk.len() > 0 && outcome != Ok::<Option<Seq<char>>, ReadError>(None)
                ==> rest.len() == 0
            &&& chunk.len() == 0 ==> rest == received
        }),
{
    let all = received + chunk;
    if received.len() >= 8 {
        assert(all.take(8) =~= received.take(8));
    }
    if all.len() >= 8 && all.len() == 8 + endian::be_value(all.take(8)) && vstd::utf8::valid_utf8(
        all.skip(8),
    ) {
        vstd::utf8::decode_utf8_encode_utf8(all.skip(8));
    }
}

/// The outcome of reading a string says what was read.
pub proof fn law_string_outcome_is_whole(outcome: Result<Option<String>, ReadError>)
    ensures
        match string_outcome(outcome) {
            Ok(Some(s)) => outcome matches Ok(Some(o)) && o@ == s,
            Ok(None) => outcome matches Ok(None),
            Err(e) => outcome matches Err(o) && o == e,
        },
{
}

/// Writes a string to a connection that may take it in pieces.
pub struct ResumableWriteString {
    offset: usize,
    buf: Vec<u8>,
}

impl ResumableWriteString {
    pub closed spec fn wf(self) -> bool {
        self.offset <= self.buf@.len()
    }

    /// The whole message.
    pub closed spec fn frame(self) -> Seq<u8> {
        self.buf@
    }

    /// How many bytes of the message the connection has taken.
    pub closed spec fn written(self) -> nat {
        self.offset as nat
    }

    /// A writer of the string `src`, of which nothing is written yet.
    pub fn new(src: &str) -> (writer: Self)
        ensures
            writer.wf(),
            writer.frame() == string_frame(src@),
            writer.written() == 0,
    {
        ResumableWriteString { offset: 0, buf: write_string(src) }
    }

    /// The bytes that are still to be written.
    pub fn pending(&self) -> (bytes: &[u8])
        requires
            self.wf(),
        ensures
            bytes@ == self.frame().skip(self.written() as int),
            bytes@.len() == self.frame().len() - self.written(),
    {
        let bytes = slice_subrange(self.buf.as_slice(), self.offset, self.buf.len());
        assert(bytes@ =~= self.buf@.skip(self.offset as int));
        bytes
    }

    /// Records that the connection took `n` of the pending bytes. Returns whether the
    /// message is now written.
    pub fn write_to(&mut self, n: usize) -> (done: bool)
        requires
            old(self).wf(),
            old(self).written() + n <= old(self).frame().len(),
        ensures
            final(self).wf(),
            final(self).frame() == old(self).frame(),
            final(self).written() == old(self).written() + n,
            done <==> final(self).written() == final(self).frame().len(),
    {
        let len: usize = self.buf.len();
        self.offset += n;
        self.offset == len
    }
}

/// A file block on the wire: its offset in the file as a word, then its bytes. Their
/// number is not sent: the receiver knows it from the offset.
pub open spec fn file_block_frame(offset: nat, data: Seq<u8>) -> Seq<u8> {
    endian::word(offset as u64) + data
}

/// Writes a file block to a connection that may take it in pieces.
pub struct ResumableWriteFileBlock {
    offset: usize,
    offset_bytes: Vec<u8>,
    offset_written: usize,
    buf: Vec<u8>,
    buf_written: usize,
}

impl ResumableWriteFileBlock {
    pub closed spec fn wf(self) -> bool {
        &&& self.offset_bytes@ == endian::word(self.offset as u64)
        &&& self.offset_bytes@.len() == 8
        &&& self.offset_written <= 8
        &&& self.buf_written <= self.buf@.len()
        &&& self.offset_written < 8 ==> self.buf_written == 0
    }

    /// Where in the file the block belongs.
    pub closed spec fn offset(self) -> nat {
        self.offset as nat
    }

    /// The bytes of the block.
    pub closed spec fn data(self) -> Seq<u8> {
        self.buf@
    }

    /// How many bytes of the message the connection has taken.
    pub closed spec fn written(self) -> nat {
        (self.offset_written + self.buf_written) as nat
    }

    /// The whole message.
    pub open spec fn frame(self) -> Seq<u8> {
        file_block_frame(self.offset(), self.data())
    }

    /// A writer of the block `block_data` at `offset`, of which nothing is written yet.
    pub fn new(offset: usize, block_data: Vec<u8>) -> (writer: Self)
        ensures
            writer.wf(),
            writer.offset() == offset,
            writer.data() == block_data@,
            writer.written() == 0,
    {
        ResumableWriteFileBlock {
            offset,
            offset_bytes: endian::encode_word(offset as u64),
            offset_written: 0,
            buf: block_data,
            buf_written: 0,
        }
    }

    /// The bytes to write next: what is left of the offset, and after that what is left
    /// of the block.
    pub fn pending(&self) -> (bytes: &[u8])
        requires
            self.wf(),
        ensures
            bytes@ == (if self.written() < 8 {
                self.frame().subrange(self.written() as int, 8)
            } else {
                self.frame().skip(self.written() as int)
            }),
            bytes@.len() == (if self.written() < 8 {
                8 - self.written()
            } else {
                self.frame().len() - self.written()
            }),
    {
        let bytes = if self.offset_written < endian::WORD {
            slice_subrange(self.offset_bytes.as_slice(), self.offset_written, endian::WORD)
        } else {
            slice_subrange(self.buf.as_slice(), self.buf_written, self.buf.len())
        };
        assert(bytes@ =~= (if self.written() < 8 {
            self.frame().subrange(self.written() as int, 8)
        } else {
            self.frame().skip(self.written() as int)
        }));
        bytes
    }

    /// Records that the connection took `n` of the pending bytes. Returns whether the
    /// block is now written.
    pub fn write_to(&mut self, n: usize) -> (done: bool)
        requires
            old(self).wf(),
            old(self).written() < 8 ==> old(self).written() + n <= 8,
            old(self).written() + n <= old(self).frame().len(),
        ensures
            final(self).wf(),
            final(self).offset() == old(self).offset(),
            final(self).data() == old(self).data(),
            final(self).written() == old(self).written() + n,
            done <==> final(self).written() == final(self).frame().len(),
    {
        let len: usize = self.buf.len();
        if self.offset_written < endian::WORD {
            self.offset_written += n;
        } else {
            self.buf_written += n;
        }
        self.offset_written == endian::WORD && self.buf_written == len
    }

    /// Gives the bytes of the block back, for the buffer to be used again.
    pub fn into_block_data(self) -> (block_data: Vec<u8>)
        ensures
            block_data@ == self.data(),
    {
        self.buf
    }
}

/// A block of any size is on the wire in full: eight bytes with its offset, and then all
/// its bytes. What a writer has to write is that.
pub proof fn law_file_block_frame_is_whole(writer: ResumableWriteFileBlock)
    requires
        writer.offset() <= u64::MAX,
    ensures
        writer.frame().len() == 8 + writer.data().len(),
        endian::be_value(writer.frame().take(8)) == writer.offset(),
        writer.frame().skip(8) == writer.data(),
        writer.frame() == file_block_frame(writer.offset(), writer.data()),
{
    let frame = writer.frame();
    endian::law_word_round_trip(writer.offset() as u64);
    assert(frame.take(8) =~= endian::word(writer.offset() as u64));
    assert(frame.skip(8) =~= writer.data());
}

/// How many bytes are missing from a file block of which `received` has come.
pub open spec fn file_block_needed(block_size: nat, file_size: nat, received: Seq<u8>) -> int {
    if received.len() < 8 {
        8 - received.len()
    } else {
        8 + blocks::len_at(block_size, file_size, endian::be_value(received.take(8)))
            - received.len()
    }
}

/// What comes of a file block when `chunk` follows `received`: the outcome, with the
/// offset and the bytes of a complete block, and what has been received of the current
/// block from then on.
pub open spec fn file_block_step(
    block_size: nat,
    file_size: nat,
    received: Seq<u8>,
    chunk: Seq<u8>,
) -> (Result<Option<(nat, Seq<u8>)>, ReadError>, Seq<u8>) {
    let all = received + chunk;
    if chunk.len() == 0 {
        (Err(ReadError::ConnectionClosed), received)
    } else if all.len() < 8 {
        (Ok(None), all)
    } else if endian::be_value(all.take(8)) > file_size {
        (Err(ReadError::OffsetOutOfRange), Seq::empty())
    } else if file_block_needed(block_size, file_size, all) > 0 {
        (Ok(None), all)
    } else {
        (Ok(Some((endian::be_value(all.take(8)), all.skip(8)))), Seq::empty())
    }
}

/// Reads file blocks from a connection that delivers them in pieces.
pub struct ResumableReadFileBlock {
    block_size: usize,
    file_size: usize,
    header: Vec<u8>,
    offset: usize,
    len: usize,
    buf: Vec<u8>,
}

impl ResumableReadFileBlock {
    pub closed spec fn wf(self) -> bool {
        &&& self.header@.len() <= 8
        &&& self.header@.len() < 8 ==> self.buf@.len() == 0
        &&& self.header@.len() == 8 ==> {
            &&& self.offset == endian::be_value(self.header@)
            &&& self.offset <= self.file_size
            &&& self.len == blocks::len_at(
                self.block_size as nat,
                self.file_size as nat,
                self.offset as nat,
            )
            &&& self.buf@.len() < self.len
        }
    }

    /// The size of the blocks but perhaps the last one.
    pub closed spec fn block_size(self) -> nat {
        self.block_size as nat
    }

    /// The size of the file that the blocks belong to.
    pub closed spec fn file_size(self) -> nat {
        self.file_size as nat
    }

    /// What has been received of the block being read.
    pub closed spec fn received(self) -> Seq<u8> {
        self.header@ + self.buf@
    }

    /// A reader that waits for the first byte of a block.
    pub fn new(block_size: usize, file_size: usize) -> (reader: Self)
        ensures
            reader.wf(),
            reader.block_size() == block_size,
            reader.file_size() == file_size,
            reader.received() == Seq::<u8>::empty(),
    {
        let reader = ResumableReadFileBlock {
            block_size,
            file_size,
            header: Vec::new(),
            offset: 0,
            len: 0,
            buf: Vec::new(),
        };
        assert(reader.received() =~= Seq::<u8>::empty());
        reader
    }

    /// How many bytes may be read from the connection next.
    pub fn needed(&self) -> (n: usize)
        requires
            self.wf(),
        ensures
            n == file_block_needed(self.block_size(), self.file_size(), self.received()),
            n > 0,
    {
        if self.header.len() < endian::WORD {
            endian::WORD - self.header.len()
        } else {
            assert(self.received().take(8) =~= self.header@);
            self.len - self.buf.len()
        }
    }

    /// Takes up reading with the bytes that the connection delivered, of which there
    /// are none when the peer closed it. Once the block is complete, its offset is
    /// returned and its bytes are exchanged for those of `block`, so that the buffer of
    /// `block` serves the next one.
    pub fn read_on(&mut self, chunk: &[u8], block: &mut Vec<u8>) -> (outcome: Result<
        Option<usize>,
        ReadError,
    >)
        requires
            old(self).wf(),
            chunk@.len() <= file_block_needed(
                old(self).block_size(),
                old(self).file_size(),
                old(self).received(),
            ),
        ensures
            final(self).wf(),
            final(self).block_size() == old(self).block_size(),
            final(self).file_size() == old(self).file_size(),
            ({
                let (expected, received) = file_block_step(
                    old(self).block_size(),
                    old(self).file_size(),
                    old(self).received(),
                    chunk@,
                );
                &&& final(self).received() == received
                &&& match outcome {
                    Ok(Some(offset)) => expected == Ok::<Option<(nat, Seq<u8>)>, ReadError>(
                        Some((offset as nat, final(block)@)),
                    ),
                    Ok(None) => expected == Ok::<Option<(nat, Seq<u8>)>, ReadError>(None)
                        && final(block)@ == old(block)@,
                    Err(e) => expected == Err::<Option<(nat, Seq<u8>)>, ReadError>(e)
                        && final(block)@ == old(block)@,
                }
            }),
    {
        let ghost all = self.received() + chunk@;
        if chunk.len() == 0 {
            return Err(ReadError::ConnectionClosed);
        }
        if self.header.len() < endian::WORD {
            self.header.extend_from_slice(chunk);
            assert(self.header@ =~= all);
            assert(self.received() =~= all);
            if self.header.len() < endian::WORD {
                return Ok(None);
            }
            assert(all.take(8) =~= all);
            let offset: u64 = endian::decode_word(self.header.as_slice());
            if offset > self.file_size as u64 {
                self.header.clear();
                assert(self.received() =~= Seq::<u8>::empty());
                return Err(ReadError::OffsetOutOfRange);
            }
            self.offset = offset as usize;
            self.len = blocks::block_len(self.block_size, self.file_size, self.offset);
        } else {
            self.buf.extend_from_slice(chunk);
            assert(self.received() =~= all);
            assert(old(self).received().take(8) =~= self.header@);
        }
        assert(all.take(8) =~= self.header@);
        assert(all.skip(8) =~= self.buf@);
        if self.buf.len() < self.len {
            return Ok(None);
        }
        // prepare for the next block
        std::mem::swap(block, &mut self.buf);
        self.buf.clear();
        self.header.clear();
        assert(self.received() =~= Seq::<u8>::empty());
        Ok(Some(self.offset))
    }
}

/// A file block comes out of the reader as it went into the frame, however the
/// connection cuts the frame, and also when it is the shorter last block of the file:
/// no piece but the last one completes it, and after the last one the reader waits for
/// the next block.
pub proof fn law_file_block_round_trip(
    block_size: nat,
    file_size: nat,
    offset: nat,
    data: Seq<u8>,
    from: int,
    to: int,
)
    requires
        offset <= file_size <= u64::MAX,
        data.len() == blocks::len_at(block_size, file_size, offset),
        0 <= from < to <= file_block_frame(offset, data).len(),
    ensures
        file_block_step(
            block_size,
            file_size,
            file_block_frame(offset, data).take(from),
            file_block_frame(offset, data).subrange(from, to),
        ) == (if to == file_block_frame(offset, data).len() {
            (
                Ok::<Option<(nat, Seq<u8>)>, ReadError>(Some((offset, data))),
                Seq::<u8>::empty(),
            )
        } else {
            (Ok(None), file_block_frame(offset, data).take(to))
        }),
{
    let frame = file_block_frame(offset, data);
    endian::law_word_round_trip(offset as u64);
    assert(frame.take(from) + frame.subrange(from, to) =~= frame.take(to));
    if to >= 8 {
        assert(frame.take(to).take(8) =~= endian::word(offset as u64));
    }
    if to == frame.len() {
        assert(frame.take(to).skip(8) =~= data);
    }
}

/// Of a block that is on its way a reader asks for what is missing of its offset first,
/// and then for what is missing of the block.
pub proof fn law_file_block_reader_asks_for_rest(
    block_size: nat,
    file_size: nat,
    offset: nat,
    data: Seq<u8>,
    n: int,
)
    requires
        offset <= file_size <= u64::MAX,
        data.len() == blocks::len_at(block_size, file_size, offset),
        0 <= n < file_block_frame(offset, data).len(),
    ensures
        file_block_needed(block_size, file_size, file_block_frame(offset, data).take(n)) == (if n
            < 8 {
            8 - n
        } else {
            8 + data.len() - n
        }),
{
    let frame = file_block_frame(offset, data);
    endian::law_word_round_trip(offset as u64);
    if n >= 8 {
        assert(frame.take(n).take(8) =~= endian::word(offset as u64));
    }
}

/// A reader of blocks refuses what it cannot read, and nothing else: the end of the
/// connection, and an offset after the end of the file as soon as it is known. A block
/// that it gives has the offset and the bytes that came, and as many of them as there are
/// up to the end of the block or of the file.
pub proof fn law_file_block_reader_refuses(
    block_size: nat,
    file_size: nat,
    received: Seq<u8>,
    chunk: Seq<u8>,
)
    requires
        chunk.len() <= file_block_needed(block_size, file_size, received),
        received.len() >= 8 ==> endian::be_value(received.take(8)) <= file_size,
    ensures
        ({
            let all = received + chunk;
            let announced = endian::be_value(all.take(8));
            let (outcome, rest) = file_block_step(block_size, file_size, received, chunk);
            &&& outcome matches Err(e) ==> (e == ReadError::ConnectionClosed && chunk.len() == 0)
                || (e == ReadError::OffsetOutOfRange && chunk.len() > 0 && all.len() >= 8
                && announced > file_size)
            &&& chunk.len() == 0 ==> outcome is Err && rest == received
            &&& chunk.len() > 0 && all.len() >= 8 && announced > file_size ==> outcome is Err
                && rest.len() == 0
            &&& outcome matches Ok(None) ==> rest == all && (all.len() < 8 || (all.len() - 8
                < block_size && all.len() - 8 < file_size - announced))
            &&& outcome matches Ok(Some((offset, data))) ==> {
                &&& rest.len() == 0
                &&& offset == announced
                &&& data == all.skip(8)
                &&& data.len() <= block_size
                &&& offset + data.len() <= file_size
                &&& data.len() == block_size || offset + data.len() == file_size
            }
        }),
{
    let all = received + chunk;
    if received.len() >= 8 {
        assert(all.take(8) =~= received.take(8));
    }
}

/// Writes a buffer to a file that may take it in pieces.
pub struct ResumableAsyncWriteAll {
    offset: usize,
}

impl ResumableAsyncWriteAll {
    /// How many bytes of the buffer the file has taken.
    pub closed spec fn written(self) -> nat {
        self.offset as nat
    }

    /// A writer that has written nothing yet.
    pub fn new() -> (writer: Self)
        ensures
            writer.written() == 0,
    {
        ResumableAsyncWriteAll { offset: 0 }
    }

    /// The bytes of `data` that are still to be written.
    pub fn pending<'a>(&self, data: &'a [u8]) -> (bytes: &'a [u8])
        requires
            self.written() <= data@.len(),
        ensures
            bytes@ == data@.skip(self.written() as int),
            bytes@.len() == data@.len() - self.written(),
    {
        let bytes = slice_subrange(data, self.offset, data.len());
        assert(bytes@ =~= data@.skip(self.offset as int));
        bytes
    }

    /// Records that the file took `n` of the pending bytes of `data`. Returns whether
    /// the buffer is now written.
    pub fn write_all(&mut self, data: &[u8], n: usize) -> (done: bool)
        requires
            old(self).written() + n <= data@.len(),
        ensures
            final(self).written() == old(self).written() + n,
            done <==> final(self).written() == data@.len(),
    {
        let len: usize = data.len();
        self.offset += n;
        self.offset == len
    }
}

} // verus!
