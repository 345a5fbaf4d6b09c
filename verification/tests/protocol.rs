use deltasync::common::{
    check_status, read_string, read_string_size, write_status, write_string, ReadError,
    ResumableAsyncWriteAll, ResumableReadFileBlock, ResumableReadString, ResumableWriteFileBlock,
    ResumableWriteString, StatusCode, StatusError, MAX_HASH_SIZE, PROTOCOL_VERSION,
};
use deltasync::endian::{decode_word, encode_word};
use deltasync::text::{is_whitespace, push_decimal, trim};

const ALL: [StatusCode; 8] = [
    StatusCode::Ack,
    StatusCode::InvalidSecret,
    StatusCode::FileSizeDiffers,
    StatusCode::PermissionDenied,
    StatusCode::ClientAlreadyConnected,
    StatusCode::UnknownHashAlgorithm,
    StatusCode::UnsupportedProtocolVersion,
    StatusCode::InvalidBlockSize,
];

#[test]
fn words_are_big_endian() {
    assert_eq!(encode_word(0), [0; 8]);
    assert_eq!(encode_word(0x0102030405060708), [1, 2, 3, 4, 5, 6, 7, 8]);
    assert_eq!(encode_word(u64::MAX), [255; 8]);
    assert_eq!(decode_word(&[0, 0, 0, 0, 0, 16, 0, 0]), 1048576);
    for word in [0, 1, 255, 256, 0xdeadbeef, u64::MAX - 1] {
        assert_eq!(encode_word(word), word.to_be_bytes());
        assert_eq!(decode_word(&encode_word(word)), word);
    }
}

#[test]
fn statuses_on_the_wire() {
    assert_eq!(PROTOCOL_VERSION, 1);
    for (byte, status) in ALL.iter().enumerate() {
        assert_eq!(write_status(*status), byte as u8);
        assert_eq!(u8::from(*status), byte as u8);
        assert_eq!(StatusCode::try_from(byte as u8), Ok(*status));
    }
    assert_eq!(StatusCode::try_from(8), Err(8));
    assert_eq!(StatusCode::try_from(255), Err(255));
}

#[test]
fn only_ack_lets_a_client_go_on() {
    assert_eq!(check_status(0), Ok(()));
    for status in &ALL[1..] {
        assert_eq!(check_status(write_status(*status)), Err(StatusError::Refused(*status)));
    }
    assert_eq!(check_status(8), Err(StatusError::Unknown));
}

#[test]
fn refusals_in_words() {
    let words = |byte: u8| check_status(byte).unwrap_err().message();
    assert_eq!(words(1), "Invalid Secret");
    assert_eq!(words(2), "File size differs");
    assert_eq!(words(3), "Permission denied");
    assert_eq!(words(4), "A client is already connected");
    assert_eq!(words(5), "Hash algorithm is not supported on remote end");
    assert_eq!(words(6), "Protocol version mismatch");
    assert_eq!(words(7), "Invalid block size");
    assert_eq!(words(99), "Unknown status code");
}

#[test]
fn read_errors_in_words() {
    assert_eq!(ReadError::ConnectionClosed.message(), "Connection closed by peer");
    assert_eq!(ReadError::TooLong.message(), "String exceeds the acceptable size");
    assert_eq!(
        ReadError::InvalidUtf8(2, 17).message(),
        "invalid utf-8 sequence of 2 bytes from index 17"
    );
    assert_eq!(
        ReadError::IncompleteUtf8(5).message(),
        "incomplete utf-8 byte sequence from index 5"
    );
    assert_eq!(ReadError::OffsetOutOfRange.message(), "Block starts after the end of the file");
}

#[test]
fn strings_on_the_wire() {
    assert_eq!(write_string(""), [0; 8]);
    assert_eq!(write_string("ab"), [0, 0, 0, 0, 0, 0, 0, 2, 97, 98]);
    assert_eq!(write_string("\u{e9}"), [0, 0, 0, 0, 0, 0, 0, 2, 0xc3, 0xa9]);
}

#[test]
fn strings_read_back() {
    for s in ["", "/remote/path", "\u{e9}\u{20ac}\u{1f600}"] {
        let message = write_string(s);
        let size = read_string_size(&message[..8], 4096).unwrap();
        assert_eq!(size, message.len() - 8);
        assert_eq!(read_string(message[8..].to_vec()).unwrap(), s);
    }
}

#[test]
fn strings_that_cannot_be_read() {
    assert_eq!(read_string_size(&encode_word(4096), 4096), Ok(4096));
    assert_eq!(read_string_size(&encode_word(4097), 4096), Err(ReadError::TooLong));
    assert_eq!(read_string_size(&[255; 8], 4096), Err(ReadError::TooLong));
    assert_eq!(read_string(vec![0xff]), Err(ReadError::InvalidUtf8(1, 0)));
    assert_eq!(read_string(vec![0xc3]), Err(ReadError::IncompleteUtf8(0)));
    assert_eq!(read_string(vec![b'a', 0xed, 0xa0, 0x80]), Err(ReadError::InvalidUtf8(1, 1)));
    assert_eq!(read_string(vec![0xf0, 0x90, 0x41]), Err(ReadError::InvalidUtf8(2, 0)));
    assert_eq!(read_string(vec![0xf0, 0x9f, 0x98, b'a']), Err(ReadError::InvalidUtf8(3, 0)));
    assert_eq!(read_string(vec![b'a', 0xf0, 0x9f, 0x98]), Err(ReadError::IncompleteUtf8(1)));
}

#[test]
fn invalid_strings_are_reported_as_by_the_standard_library() {
    let bytes = [0x00, 0x41, 0x7f, 0x80, 0x8f, 0x90, 0x9f, 0xa0, 0xbf, 0xc0, 0xc2, 0xdf, 0xe0,
        0xe1, 0xed, 0xef, 0xf0, 0xf1, 0xf4, 0xf5, 0xff];
    for a in bytes {
        for b in bytes {
            for c in bytes {
                for d in bytes {
                    let payload = vec![b'x', a, b, c, d];
                    let expected = String::from_utf8(payload.clone()).map_err(|e| e.to_string());
                    assert_eq!(read_string(payload).map_err(|e| e.message()), expected);
                }
            }
        }
    }
}

/// Reads all strings of `bytes`, in pieces of at most `piece` bytes.
fn read_strings(bytes: &[u8], piece: usize) -> Vec<String> {
    let mut reader = ResumableReadString::new();
    let mut strings = Vec::new();
    let mut at = 0;
    while at < bytes.len() {
        let n = piece.min(reader.needed()).min(bytes.len() - at);
        if let Some(s) = reader.read_on(&bytes[at..at + n]).unwrap() {
            strings.push(s);
        }
        at += n;
    }
    assert_eq!(reader.needed(), 8);
    strings
}

#[test]
fn strings_arrive_in_any_pieces() {
    let mut bytes = Vec::new();
    for s in ["hash", "", "\u{20ac}uro", "51e7987b"] {
        bytes.extend(write_string(s));
    }
    for piece in 1..30 {
        assert_eq!(read_strings(&bytes, piece), ["hash", "", "\u{20ac}uro", "51e7987b"]);
    }
}

#[test]
fn string_reader_reports_what_it_cannot_read() {
    let mut reader = ResumableReadString::new();
    assert_eq!(reader.read_on(&[]), Err(ReadError::ConnectionClosed));
    assert_eq!(reader.read_on(&encode_word(MAX_HASH_SIZE)), Ok(None));
    assert_eq!(reader.needed(), 1024);

    let mut reader = ResumableReadString::new();
    assert_eq!(reader.read_on(&[0, 0, 0]), Ok(None));
    assert_eq!(reader.needed(), 5);
    assert_eq!(reader.read_on(&[0, 0, 0, 4, 1]), Err(ReadError::TooLong));

    let mut reader = ResumableReadString::new();
    assert_eq!(reader.read_on(&encode_word(1)), Ok(None));
    assert_eq!(reader.read_on(&[0x80]), Err(ReadError::InvalidUtf8(1, 0)));
    assert_eq!(reader.needed(), 8);
}

#[test]
fn strings_leave_in_any_pieces() {
    for piece in 1..20 {
        let mut writer = ResumableWriteString::new("checksum");
        let mut sent = Vec::new();
        loop {
            let n = piece.min(writer.pending().len());
            sent.extend_from_slice(&writer.pending()[..n]);
            if writer.write_to(n) {
                break;
            }
        }
        assert_eq!(sent, write_string("checksum"));
    }
}

/// The bytes of a block on the wire, written in pieces of at most `piece` bytes.
fn written(offset: usize, data: &[u8], piece: usize) -> Vec<u8> {
    let mut writer = ResumableWriteFileBlock::new(offset, data.to_vec());
    let mut sent = Vec::new();
    loop {
        let n = piece.min(writer.pending().len());
        sent.extend_from_slice(&writer.pending()[..n]);
        if writer.write_to(n) {
            break;
        }
    }
    assert_eq!(writer.into_block_data(), data);
    sent
}

#[test]
fn blocks_leave_in_any_pieces() {
    for piece in 1..20 {
        assert_eq!(
            written(0x010203, b"block", piece),
            [0, 0, 0, 0, 0, 1, 2, 3, b'b', b'l', b'o', b'c', b'k']
        );
    }
}

#[test]
fn blocks_arrive_in_any_pieces() {
    let mut bytes = written(4, b"efgh", 100);
    bytes.extend(written(8, b"ij", 100));
    bytes.extend(written(0, b"abcd", 100));
    for piece in 1..20 {
        let mut reader = ResumableReadFileBlock::new(4, 10);
        let mut block = Vec::new();
        let mut blocks = Vec::new();
        let mut at = 0;
        while at < bytes.len() {
            let n = piece.min(reader.needed()).min(bytes.len() - at);
            if let Some(offset) = reader.read_on(&bytes[at..at + n], &mut block).unwrap() {
                blocks.push((offset, block.clone()));
            }
            at += n;
        }
        assert_eq!(
            blocks,
            [(4, b"efgh".to_vec()), (8, b"ij".to_vec()), (0, b"abcd".to_vec())]
        );
    }
}

#[test]
fn block_reader_reports_what_it_cannot_read() {
    let mut block = vec![7];
    let mut reader = ResumableReadFileBlock::new(4, 10);
    assert_eq!(reader.read_on(&[], &mut block), Err(ReadError::ConnectionClosed));
    assert_eq!(reader.read_on(&encode_word(11), &mut block), Err(ReadError::OffsetOutOfRange));
    assert_eq!(reader.read_on(&encode_word(u64::MAX), &mut block), Err(ReadError::OffsetOutOfRange));
    assert_eq!(block, [7]);
    // a block at the very end has no bytes
    assert_eq!(reader.read_on(&encode_word(10), &mut block), Ok(Some(10)));
    assert_eq!(block, []);
}

#[test]
fn buffers_are_written_in_pieces() {
    let data = [1, 2, 3, 4, 5];
    let mut writer = ResumableAsyncWriteAll::new();
    assert_eq!(writer.pending(&data), [1, 2, 3, 4, 5]);
    assert!(!writer.write_all(&data, 2));
    assert_eq!(writer.pending(&data), [3, 4, 5]);
    assert!(!writer.write_all(&data, 0));
    assert!(writer.write_all(&data, 3));
    assert_eq!(writer.pending(&data), []);
}

#[test]
fn decimal_numbers() {
    for n in [0, 7, 10, 99, 100, 65535, 1234567890, u64::MAX] {
        let mut s = "n=".to_string();
        push_decimal(&mut s, n);
        assert_eq!(s, format!("n={}", n));
    }
}

#[test]
fn whitespace_is_that_of_unicode() {
    for c in '\0'..=char::MAX {
        assert_eq!(is_whitespace(c), c.is_whitespace());
    }
}

#[test]
fn trimming() {
    for s in ["", " ", "\n", "a", " a ", "\t/tmp/x y\r\n", "\u{3000}\u{e9}\u{a0}", "a b"] {
        assert_eq!(trim(s), s.trim());
    }
}
