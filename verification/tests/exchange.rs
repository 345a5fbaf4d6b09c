use deltasync::client::{
    ClientAction, ClientError, ClientHandshake, ClientProcessOptions, ClientStep, ClientSync,
};
use deltasync::common::{
    write_status, write_string, ReadError, ResumableReadString, ResumableWriteFileBlock,
    StatusCode, StatusError,
};
use deltasync::endian::encode_word;
use deltasync::hash_file::{hash_data, FileBlockData};
use deltasync::server::{
    open_destination, Destination, DestinationAction, HandshakeStep, ServerHandshake, ServerStep,
    ServerSync, SyncRequest,
};
use deltasync::HashAlgorithm;

fn options(secret: &str) -> ClientProcessOptions {
    ClientProcessOptions {
        address: "127.0.0.1:15000".to_string(),
        secret: secret.to_string(),
        src_path: "/src".to_string(),
        dest: "/d\u{e9}st".to_string(),
        force_truncate: true,
        workers: 1,
        block_size: 1000,
        hash_algorithm: HashAlgorithm::MD5,
    }
}

/// What a server makes of `bytes`: its answers, and how the handshake ends.
fn serve(secret: &str, bytes: &[u8]) -> (Vec<u8>, Option<HandshakeStep>) {
    let mut server = ServerHandshake::new(secret.to_string());
    let mut answers = Vec::new();
    let mut at = 0;
    while at + server.needed() <= bytes.len() {
        let field = bytes[at..at + server.needed()].to_vec();
        at += field.len();
        match server.receive(field) {
            HandshakeStep::Continue => {}
            HandshakeStep::Acknowledge => answers.push(write_status(StatusCode::Ack)),
            HandshakeStep::Reject(status) => {
                answers.push(write_status(status));
                return (answers, Some(HandshakeStep::Reject(status)));
            }
            step => {
                assert_eq!(at, bytes.len());
                return (answers, Some(step));
            }
        }
    }
    (answers, None)
}

fn hello(secret: &str) -> Vec<u8> {
    let mut bytes = vec![secret.len() as u8];
    bytes.extend_from_slice(secret.as_bytes());
    bytes
}

#[test]
fn client_messages() {
    let options = options("s3cret");
    let (mut client, first) = ClientHandshake::new(&options).ok().unwrap();
    assert_eq!(first, b"\x06s3cret");
    match client.answered(0, &options) {
        Ok(ClientAction::Send(message)) => assert_eq!(message, [1]),
        _ => panic!("no version"),
    }
    match client.answered(0, &options) {
        Ok(ClientAction::SendAndOpen(message)) => assert_eq!(message, write_string("/d\u{e9}st")),
        _ => panic!("no path"),
    }
    let request = client.source_opened(0x0102, &options).unwrap();
    assert_eq!(request, [0, 0, 0, 0, 0, 0, 3, 232, 0, 0, 0, 0, 0, 0, 1, 2, 1, 2]);
    assert!(matches!(client.answered(0, &options), Ok(ClientAction::Sync)));
}

#[test]
fn requests_pass_the_handshake() {
    let options = options("s3cret");
    let (mut client, mut bytes) = ClientHandshake::new(&options).ok().unwrap();
    let mut answered = 0;
    loop {
        let (answers, end) = serve("s3cret", &bytes);
        if let Some(HandshakeStep::Open(SyncRequest {
            dest_path,
            block_size,
            file_size,
            force_truncate,
            hash_algorithm,
        })) = end
        {
            assert_eq!(dest_path, "/d\u{e9}st");
            assert_eq!(block_size, 1000);
            assert_eq!(file_size, 123456);
            assert!(force_truncate);
            assert_eq!(hash_algorithm, HashAlgorithm::MD5);
            break;
        }
        match client.answered(answers[answered], &options) {
            Ok(ClientAction::Send(message)) => bytes.extend(message),
            Ok(ClientAction::SendAndOpen(message)) => {
                bytes.extend(message);
                bytes.extend(client.source_opened(123456, &options).unwrap());
            }
            _ => panic!("refused"),
        }
        answered += 1;
    }
    assert_eq!(answered, 2);
}

#[test]
fn clients_that_give_up() {
    let too_long = options(&"x".repeat(256));
    assert_eq!(ClientHandshake::new(&too_long).err(), Some(ClientError::SecretTooLong));
    assert!(ClientHandshake::new(&options(&"x".repeat(255))).is_ok());

    let options = options("");
    let (mut client, first) = ClientHandshake::new(&options).ok().unwrap();
    assert_eq!(first, [0]);
    let refused = StatusError::Refused(StatusCode::InvalidSecret);
    assert_eq!(client.answered(1, &options).err(), Some(ClientError::Status(refused)));

    let (mut client, _) = ClientHandshake::new(&options).ok().unwrap();
    let unknown = client.answered(42, &options).err().unwrap();
    assert_eq!(unknown, ClientError::Status(StatusError::Unknown));

    let (mut client, _) = ClientHandshake::new(&options).ok().unwrap();
    assert!(client.answered(0, &options).is_ok());
    assert!(client.answered(0, &options).is_ok());
    assert_eq!(client.source_opened(0, &options), Err(ClientError::EmptySource));
}

#[test]
fn reasons_to_give_up_in_words() {
    assert_eq!(
        ClientError::SecretTooLong.message(),
        "out of range integral type conversion attempted"
    );
    assert_eq!(ClientError::EmptySource.message(), "Source file is empty, nothing to sync");
    let refused = ClientError::Status(StatusError::Refused(StatusCode::FileSizeDiffers));
    assert_eq!(refused.message(), "File size differs");
}

#[test]
fn wrong_secrets_are_refused() {
    for wrong in ["", "s3cre", "s3cret!", "S3cret"] {
        let (answers, end) = serve("s3cret", &hello(wrong));
        assert_eq!(answers, [1]);
        assert!(matches!(end, Some(HandshakeStep::Reject(StatusCode::InvalidSecret))));
    }
    let (answers, end) = serve("s3cret", &hello("s3cret"));
    assert_eq!(answers, [0]);
    assert!(end.is_none());
}

#[test]
fn the_empty_secret_is_acknowledged() {
    let mut server = ServerHandshake::new(String::new());
    assert_eq!(server.needed(), 1);
    assert!(matches!(server.receive(vec![0]), HandshakeStep::Continue));
    assert_eq!(server.needed(), 0);
    assert!(matches!(server.receive(vec![]), HandshakeStep::Acknowledge));
    assert_eq!(server.needed(), 1);
}

/// A client that knows the secret, up to the version of its protocol.
fn greeted(version: u8) -> Vec<u8> {
    let mut bytes = hello("k");
    bytes.push(version);
    bytes
}

#[test]
fn other_versions_are_refused() {
    for version in [0, 2, 255] {
        let (answers, end) = serve("k", &greeted(version));
        assert_eq!(answers, [0, 6]);
        assert!(matches!(
            end,
            Some(HandshakeStep::Reject(StatusCode::UnsupportedProtocolVersion))
        ));
    }
    assert_eq!(serve("k", &greeted(1)).0, [0, 0]);
}

#[test]
fn paths_that_cannot_be_read() {
    let mut bytes = greeted(1);
    bytes.extend(encode_word(4097));
    let end = serve("k", &bytes).1;
    assert!(matches!(end, Some(HandshakeStep::Fail(ReadError::TooLong))));

    let mut bytes = greeted(1);
    bytes.extend(encode_word(2));
    bytes.extend([0xff, 0xff]);
    let end = serve("k", &bytes).1;
    assert!(matches!(end, Some(HandshakeStep::Fail(ReadError::InvalidUtf8(1, 0)))));
}

/// The answers to a request with these sizes and options.
fn answers_to(block_size: u64, truncate: u8, algorithm: u8) -> (Vec<u8>, Option<HandshakeStep>) {
    let mut bytes = greeted(1);
    bytes.extend(write_string("/dest"));
    bytes.extend(encode_word(block_size));
    bytes.extend(encode_word(5));
    bytes.extend([truncate, algorithm]);
    serve("k", &bytes)
}

#[test]
fn requests_that_are_refused() {
    let (answers, end) = answers_to(10, 0, 3);
    assert_eq!(answers, [0, 0, 5]);
    assert!(matches!(end, Some(HandshakeStep::Reject(StatusCode::UnknownHashAlgorithm))));
}

#[test]
fn any_block_size_is_taken() {
    for size in [0, 1, 1048576, u32::MAX as u64] {
        match answers_to(size, 0, 1) {
            (answers, Some(HandshakeStep::Open(request))) => {
                assert_eq!(answers, [0, 0]);
                assert_eq!(request.block_size as u64, size);
            }
            _ => panic!("refused"),
        }
    }
}

#[test]
fn any_flag_but_zero_means_truncation() {
    for (flag, expected) in [(0, false), (1, true), (2, true), (255, true)] {
        match answers_to(10, flag, 1).1 {
            Some(HandshakeStep::Open(request)) => assert_eq!(request.force_truncate, expected),
            _ => panic!("refused"),
        }
    }
}

#[test]
fn destinations() {
    let exists = Destination::Exists;
    let reject = DestinationAction::Reject;
    assert_eq!(open_destination(exists(5), 5, false), DestinationAction::Resize(5));
    assert_eq!(open_destination(exists(4), 5, true), DestinationAction::Resize(5));
    assert_eq!(open_destination(exists(6), 5, true), DestinationAction::Resize(5));
    assert_eq!(open_destination(exists(4), 5, false), reject(StatusCode::FileSizeDiffers));
    assert_eq!(open_destination(Destination::Missing, 5, false), DestinationAction::Create(5));
    assert_eq!(open_destination(Destination::Denied, 5, true), reject(StatusCode::PermissionDenied));
    assert_eq!(open_destination(Destination::Failed, 5, true), DestinationAction::Fail);
}

/// Takes what a client sends, and applies it to `file`. Returns the final status.
fn apply(file: &mut [u8], block_size: usize, sent: &[u8], piece: usize) -> StatusCode {
    let mut server = ServerSync::new(block_size, file.len());
    let mut at = 0;
    loop {
        assert!(server.reads_blocks());
        let n = piece.min(server.block_needed()).min(sent.len() - at);
        let step = server.block_received(&sent[at..at + n]);
        at += n;
        match step {
            ServerStep::Continue => {}
            ServerStep::WriteAt(offset) => {
                let mut position = offset;
                while let Some(pending) = server.disk_pending() {
                    assert!(!server.reads_blocks());
                    let n = piece.min(pending.len());
                    file[position..position + n].copy_from_slice(&pending[..n]);
                    position += n;
                    server.disk_written(n);
                }
            }
            ServerStep::Finish(status) => return status,
        }
    }
}

/// What a server sends for the blocks of `file`, in pieces of at most `piece` bytes.
fn hashes_sent(file: &[u8], block_size: usize, algorithm: HashAlgorithm, piece: usize) -> Vec<u8> {
    let mut server = ServerSync::new(block_size, file.len());
    let mut sent = Vec::new();
    for block in file.chunks(block_size) {
        assert!(server.wants_hash());
        server.next_hash(&hash_data(block, algorithm));
        while let Some(pending) = server.hash_pending() {
            let n = piece.min(pending.len());
            sent.extend_from_slice(&pending[..n]);
            server.hash_written(n);
        }
    }
    sent
}

/// What a client sends for `source`, given what a server sent, and the indices of the
/// blocks in it.
fn blocks_sent(
    source: &[u8],
    block_size: usize,
    algorithm: HashAlgorithm,
    hashes: &[u8],
) -> (Vec<u8>, Vec<usize>) {
    let mut client = ClientSync::new(block_size, source.len());
    let mut reader = ResumableReadString::new();
    let mut blocks = source.chunks(block_size);
    let mut sent = Vec::new();
    let mut indices = Vec::new();
    let mut at = 0;
    loop {
        assert!(client.wants_server_hash());
        let hash = loop {
            let n = reader.needed().min(hashes.len() - at);
            let read = reader.read_on(&hashes[at..at + n]);
            at += n;
            match read {
                Ok(None) => {}
                Ok(Some(hash)) => break Ok(hash),
                Err(e) => break Err(e),
            }
        };
        if matches!(client.hash_received(hash), ClientStep::Finish) {
            return (sent, indices);
        }
        assert!(client.wants_block());
        let block = blocks.next().unwrap().to_vec();
        let mut step = client.block_hashed(FileBlockData { hash: hash_data(&block, algorithm), data: block });
        loop {
            step = match step {
                ClientStep::Continue => break,
                ClientStep::Finish => return (sent, indices),
                ClientStep::Write(offset, data) => {
                    let mut writer = ResumableWriteFileBlock::new(offset, data);
                    loop {
                        let n = writer.pending().len();
                        sent.extend_from_slice(writer.pending());
                        if writer.write_to(n) {
                            break;
                        }
                    }
                    indices.push(offset / block_size);
                    client.block_written()
                }
            };
        }
    }
}

#[test]
fn files_are_synchronised() {
    let source: Vec<u8> = (0..103u8).collect();
    for algorithm in [HashAlgorithm::CRC32, HashAlgorithm::MD5] {
        for piece in [1, 3, 8, 1000] {
            let mut file = source.clone();
            file[0] = 99;
            file[55] = 1;
            file[59] = 2;
            file[102] = 0;
            let hashes = hashes_sent(&file, 10, algorithm, piece);
            let (sent, indices) = blocks_sent(&source, 10, algorithm, &hashes);
            assert_eq!(indices, [0, 5, 10]);
            assert_eq!(sent.len(), 3 * 8 + 10 + 10 + 3);
            assert_eq!(apply(&mut file, 10, &sent, piece), StatusCode::Ack);
            assert_eq!(file, source);
        }
    }
}

#[test]
fn equal_files_send_nothing() {
    let source = vec![7; 64];
    let hashes = hashes_sent(&source, 16, HashAlgorithm::CRC32, 5);
    assert_eq!(hashes.len(), 4 * (8 + 8));
    let (sent, _) = blocks_sent(&source, 16, HashAlgorithm::CRC32, &hashes);
    assert!(sent.is_empty());
}

#[test]
fn a_new_file_gets_all_blocks() {
    let source: Vec<u8> = (1..=50u8).collect();
    let mut file = vec![0; 50];
    let hashes = hashes_sent(&file, 16, HashAlgorithm::MD5, 64);
    let (sent, indices) = blocks_sent(&source, 16, HashAlgorithm::MD5, &hashes);
    assert_eq!(indices, [0, 1, 2, 3]);
    apply(&mut file, 16, &sent, 7);
    assert_eq!(file, source);
}

#[test]
fn blocks_wait_for_one_another() {
    let mut client = ClientSync::new(10, 35);
    let differ = |data: u8| FileBlockData { hash: "b".to_string(), data };
    let hash = || Ok::<String, ()>("a".to_string());
    assert_eq!(client.progress(), (0, 4, 0));
    assert!(!client.wants_block());
    assert!(matches!(client.hash_received(hash()), ClientStep::Continue));
    assert!(!client.wants_server_hash());
    assert!(matches!(client.block_hashed(differ(1)), ClientStep::Write(0, 1)));
    client.hash_received(hash());
    assert!(matches!(client.block_hashed(differ(2)), ClientStep::Continue));
    client.hash_received(hash());
    let same = FileBlockData { hash: "a".to_string(), data: 3 };
    assert!(matches!(client.block_hashed(same), ClientStep::Continue));
    assert_eq!(client.progress(), (3, 4, 75));
    client.hash_received(hash());
    assert!(matches!(client.block_hashed(differ(4)), ClientStep::Continue));
    assert_eq!(client.progress(), (4, 4, 100));
    assert!(!client.wants_block());
    assert!(matches!(client.block_written(), ClientStep::Write(10, 2)));
    assert!(matches!(client.block_written(), ClientStep::Write(30, 4)));
    assert!(matches!(client.block_written(), ClientStep::Finish));
}

#[test]
fn clients_finish_when_hashes_end() {
    let mut client = ClientSync::<u8>::new(10, 35);
    let step = client.hash_received(Err(ReadError::ConnectionClosed));
    assert!(matches!(step, ClientStep::Finish));
}

#[test]
fn files_of_many_blocks_are_compared_to_the_end() {
    // more blocks than a number of 24 bits can count
    let client = ClientSync::<u8>::new(1, 16777217);
    assert_eq!(client.progress(), (0, 16777217, 0));
}

#[test]
fn servers_take_the_end_of_the_blocks_for_the_end() {
    let mut server = ServerSync::new(10, 35);
    assert_eq!(server.block_received(&[]), ServerStep::Finish(StatusCode::Ack));
    let mut server = ServerSync::new(10, 35);
    let step = server.block_received(&encode_word(36));
    assert_eq!(step, ServerStep::Finish(StatusCode::Ack));
}

#[test]
fn servers_go_on_after_failures() {
    let mut server = ServerSync::new(10, 12);
    assert_eq!(server.block_needed(), 8);
    assert_eq!(server.block_received(&encode_word(10)), ServerStep::Continue);
    assert_eq!(server.block_needed(), 2);
    assert_eq!(server.block_received(b"xy"), ServerStep::WriteAt(10));
    assert_eq!(server.disk_pending(), Some(&b"xy"[..]));
    server.disk_failed();
    assert!(server.reads_blocks());
    assert_eq!(server.disk_pending(), None);

    server.next_hash("00");
    assert!(!server.wants_hash());
    server.hash_failed();
    assert!(server.wants_hash());
    assert_eq!(server.hash_pending(), None);
}

#[test]
fn no_hash_is_wanted_after_the_last() {
    let mut server = ServerSync::new(10, 12);
    server.next_hash("00");
    server.hashes_ended();
    assert_eq!(server.hash_pending().unwrap().len(), 10);
    server.hash_written(10);
    assert!(!server.wants_hash());
    assert!(server.reads_blocks());
}

#[test]
fn no_block_is_wanted_of_a_source_that_ended() {
    let mut client = ClientSync::<u8>::new(10, 35);
    client.hash_received::<()>(Ok("a".to_string()));
    assert!(client.wants_block());
    client.blocks_ended();
    assert!(!client.wants_block());
    assert_eq!(client.progress(), (0, 4, 0));
}

#[test]
fn streams_that_end_inside_a_block_apply_the_blocks_before() {
    let source: Vec<u8> = (1..=30u8).collect();
    let mut file = vec![0; 30];
    let hashes = hashes_sent(&file, 10, HashAlgorithm::CRC32, 64);
    let (sent, _) = blocks_sent(&source, 10, HashAlgorithm::CRC32, &hashes);
    assert_eq!(sent.len(), 54);
    assert_eq!(apply(&mut file, 10, &sent[..53], 4), StatusCode::Ack);
    assert_eq!(file[..20], source[..20]);
    assert_eq!(file[20..], [0; 10]);
}

#[test]
fn blocks_are_hashed_before_they_are_overwritten() {
    // the server reads its blocks while those of the client are being written
    let source: Vec<u8> = (0..40u8).collect();
    let before = vec![9; 40];
    let mut file = before.clone();
    let algorithm = HashAlgorithm::MD5;
    let mut client = ClientSync::new(10, 40);
    for i in 0..4 {
        let hash = hash_data(&file[10 * i..10 * i + 10], algorithm);
        assert_eq!(hash, hash_data(&before[10 * i..10 * i + 10], algorithm));
        client.hash_received::<()>(Ok(hash));
        let data = source[10 * i..10 * i + 10].to_vec();
        let block = FileBlockData { hash: hash_data(&data, algorithm), data };
        if let ClientStep::Write(offset, data) = client.block_hashed(block) {
            file[offset..offset + 10].copy_from_slice(&data);
            let finished = matches!(client.block_written(), ClientStep::Finish);
            assert_eq!(finished, i == 3);
        } else {
            panic!("not written");
        }
    }
    assert_eq!(file, source);
}
