use deltasync::blocks::{block_count, block_len};
use deltasync::hash_file::{
    checksum_text, digest_text, hash_data, recv, FileBlockData, HashWorker, WorkerAction,
    WorkerFailure,
};
use deltasync::sync::{RecvDecision, SendDecision, SharedState};
use deltasync::HashAlgorithm;

#[test]
fn md5_hashes() {
    assert_eq!(hash_data(b"", HashAlgorithm::MD5), "d41d8cd98f00b204e9800998ecf8427e");
    assert_eq!(hash_data(b"hello world", HashAlgorithm::MD5), "5eb63bbbe01eeed093cb22bb8f5acdc3");
}

#[test]
fn crc32_hashes() {
    assert_eq!(hash_data(b"", HashAlgorithm::CRC32), "00000000");
    assert_eq!(hash_data(b"Hello world!", HashAlgorithm::CRC32), "51e7987b");
    assert_eq!(hash_data(b"123456789", HashAlgorithm::CRC32), "839206e3");
}

/// The CRC-32C checksum by its definition, bit by bit.
fn castagnoli(data: &[u8]) -> u32 {
    let mut crc = 0xffff_ffff;
    for byte in data {
        crc ^= *byte as u32;
        for _ in 0..8 {
            crc = if crc & 1 == 1 { (crc >> 1) ^ 0x82f63b78 } else { crc >> 1 };
        }
    }
    !crc
}

#[test]
fn crc32_hashes_are_castagnoli_checksums() {
    let data: Vec<u8> = (0..3000u32).map(|i| (i * i / 7) as u8).collect();
    for from in 0..9 {
        for len in (0..80).chain([255, 256, 1024, 2048, 2900]) {
            let block = &data[from..from + len];
            let expected = checksum_text(castagnoli(block));
            assert_eq!(hash_data(block, HashAlgorithm::CRC32), expected);
        }
    }
}

#[test]
fn checksums_are_written_least_significant_byte_first() {
    assert_eq!(checksum_text(0x01020304), "04030201");
    assert_eq!(checksum_text(0xfffefdab), "abfdfeff");
}

#[test]
fn digests_are_written_in_lower_case() {
    assert_eq!(digest_text(&[0x00, 0x0f, 0xa9, 0xff]), "000fa9ff");
    assert_eq!(digest_text(&[]), "");
}

#[test]
fn algorithms_on_the_wire() {
    assert_eq!(HashAlgorithm::try_from(1), Ok(HashAlgorithm::CRC32));
    assert_eq!(HashAlgorithm::try_from(2), Ok(HashAlgorithm::MD5));
    assert_eq!(HashAlgorithm::try_from(0), Err(0));
    assert_eq!(HashAlgorithm::try_from(3), Err(3));
    assert_eq!(u8::from(HashAlgorithm::CRC32), 1);
    assert_eq!(u8::from(HashAlgorithm::MD5), 2);
    assert_eq!(HashAlgorithm::default(), HashAlgorithm::CRC32);
}

#[test]
fn sizes_of_blocks() {
    assert_eq!(block_count(10, 0), 0);
    assert_eq!(block_count(10, 1), 1);
    assert_eq!(block_count(10, 10), 1);
    assert_eq!(block_count(10, 51), 6);
    assert_eq!(block_count(1, 16777217), 16777217);
    assert_eq!(block_count(usize::MAX, usize::MAX), 1);
    assert_eq!(block_len(10, 51, 40), 10);
    assert_eq!(block_len(10, 51, 50), 1);
    assert_eq!(block_len(10, 51, 51), 0);
}

/// What a worker sends when nothing goes wrong: block indices and hashes.
fn all_sent(mut worker: HashWorker, file: &[u8]) -> Vec<(usize, String)> {
    let mut sent = Vec::new();
    let mut at = 0;
    let mut block: &[u8] = &[];
    let mut action = worker.opened(Ok(()));
    loop {
        action = match action {
            WorkerAction::Seek(offset) => {
                at = offset;
                worker.positioned(Ok(()))
            }
            WorkerAction::Check => worker.checked(false),
            WorkerAction::Read(len) => {
                block = &file[at..at + len];
                worker.block_read(Ok(block))
            }
            WorkerAction::Send(idx, hash) => {
                assert_eq!(hash, hash_data(block, HashAlgorithm::MD5));
                sent.push((idx, hash));
                worker.sent(true)
            }
            WorkerAction::Fail(message) => panic!("{}", message),
            WorkerAction::Stop => return sent,
        };
    }
}

#[test]
fn workers_share_the_blocks() {
    let file: Vec<u8> = (0..85u8).collect();
    let indices = |index: u8| -> Vec<usize> {
        let worker = HashWorker::new(index, 3, 10, file.len(), HashAlgorithm::MD5);
        all_sent(worker, &file).into_iter().map(|(idx, _)| idx).collect()
    };
    assert_eq!(indices(0), [0, 3, 6]);
    assert_eq!(indices(1), [1, 4, 7]);
    assert_eq!(indices(2), [2, 5, 8]);
}

#[test]
fn the_last_block_is_short() {
    let file = b"0123456789abc";
    let worker = HashWorker::new(0, 1, 5, file.len(), HashAlgorithm::MD5);
    let sent = all_sent(worker, file);
    assert_eq!(sent.len(), 3);
    assert_eq!(sent[2], (2, hash_data(b"abc", HashAlgorithm::MD5)));
}

#[test]
fn workers_past_the_end_stop() {
    let mut worker = HashWorker::new(4, 5, 10, 40, HashAlgorithm::CRC32);
    assert!(matches!(worker.opened(Ok(())), WorkerAction::Seek(40)));
    assert!(matches!(worker.positioned(Ok(())), WorkerAction::Stop));

    let mut worker = HashWorker::new(0, 1, 10, 0, HashAlgorithm::CRC32);
    assert!(matches!(worker.opened(Ok(())), WorkerAction::Seek(0)));
    assert!(matches!(worker.positioned(Ok(())), WorkerAction::Stop));

    let mut worker = HashWorker::new(2, 3, 10, 25, HashAlgorithm::CRC32);
    worker.opened(Ok(()));
    worker.positioned(Ok(()));
    assert!(matches!(worker.checked(false), WorkerAction::Read(5)));
    worker.block_read(Ok(b"abcde"));
    assert!(matches!(worker.sent(true), WorkerAction::Seek(50)));
    assert!(matches!(worker.positioned(Ok(())), WorkerAction::Stop));
}

#[test]
fn workers_past_the_last_offset_stop() {
    let mut worker = HashWorker::new(254, 255, usize::MAX, usize::MAX, HashAlgorithm::CRC32);
    assert!(matches!(worker.opened(Ok(())), WorkerAction::Stop));
}

fn failure(action: WorkerAction) -> String {
    match action {
        WorkerAction::Fail(message) => message,
        _ => panic!("no failure"),
    }
}

#[test]
fn failures_are_reported() {
    let new = || HashWorker::new(1, 2, 10, 100, HashAlgorithm::CRC32);
    let cause = || Err::<(), String>("out of luck".to_string());

    let mut worker = new();
    assert_eq!(failure(worker.opened(cause())), "Failed to open file: out of luck");

    let mut worker = new();
    assert!(matches!(worker.opened(Ok(())), WorkerAction::Seek(10)));
    assert_eq!(failure(worker.positioned(cause())), "Failed to seek: out of luck");

    let mut worker = new();
    worker.opened(Ok(()));
    worker.positioned(Ok(()));
    assert!(matches!(worker.checked(false), WorkerAction::Read(10)));
    let failed = worker.block_read(Err("out of luck".to_string()));
    assert_eq!(failure(failed), "Failed to read block 1: out of luck");

    let mut worker = new();
    worker.opened(Ok(()));
    worker.positioned(Ok(()));
    worker.checked(false);
    worker.block_read(Ok(&[0; 10]));
    assert!(matches!(worker.sent(true), WorkerAction::Seek(30)));
    assert_eq!(failure(worker.positioned(cause())), "Failed to seek to next block: out of luck");

    assert_eq!(WorkerFailure::Read(1234567890).message("x"), "Failed to read block 1234567890: x");
}

#[test]
fn workers_stop_when_told_so() {
    let mut worker = HashWorker::new(0, 1, 10, 100, HashAlgorithm::CRC32);
    worker.opened(Ok(()));
    worker.positioned(Ok(()));
    assert!(matches!(worker.checked(true), WorkerAction::Stop));

    let mut worker = HashWorker::new(0, 1, 10, 100, HashAlgorithm::CRC32);
    worker.opened(Ok(()));
    worker.positioned(Ok(()));
    worker.checked(false);
    worker.block_read(Ok(&[0; 10]));
    assert!(matches!(worker.sent(false), WorkerAction::Stop));
}

#[test]
fn errors_of_workers_reach_the_receiver() {
    assert_eq!(recv(None, Some(3)), Ok(Some(3)));
    assert_eq!(recv::<u8>(None, None), Ok(None));
    assert_eq!(
        recv(Some("Failed to seek: x".to_string()), Some(3)),
        Err("Hash worker failed: Failed to seek: x".to_string())
    );
}

#[test]
fn new_blocks_have_no_hash() {
    let block = FileBlockData::new(vec![1, 2, 3]);
    assert_eq!(block.hash, "");
    assert_eq!(block.data, [1, 2, 3]);
}

/// Lets a worker read its next block of `file`, and returns the index it is to send.
fn read_next(worker: &mut HashWorker, action: WorkerAction, file: &[u8]) -> WorkerAction {
    let at = match action {
        WorkerAction::Seek(offset) => offset,
        _ => panic!("no seek"),
    };
    assert!(matches!(worker.positioned(Ok(())), WorkerAction::Check));
    match worker.checked(false) {
        WorkerAction::Read(len) if at + len <= file.len() => {
            worker.block_read(Ok(&file[at..at + len]))
        }
        WorkerAction::Read(_) => worker.block_read(Err("failed to fill whole buffer".to_string())),
        _ => panic!("no read"),
    }
}

#[test]
fn no_deadlock_on_worker_io_error() {
    let file = [0xABu8; 100];
    let mut state = SharedState::new();
    let mut worker0 = HashWorker::new(0, 2, 10, 100, HashAlgorithm::CRC32);
    let mut worker1 = HashWorker::new(1, 2, 10, 100, HashAlgorithm::CRC32);
    let opened0 = worker0.opened(Ok(()));
    let opened1 = worker1.opened(Ok(()));
    assert!(matches!(read_next(&mut worker0, opened0, &file), WorkerAction::Send(0, _)));
    assert!(matches!(read_next(&mut worker1, opened1, &file), WorkerAction::Send(1, _)));

    // the first two blocks are received, but worker 0 does not get its buffer back yet
    state.begin_recv();
    assert_eq!(state.send(0), SendDecision::Ready);
    state.finish_recv();
    state.begin_recv();
    assert_eq!(state.send(1), SendDecision::Ready);
    state.finish_recv();

    // worker 1 goes on and waits with its next block
    let action = worker1.sent(true);
    assert!(matches!(read_next(&mut worker1, action, &file), WorkerAction::Send(3, _)));
    state.begin_recv();
    assert_eq!(state.send(3), SendDecision::Wait);

    // the file becomes empty, and worker 0 cannot read its next block
    let action = worker0.sent(true);
    let error = failure(read_next(&mut worker0, action, &[]));
    assert_eq!(error, "Failed to read block 2: failed to fill whole buffer");
    state.close();

    // neither worker 1 nor the receiver waits any longer
    assert_eq!(state.send(3), SendDecision::Closed);
    assert!(matches!(worker1.sent(false), WorkerAction::Stop));
    assert_eq!(
        recv::<u8>(Some(error), None),
        Err("Hash worker failed: Failed to read block 2: failed to fill whole buffer".to_string())
    );
}

const FILE_TO_HASH: &[u8] = b"This text file is used\nto test the `hash_file` function.\n\n\n";

/// Hashes `file` with as many workers as asked for, and returns what is received.
fn stream(file: &[u8], workers: u8, algorithm: HashAlgorithm) -> Vec<(usize, String)> {
    let mut state = SharedState::new();
    let mut all: Vec<(HashWorker, Option<WorkerAction>)> = (0..workers)
        .map(|i| HashWorker::new(i, workers, 10, file.len(), algorithm))
        .map(|mut worker| {
            let action = worker.opened(Ok(()));
            (worker, Some(action))
        })
        .collect();
    let mut received = Vec::new();
    loop {
        state.begin_recv();
        let mut value = None;
        let mut senders_left = false;
        // the last worker has the first turn
        for (worker, waiting) in all.iter_mut().rev() {
            let mut at = 0;
            while let Some(action) = waiting.take() {
                *waiting = match action {
                    WorkerAction::Seek(offset) => {
                        at = offset;
                        Some(worker.positioned(Ok(())))
                    }
                    WorkerAction::Check => Some(worker.checked(false)),
                    WorkerAction::Read(len) => Some(worker.block_read(Ok(&file[at..at + len]))),
                    WorkerAction::Send(idx, hash) => {
                        senders_left = true;
                        if value.is_none() && state.send(idx) == SendDecision::Ready {
                            value = Some((idx, hash));
                            *waiting = Some(worker.sent(true));
                        } else {
                            *waiting = Some(WorkerAction::Send(idx, hash));
                        }
                        break;
                    }
                    WorkerAction::Fail(error) => panic!("{}", error),
                    WorkerAction::Stop => None,
                };
            }
        }
        match state.recv(value.is_some(), senders_left) {
            RecvDecision::Ready => {
                state.finish_recv();
                received.push(value.unwrap());
            }
            RecvDecision::Over => return received,
            RecvDecision::Wait => panic!("stuck"),
        }
    }
}

#[test]
fn hashes() {
    let expected = [
        "87569f2a32a30008939dbce402476f9e",
        "4bb90b25dbd367acfb66910764a60669",
        "2ae5379d67740e8bb6ce27404873efa5",
        "330880debc47896dacf1b11aa46ada4a",
        "a80a682a9206c851a4dd9d809a20e4c5",
        "590f3733f7c58433d9077904b0f1a6ee",
    ];
    let received = stream(FILE_TO_HASH, 2, HashAlgorithm::MD5);
    assert_eq!(received.len(), 6);
    for (i, (idx, hash)) in received.iter().enumerate() {
        assert_eq!(*idx, i);
        assert_eq!(hash, expected[i]);
    }
}

#[test]
fn streams_do_not_depend_on_the_number_of_workers() {
    let one = stream(FILE_TO_HASH, 1, HashAlgorithm::CRC32);
    for workers in [2, 3, 5, 6, 7, 255] {
        assert_eq!(stream(FILE_TO_HASH, workers, HashAlgorithm::CRC32), one);
    }
}

#[test]
fn dropped() {
    let mut state = SharedState::new();
    let mut worker0 = HashWorker::new(0, 2, 10, FILE_TO_HASH.len(), HashAlgorithm::CRC32);
    let mut worker1 = HashWorker::new(1, 2, 10, FILE_TO_HASH.len(), HashAlgorithm::CRC32);
    let opened0 = worker0.opened(Ok(()));
    let opened1 = worker1.opened(Ok(()));
    assert!(matches!(read_next(&mut worker0, opened0, FILE_TO_HASH), WorkerAction::Send(0, _)));
    assert!(matches!(read_next(&mut worker1, opened1, FILE_TO_HASH), WorkerAction::Send(1, _)));
    state.begin_recv();
    assert_eq!(state.send(0), SendDecision::Ready);
    assert_eq!(state.send(1), SendDecision::Wait);
    state.finish_recv();
    let action = worker0.sent(true);
    assert!(matches!(read_next(&mut worker0, action, FILE_TO_HASH), WorkerAction::Send(2, _)));

    // the receiver goes away: no worker waits with its block
    state.close();
    assert_eq!(state.send(1), SendDecision::Closed);
    assert_eq!(state.send(2), SendDecision::Closed);
    assert!(matches!(worker0.sent(false), WorkerAction::Stop));
    assert!(matches!(worker1.sent(false), WorkerAction::Stop));
}

#[test]
fn blocks_of_no_bytes_never_end() {
    let mut worker = HashWorker::new(1, 2, 0, 5, HashAlgorithm::CRC32);
    let mut action = worker.opened(Ok(()));
    for turn in 0..100 {
        assert!(matches!(action, WorkerAction::Seek(0)));
        worker.positioned(Ok(()));
        assert!(matches!(worker.checked(false), WorkerAction::Read(0)));
        let idx = 1 + 2 * turn;
        assert!(matches!(worker.block_read(Ok(&[])), WorkerAction::Send(i, _) if i == idx));
        action = worker.sent(true);
    }
}
