use friday_core::terminal::{Error, ReplayBuffer, TerminalTable, MAX_CHUNKS, READ_CHUNK};

#[test]
fn spawns_captures_and_replays_output() {
    let mut buffer = ReplayBuffer::new();

    // The live side receives the bytes as they are recorded.
    let mut live = Vec::new();
    let out = buffer.record(b"hello-friday\r\n".to_vec());
    live.extend_from_slice(&out.data);
    assert!(String::from_utf8_lossy(&live).contains("hello-friday"));

    // The snapshot replays the same bytes and reports a non-zero seq.
    let (snap, last) = buffer.snapshot();
    assert!(String::from_utf8_lossy(&snap).contains("hello-friday"));
    assert!(last >= 1, "seq should advance past zero");

    let mut table: TerminalTable<ReplayBuffer> = TerminalTable::new();
    assert!(table.insert("t1".to_string(), buffer).is_none());
    assert_eq!(
        table.get_mut("nope").map(|_| ()).map_err(|e| e.to_string()).unwrap_err(),
        "terminal not found"
    );
}

#[test]
fn seq_starts_at_one_and_counts_up() {
    let mut buffer = ReplayBuffer::new();
    assert_eq!(buffer.last_seq(), 0);
    assert_eq!(buffer.snapshot(), (Vec::new(), 0));
    let a = buffer.record(vec![1, 2]);
    let b = buffer.record(vec![3]);
    let c = buffer.record(vec![4]);
    assert_eq!((a.seq, b.seq, c.seq), (1, 2, 3));
    assert_eq!(a.data, vec![1, 2]);
    assert_eq!(buffer.last_seq(), 3);
    assert_eq!(buffer.len(), 3);
    assert_eq!(buffer.snapshot(), (vec![1, 2, 3, 4], 3));
}

#[test]
fn oldest_chunks_go_past_the_bound() {
    let mut buffer = ReplayBuffer::new();
    for i in 0..(MAX_CHUNKS + 2) {
        let out = buffer.record(vec![(i % 251) as u8]);
        assert_eq!(out.seq, i as u64 + 1);
        assert!(buffer.len() <= MAX_CHUNKS);
    }
    assert_eq!(buffer.len(), MAX_CHUNKS);
    let (snap, last) = buffer.snapshot();
    assert_eq!(last, MAX_CHUNKS as u64 + 2);
    assert_eq!(snap.len(), MAX_CHUNKS);
    // chunks 1 and 2 were dropped: the replay starts at the third.
    assert_eq!(snap[0], 2);
    assert_eq!(snap[MAX_CHUNKS - 1], ((MAX_CHUNKS + 1) % 251) as u8);
}

#[test]
fn reattach_shows_each_byte_once() {
    let mut buffer = ReplayBuffer::new();
    let mut everything = Vec::new();
    for word in ["alpha ", "beta ", "gamma "] {
        everything.extend_from_slice(word.as_bytes());
        buffer.record(word.as_bytes().to_vec());
    }
    let (mut view, last) = buffer.snapshot();
    let mut live = Vec::new();
    for word in ["delta ", "epsilon"] {
        everything.extend_from_slice(word.as_bytes());
        live.push(buffer.record(word.as_bytes().to_vec()));
    }
    for out in live {
        if out.seq > last {
            view.extend_from_slice(&out.data);
        }
    }
    assert_eq!(view, everything);
    assert_eq!(String::from_utf8(view).unwrap(), "alpha beta gamma delta epsilon");
}

#[test]
fn a_read_of_nothing_or_an_error_ends_the_stream() {
    let mut buffer = ReplayBuffer::new();
    let chunk = [7u8, 8, 9, 10];
    let out = buffer.on_read(&chunk, Ok(3)).expect("bytes were read");
    assert_eq!((out.seq, out.data), (1, vec![7, 8, 9]));
    assert!(buffer.on_read(&chunk, Ok(0)).is_none());
    let failed = std::io::Error::new(std::io::ErrorKind::Other, "gone");
    assert!(buffer.on_read(&chunk, Err(failed)).is_none());
    assert_eq!(buffer.snapshot(), (vec![7, 8, 9], 1));
}

#[test]
fn error_messages() {
    assert_eq!(Error::NotFound.to_string(), "terminal not found");
    assert_eq!(Error::pty("no pty").to_string(), "pty error: no pty");
    match Error::pty(42) {
        Error::Pty(msg) => assert_eq!(msg, "42"),
        other => panic!("unexpected {:?}", other),
    }
    let io = std::io::Error::new(std::io::ErrorKind::Other, "pipe closed");
    let err: Error = io.into();
    assert!(matches!(err, Error::Io(_)));
    assert_eq!(err.to_string(), "io error: pipe closed");
}

#[test]
fn table_start_replaces_and_kill_forgets() {
    let mut table: TerminalTable<u32> = TerminalTable::new();
    assert_eq!(table.insert("a".to_string(), 1), None);
    assert_eq!(table.insert("b".to_string(), 2), None);
    // Starting under a live id hands back the old terminal, to be killed.
    assert_eq!(table.insert("a".to_string(), 3), Some(1));
    assert_eq!(table.len(), 2);
    assert_eq!(*table.get("a").unwrap(), 3);
    assert!(table.contains("b"));
    let mut ids = table.ids();
    ids.sort();
    assert_eq!(ids, vec!["a".to_string(), "b".to_string()]);

    *table.get_mut("b").unwrap() = 20;
    assert_eq!(*table.get("b").unwrap(), 20);

    assert_eq!(table.remove("a"), Some(3));
    assert!(!table.contains("a"));
    assert!(matches!(table.get("a"), Err(Error::NotFound)));
    // Killing an unknown id changes nothing.
    assert_eq!(table.remove("a"), None);
    assert_eq!(table.remove("zzz"), None);
    assert_eq!(table.ids(), vec!["b".to_string()]);
}

#[test]
fn reads_become_numbered_chunks_and_bounded_snapshots() {
    let mut buffer = ReplayBuffer::new();
    let chunk = [b'x'; READ_CHUNK];
    assert_eq!(buffer.snapshot(), (Vec::new(), 0));
    let mut stream = Vec::new();
    for n in 1..=(MAX_CHUNKS + 10) {
        let read = 1 + n % READ_CHUNK;
        let out = buffer.on_read(&chunk, Ok(read)).expect("a non-empty read");
        assert_eq!(out.seq, n as u64);
        assert_eq!(out.data.len(), read);
        stream.extend_from_slice(&out.data);
    }
    let (snap, last) = buffer.snapshot();
    assert_eq!(last, (MAX_CHUNKS + 10) as u64);
    assert!(snap.len() >= MAX_CHUNKS);
    assert!(snap.len() <= MAX_CHUNKS * READ_CHUNK);
    // The snapshot is the tail of the whole stream.
    assert!(stream.ends_with(&snap));
}

#[test]
fn a_later_snapshot_extends_an_earlier_one() {
    let mut buffer = ReplayBuffer::new();
    buffer.record(b"one ".to_vec());
    let (first, l1) = buffer.snapshot();
    assert_eq!(buffer.snapshot(), (first.clone(), l1));
    buffer.record(b"two ".to_vec());
    buffer.record(b"three".to_vec());
    let (second, l2) = buffer.snapshot();
    assert!(l1 <= l2);
    assert_eq!(l2, l1 + 2);
    assert!(second.starts_with(&first));
    assert_eq!(second, b"one two three".to_vec());
}
