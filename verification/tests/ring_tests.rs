use ringlog::ring::{rotation_plan, FileOp, Ring};

#[test]
fn capacity_one_ring_keeps_no_archives() {
    let mut ring = Ring::new(1);
    ring.write_line(b"only line");
    assert!(ring.has_file(0));
    ring.rotate();
    assert_eq!(1, ring.capacity());
    assert!(!ring.has_file(0));
}

#[test]
fn rotate_promotes_active_and_drops_oldest() {
    // Two empty files in a two-slot ring: the old archive dies, the old
    // active file becomes archive 1, and no new slot appears.
    let ring_files: Vec<Option<Vec<u8>>> = vec![Some(Vec::new()), Some(Vec::new())];
    let mut ring = Ring::from_files(ring_files);
    ring.rotate();
    assert_eq!(2, ring.capacity());
    assert!(ring.has_file(1));
    assert!(!ring.has_file(0));
}

#[test]
fn rotate_keeps_gaps_as_gaps() {
    // Only the active file and archive 2 exist in a four-slot ring: after a
    // rotation only archive 1 (the former active) and archive 3 (the former
    // archive 2) exist.
    let ring_files: Vec<Option<Vec<u8>>> = vec![
        Some(b"newest".to_vec()),
        None,
        Some(b"old".to_vec()),
        None,
    ];
    let mut ring = Ring::from_files(ring_files);
    ring.rotate();
    assert!(!ring.has_file(0));
    assert!(ring.has_file(1));
    assert!(!ring.has_file(2));
    assert!(ring.has_file(3));
    assert_eq!(b"newest".to_vec(), *ring.file_bytes(1));
    assert_eq!(b"old".to_vec(), *ring.file_bytes(3));
}

#[test]
fn ingest_rotates_once_threshold_is_reached() {
    // Three lines through a two-slot ring with a 10-byte threshold: the
    // first two lines fit (the second crosses the threshold after being
    // written), so the third write first rotates.
    let mut ring = Ring::new(2);
    ring.ingest_line(b"AAAAA", 10);
    ring.ingest_line(b"BBBBB", 10);
    ring.ingest_line(b"CCCCC", 10);
    assert_eq!(b"CCCCC\n".to_vec(), *ring.file_bytes(0));
    assert_eq!(b"AAAAA\nBBBBB\n".to_vec(), *ring.file_bytes(1));
}

#[test]
fn small_input_never_rotates() {
    let mut ring = Ring::new(3);
    ring.ingest_line(b"first", 1000000);
    ring.ingest_line(b"second", 1000000);
    ring.ingest_line(b"", 1000000);
    assert_eq!(b"first\nsecond\n\n".to_vec(), *ring.file_bytes(0));
    assert!(!ring.has_file(1));
    assert!(!ring.has_file(2));
}

#[test]
fn dropped_lines_leave_a_suffix_on_disk() {
    // Push enough lines through a small ring that the oldest ones are
    // dropped, then check that the retained bytes, oldest slot first, are a
    // suffix of everything written.
    let lines: [&[u8]; 7] = [b"one", b"two", b"three", b"four", b"five", b"six", b"seven"];
    let mut ring = Ring::new(2);
    let mut stream: Vec<u8> = Vec::new();
    for line in lines {
        ring.ingest_line(line, 8);
        stream.extend_from_slice(line);
        stream.push(b'\n');
    }
    let mut on_disk: Vec<u8> = Vec::new();
    let mut slot = ring.capacity();
    while slot > 0 {
        slot -= 1;
        if ring.has_file(slot) {
            on_disk.extend_from_slice(ring.file_bytes(slot));
        }
    }
    assert!(on_disk.len() <= stream.len());
    assert_eq!(&stream[stream.len() - on_disk.len()..], &on_disk[..]);
}

#[test]
fn rotation_plan_matches_the_engine() {
    // Slots 0, 1 and 3 exist in a four-slot ring: the oldest existing slot 3
    // is deleted, the others move up by one, highest first.
    let ring_exists: Vec<bool> = vec![true, true, false, true];
    let plan = rotation_plan(&ring_exists);
    assert_eq!(
        vec![
            FileOp::Delete { index: 3 },
            FileOp::Rename { from: 1, to: 2 },
            FileOp::Rename { from: 0, to: 1 },
        ],
        plan
    );
}

#[test]
fn rotation_plan_never_leaves_the_ring() {
    let ring_exists: Vec<bool> = vec![true, true, true, true, true];
    let n = ring_exists.len();
    for op in rotation_plan(&ring_exists) {
        match op {
            FileOp::Delete { index } => assert!(index < n),
            FileOp::Rename { from, to } => {
                assert!(from < n);
                assert!(to < n);
            }
        }
    }
}
