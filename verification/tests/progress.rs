use autonomi_webrtc::data_map::{ChunkInfo, DataMap};
use autonomi_webrtc::progress::{admitted, delivered, Progress};

fn info(index: usize, tag: u8) -> ChunkInfo {
    ChunkInfo { index, dst_hash: [tag; 32], src_hash: [0; 32], src_size: 10 }
}

fn map(tags: &[u8], child: Option<usize>) -> DataMap {
    let infos = tags.iter().enumerate().map(|(i, tag)| info(i, *tag)).collect();
    DataMap { infos, child }
}

fn message<T>(result: Result<T, autonomi_webrtc::error::Error>) -> String {
    match result {
        Ok(_) => panic!("no error"),
        Err(error) => error.message().to_string(),
    }
}

#[test]
fn a_flat_map_needs_its_chunks_and_no_root() {
    let mut progress = Progress::start(Ok(map(&[3, 1, 2], None))).unwrap();
    assert_eq!(progress.required_addresses(), [[3u8; 32], [1; 32], [2; 32]].concat());
    assert!(!progress.awaits_root());
    for tag in [1u8, 2, 3] {
        assert!(!progress.is_complete());
        progress.supply(&[tag; 32], Ok(vec![tag, tag])).unwrap();
    }
    assert!(progress.is_complete());
    assert!(!progress.awaits_root());
    // In the order of the map, not of arrival.
    assert_eq!(progress.gather().unwrap(), vec![vec![3, 3], vec![1, 1], vec![2, 2]]);
}

#[test]
fn a_shrunk_map_needs_its_wrappers_and_then_the_chunks_of_the_root() {
    let mut progress = Progress::start(Ok(map(&[1, 2], Some(1)))).unwrap();
    progress.supply(&[1; 32], Ok(vec![1])).unwrap();
    assert!(!progress.awaits_root());
    progress.supply(&[2; 32], Ok(vec![2])).unwrap();
    assert!(progress.awaits_root());
    assert!(!progress.is_complete());
    assert!(progress.gather().is_err());

    assert_eq!(
        message(progress.resolve(Err("no luck".to_string()))),
        "failed to resolve the root data map: no luck"
    );
    assert!(progress.awaits_root());

    progress.resolve(Ok(map(&[2, 5, 6], None))).unwrap();
    assert!(!progress.awaits_root());
    // The wrapper that the root names too is still held.
    assert_eq!(progress.required_addresses(), [[5u8; 32], [6; 32]].concat());
    assert_eq!(progress.chunk_count(), 3);
    assert_eq!(progress.chunks_held(), 1);
}

#[test]
fn an_address_named_twice_is_required_twice_and_supplied_once() {
    let mut progress = Progress::start(Ok(map(&[4, 4, 9], None))).unwrap();
    assert_eq!(progress.required_addresses().len(), 96);
    progress.supply(&[4; 32], Ok(vec![1])).unwrap();
    assert_eq!(progress.chunks_held(), 2);
    assert_eq!(progress.required_addresses(), vec![9; 32]);
    // What comes later replaces what was there.
    progress.supply(&[4; 32], Ok(vec![2])).unwrap();
    progress.supply(&[9; 32], Ok(vec![])).unwrap();
    assert_eq!(progress.gather().unwrap(), vec![vec![2], vec![2], vec![]]);
}

#[test]
fn an_empty_flat_map_is_complete_at_once() {
    let progress = Progress::start(Ok(map(&[], None))).unwrap();
    assert!(progress.is_complete());
    assert_eq!(progress.chunk_count(), 0);
    assert_eq!(progress.gather().unwrap(), Vec::<Vec<u8>>::new());
}

#[test]
fn failures_are_described() {
    assert_eq!(
        message(Progress::start(Err("bad marker".to_string()))),
        "address does not hold a data map (MessagePack decode failed: bad marker)"
    );
    let mut progress = Progress::start(Ok(map(&[1], None))).unwrap();
    assert_eq!(
        message(progress.supply(&[0x1f; 32], Err("too old".to_string()))),
        format!("chunk {} failed verification: too old", "1f".repeat(32))
    );
    assert_eq!(progress.required_addresses(), vec![1; 32]);
    assert_eq!(
        message(progress.gather()),
        "cannot finish: chunks are still missing or the root map is unresolved"
    );
    assert_eq!(
        message(admitted(Err("forged".to_string()))),
        "data map chunk failed verification: forged"
    );
    assert_eq!(admitted(Ok(vec![1, 2])).unwrap(), vec![1, 2]);
    assert_eq!(message(delivered(Err("garbled".to_string()))), "decryption failed: garbled");
    assert_eq!(delivered(Ok(vec![3])).unwrap(), vec![3]);
}

#[test]
fn held_and_missing_add_up() {
    let mut progress = Progress::start(Ok(map(&[1, 2, 3, 2], None))).unwrap();
    for tag in [9u8, 2, 1, 3] {
        assert_eq!(
            progress.chunks_held() + progress.required_addresses().len() / 32,
            progress.chunk_count()
        );
        assert!(!progress.is_complete());
        progress.supply(&[tag; 32], Ok(vec![tag])).unwrap();
    }
    assert_eq!(progress.chunks_held(), 4);
    assert!(progress.is_complete());
}
