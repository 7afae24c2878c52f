use std::collections::HashSet;

use autonomi_webrtc::address::{address_of, hex};
use autonomi_webrtc::cipher::{wrapper_chunk, PINNED_CHUNK_SIZE};
use autonomi_webrtc::data_map::{ChunkInfo, DataMap};
use autonomi_webrtc::source::{dump, encryption_failed, Addressed, FixtureSource};
use autonomi_webrtc::store::ChunkStore;

fn content(len: usize) -> Vec<u8> {
    (0..len).map(|i| (i % 251) as u8).collect()
}

#[test]
fn a_source_indexes_what_self_encryption_makes() {
    let data = content(90_000);
    let source = FixtureSource::new(data.clone()).unwrap();
    let (map, chunks) = self_encryption::encrypt(data.into()).unwrap();
    let serialized = rmp_serde::to_vec(&map).unwrap();

    assert_eq!(source.plaintext_len, 90_000);
    assert_eq!(source.chunk_count, 3);
    assert_eq!(source.data_map_address, address_of(&serialized));
    assert_eq!(source.get(&source.data_map_address), Some(serialized));
    for (chunk, info) in chunks.iter().zip(map.infos()) {
        assert_eq!(info.dst_hash.0, address_of(&chunk.content));
        assert_eq!(source.get(&info.dst_hash.0), Some(chunk.content.to_vec()));
    }
    assert_eq!(source.get(&[0; 32]), None);
}

#[test]
fn every_chunk_of_a_source_stands_under_its_hash() {
    let source = FixtureSource::new(content(5_000)).unwrap();
    let addresses = source.addresses();
    assert_eq!(addresses.len(), 4);
    assert_eq!(addresses.iter().collect::<HashSet<_>>().len(), 4);
    assert!(addresses.contains(&source.data_map_address));
    for address in &addresses {
        assert_eq!(address_of(&source.get(address).unwrap()), *address);
    }
}

/// The chunk size is read from the environment where self-encryption is compiled. With another
/// one, content has other addresses.
#[test]
fn the_chunk_size_is_the_pinned_one() {
    assert_eq!(PINNED_CHUNK_SIZE, 4_190_208);
    assert_eq!(self_encryption::MAX_CHUNK_SIZE, PINNED_CHUNK_SIZE);
}

#[test]
fn three_bytes_make_a_source() {
    let source = FixtureSource::new(b"abc".to_vec()).unwrap();
    assert_eq!((source.plaintext_len, source.chunk_count), (3, 3));
    assert_eq!((source.plaintext_len(), source.chunk_count()), (3, 3));
    assert_eq!(source.data_map_address(), source.data_map_address);
    // The data map's own chunk is not counted.
    assert_eq!(source.addresses().len(), 4);
}

#[test]
fn a_sealed_map_and_its_chunks_make_a_source() {
    let info = |index: usize| ChunkInfo {
        index,
        dst_hash: [index as u8; 32],
        src_hash: [7; 32],
        src_size: 5,
    };
    let map = DataMap { infos: vec![info(0), info(1)], child: Some(1) };
    let chunks = vec![b"one".to_vec(), b"two".to_vec(), b"one".to_vec()];
    let source = FixtureSource::of_sealed(11, &map, &chunks).unwrap();

    let outside = self_encryption::DataMap {
        chunk_identifiers: map
            .infos
            .iter()
            .map(|info| self_encryption::ChunkInfo {
                index: info.index,
                dst_hash: self_encryption::XorName(info.dst_hash),
                src_hash: self_encryption::XorName(info.src_hash),
                src_size: info.src_size,
            })
            .collect(),
        child: map.child,
    };
    let serialized = rmp_serde::to_vec(&outside).unwrap();
    assert_eq!(source.data_map_address, address_of(&serialized));
    assert_eq!(source.get(&source.data_map_address), Some(serialized));
    assert_eq!(source.get(&address_of(b"one")), Some(b"one".to_vec()));
    assert_eq!(source.get(&address_of(b"two")), Some(b"two".to_vec()));
    assert_eq!(source.addresses().len(), 3);
    assert_eq!((source.plaintext_len, source.chunk_count), (11, 2));
}

#[test]
fn every_address_in_the_data_map_is_served() {
    for len in [3usize, 90_000, 13 * 1024 * 1024] {
        let source = FixtureSource::new(content(len)).unwrap();
        let bytes = source.get(&source.data_map_address).unwrap();
        let map: self_encryption::DataMap = rmp_serde::from_slice(&bytes).unwrap();
        assert_eq!(map.infos().len(), source.chunk_count);
        for info in map.infos() {
            assert!(source.get(&info.dst_hash.0).is_some());
        }
    }
}

#[test]
fn short_content_is_refused() {
    for len in 0..3 {
        let error = match FixtureSource::new(content(len)) {
            Ok(_) => panic!("content of {len} bytes was accepted"),
            Err(error) => error,
        };
        assert_eq!(
            error.message(),
            "self-encryption failed: \
             Generic error(Too small for self-encryption! Required size at least 3)"
        );
    }
    assert!(FixtureSource::new(content(3)).is_ok());
    assert_eq!(encryption_failed("tired").message(), "self-encryption failed: tired");
}

#[test]
fn the_last_chunk_under_an_address_stays() {
    let at = |tag: u8, content: &[u8]| Addressed { address: [tag; 32], content: content.to_vec() };
    let chunks = vec![at(1, b"one"), at(2, b"two"), at(1, b"uno")];
    let source = FixtureSource::assemble(chunks, at(9, b"map"), 7, 2);
    assert_eq!(source.get(&[1; 32]), Some(b"uno".to_vec()));
    assert_eq!(source.get(&[2; 32]), Some(b"two".to_vec()));
    assert_eq!(source.get(&[9; 32]), Some(b"map".to_vec()));
    assert_eq!(source.get(&[3; 32]), None);
    assert_eq!(source.addresses().len(), 3);
    assert_eq!(source.data_map_address, [9; 32]);
    assert_eq!((source.plaintext_len, source.chunk_count), (7, 2));
}

#[test]
fn a_dump_names_every_chunk_by_its_address() {
    let source = FixtureSource::new(content(5_000)).unwrap();
    let dump = dump(&source);
    assert_eq!(dump.line, hex(&source.data_map_address));
    let (last, chunks) = dump.files.split_last().unwrap();
    assert_eq!(last.name, "data-map-address");
    assert_eq!(last.content, dump.line.as_bytes());
    assert_eq!(chunks.len(), 4);
    let names: HashSet<&str> = chunks.iter().map(|file| file.name.as_str()).collect();
    assert_eq!(names.len(), 4);
    for address in source.addresses() {
        let file = chunks.iter().find(|file| file.name == hex(&address)).unwrap();
        assert_eq!(Some(&file.content), source.get(&address).as_ref());
    }
}

#[test]
fn a_store_replaces_and_lists() {
    let mut store = ChunkStore::new();
    assert!(store.addresses().is_empty());
    assert!(!store.contains(&[1; 32]));
    store.insert([1; 32], vec![1]);
    store.insert([2; 32], vec![2]);
    store.insert([1; 32], vec![3]);
    assert!(store.contains(&[1; 32]));
    assert_eq!(store.get(&[1; 32]), Some(vec![3]));
    assert_eq!(store.get(&[2; 32]), Some(vec![2]));
    assert_eq!(store.addresses().len(), 2);
    assert_eq!(wrapper_chunk(&store, &[2; 32]), Ok(vec![2]));
    assert_eq!(
        wrapper_chunk(&store, &[0xfe; 32]),
        Err(format!("missing wrapper chunk {}", "fe".repeat(32)))
    );
}
