use std::collections::HashMap;

use autonomi_webrtc::address::{content_address, hex};
use autonomi_webrtc::retrieval::Retrieval;
use autonomi_webrtc::source::FixtureSource;
use self_encryption::bytes::Bytes;
use self_encryption::{ChunkInfo, DataMap, XorName};

/// A stand-in for the network: address -> bytes, content-addressed.
struct Store(HashMap<[u8; 32], Vec<u8>>);

impl Store {
    fn get(&self, address: &[u8]) -> Vec<u8> {
        let key: [u8; 32] = address.try_into().unwrap();
        self.0.get(&key).expect("address present in store").clone()
    }
}

fn address_of(bytes: &[u8]) -> [u8; 32] {
    *blake3::hash(bytes).as_bytes()
}

fn content(len: usize) -> Bytes {
    Bytes::from((0..len).map(|i| (i % 251) as u8).collect::<Vec<u8>>())
}

/// Store content the way the Autonomi client does: chunks by address, plus the
/// MessagePack-serialized data map as its own chunk.
fn upload(data: &Bytes, shrink: bool) -> (Store, [u8; 32]) {
    let (map, chunks) = self_encryption::encrypt(data.clone()).unwrap();
    let mut store = HashMap::new();
    for chunk in &chunks {
        store.insert(address_of(&chunk.content), chunk.content.to_vec());
    }

    let map = if shrink {
        // The serialized map is recursively encrypted into wrapper chunks which are stored
        // alongside the content chunks.
        let (child, _wrappers) =
            self_encryption::shrink_data_map(map, |name: XorName, bytes: Bytes| {
                store.insert(name.0, bytes.to_vec());
                Ok(())
            })
            .unwrap();
        child
    } else {
        map
    };

    let serialized = rmp_serde::to_vec(&map).unwrap();
    let data_map_address = address_of(&serialized);
    store.insert(data_map_address, serialized);
    (Store(store), data_map_address)
}

/// Drive the retrieval the way the browser does, returning the plaintext.
fn retrieve(store: &Store, address: [u8; 32]) -> Vec<u8> {
    let mut retrieval = Retrieval::begin(&address, &store.get(&address)).unwrap();
    for _ in 0..8 {
        if retrieval.is_complete() {
            break;
        }
        let required = retrieval.required_addresses();
        for chunk_address in required.chunks(32) {
            let bytes = store.get(chunk_address);
            retrieval.supply(chunk_address, &bytes).unwrap();
        }
        retrieval.advance().unwrap();
    }
    assert!(retrieval.is_complete(), "retrieval did not converge");
    retrieval.finish().unwrap()
}

#[test]
fn retrieves_a_flat_data_map() {
    let data = content(90_000);
    let (store, address) = upload(&data, false);
    assert_eq!(retrieve(&store, address), data.to_vec());
}

#[test]
fn retrieves_through_a_shrunk_data_map() {
    // Large enough that shrinking produces a genuine child map whose entries point at wrapper
    // chunks rather than content chunks.
    let data = content(20 * 1024 * 1024);
    let (store, address) = upload(&data, true);

    let map: DataMap = rmp_serde::from_slice(&store.get(&address)).unwrap();
    assert!(map.is_child(), "test fixture did not produce a child map");

    assert_eq!(retrieve(&store, address), data.to_vec());
}

/// The security claim of the whole design: a proxy that alters a byte is caught, because the
/// address is the hash.
#[test]
fn rejects_a_tampered_chunk() {
    let data = content(90_000);
    let (store, address) = upload(&data, false);

    let mut retrieval = Retrieval::begin(&address, &store.get(&address)).unwrap();
    let required = retrieval.required_addresses();
    let target = &required[..32];

    let mut tampered = store.get(target);
    tampered[0] ^= 0x01;

    assert!(
        retrieval.supply(target, &tampered).is_err(),
        "a modified chunk was accepted"
    );
}

/// Substituting a *different* valid chunk must fail too — the address is checked, not merely the
/// internal consistency of the bytes.
#[test]
fn rejects_a_substituted_chunk() {
    let data = content(90_000);
    let (store, address) = upload(&data, false);

    let mut retrieval = Retrieval::begin(&address, &store.get(&address)).unwrap();
    let required = retrieval.required_addresses();
    let (wanted, other) = (&required[..32], &required[32..64]);

    assert!(
        retrieval.supply(wanted, &store.get(other)).is_err(),
        "a chunk served under the wrong address was accepted"
    );
}

#[test]
fn rejects_a_tampered_data_map() {
    let data = content(90_000);
    let (store, address) = upload(&data, false);

    let mut tampered = store.get(&address);
    tampered[0] ^= 0x01;

    assert!(Retrieval::begin(&address, &tampered).is_err());
}

/// How an address is cut short in the message of a mismatch.
fn short_name(address: &[u8]) -> String {
    format!("{:02x}{:02x}{:02x}({:08b})..", address[0], address[1], address[2], address[0])
}

fn mismatch(expected: &[u8], bytes: &[u8]) -> String {
    format!(
        "Generic error(Chunk content hash mismatch. Expected: {}, Got: {})",
        short_name(expected),
        short_name(&address_of(bytes)),
    )
}

fn message<T>(result: Result<T, autonomi_webrtc::error::Error>) -> String {
    match result {
        Ok(_) => panic!("no error"),
        Err(error) => error.message().to_string(),
    }
}

#[test]
fn a_rejected_data_map_is_described() {
    let (store, address) = upload(&content(90_000), false);
    assert_eq!(
        message(Retrieval::begin(&[0xb2; 32], b"")),
        "data map chunk failed verification: Generic error(Chunk content hash mismatch. \
         Expected: b2b2b2(10110010).., Got: af1349(10101111)..)"
    );
    let mut tampered = store.get(&address);
    tampered[0] ^= 0x01;
    assert_eq!(
        message(Retrieval::begin(&address, &tampered)),
        format!("data map chunk failed verification: {}", mismatch(&address, &tampered))
    );
    assert_eq!(message(Retrieval::begin(&address[..31], b"")), "address must be 32 bytes");
}

#[test]
fn bytes_that_are_no_data_map_are_described() {
    for bytes in [b"".to_vec(), b"hello".to_vec(), vec![0xc1], vec![0x93, 2, 0x90, 0xc0]] {
        let text = match rmp_serde::from_slice::<DataMap>(&bytes) {
            Ok(_) => panic!("a data map"),
            Err(error) => error.to_string(),
        };
        assert_eq!(
            message(Retrieval::begin(&address_of(&bytes), &bytes)),
            format!("address does not hold a data map (MessagePack decode failed: {text})")
        );
    }
}

#[test]
fn a_rejected_chunk_changes_nothing_and_is_described() {
    let (store, address) = upload(&content(90_000), false);
    let mut retrieval = Retrieval::begin(&address, &store.get(&address)).unwrap();
    let required = retrieval.required_addresses();
    let target = &required[..32];
    let other = store.get(&required[32..64]);
    assert_eq!(
        message(retrieval.supply(target, &other)),
        format!("chunk {} failed verification: {}", hex(target), mismatch(target, &other))
    );
    assert_eq!(message(retrieval.supply(&required[..33], &other)), "address must be 32 bytes");
    assert_eq!(retrieval.required_addresses(), required);
    assert_eq!(retrieval.chunks_held(), 0);
}

#[test]
fn a_retrieval_counts_what_it_holds() {
    let (store, address) = upload(&content(90_000), false);
    let mut retrieval = Retrieval::begin(&address, &store.get(&address)).unwrap();
    assert_eq!(retrieval.chunk_count(), 3);
    let all = retrieval.required_addresses();
    assert_eq!(all.len(), 96);
    // The middle one first: the others stay required, in order.
    retrieval.supply(&all[32..64], &store.get(&all[32..64])).unwrap();
    assert_eq!(retrieval.chunks_held(), 1);
    assert_eq!(retrieval.required_addresses(), [&all[..32], &all[64..]].concat());
    assert!(!retrieval.is_complete());
    assert_eq!(
        message(retrieval.finish()),
        "cannot finish: chunks are still missing or the root map is unresolved"
    );
    retrieval.supply(&all[..32], &store.get(&all[..32])).unwrap();
    retrieval.supply(&all[64..], &store.get(&all[64..])).unwrap();
    // A chunk that nobody asked for is accepted under its own hash, and does not count.
    retrieval.supply(&content_address(b"extra"), b"extra").unwrap();
    assert_eq!(retrieval.chunks_held(), 3);
    assert!(retrieval.required_addresses().is_empty());
    assert!(retrieval.is_complete());
    retrieval.advance().unwrap();
    assert_eq!(retrieval.finish().unwrap(), content(90_000).to_vec());
}

/// A data map over chunks that nobody encrypted.
fn garbage_map(child: Option<usize>) -> (Vec<u8>, Vec<Vec<u8>>) {
    let chunks: Vec<Vec<u8>> = (0..3).map(|i| vec![i as u8; 100]).collect();
    let chunk_identifiers = chunks
        .iter()
        .enumerate()
        .map(|(index, chunk)| ChunkInfo {
            index,
            dst_hash: XorName(address_of(chunk)),
            src_hash: XorName([7; 32]),
            src_size: 100,
        })
        .collect();
    let map = DataMap { chunk_identifiers, child };
    (rmp_serde::to_vec(&map).unwrap(), chunks)
}

#[test]
fn a_root_map_that_cannot_be_resolved_is_reported() {
    let (map, chunks) = garbage_map(Some(1));
    let mut retrieval = Retrieval::begin(&address_of(&map), &map).unwrap();
    // Too early: nothing happens.
    retrieval.advance().unwrap();
    for chunk in &chunks {
        retrieval.supply(&address_of(chunk), chunk).unwrap();
    }
    assert!(retrieval.required_addresses().is_empty());
    assert!(!retrieval.is_complete());
    let text = message(retrieval.advance());
    assert!(text.starts_with("failed to resolve the root data map: "), "{text}");
    assert!(text.len() > "failed to resolve the root data map: ".len());
    // Nothing changed: it fails again, and the content is still not there.
    assert!(retrieval.advance().is_err());
    assert_eq!(retrieval.chunks_held(), 3);
    assert_eq!(
        message(retrieval.finish()),
        "cannot finish: chunks are still missing or the root map is unresolved"
    );
}

#[test]
fn content_that_does_not_decrypt_is_reported() {
    let (map, chunks) = garbage_map(None);
    let mut retrieval = Retrieval::begin(&address_of(&map), &map).unwrap();
    for chunk in &chunks {
        retrieval.supply(&address_of(chunk), chunk).unwrap();
    }
    assert!(retrieval.is_complete());
    let text = message(retrieval.finish());
    assert!(text.starts_with("decryption failed: "), "{text}");
    assert!(text.len() > "decryption failed: ".len());
}

#[test]
fn two_endpoints_lead_to_the_same_content() {
    let (store, address) = upload(&content(90_001), false);
    let mut first = Retrieval::begin(&address, &store.get(&address)).unwrap();
    let mut second = Retrieval::begin(&address, &store.get(&address)).unwrap();
    let required = first.required_addresses();
    for chunk in required.chunks(32) {
        first.supply(chunk, &store.get(chunk)).unwrap();
    }
    for chunk in required.chunks(32).rev() {
        // One that lies first, and then gives in.
        assert!(second.supply(chunk, b"lie").is_err());
        second.supply(chunk, &store.get(chunk)).unwrap();
    }
    assert_eq!(first.finish().unwrap(), content(90_001).to_vec());
    assert_eq!(second.finish().unwrap(), content(90_001).to_vec());
}

/// Drive a retrieval from a source, in rounds, and count them.
fn rounds(source: &FixtureSource) -> (usize, Vec<u8>) {
    let start = source.get(&source.data_map_address).unwrap();
    let mut retrieval = Retrieval::begin(&source.data_map_address, &start).unwrap();
    let mut rounds = 0;
    while !retrieval.is_complete() {
        assert!(rounds < 8, "retrieval did not converge");
        for chunk in retrieval.required_addresses().chunks(32) {
            let bytes = source.get(chunk.try_into().unwrap()).unwrap();
            retrieval.supply(chunk, &bytes).unwrap();
        }
        assert!(retrieval.required_addresses().is_empty());
        retrieval.advance().unwrap();
        rounds += 1;
    }
    assert_eq!(retrieval.chunks_held(), retrieval.chunk_count());
    (rounds, retrieval.finish().unwrap())
}

#[test]
fn a_source_gives_back_its_content() {
    for len in [3usize, 4, 5, 1000, 90_000] {
        let data = content(len).to_vec();
        let source = FixtureSource::new(data.clone()).unwrap();
        assert_eq!(rounds(&source), (1, data));
    }
}

#[test]
fn a_source_with_a_shrunk_map_takes_two_rounds() {
    let data = content(13 * 1024 * 1024).to_vec();
    let source = FixtureSource::new(data.clone()).unwrap();
    assert_eq!(source.chunk_count, 3);
    // Four content chunks, three wrapper chunks and the data map.
    assert_eq!(source.addresses().len(), 8);
    let (count, plaintext) = rounds(&source);
    assert_eq!(count, 2);
    assert!(plaintext == data);
}

#[test]
fn a_supplied_record_leaves_and_the_others_keep_their_order() {
    let (store, address) = upload(&content(90_000), false);
    let mut retrieval = Retrieval::begin(&address, &store.get(&address)).unwrap();
    // Accepted before it is known whether any map names it.
    retrieval.supply(&content_address(b"extra"), b"extra").unwrap();
    let mut expected: Vec<Vec<u8>> =
        retrieval.required_addresses().chunks(32).map(<[u8]>::to_vec).collect();
    for index in [1usize, 1, 0] {
        let held = retrieval.chunks_held();
        let record = expected.remove(index);
        for _ in 0..2 {
            retrieval.supply(&record, &store.get(&record)).unwrap();
            assert_eq!(retrieval.required_addresses(), expected.concat());
            assert_eq!((retrieval.chunk_count(), retrieval.chunks_held()), (3, held + 1));
        }
    }
}

#[test]
fn chunks_accepted_before_the_root_map_still_count() {
    let data = content(13 * 1024 * 1024);
    let source = FixtureSource::new(data.to_vec()).unwrap();
    let start = source.get(&source.data_map_address).unwrap();
    let mut retrieval = Retrieval::begin(&source.data_map_address, &start).unwrap();
    // Everything at once, in no order: the content chunks before the map names them.
    for address in source.addresses() {
        retrieval.supply(&address, &source.get(&address).unwrap()).unwrap();
    }
    assert!(!retrieval.is_complete());
    retrieval.advance().unwrap();
    assert!(retrieval.required_addresses().is_empty());
    assert!(retrieval.is_complete());
    assert!(retrieval.finish().unwrap() == data.to_vec());
}
