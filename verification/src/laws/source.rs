//! What holds of tables of chunks, of sources and of dumps.

use vstd::prelude::*;

verus! {

use crate::address::{blake3_hash, hex_text};
use crate::data_map::{encoded_data_map, DataMapView};
use crate::laws::address::law_hex_is_one_to_one;
use crate::laws::retrieval::law_a_source_serves_what_was_sealed;
use crate::source::{files_hold, indexed, stored, Addressed, DumpFile, FixtureView};

/// A table of chunks under their hashes holds, under an address, the last chunk with that hash, and
/// nothing under an address that no chunk has.
pub proof fn law_chunks_stand_under_their_hashes(chunks: Seq<Seq<u8>>)
    ensures
        forall|address: Seq<u8>| #[trigger]
            stored(chunks).contains_key(address) ==> exists|i: int|
                0 <= i < chunks.len() && blake3_hash(#[trigger] chunks[i]) == address,
        forall|i: int|
            0 <= i < chunks.len() ==> stored(chunks).contains_key(
                blake3_hash(#[trigger] chunks[i]),
            ),
        forall|i: int|
            0 <= i < chunks.len() && (forall|j: int|
                i < j < chunks.len() ==> blake3_hash(#[trigger] chunks[j]) != blake3_hash(
                    chunks[i],
                )) ==> stored(chunks)[blake3_hash(#[trigger] chunks[i])] == chunks[i],
    decreases chunks.len(),
{
    if chunks.len() > 0 {
        let rest = chunks.drop_last();
        let last = chunks.len() - 1;
        law_chunks_stand_under_their_hashes(rest);
        assert forall|address: Seq<u8>| #[trigger]
            stored(chunks).contains_key(address) implies exists|i: int|
            0 <= i < chunks.len() && blake3_hash(#[trigger] chunks[i]) == address by {
            if address == blake3_hash(chunks[last]) {
            } else {
                assert(stored(rest).contains_key(address));
                let i = choose|i: int|
                    0 <= i < rest.len() && blake3_hash(#[trigger] rest[i]) == address;
                assert(chunks[i] == rest[i]);
            }
        }
        assert forall|i: int| 0 <= i < chunks.len() implies stored(chunks).contains_key(
            blake3_hash(#[trigger] chunks[i]),
        ) by {
            if i < last {
                assert(chunks[i] == rest[i]);
            }
        }
        assert forall|i: int|
            0 <= i < chunks.len() && (forall|j: int|
                i < j < chunks.len() ==> blake3_hash(#[trigger] chunks[j]) != blake3_hash(
                    chunks[i],
                )) implies stored(chunks)[blake3_hash(#[trigger] chunks[i])] == chunks[i] by {
            if i < last {
                assert(chunks[i] == rest[i]);
                assert(blake3_hash(chunks[last]) != blake3_hash(chunks[i]));
                assert forall|j: int| i < j < rest.len() implies blake3_hash(#[trigger] rest[j])
                    != blake3_hash(rest[i]) by {
                    assert(chunks[j] == rest[j]);
                }
            }
        }
    }
}

/// A table of chunks under given addresses holds, under an address, the last chunk that was put
/// there, and nothing under an address that was not given.
pub proof fn law_chunks_stand_under_their_addresses(chunks: Seq<Addressed>)
    ensures
        forall|address: Seq<u8>| #[trigger]
            indexed(chunks).contains_key(address) ==> exists|i: int|
                0 <= i < chunks.len() && (#[trigger] chunks[i]).address@ == address,
        forall|i: int|
            0 <= i < chunks.len() ==> indexed(chunks).contains_key(
                (#[trigger] chunks[i]).address@,
            ),
        forall|i: int|
            0 <= i < chunks.len() && (forall|j: int|
                i < j < chunks.len() ==> (#[trigger] chunks[j]).address@ != chunks[i].address@)
                ==> indexed(chunks)[(#[trigger] chunks[i]).address@] == chunks[i].content@,
    decreases chunks.len(),
{
    if chunks.len() > 0 {
        let rest = chunks.drop_last();
        let last = chunks.len() - 1;
        law_chunks_stand_under_their_addresses(rest);
        assert forall|address: Seq<u8>| #[trigger]
            indexed(chunks).contains_key(address) implies exists|i: int|
            0 <= i < chunks.len() && (#[trigger] chunks[i]).address@ == address by {
            if address == chunks[last].address@ {
            } else {
                assert(indexed(rest).contains_key(address));
                let i = choose|i: int|
                    0 <= i < rest.len() && (#[trigger] rest[i]).address@ == address;
                assert(chunks[i] == rest[i]);
            }
        }
        assert forall|i: int| 0 <= i < chunks.len() implies indexed(chunks).contains_key(
            (#[trigger] chunks[i]).address@,
        ) by {
            if i < last {
                assert(chunks[i] == rest[i]);
            }
        }
        assert forall|i: int|
            0 <= i < chunks.len() && (forall|j: int|
                i < j < chunks.len() ==> (#[trigger] chunks[j]).address@ != chunks[i].address@)
            implies indexed(chunks)[(#[trigger] chunks[i]).address@] == chunks[i].content@ by {
            if i < last {
                assert(chunks[i] == rest[i]);
                assert(chunks[last].address@ != chunks[i].address@);
                assert forall|j: int| i < j < rest.len() implies (#[trigger] rest[j]).address@
                    != rest[i].address@ by {
                    assert(chunks[j] == rest[j]);
                }
            }
        }
    }
}

/// The source of a data map and chunks serves the serialized map under its hash, which is the
/// address to begin with, and every chunk, and nothing else. It tells the length it was given and
/// counts the entries of the map.
pub proof fn law_the_source_of_a_map_and_chunks(
    plaintext_len: nat,
    map: DataMapView,
    chunks: Seq<Seq<u8>>,
)
    ensures
        ({
            let source = FixtureView::of(plaintext_len, map, chunks);
            &&& source.plaintext_len == plaintext_len
            &&& source.chunk_count == map.infos.len()
            &&& source.data_map_address == blake3_hash(encoded_data_map(map))
            &&& source.chunks.contains_key(source.data_map_address)
            &&& source.chunks[source.data_map_address] == encoded_data_map(map)
            &&& forall|i: int|
                0 <= i < chunks.len() ==> source.chunks.contains_key(
                    blake3_hash(#[trigger] chunks[i]),
                )
            &&& forall|address: Seq<u8>| #[trigger]
                source.chunks.contains_key(address) ==> blake3_hash(source.chunks[address])
                    == address && (source.chunks[address] == encoded_data_map(map)
                    || chunks.contains(source.chunks[address]))
        }),
{
    let all = chunks.push(encoded_data_map(map));
    let source = FixtureView::of(plaintext_len, map, chunks);
    law_chunks_stand_under_their_hashes(all);
    lemma_stored_values(all);
    assert(all[chunks.len() as int] == encoded_data_map(map));
    assert forall|i: int| 0 <= i < chunks.len() implies source.chunks.contains_key(
        blake3_hash(#[trigger] chunks[i]),
    ) by {
        assert(all[i] == chunks[i]);
    }
    assert forall|address: Seq<u8>| #[trigger]
        source.chunks.contains_key(address) implies blake3_hash(source.chunks[address]) == address
        && (source.chunks[address] == encoded_data_map(map) || chunks.contains(
        source.chunks[address],
    )) by {
        let i = choose|i: int| 0 <= i < all.len() && all[i] == source.chunks[address];
        if i < chunks.len() {
            assert(chunks[i] == source.chunks[address]);
        }
    }
}

/// What stands in a table of chunks is one of them, and has the hash it stands under.
proof fn lemma_stored_values(chunks: Seq<Seq<u8>>)
    ensures
        forall|address: Seq<u8>| #[trigger]
            stored(chunks).contains_key(address) ==> blake3_hash(stored(chunks)[address])
                == address && chunks.contains(stored(chunks)[address]),
    decreases chunks.len(),
{
    if chunks.len() > 0 {
        let rest = chunks.drop_last();
        lemma_stored_values(rest);
        assert forall|address: Seq<u8>| #[trigger]
            stored(chunks).contains_key(address) implies blake3_hash(stored(chunks)[address])
            == address && chunks.contains(stored(chunks)[address]) by {
            if address == blake3_hash(chunks.last()) {
                assert(chunks[chunks.len() - 1] == stored(chunks)[address]);
            } else {
                assert(stored(rest).contains_key(address));
                let i = choose|i: int| 0 <= i < rest.len() && rest[i] == stored(rest)[address];
                assert(chunks[i] == stored(chunks)[address]);
            }
        }
    }
}

/// A dump has, for every address of a table, exactly one file named by its hex form, and the file
/// holds the whole chunk. There are no other files.
pub proof fn law_a_dump_holds_every_chunk_whole(
    files: Seq<DumpFile>,
    addresses: Seq<Seq<u8>>,
    chunks: Map<Seq<u8>, Seq<u8>>,
)
    requires
        addresses.no_duplicates(),
        addresses.to_set() == chunks.dom(),
        files_hold(files, addresses, chunks),
    ensures
        forall|address: Seq<u8>| #[trigger]
            chunks.contains_key(address) ==> exists|i: int|
                {
                    &&& 0 <= i < files.len()
                    &&& (#[trigger] files[i]).name@ == hex_text(address)
                    &&& files[i].content@ == chunks[address]
                },
        files.len() == addresses.len(),
        forall|i: int|
            0 <= i < files.len() ==> {
                &&& chunks.contains_key(addresses[i])
                &&& (#[trigger] files[i]).name@ == hex_text(addresses[i])
                &&& files[i].content@ == chunks[addresses[i]]
            },
        forall|i: int, j: int|
            0 <= i < j < files.len() ==> (#[trigger] files[i]).name@ != (
            #[trigger] files[j]).name@,
{
    assert forall|address: Seq<u8>| #[trigger] chunks.contains_key(address) implies exists|i: int|
        {
            &&& 0 <= i < files.len()
            &&& (#[trigger] files[i]).name@ == hex_text(address)
            &&& files[i].content@ == chunks[address]
        } by {
        assert(addresses.to_set().contains(address));
        let i = choose|i: int| 0 <= i < addresses.len() && addresses[i] == address;
        assert(files[i].name@ == hex_text(address));
    }
    assert forall|i: int| 0 <= i < files.len() implies {
        &&& chunks.contains_key(addresses[i])
        &&& (#[trigger] files[i]).name@ == hex_text(addresses[i])
        &&& files[i].content@ == chunks[addresses[i]]
    } by {
        assert(addresses.to_set().contains(addresses[i]));
    }
    assert forall|i: int, j: int| 0 <= i < j < files.len() implies (#[trigger] files[i]).name@ != (
    #[trigger] files[j]).name@ by {
        law_hex_is_one_to_one(addresses[i], addresses[j]);
    }
}

/// Every chunk file in the dump of a source that serves content hashes to the address that it is
/// named by, and every address that the source serves has its file.
pub proof fn law_dumped_chunks_hash_to_their_names(
    files: Seq<DumpFile>,
    addresses: Seq<Seq<u8>>,
    source: FixtureView,
    content: Seq<u8>,
)
    requires
        source.serves(content),
        addresses.no_duplicates(),
        addresses.to_set() == source.chunks.dom(),
        files_hold(files, addresses, source.chunks),
    ensures
        forall|i: int|
            0 <= i < files.len() ==> (#[trigger] files[i]).name@ == hex_text(
                blake3_hash(files[i].content@),
            ),
        forall|address: Seq<u8>| #[trigger]
            source.chunks.contains_key(address) ==> exists|i: int|
                {
                    &&& 0 <= i < files.len()
                    &&& (#[trigger] files[i]).name@ == hex_text(address)
                    &&& blake3_hash(files[i].content@) == address
                },
{
    law_a_source_serves_what_was_sealed(source, content);
    law_a_dump_holds_every_chunk_whole(files, addresses, source.chunks);
    assert forall|i: int| 0 <= i < files.len() implies (#[trigger] files[i]).name@ == hex_text(
        blake3_hash(files[i].content@),
    ) by {
        assert(source.chunks.contains_key(addresses[i]));
    }
    assert forall|address: Seq<u8>| #[trigger]
        source.chunks.contains_key(address) implies exists|i: int|
        {
            &&& 0 <= i < files.len()
            &&& (#[trigger] files[i]).name@ == hex_text(address)
            &&& blake3_hash(files[i].content@) == address
        } by {
        let i = choose|i: int|
            {
                &&& 0 <= i < files.len()
                &&& (#[trigger] files[i]).name@ == hex_text(address)
                &&& files[i].content@ == source.chunks[address]
            };
        assert(blake3_hash(files[i].content@) == address);
    }
}

} // verus!
