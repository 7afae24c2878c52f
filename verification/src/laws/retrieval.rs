//! What holds of retrievals, whoever serves them.

use vstd::prelude::*;

verus! {

use crate::address::{blake3_hash, ADDRESS_LEN};
use crate::cipher::{collision_free, content_of, contents, decrypted_content, hashes, holds_wrappers, recovers_through, root_data_map, root_of, sealed_as, MAX_RECOVERABLE_LEN};
use crate::data_map::{data_map_in, decoded_data_map, encoded_data_map, DataMap, DataMapView};
use crate::progress::{lemma_missing, lemma_missing_empty, lemma_records, records, ProgressView};
use crate::retrieval::{authentic, RetrievalView};
use crate::source::{stored, FixtureView};

/// The state after chunks from a table were supplied for addresses, one after another.
pub open spec fn supplied_from(
    state: RetrievalView,
    addresses: Seq<Seq<u8>>,
    table: Map<Seq<u8>, Seq<u8>>,
) -> RetrievalView
    decreases addresses.len(),
{
    if addresses.len() == 0 {
        state
    } else {
        let last = addresses.last();
        supplied_from(state, addresses.drop_last(), table).supplied(last, table[last])
    }
}

/// The state after a call of `advance`.
pub open spec fn advanced(state: RetrievalView) -> RetrievalView {
    match state.root() {
        Some(root) if state.progress.awaits_root() => state.resolved(root),
        _ => state,
    }
}

/// The state after everything that is required was supplied from a table, record by record.
pub open spec fn fed(state: RetrievalView, table: Map<Seq<u8>, Seq<u8>>) -> RetrievalView {
    supplied_from(state, records(state.progress.required()), table)
}

/// The state after one round: everything that is required is supplied from a table, record by
/// record, and then the retrieval advances.
pub open spec fn after_round(state: RetrievalView, table: Map<Seq<u8>, Seq<u8>>) -> RetrievalView {
    advanced(fed(state, table))
}

/// Whether a table has a chunk for everything a retrieval requires, and each is accepted.
pub open spec fn can_serve(table: Map<Seq<u8>, Seq<u8>>, state: RetrievalView) -> bool {
    let required = records(state.progress.required());
    forall|i: int|
        0 <= i < required.len() ==> {
            &&& (#[trigger] required[i]).len() == ADDRESS_LEN
            &&& table.contains_key(required[i])
            &&& blake3_hash(table[required[i]]) == required[i]
        }
}

/// Whether `advance` succeeds.
pub open spec fn can_advance(state: RetrievalView) -> bool {
    state.progress.awaits_root() ==> state.root() is Some
}

/// Whether a round from a table goes through: every chunk is there and accepted, and the
/// retrieval advances.
pub open spec fn round_succeeds(state: RetrievalView, table: Map<Seq<u8>, Seq<u8>>) -> bool {
    can_serve(table, state) && can_advance(fed(state, table))
}

/// Supplying chunks changes what is held and nothing else.
proof fn lemma_supplied_from(
    state: RetrievalView,
    addresses: Seq<Seq<u8>>,
    table: Map<Seq<u8>, Seq<u8>>,
)
    ensures
        ({
            let after = supplied_from(state, addresses, table);
            &&& after.history == state.history
            &&& after.progress.map == state.progress.map
            &&& after.progress.root_resolved == state.progress.root_resolved
            &&& forall|address: Seq<u8>| #[trigger]
                after.progress.held.contains_key(address) <==> state.progress.held.contains_key(
                    address,
                ) || addresses.contains(address)
            &&& forall|address: Seq<u8>| #[trigger]
                addresses.contains(address) ==> after.progress.held[address] == table[address]
            &&& forall|address: Seq<u8>|
                !addresses.contains(address) ==> #[trigger] after.progress.held[address]
                    == state.progress.held[address]
        }),
    decreases addresses.len(),
{
    if addresses.len() > 0 {
        let rest = addresses.drop_last();
        let last = addresses.last();
        lemma_supplied_from(state, rest, table);
        assert forall|address: Seq<u8>| #[trigger]
            addresses.contains(address) <==> rest.contains(address) || address == last by {
            if addresses.contains(address) {
                let i = choose|i: int| 0 <= i < addresses.len() && addresses[i] == address;
                if i < rest.len() {
                    assert(rest[i] == address);
                }
            }
            if rest.contains(address) {
                let i = choose|i: int| 0 <= i < rest.len() && rest[i] == address;
                assert(addresses[i] == address);
            }
            assert(addresses[addresses.len() - 1] == last);
        }
    }
}

/// A table of chunks under their hashes holds each chunk, if none of them collide.
proof fn lemma_stored(chunks: Seq<Seq<u8>>)
    ensures
        authentic(stored(chunks)),
        forall|i: int|
            0 <= i < chunks.len() ==> stored(chunks).contains_key(
                blake3_hash(#[trigger] chunks[i]),
            ),
        forall|address: Seq<u8>| #[trigger]
            stored(chunks).contains_key(address) ==> chunks.contains(stored(chunks)[address]),
        collision_free(chunks) ==> forall|i: int|
            0 <= i < chunks.len() ==> stored(chunks)[blake3_hash(#[trigger] chunks[i])]
                == chunks[i],
    decreases chunks.len(),
{
    if chunks.len() > 0 {
        let rest = chunks.drop_last();
        lemma_stored(rest);
        assert forall|i: int| 0 <= i < chunks.len() implies stored(chunks).contains_key(
            blake3_hash(#[trigger] chunks[i]),
        ) by {
            if i < rest.len() {
                assert(rest[i] == chunks[i]);
            }
        }
        assert forall|address: Seq<u8>| #[trigger]
            stored(chunks).contains_key(address) implies chunks.contains(
            stored(chunks)[address],
        ) by {
            if address == blake3_hash(chunks.last()) {
                assert(chunks[chunks.len() - 1] == stored(chunks)[address]);
            } else {
                assert(stored(rest).contains_key(address));
                let i = choose|i: int| 0 <= i < rest.len() && rest[i] == stored(rest)[address];
                assert(chunks[i] == stored(chunks)[address]);
            }
        }
        if collision_free(chunks) {
            assert forall|i: int| 0 <= i < chunks.len() implies stored(
                chunks,
            )[blake3_hash(#[trigger] chunks[i])] == chunks[i] by {
                let found = stored(chunks)[blake3_hash(chunks[i])];
                assert(stored(chunks).contains_key(blake3_hash(chunks[i])));
                let j = choose|j: int| 0 <= j < chunks.len() && chunks[j] == found;
                assert(blake3_hash(chunks[j]) == blake3_hash(chunks[i]));
            }
        }
    }
}

/// Supplying everything that is required, whatever the chunks, leaves nothing to require.
pub proof fn law_supplying_everything_required_leaves_nothing(
    state: RetrievalView,
    table: Map<Seq<u8>, Seq<u8>>,
)
    ensures
        fed(state, table).progress.all_held(),
        fed(state, table).progress.required().len() == 0,
{
    let after = fed(state, table);
    lemma_records(state.progress);
    lemma_supplied_from(state, state.progress.missing(), table);
    lemma_missing(state.progress);
    let all = state.progress.map.addresses();
    assert forall|i: int| 0 <= i < after.progress.map.infos.len() implies after.progress.held.contains_key(
        (#[trigger] after.progress.map.infos[i]).dst_hash@,
    ) by {
        assert(all[i] == after.progress.map.infos[i].dst_hash@);
        assert(all.contains(all[i]));
        assert(state.progress.missing().contains(all[i]) || state.progress.held.contains_key(all[i]));
    }
    lemma_missing_empty(after.progress);
    lemma_records(after.progress);
}

/// A source serves what self-encryption made of its content, and nothing else: each chunk that came
/// out and the serialized data map, under its hash. Every address that the data map names is among
/// them.
pub proof fn law_a_source_serves_what_was_sealed(source: FixtureView, content: Seq<u8>)
    requires
        source.serves(content),
    ensures
        forall|address: Seq<u8>| #[trigger]
            source.chunks.contains_key(address) ==> blake3_hash(source.chunks[address]) == address,
        source.plaintext_len == content.len(),
        source.chunks.contains_key(source.data_map_address),
        ({
            let stored_map = source.chunks[source.data_map_address];
            &&& blake3_hash(stored_map) == source.data_map_address
            &&& data_map_in(stored_map) matches Ok(map)
            &&& map.infos.len() == source.chunk_count
            &&& source.chunk_count == 3
            &&& forall|i: int|
                0 <= i < map.infos.len() ==> source.chunks.contains_key(
                    (#[trigger] map.infos[i]).dst_hash@,
                )
            &&& exists|chunks: Seq<Seq<u8>>|
                {
                    &&& #[trigger] sealed_as(content, map, chunks)
                    &&& forall|address: Seq<u8>| #[trigger]
                        source.chunks.contains_key(address) <==> address == source.data_map_address
                            || exists|i: int|
                            0 <= i < chunks.len() && blake3_hash(#[trigger] chunks[i]) == address
                }
        }),
{
    let (map, chunks) = choose|map: DataMapView, chunks: Seq<Seq<u8>>| #[trigger]
        source.made_from(content, map, chunks);
    let serialized = encoded_data_map(map);
    let all = chunks.push(serialized);
    lemma_stored(all);
    assert(all.drop_last() =~= chunks);
    assert(source.chunks[source.data_map_address] == serialized);
    assert(all[chunks.len() as int] == serialized);
    assert forall|address: Seq<u8>| #[trigger]
        source.chunks.contains_key(address) <==> address == source.data_map_address || exists|
            i: int,
        |
            0 <= i < chunks.len() && blake3_hash(#[trigger] chunks[i]) == address by {
        if source.chunks.contains_key(address) {
            let i = choose|i: int| 0 <= i < all.len() && all[i] == source.chunks[address];
            assert(blake3_hash(all[i]) == address);
            if i < chunks.len() {
                assert(chunks[i] == all[i]);
            }
        }
        if exists|i: int| 0 <= i < chunks.len() && blake3_hash(#[trigger] chunks[i]) == address {
            let i = choose|i: int| 0 <= i < chunks.len() && blake3_hash(#[trigger] chunks[i])
                == address;
            assert(all[i] == chunks[i]);
        }
    }
    assert forall|i: int| 0 <= i < map.infos.len() implies source.chunks.contains_key(
        (#[trigger] map.infos[i]).dst_hash@,
    ) by {
        let named = map.infos[i].dst_hash@;
        let j = choose|j: int| 0 <= j < hashes(chunks).len() && hashes(chunks)[j] == named;
        assert(hashes(chunks)[j] == blake3_hash(chunks[j]));
        assert(all[j] == chunks[j]);
    }
    assert(sealed_as(content, map, chunks));
}

/// Whether a source is that of what self-encryption made of content, and no two different chunks
/// that came out, nor one of them and the data map, have the same hash.
pub open spec fn serves_without_collision(source: FixtureView, content: Seq<u8>) -> bool {
    exists|map: DataMapView, chunks: Seq<Seq<u8>>| #[trigger]
        source.made_from(content, map, chunks) && collision_free(
            chunks.push(encoded_data_map(map)),
        )
}

/// The state in which a retrieval begins at the address of the data map of a source.
pub open spec fn begun_at(source: FixtureView) -> RetrievalView {
    let stored_map = source.chunks[source.data_map_address];
    RetrievalView::begun(source.data_map_address, stored_map, data_map_in(stored_map)->Ok_0)
}

/// The content of a source can be retrieved from it.
///
/// Begin at the address of the data map. Then two rounds, each of which supplies every record of
/// what is required and advances, lead to the content; for a map that is not shrunk, the first
/// round does. The source has everything that is required on the way, all of it is accepted, and
/// the retrieval advances each time.
///
/// Chunks are found by their hash, so this takes that no two different chunks have the same one.
pub proof fn law_a_source_gives_back_its_content(source: FixtureView, content: Seq<u8>)
    requires
        source.serves(content),
        serves_without_collision(source, content),
        content.len() <= MAX_RECOVERABLE_LEN,
    ensures
        source.chunks.contains_key(source.data_map_address),
        ({
            let stored_map = source.chunks[source.data_map_address];
            let start = begun_at(source);
            let first = after_round(start, source.chunks);
            let second = after_round(first, source.chunks);
            &&& blake3_hash(stored_map) == source.data_map_address
            &&& data_map_in(stored_map) is Ok
            &&& round_succeeds(start, source.chunks)
            &&& round_succeeds(first, source.chunks)
            &&& start.progress.root_resolved ==> first.progress.complete() && first.plaintext()
                == Some(content)
            &&& second.progress.complete()
            &&& second.plaintext() == Some(content)
            &&& start.wf() && first.wf() && second.wf()
            &&& second.history.address == source.data_map_address
            &&& second.history.chunk == stored_map
            &&& second.progress.held.submap_of(source.chunks)
            &&& second.history.resolved_with.submap_of(source.chunks)
        }),
{
    let (map, chunks) = choose|map: DataMapView, chunks: Seq<Seq<u8>>| #[trigger]
        source.made_from(content, map, chunks) && collision_free(
            chunks.push(encoded_data_map(map)),
        );
    let serialized = encoded_data_map(map);
    let all = chunks.push(serialized);
    let table = source.chunks;
    lemma_stored(all);
    assert(all[chunks.len() as int] == serialized);
    let start = begun_at(source);
    let first = after_round(start, table);
    let root = choose|root: DataMapView| recovers_through(root, map, chunks, content);
    assert(collision_free(chunks)) by {
        assert forall|i: int, j: int|
            0 <= i < chunks.len() && 0 <= j < chunks.len() && blake3_hash(#[trigger] chunks[i])
                == blake3_hash(#[trigger] chunks[j]) implies chunks[i] == chunks[j] by {
            assert(all[i] == chunks[i] && all[j] == chunks[j]);
        }
    }
    assert forall|i: int| 0 <= i < chunks.len() implies table.contains_key(
        blake3_hash(#[trigger] chunks[i]),
    ) && table[blake3_hash(chunks[i])] == chunks[i] by {
        assert(all[i] == chunks[i]);
    }
    if map.child is Some {
        lemma_first_round(start, table, root, map, chunks, content);
    } else {
        lemma_last_round(start, table, root, chunks, content);
    }
    lemma_last_round(first, table, root, chunks, content);
}

/// The first round of a retrieval from a table that has the chunks of a shrunk map: what is
/// required is there, and the map is resolved.
proof fn lemma_first_round(
    start: RetrievalView,
    table: Map<Seq<u8>, Seq<u8>>,
    root: DataMapView,
    map: DataMapView,
    chunks: Seq<Seq<u8>>,
    content: Seq<u8>,
)
    requires
        recovers_through(root, map, chunks, content),
        map.child is Some,
        start.progress == ProgressView::started(map),
        start.wf(),
        authentic(table),
        forall|i: int|
            0 <= i < chunks.len() ==> table.contains_key(blake3_hash(#[trigger] chunks[i]))
                && table[blake3_hash(chunks[i])] == chunks[i],
    ensures
        round_succeeds(start, table),
        ({
            let first = after_round(start, table);
            &&& first.wf()
            &&& first.progress.map == root
            &&& first.progress.root_resolved
            &&& first.progress.held.submap_of(table)
            &&& first.history.address == start.history.address
            &&& first.history.chunk == start.history.chunk
            &&& first.history.resolved_with.submap_of(table)
        }),
{
    let n = root.infos.len() as int;
    let missing = start.progress.missing();
    let all = map.addresses();
    let after = fed(start, table);
    lemma_records(start.progress);
    lemma_missing(start.progress);
    assert forall|i: int| 0 <= i < all.len() implies table.contains_key(#[trigger] all[i])
        && blake3_hash(table[all[i]]) == all[i] by {
        assert(all[i] == map.infos[i].dst_hash@);
        assert(all[i] == blake3_hash(chunks[n + i]));
    }
    assert forall|i: int| 0 <= i < missing.len() implies table.contains_key(#[trigger] missing[i])
        && blake3_hash(table[missing[i]]) == missing[i] by {
        assert(missing.contains(missing[i]));
        let j = choose|j: int| 0 <= j < all.len() && all[j] == missing[i];
        assert(table.contains_key(all[j]));
    }
    lemma_supplied_from(start, missing, table);
    law_supplying_everything_required_leaves_nothing(start, table);
    assert forall|address: Seq<u8>| #[trigger]
        after.progress.held.contains_key(address) implies table.contains_key(address)
        && after.progress.held[address] == table[address] by {
        assert(missing.contains(address));
        let i = choose|i: int| 0 <= i < missing.len() && missing[i] == address;
        assert(table.contains_key(missing[i]));
    }
    assert forall|i: int| 0 <= i < map.infos.len() implies after.progress.held.contains_key(
        (#[trigger] map.infos[i]).dst_hash@,
    ) && after.progress.held[map.infos[i].dst_hash@] == chunks[n + i] by {
        assert(after.progress.map.infos[i] == map.infos[i]);
        assert(map.infos[i].dst_hash@ == blake3_hash(chunks[n + i]));
    }
    assert(holds_wrappers(after.progress.held, map, chunks, n));
    assert(root_of(map, after.progress.held) == Some(root));
    assert(after.progress.awaits_root());
    let first = after_round(start, table);
    assert(first.history.resolved_with == after.progress.held);
    assert forall|more: Map<Seq<u8>, Seq<u8>>|
        first.history.resolved_with.submap_of(more) implies #[trigger] root_of(map, more) == Some(
        root,
    ) by {
        assert forall|i: int| 0 <= i < map.infos.len() implies more.contains_key(
            (#[trigger] map.infos[i]).dst_hash@,
        ) && more[map.infos[i].dst_hash@] == chunks[n + i] by {
            assert(after.progress.held.contains_key(map.infos[i].dst_hash@));
        }
        assert(holds_wrappers(more, map, chunks, n));
    }
}

/// A round of a retrieval that has its root map, from a table that has the content chunks: what
/// is required is there, and decrypts to the content.
proof fn lemma_last_round(
    state: RetrievalView,
    table: Map<Seq<u8>, Seq<u8>>,
    root: DataMapView,
    chunks: Seq<Seq<u8>>,
    content: Seq<u8>,
)
    requires
        state.wf(),
        state.progress.map == root,
        state.progress.root_resolved,
        root.infos.len() <= chunks.len(),
        forall|i: int|
            0 <= i < root.infos.len() ==> (#[trigger] root.infos[i]).dst_hash@ == blake3_hash(
                chunks[i],
            ),
        content_of(root, chunks.take(root.infos.len() as int)) == Some(content),
        authentic(table),
        forall|i: int|
            0 <= i < chunks.len() ==> table.contains_key(blake3_hash(#[trigger] chunks[i]))
                && table[blake3_hash(chunks[i])] == chunks[i],
        state.progress.held.submap_of(table),
    ensures
        round_succeeds(state, table),
        ({
            let after = after_round(state, table);
            &&& after.wf()
            &&& after.progress.map == root
            &&& after.progress.root_resolved
            &&& after.progress.complete()
            &&& after.progress.held.submap_of(table)
            &&& after.history == state.history
            &&& after.plaintext() == Some(content)
        }),
{
    let missing = state.progress.missing();
    let all = root.addresses();
    let after = fed(state, table);
    lemma_records(state.progress);
    lemma_missing(state.progress);
    assert forall|i: int| 0 <= i < missing.len() implies table.contains_key(#[trigger] missing[i])
        && blake3_hash(table[missing[i]]) == missing[i] by {
        assert(missing.contains(missing[i]));
        let j = choose|j: int| 0 <= j < all.len() && all[j] == missing[i];
        assert(all[j] == root.infos[j].dst_hash@);
        assert(all[j] == blake3_hash(chunks[j]));
    }
    lemma_supplied_from(state, missing, table);
    law_supplying_everything_required_leaves_nothing(state, table);
    assert(after_round(state, table) == after);
    assert forall|address: Seq<u8>| #[trigger]
        after.progress.held.contains_key(address) implies table.contains_key(address)
        && after.progress.held[address] == table[address] by {
        if missing.contains(address) {
            let i = choose|i: int| 0 <= i < missing.len() && missing[i] == address;
            assert(table.contains_key(missing[i]));
        } else {
            assert(state.progress.held.contains_key(address));
        }
    }
    assert(after.progress.chunks() =~= chunks.take(root.infos.len() as int)) by {
        assert forall|i: int| 0 <= i < root.infos.len() implies after.progress.chunks()[i]
            == chunks[i] by {
            assert(all[i] == root.infos[i].dst_hash@);
            assert(all[i] == blake3_hash(chunks[i]));
            assert(after.progress.held.contains_key(after.progress.map.infos[i].dst_hash@));
        }
    }
}

/// Whether different chunks of two tables have different hashes.
pub open spec fn no_collision_between(
    a: Map<Seq<u8>, Seq<u8>>,
    b: Map<Seq<u8>, Seq<u8>>,
) -> bool {
    forall|x: Seq<u8>, y: Seq<u8>|
        #![trigger a.contains_key(x), b.contains_key(y)]
        a.contains_key(x) && b.contains_key(y) && blake3_hash(a[x]) == blake3_hash(b[y]) ==> a[x]
            == b[y]
}

/// Chunks that do not collide with those of a table do not collide with those of a part of it.
proof fn lemma_no_collision_with_part(
    a: Map<Seq<u8>, Seq<u8>>,
    part: Map<Seq<u8>, Seq<u8>>,
    whole: Map<Seq<u8>, Seq<u8>>,
)
    requires
        no_collision_between(a, whole),
        part.submap_of(whole),
    ensures
        no_collision_between(a, part),
{
    assert forall|x: Seq<u8>, y: Seq<u8>|
        #![trigger a.contains_key(x), part.contains_key(y)]
        a.contains_key(x) && part.contains_key(y) && blake3_hash(a[x]) == blake3_hash(
            part[y],
        ) implies a[x] == part[y] by {
        assert(whole.contains_key(y));
    }
}

/// Two authentic tables whose chunks do not collide agree where they overlap.
proof fn lemma_tables_agree(a: Map<Seq<u8>, Seq<u8>>, b: Map<Seq<u8>, Seq<u8>>)
    requires
        authentic(a),
        authentic(b),
        no_collision_between(a, b),
    ensures
        forall|x: Seq<u8>| #[trigger]
            a.contains_key(x) && #[trigger] b.contains_key(x) ==> a[x] == b[x],
{
}

/// Whoever serves the bytes cannot change the content.
///
/// Two retrievals begun with the same address, fed by whatever endpoints and in whatever order,
/// come to the same content once both are complete. This takes that the bytes accepted in one
/// and different bytes accepted in the other do not have the same hash.
pub proof fn law_an_address_has_one_content(a: RetrievalView, b: RetrievalView)
    requires
        a.wf(),
        b.wf(),
        a.history.address == b.history.address,
        blake3_hash(a.history.chunk) == blake3_hash(b.history.chunk) ==> a.history.chunk
            == b.history.chunk,
        no_collision_between(a.history.resolved_with, b.history.resolved_with),
        no_collision_between(a.progress.held, b.progress.held),
        a.progress.complete(),
        b.progress.complete(),
    ensures
        a.progress.map == b.progress.map,
        a.plaintext() == b.plaintext(),
{
    let stored_map = data_map_in(a.history.chunk)->Ok_0;
    if stored_map.child is Some {
        let both = a.history.resolved_with.union_prefer_right(b.history.resolved_with);
        lemma_tables_agree(a.history.resolved_with, b.history.resolved_with);
        assert(a.history.resolved_with.submap_of(both));
        assert(b.history.resolved_with.submap_of(both));
        assert(root_of(stored_map, both) == Some(a.progress.map));
        assert(root_of(stored_map, both) == Some(b.progress.map));
    }
    lemma_tables_agree(a.progress.held, b.progress.held);
    assert(a.progress.chunks() =~= b.progress.chunks()) by {
        assert forall|i: int| 0 <= i < a.progress.map.infos.len() implies a.progress.chunks()[i]
            == b.progress.chunks()[i] by {
            let address = a.progress.map.infos[i].dst_hash@;
            assert(a.progress.held.contains_key(a.progress.map.infos[i].dst_hash@));
            assert(b.progress.held.contains_key(b.progress.map.infos[i].dst_hash@));
            assert(a.progress.held[address] == b.progress.held[address]);
        }
    }
}

/// Whoever serves it, a complete retrieval at the address of an upload gives the content that was
/// uploaded.
///
/// This takes that no two different chunks of the upload have the same hash, nor do a chunk of the
/// upload and different bytes accepted in the retrieval.
pub proof fn law_an_upload_cannot_be_changed(
    source: FixtureView,
    content: Seq<u8>,
    retrieval: RetrievalView,
)
    requires
        source.serves(content),
        serves_without_collision(source, content),
        content.len() <= MAX_RECOVERABLE_LEN,
        retrieval.wf(),
        retrieval.history.address == source.data_map_address,
        retrieval.progress.complete(),
        ({
            let stored_map = source.chunks[source.data_map_address];
            blake3_hash(retrieval.history.chunk) == blake3_hash(stored_map)
                ==> retrieval.history.chunk == stored_map
        }),
        no_collision_between(retrieval.history.resolved_with, source.chunks),
        no_collision_between(retrieval.progress.held, source.chunks),
    ensures
        retrieval.plaintext() == Some(content),
{
    law_a_source_gives_back_its_content(source, content);
    let second = after_round(after_round(begun_at(source), source.chunks), source.chunks);
    lemma_no_collision_with_part(
        retrieval.history.resolved_with,
        second.history.resolved_with,
        source.chunks,
    );
    lemma_no_collision_with_part(
        retrieval.progress.held,
        second.progress.held,
        source.chunks,
    );
    law_an_address_has_one_content(retrieval, second);
}

/// A supplied record leaves what is required, and the other records stay in their order. The
/// number of chunks stays too, and as many more are held as records have left: none, if the
/// address was held or the map does not name it.
pub proof fn law_a_supplied_record_is_no_longer_required(
    state: RetrievalView,
    address: Seq<u8>,
    chunk: Seq<u8>,
)
    ensures
        ({
            let before = state.progress;
            let after = state.supplied(address, chunk).progress;
            &&& records(after.required()) == records(before.required()).filter(
                |record: Seq<u8>| record != address,
            )
            &&& after.map.infos.len() == before.map.infos.len()
            &&& after.present().len() == before.present().len() + records(before.required()).len()
                - records(after.required()).len()
            &&& before.held.contains_key(address) || !before.map.addresses().contains(address)
                ==> after.required() == before.required()
        }),
{
    let before = state.progress;
    let after = state.supplied(address, chunk).progress;
    let others = |record: Seq<u8>| record != address;
    lemma_filter_twice(
        before.map.addresses(),
        |other: Seq<u8>| !before.held.contains_key(other),
        others,
        |other: Seq<u8>| !after.held.contains_key(other),
    );
    lemma_records(before);
    lemma_records(after);
    law_held_and_missing_add_up(before);
    law_held_and_missing_add_up(after);
    if before.held.contains_key(address) || !before.map.addresses().contains(address) {
        lemma_missing(before);
        assert forall|i: int| 0 <= i < before.missing().len() implies others(
            #[trigger] before.missing()[i],
        ) by {
            assert(before.missing().contains(before.missing()[i]));
        }
        lemma_filter_all(before.missing(), others);
    }
}

/// Selecting by a condition that all meet leaves everything.
proof fn lemma_filter_all(s: Seq<Seq<u8>>, keep: spec_fn(Seq<u8>) -> bool)
    requires
        forall|i: int| 0 <= i < s.len() ==> keep(#[trigger] s[i]),
    ensures
        s.filter(keep) == s,
    decreases s.len(),
{
    reveal(Seq::filter);
    if s.len() > 0 {
        lemma_filter_all(s.drop_last(), keep);
        assert(s.drop_last().push(s.last()) =~= s);
    } else {
        assert(s.filter(keep) =~= s);
    }
}

/// Whether one call can lead from a state to another: a chunk is accepted, the root map is
/// resolved, or nothing changes.
pub open spec fn step(before: RetrievalView, after: RetrievalView) -> bool {
    ||| after == before
    ||| exists|address: Seq<u8>, chunk: Seq<u8>|
        after == #[trigger] before.supplied(address, chunk)
    ||| exists|root: DataMapView| after == #[trigger] before.resolved(root)
}

/// Whether each of the states of a retrieval follows from the one before by one call.
pub open spec fn run(states: Seq<RetrievalView>) -> bool {
    forall|i: int| 0 <= i < states.len() - 1 ==> #[trigger] step(states[i], states[i + 1])
}

/// An accepted chunk is never required again, whether or not the map of its time named it: not
/// after other chunks were accepted, and not after the root map was resolved or could not be.
pub proof fn law_an_accepted_chunk_is_never_required_again(
    states: Seq<RetrievalView>,
    address: Seq<u8>,
    i: int,
    j: int,
)
    requires
        run(states),
        0 <= i <= j < states.len(),
        states[i].progress.held.contains_key(address),
    ensures
        states[j].progress.held.contains_key(address),
        !records(states[j].progress.required()).contains(address),
        ({
            let next = advanced(states[j]);
            step(states[j], next) && !records(next.progress.required()).contains(address)
        }),
    decreases j - i,
{
    if i < j {
        law_an_accepted_chunk_is_never_required_again(states, address, i, j - 1);
        assert(step(states[j - 1], states[j - 1 + 1]));
    }
    let next = advanced(states[j]);
    lemma_records(states[j].progress);
    lemma_missing(states[j].progress);
    lemma_records(next.progress);
    lemma_missing(next.progress);
}

/// Selecting twice is selecting by both conditions.
proof fn lemma_filter_twice(
    s: Seq<Seq<u8>>,
    first: spec_fn(Seq<u8>) -> bool,
    second: spec_fn(Seq<u8>) -> bool,
    both: spec_fn(Seq<u8>) -> bool,
)
    requires
        forall|x: Seq<u8>| #[trigger] both(x) == (first(x) && second(x)),
    ensures
        s.filter(both) == s.filter(first).filter(second),
    decreases s.len(),
{
    reveal(Seq::filter);
    if s.len() > 0 {
        let last = s.last();
        lemma_filter_twice(s.drop_last(), first, second, both);
        assert(both(last) == (first(last) && second(last)));
        if first(last) {
            assert(s.filter(first).drop_last() =~= s.drop_last().filter(first));
        }
    }
}

/// The chunks that are held and those that are missing add up to the chunks of the map, and the
/// retrieval is complete once the root map is resolved and as many are held as there are.
pub proof fn law_held_and_missing_add_up(state: ProgressView)
    ensures
        state.present().len() + state.missing().len() == state.map.infos.len(),
        32 * state.present().len() + state.required().len() == 32 * state.map.infos.len(),
        state.complete() <==> state.root_resolved && state.present().len()
            == state.map.infos.len(),
{
    lemma_split(
        state.map.addresses(),
        |address: Seq<u8>| state.held.contains_key(address),
        |address: Seq<u8>| !state.held.contains_key(address),
    );
    lemma_missing_empty(state);
    lemma_records(state);
}

/// What is selected by a condition and what is selected by its opposite add up.
proof fn lemma_split(
    s: Seq<Seq<u8>>,
    keep: spec_fn(Seq<u8>) -> bool,
    drop: spec_fn(Seq<u8>) -> bool,
)
    requires
        forall|x: Seq<u8>| #[trigger] drop(x) == !keep(x),
    ensures
        s.filter(keep).len() + s.filter(drop).len() == s.len(),
    decreases s.len(),
{
    reveal(Seq::filter);
    if s.len() > 0 {
        lemma_split(s.drop_last(), keep, drop);
        assert(drop(s.last()) == !keep(s.last()));
    }
}

/// A retrieval is complete after two rounds that go through, and after one if its map is a root
/// map.
pub proof fn law_two_rounds_complete_a_retrieval(
    state: RetrievalView,
    table: Map<Seq<u8>, Seq<u8>>,
)
    requires
        round_succeeds(state, table),
    ensures
        state.progress.root_resolved ==> after_round(state, table).progress.complete(),
        after_round(after_round(state, table), table).progress.complete(),
{
    law_supplying_everything_required_leaves_nothing(state, table);
    lemma_supplied_from(state, records(state.progress.required()), table);
    let first = after_round(state, table);
    assert(first.progress.root_resolved);
    law_supplying_everything_required_leaves_nothing(first, table);
    lemma_supplied_from(first, records(first.progress.required()), table);
}

/// What is required is what the map names and is not held: there are places in the map, in its
/// order, that are exactly those of chunks not held, and the records are the addresses there.
pub proof fn law_what_is_required_is_what_is_named_and_not_held(state: ProgressView)
    ensures
        exists|places: Seq<int>|
            {
                &&& state.required().len() == 32 * #[trigger] places.len()
                &&& forall|j: int|
                    0 <= j < places.len() ==> {
                        &&& 0 <= #[trigger] places[j] < state.map.infos.len()
                        &&& !state.held.contains_key(state.map.infos[places[j]].dst_hash@)
                        &&& state.required().subrange(32 * j, 32 * j + 32)
                            == state.map.infos[places[j]].dst_hash@
                    }
                &&& forall|j: int, k: int|
                    0 <= j < k < places.len() ==> #[trigger] places[j] < #[trigger] places[k]
                &&& forall|i: int|
                    0 <= i < state.map.infos.len() && !state.held.contains_key(
                        (#[trigger] state.map.infos[i]).dst_hash@,
                    ) ==> places.contains(i)
            },
{
    let all = state.map.addresses();
    let keep = |address: Seq<u8>| !state.held.contains_key(address);
    lemma_places(all, keep);
    lemma_records(state);
    let places = choose|places: Seq<int>| #[trigger] are_places(places, all, keep);
    let kept = all.filter(keep);
    assert forall|j: int| 0 <= j < places.len() implies {
        &&& 0 <= #[trigger] places[j] < state.map.infos.len()
        &&& !state.held.contains_key(state.map.infos[places[j]].dst_hash@)
        &&& state.required().subrange(32 * j, 32 * j + 32)
            == state.map.infos[places[j]].dst_hash@
    } by {
        assert(records(state.required())[j] == state.missing()[j]);
        assert(kept[j] == all[places[j]]);
        assert(keep(all[places[j]]));
        assert(all[places[j]] == state.map.infos[places[j]].dst_hash@);
    }
    assert forall|i: int|
        0 <= i < state.map.infos.len() && !state.held.contains_key(
            (#[trigger] state.map.infos[i]).dst_hash@,
        ) implies places.contains(i) by {
        assert(all[i] == state.map.infos[i].dst_hash@);
        assert(keep(all[i]));
    }
}

/// Whether places are exactly those at which a sequence meets a condition, in their order.
spec fn are_places(
    places: Seq<int>,
    s: Seq<Seq<u8>>,
    keep: spec_fn(Seq<u8>) -> bool,
) -> bool {
    &&& places.len() == s.filter(keep).len()
    &&& forall|j: int|
        0 <= j < places.len() ==> 0 <= #[trigger] places[j] < s.len() && keep(s[places[j]])
            && s.filter(keep)[j] == s[places[j]]
    &&& forall|j: int, k: int|
        0 <= j < k < places.len() ==> #[trigger] places[j] < #[trigger] places[k]
    &&& forall|i: int| 0 <= i < s.len() && keep(#[trigger] s[i]) ==> places.contains(i)
}

/// What is selected from a sequence stands at places of it.
proof fn lemma_places(s: Seq<Seq<u8>>, keep: spec_fn(Seq<u8>) -> bool)
    ensures
        exists|places: Seq<int>| #[trigger] are_places(places, s, keep),
    decreases s.len(),
{
    reveal(Seq::filter);
    if s.len() == 0 {
        assert(are_places(Seq::<int>::empty(), s, keep));
    } else {
        let rest = s.drop_last();
        let last = s.len() - 1;
        lemma_places(rest, keep);
        let places = choose|places: Seq<int>| #[trigger] are_places(places, rest, keep);
        let more = if keep(s.last()) {
            places.push(last)
        } else {
            places
        };
        assert forall|j: int| 0 <= j < more.len() implies 0 <= #[trigger] more[j] < s.len() && keep(
            s[more[j]],
        ) && s.filter(keep)[j] == s[more[j]] by {
            if j < places.len() {
                assert(more[j] == places[j]);
                assert(rest[places[j]] == s[places[j]]);
            }
        }
        assert forall|j: int, k: int| 0 <= j < k < more.len() implies #[trigger] more[j]
            < #[trigger] more[k] by {
            assert(more[j] == places[j]);
            if k < places.len() {
                assert(more[k] == places[k]);
            }
        }
        assert forall|i: int| 0 <= i < s.len() && keep(#[trigger] s[i]) implies more.contains(i) by {
            if i < last {
                assert(rest[i] == s[i]);
                let j = choose|j: int| 0 <= j < places.len() && places[j] == i;
                assert(more[j] == i);
            } else {
                assert(more[more.len() - 1] == last);
            }
        }
        assert(are_places(more, s, keep));
    }
}

/// As long as an address is required, or the map is a root map, advancing does nothing. As long as
/// the map is not a root map or an address is required, the retrieval is not complete.
pub proof fn law_nothing_advances_before_everything_is_there(state: RetrievalView)
    ensures
        state.progress.required().len() > 0 || state.progress.root_resolved ==> advanced(state)
            == state && !state.progress.awaits_root() && can_advance(state),
        state.progress.required().len() > 0 || !state.progress.root_resolved
            ==> !state.progress.complete() && state.plaintext() is None,
        state.progress.required().len() == 0 <==> forall|i: int|
            0 <= i < state.progress.map.infos.len() ==> state.progress.held.contains_key(
                (#[trigger] state.progress.map.infos[i]).dst_hash@,
            ),
{
    lemma_missing_empty(state.progress);
    lemma_records(state.progress);
}

/// Once all wrapper chunks are there, advancing puts the root map that they lead to in the place
/// of the shrunk one, and keeps every chunk.
pub proof fn law_advancing_resolves_the_root_map(state: RetrievalView, root: DataMapView)
    requires
        !state.progress.root_resolved,
        state.progress.required().len() == 0,
        root_data_map(state.progress.map, state.progress.held, usize::BITS as nat) == Some(root),
    ensures
        ({
            let after = advanced(state);
            &&& after.progress.map == root
            &&& after.progress.root_resolved
            &&& after.progress.held == state.progress.held
            &&& after.history.address == state.history.address
            &&& after.history.chunk == state.history.chunk
            &&& after.history.resolved_with == state.progress.held
        }),
{
    lemma_missing_empty(state.progress);
    lemma_records(state.progress);
}

/// A retrieval begins with the map under its address and nothing held, and has its root map at
/// once exactly if that map is not shrunk.
pub proof fn law_a_retrieval_begins_with_nothing_held(
    address: Seq<u8>,
    chunk: Seq<u8>,
    map: DataMapView,
)
    ensures
        ({
            let start = RetrievalView::begun(address, chunk, map);
            &&& start.progress.map == map
            &&& start.progress.root_resolved == (map.child is None)
            &&& forall|other: Seq<u8>| !start.progress.held.contains_key(other)
            &&& start.history.address == address
            &&& start.history.chunk == chunk
        }),
{
}

/// Accepting a chunk puts it under its address, and changes nothing else: not what is held under
/// other addresses, not the map, and not whether it is a root map.
pub proof fn law_an_accepted_chunk_is_held(
    state: RetrievalView,
    address: Seq<u8>,
    chunk: Seq<u8>,
    other: Seq<u8>,
)
    ensures
        ({
            let after = state.supplied(address, chunk);
            &&& after.progress.held.contains_key(address)
            &&& after.progress.held[address] == chunk
            &&& other != address ==> (after.progress.held.contains_key(other)
                <==> state.progress.held.contains_key(other)) && after.progress.held[other]
                == state.progress.held[other]
            &&& after.progress.map == state.progress.map
            &&& after.progress.root_resolved == state.progress.root_resolved
            &&& after.history == state.history
        }),
{
}

/// The content of a complete retrieval is what the chunks of the root map, each as often and in
/// the place as the map names it, decrypt to.
pub proof fn law_the_content_is_decrypted_from_the_chunks_in_order(
    state: RetrievalView,
    chunks: Seq<Seq<u8>>,
)
    requires
        state.progress.root_resolved,
        chunks.len() == state.progress.map.infos.len(),
        forall|i: int|
            0 <= i < chunks.len() ==> state.progress.held.contains_key(
                (#[trigger] state.progress.map.infos[i]).dst_hash@,
            ) && state.progress.held[state.progress.map.infos[i].dst_hash@] == chunks[i],
    ensures
        state.plaintext() == decrypted_content(
            state.progress.map,
            chunks,
            usize::BITS as nat,
        ),
{
    assert(state.progress.chunks() =~= chunks) by {
        assert forall|i: int| 0 <= i < chunks.len() implies #[trigger] state.progress.chunks()[i]
            == chunks[i] by {
            assert(state.progress.map.addresses()[i] == state.progress.map.infos[i].dst_hash@);
        }
    }
}

/// What a data map holds is read on the machine at hand, and so is what chunks lead to.
pub proof fn law_results_are_those_of_this_machine(
    bytes: Seq<u8>,
    map: DataMapView,
    held: Map<Seq<u8>, Seq<u8>>,
    chunks: Seq<Seq<u8>>,
)
    ensures
        data_map_in(bytes) == decoded_data_map(bytes, usize::BITS as nat),
        root_of(map, held) == root_data_map(map, held, usize::BITS as nat),
        content_of(map, chunks) == decrypted_content(map, chunks, usize::BITS as nat),
{
}

/// The value of a data map is its entries, each with all its fields and in their order, and how
/// often it was shrunk.
pub proof fn law_the_value_of_a_data_map_is_all_of_it(map: DataMap, chunks: Seq<Vec<u8>>)
    ensures
        map@.infos.len() == map.infos@.len(),
        map@.addresses().len() == map.infos@.len(),
        forall|i: int|
            0 <= i < map.infos@.len() ==> {
                &&& map@.infos[i].index == (#[trigger] map.infos@[i]).index
                &&& map@.infos[i].dst_hash == map.infos@[i].dst_hash
                &&& map@.infos[i].src_hash == map.infos@[i].src_hash
                &&& map@.infos[i].src_size == map.infos@[i].src_size
                &&& map@.addresses()[i] == map.infos@[i].dst_hash@
            },
        match map.child {
            Some(level) => map@.child == Some(level as nat),
            None => map@.child is None,
        },
        contents(chunks).len() == chunks.len(),
        forall|i: int| 0 <= i < chunks.len() ==> contents(chunks)[i] == (#[trigger] chunks[i])@,
{
    assert forall|i: int| 0 <= i < map.infos@.len() implies {
        &&& map@.infos[i].index == (#[trigger] map.infos@[i]).index
        &&& map@.infos[i].dst_hash == map.infos@[i].dst_hash
        &&& map@.infos[i].src_hash == map.infos@[i].src_hash
        &&& map@.infos[i].src_size == map.infos@[i].src_size
        &&& map@.addresses()[i] == map.infos@[i].dst_hash@
    } by {
        assert(map@.infos[i] == map.infos@[i]@);
    }
}

} // verus!
