//! Self-encryption: chunks and data maps from content, and content from them.

use crate::address::{hex, ADDRESS_LEN};
use crate::data_map::{ChunkInfo, DataMap};
use crate::store::ChunkStore;
use self_encryption::{Error, XorName};
use vstd::prelude::*;

verus! {

use crate::address::{blake3_hash, hex_text};
use crate::data_map::DataMapView;
use crate::text::digit_char;

/// The eight binary digits of a byte.
pub open spec fn bits_text(byte: u8) -> Seq<char> {
    seq![
        digit_char(byte as int / 128 % 2),
        digit_char(byte as int / 64 % 2),
        digit_char(byte as int / 32 % 2),
        digit_char(byte as int / 16 % 2),
        digit_char(byte as int / 8 % 2),
        digit_char(byte as int / 4 % 2),
        digit_char(byte as int / 2 % 2),
        digit_char(byte as int % 2),
    ]
}

/// An address cut short for a message: three bytes in hex, and the first of them in binary.
pub open spec fn short_name(address: Seq<u8>) -> Seq<char> {
    hex_text(address.take(3)) + "("@ + bits_text(address[0]) + ").."@
}

/// Why a chunk does not belong under an address.
pub open spec fn mismatch_text(expected: Seq<u8>, got: Seq<u8>) -> Seq<char> {
    "Generic error(Chunk content hash mismatch. Expected: "@ + short_name(expected) + ", Got: "@
        + short_name(got) + ")"@
}

/// `self_encryption::verify_chunk`: the bytes as a chunk if their BLAKE3 hash is the address,
/// and otherwise the text of an error that names both.
#[verifier::external_body]
pub(crate) fn verify_chunk(address: &[u8; ADDRESS_LEN], bytes: &[u8]) -> (chunk: Result<
    Vec<u8>,
    String,
>)
    ensures
        match chunk {
            Ok(content) => blake3_hash(bytes@) == address@ && content@ == bytes@,
            Err(text) => blake3_hash(bytes@) != address@ && text@ == mismatch_text(
                address@,
                blake3_hash(bytes@),
            ),
        },
{
    let verified = self_encryption::verify_chunk(XorName(*address), bytes);
    verified.map(|chunk| chunk.content.to_vec()).map_err(|e| e.to_string())
}

/// The bytes of each chunk in a list.
pub open spec fn contents(chunks: Seq<Vec<u8>>) -> Seq<Seq<u8>> {
    chunks.map_values(|chunk: Vec<u8>| chunk@)
}

/// What `self_encryption::decrypt` recovers by a data map from a list of chunks, on a machine
/// whose `usize` has the given number of bits.
pub uninterp spec fn decrypted_content(
    map: DataMapView,
    chunks: Seq<Seq<u8>>,
    word_bits: nat,
) -> Option<Seq<u8>>;

/// The content that a data map and a list of chunks lead to, if they lead to any.
pub open spec fn content_of(map: DataMapView, chunks: Seq<Seq<u8>>) -> Option<Seq<u8>> {
    decrypted_content(map, chunks, usize::BITS as nat)
}

/// `self_encryption::decrypt`: whether it succeeds, and the content, depend on the map, the
/// chunks and the width of `usize` alone. Nothing is said of the text of its error: chunks are
/// decrypted in parallel, and where several fail, chance decides which failure is reported.
#[verifier::external_body]
pub(crate) fn decrypt(map: &DataMap, chunks: Vec<Vec<u8>>) -> (content: Result<Vec<u8>, String>)
    ensures
        match content {
            Ok(content) => decrypted_content(map@, contents(chunks@), usize::BITS as nat) == Some(
                content@,
            ),
            Err(_) => decrypted_content(map@, contents(chunks@), usize::BITS as nat) is None,
        },
{
    let convert = |i: &ChunkInfo| self_encryption::ChunkInfo {
        index: i.index,
        dst_hash: XorName(i.dst_hash),
        src_hash: XorName(i.src_hash),
        src_size: i.src_size,
    };
    let chunk_identifiers = map.infos.iter().map(convert).collect();
    let map = self_encryption::DataMap { chunk_identifiers, child: map.child };
    let wrap = |content: Vec<u8>| self_encryption::EncryptedChunk { content: content.into() };
    let chunks: Vec<_> = chunks.into_iter().map(wrap).collect();
    self_encryption::decrypt(&map, &chunks).map(|c| c.to_vec()).map_err(|e| e.to_string())
}

/// The wrapper chunk stored under an address.
pub fn wrapper_chunk(chunks: &ChunkStore, address: &[u8; ADDRESS_LEN]) -> (content: Result<
    Vec<u8>,
    String,
>)
    ensures
        match content {
            Ok(content) => chunks@.contains_key(address@) && content@ == chunks@[address@],
            Err(text) => !chunks@.contains_key(address@) && text@ == "missing wrapper chunk "@
                + hex_text(address@),
        },
{
    match chunks.get(address) {
        Some(content) => Ok(content),
        None => {
            let mut text = "missing wrapper chunk ".to_owned();
            let name = hex(address.as_slice());
            text.append(name.as_str());
            Err(text)
        },
    }
}

/// What `self_encryption::get_root_data_map` makes of a data map, where each chunk that it asks
/// for is looked up in a table, on a machine whose `usize` has the given number of bits.
pub uninterp spec fn root_data_map(
    map: DataMapView,
    chunks: Map<Seq<u8>, Seq<u8>>,
    word_bits: nat,
) -> Option<DataMapView>;

/// The root data map behind a data map, as far as the chunks in a table lead to it.
pub open spec fn root_of(map: DataMapView, chunks: Map<Seq<u8>, Seq<u8>>) -> Option<DataMapView> {
    root_data_map(map, chunks, usize::BITS as nat)
}

/// `self_encryption::get_root_data_map`, with [`wrapper_chunk`] for the retrieval of chunks.
///
/// Whether it succeeds, and the map, depend on the map, the table and the width of `usize`
/// alone. The map is a root map, and a table that holds more chunks leads to the same map.
/// Nothing is said of the text of its error: chunks are decrypted in parallel, and where several
/// fail, chance decides which failure is reported.
#[verifier::external_body]
pub(crate) fn resolve_root(map: &DataMap, chunks: &ChunkStore) -> (root: Result<DataMap, String>)
    ensures
        match root {
            Ok(root) => {
                &&& root_data_map(map@, chunks@, usize::BITS as nat) == Some(root@)
                &&& root@.child is None
                &&& forall|more: Map<Seq<u8>, Seq<u8>>|
                    chunks@.submap_of(more) ==> #[trigger] root_data_map(
                        map@,
                        more,
                        usize::BITS as nat,
                    ) == Some(root@)
            },
            Err(_) => root_data_map(map@, chunks@, usize::BITS as nat) is None,
        },
{
    let infos = map.infos.iter().map(|i| self_encryption::ChunkInfo {
        index: i.index,
        dst_hash: XorName(i.dst_hash),
        src_hash: XorName(i.src_hash),
        src_size: i.src_size,
    });
    let map = self_encryption::DataMap { chunk_identifiers: infos.collect(), child: map.child };
    let root = self_encryption::get_root_data_map(map, &mut |address: XorName|
        wrapper_chunk(chunks, &address.0).map(Into::into).map_err(Error::Generic)
    ).map_err(|e| e.to_string())?;
    let infos = root.chunk_identifiers.iter().map(|i| ChunkInfo {
        index: i.index, dst_hash: i.dst_hash.0, src_hash: i.src_hash.0, src_size: i.src_size,
    });
    Ok(DataMap { infos: infos.collect(), child: root.child })
}

/// Whether different chunks of a list have different hashes.
pub open spec fn collision_free(chunks: Seq<Seq<u8>>) -> bool {
    forall|i: int, j: int|
        0 <= i < chunks.len() && 0 <= j < chunks.len() && blake3_hash(#[trigger] chunks[i])
            == blake3_hash(#[trigger] chunks[j]) ==> chunks[i] == chunks[j]
}

/// Whether a table holds, under the addresses of a data map, the chunks of a list from a
/// position on.
pub open spec fn holds_wrappers(
    held: Map<Seq<u8>, Seq<u8>>,
    map: DataMapView,
    chunks: Seq<Seq<u8>>,
    from: int,
) -> bool {
    forall|i: int|
        0 <= i < map.infos.len() ==> held.contains_key((#[trigger] map.infos[i]).dst_hash@)
            && held[map.infos[i].dst_hash@] == chunks[from + i]
}

/// Whether content can be recovered from a data map and chunks by way of a root map.
///
/// The chunks of the root map come first, in its order. If the data map is shrunk, the wrapper
/// chunks follow in the data map's order, and lead to the root map.
pub open spec fn recovers_through(
    root: DataMapView,
    map: DataMapView,
    chunks: Seq<Seq<u8>>,
    content: Seq<u8>,
) -> bool {
    let n = root.infos.len() as int;
    &&& root.child is None
    &&& n <= chunks.len()
    &&& forall|i: int|
        0 <= i < n ==> (#[trigger] root.infos[i]).dst_hash@ == blake3_hash(chunks[i])
    &&& collision_free(chunks) ==> content_of(root, chunks.take(n)) == Some(content)
    &&& map.child is None ==> map == root && chunks.len() == n
    &&& map.child is Some ==> {
        &&& chunks.len() == n + map.infos.len()
        &&& forall|i: int|
            0 <= i < map.infos.len() ==> (#[trigger] map.infos[i]).dst_hash@ == blake3_hash(
                chunks[n + i],
            )
        &&& forall|held: Map<Seq<u8>, Seq<u8>>|
            holds_wrappers(held, map, chunks, n) ==> #[trigger] root_of(map, held) == Some(root)
    }
}

/// Whether content can be recovered from a data map and chunks.
pub open spec fn recovers(map: DataMapView, chunks: Seq<Seq<u8>>, content: Seq<u8>) -> bool {
    exists|root: DataMapView| recovers_through(root, map, chunks, content)
}

/// The longest content that self-encryption takes apart so that it can be put together again.
///
/// A data map takes ten bytes and eighty for each chunk of [`PINNED_CHUNK_SIZE`] bytes. One of
/// more than three entries is shrunk by encrypting it in turn. If that takes more than three
/// chunks again, the map that comes out no longer leads back to the root map.
pub const MAX_RECOVERABLE_LEN: u64 = 658_415_763_456;

/// The chunk size that self-encryption is built with.
///
/// Self-encryption takes it from the environment where it is compiled, and another one would give
/// the same content other addresses than it has on the network. So [`encrypt`] holds it to this
/// one: the library does not compile with any other.
pub const PINNED_CHUNK_SIZE: usize = 4_190_208;

/// The text of the error for content that is too short.
pub open spec fn too_small_text() -> Seq<char> {
    "Generic error(Too small for self-encryption! Required size at least 3)"@
}

/// Whether a data map and chunks are what `self_encryption::encrypt` made of content, in a call
/// on some machine.
pub uninterp spec fn sealed_as(
    content: Seq<u8>,
    map: DataMapView,
    chunks: Seq<Seq<u8>>,
) -> bool;

/// The hashes of chunks.
pub open spec fn hashes(chunks: Seq<Seq<u8>>) -> Seq<Seq<u8>> {
    chunks.map_values(|chunk: Seq<u8>| blake3_hash(chunk))
}

/// Whether every entry of a data map names a chunk of a list.
pub open spec fn names_chunks(map: DataMapView, chunks: Seq<Seq<u8>>) -> bool {
    forall|i: int|
        0 <= i < map.infos.len() ==> hashes(chunks).contains(
            (#[trigger] map.infos[i]).dst_hash@,
        )
}

/// What self-encryption made of content.
pub(crate) struct Encrypted {
    pub(crate) map: DataMap,
    pub(crate) chunks: Vec<Vec<u8>>,
}

/// `self_encryption::encrypt`, where `self_encryption::MAX_CHUNK_SIZE` is [`PINNED_CHUNK_SIZE`]:
/// by the type of its first line, the body does not compile with another chunk size.
///
/// It succeeds exactly on content of three bytes or more, and otherwise says that it is too small.
/// A data map has three entries, each of which names a chunk that came out: content is split into
/// three chunks or more, and a map of more than three is shrunk. What comes out for content of up
/// to [`MAX_RECOVERABLE_LEN`] bytes recovers the content; decryption finds chunks by their hash,
/// so this takes that no two different chunks have the same one.
///
/// Which chunks come out is not said: the compressor computes with floating point, whose
/// precision may differ between machines.
#[verifier::external_body]
pub(crate) fn encrypt(content: Vec<u8>) -> (encrypted: Result<Encrypted, String>)
    ensures
        match encrypted {
            Ok(made) => {
                &&& content@.len() >= 3
                &&& sealed_as(content@, made.map@, contents(made.chunks@))
                &&& made.map@.infos.len() == 3
                &&& names_chunks(made.map@, contents(made.chunks@))
                &&& content@.len() <= MAX_RECOVERABLE_LEN ==> recovers(
                    made.map@,
                    contents(made.chunks@),
                    content@,
                )
            },
            Err(text) => content@.len() < 3 && text@ == too_small_text(),
        },
{
    let _: [(); PINNED_CHUNK_SIZE] = [(); self_encryption::MAX_CHUNK_SIZE];
    let (map, chunks) = self_encryption::encrypt(content.into()).map_err(|e| e.to_string())?;
    let infos = map.infos().iter().map(|i| ChunkInfo {
        index: i.index, dst_hash: i.dst_hash.0, src_hash: i.src_hash.0, src_size: i.src_size,
    });
    let contents = chunks.into_iter().map(|chunk| chunk.content.to_vec());
    let map = DataMap { infos: infos.collect(), child: map.child() };
    Ok(Encrypted { map, chunks: contents.collect() })
}

} // verus!
