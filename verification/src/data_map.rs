//! Data maps: which chunks make up a piece of content.

use crate::address::ADDRESS_LEN;
use vstd::prelude::*;

verus! {

/// What a data map says of one chunk.
#[derive(Debug, PartialEq, Eq)]
pub struct ChunkInfo {
    /// Index number, from zero.
    pub index: usize,
    /// Hash of the chunk after encryption: the address under which it is stored.
    pub dst_hash: [u8; ADDRESS_LEN],
    /// Hash of the chunk before encryption.
    pub src_hash: [u8; ADDRESS_LEN],
    /// Size of the chunk before encryption and compression.
    pub src_size: usize,
}

/// The chunks of a piece of content, in order.
///
/// A map with a child level is *shrunk*: its entries name wrapper chunks, which hold another
/// data map, rather than content chunks.
#[derive(Debug, PartialEq, Eq)]
pub struct DataMap {
    /// One entry for each chunk.
    pub infos: Vec<ChunkInfo>,
    /// How many levels the map was shrunk, or `None` for a root map.
    pub child: Option<usize>,
}

/// The value of a [`ChunkInfo`].
pub struct ChunkInfoView {
    pub index: nat,
    pub dst_hash: [u8; ADDRESS_LEN],
    pub src_hash: [u8; ADDRESS_LEN],
    pub src_size: nat,
}

/// The value of a [`DataMap`].
pub struct DataMapView {
    pub infos: Seq<ChunkInfoView>,
    pub child: Option<nat>,
}

impl DataMapView {
    /// The addresses of the chunks, in order.
    pub open spec fn addresses(self) -> Seq<Seq<u8>> {
        self.infos.map_values(|info: ChunkInfoView| info.dst_hash@)
    }
}

impl View for ChunkInfo {
    type V = ChunkInfoView;

    open spec fn view(&self) -> ChunkInfoView {
        ChunkInfoView {
            index: self.index as nat,
            dst_hash: self.dst_hash,
            src_hash: self.src_hash,
            src_size: self.src_size as nat,
        }
    }
}

impl View for DataMap {
    type V = DataMapView;

    open spec fn view(&self) -> DataMapView {
        DataMapView {
            infos: self.infos@.map_values(|info: ChunkInfo| info@),
            child: match self.child {
                Some(level) => Some(level as nat),
                None => None,
            },
        }
    }
}

impl DataMap {
    /// Whether the map is shrunk.
    pub fn is_child(&self) -> (child: bool)
        ensures
            child == (self@.child is Some),
            child == (self.child is Some),
    {
        self.child.is_some()
    }
}

/// What `rmp_serde::from_slice` makes of a byte string as a `self_encryption::DataMap`, on a
/// machine whose `usize` has the given number of bits: the map, or the text of its error.
pub uninterp spec fn decoded_data_map(bytes: Seq<u8>, word_bits: nat) -> Result<DataMapView, Seq<char>>;

/// The data map that a byte string holds as MessagePack, or why it holds none.
pub open spec fn data_map_in(bytes: Seq<u8>) -> Result<DataMapView, Seq<char>> {
    decoded_data_map(bytes, usize::BITS as nat)
}

/// What `rmp_serde::to_vec` makes of a `self_encryption::DataMap`.
pub uninterp spec fn encoded_data_map(map: DataMapView) -> Seq<u8>;

/// `rmp_serde::from_slice` into a `self_encryption::DataMap`, and the text of its error: both
/// depend on the bytes and on the width of `usize` alone.
#[verifier::external_body]
pub(crate) fn decode_data_map(bytes: &[u8]) -> (decoded: Result<DataMap, String>)
    ensures
        match decoded {
            Ok(map) => decoded_data_map(bytes@, usize::BITS as nat) == Ok::<DataMapView, Seq<char>>(
                map@,
            ),
            Err(text) => decoded_data_map(bytes@, usize::BITS as nat) == Err::<
                DataMapView,
                Seq<char>,
            >(text@),
        },
{
    let decoded: Result<self_encryption::DataMap, _> = rmp_serde::from_slice(bytes);
    let map = decoded.map_err(|e| e.to_string())?;
    let convert = |i: &self_encryption::ChunkInfo| ChunkInfo {
        index: i.index,
        dst_hash: i.dst_hash.0,
        src_hash: i.src_hash.0,
        src_size: i.src_size,
    };
    Ok(DataMap { infos: map.infos().iter().map(convert).collect(), child: map.child() })
}

/// `rmp_serde::to_vec` of a `self_encryption::DataMap`: it succeeds, where there is memory for the
/// bytes. They depend on the map alone, and decoding them gives the same map back, unless it has
/// more entries than a MessagePack array can hold.
#[verifier::external_body]
pub(crate) fn encode_data_map(map: &DataMap) -> (encoded: Option<Vec<u8>>)
    ensures
        match encoded {
            Some(bytes) => {
                &&& bytes@ == encoded_data_map(map@)
                &&& map@.infos.len() <= u32::MAX ==> data_map_in(bytes@) == Ok::<
                    DataMapView,
                    Seq<char>,
                >(map@)
            },
            None => false,
        },
{
    let convert = |i: &ChunkInfo| self_encryption::ChunkInfo {
        index: i.index,
        dst_hash: self_encryption::XorName(i.dst_hash),
        src_hash: self_encryption::XorName(i.src_hash),
        src_size: i.src_size,
    };
    let chunk_identifiers = map.infos.iter().map(convert).collect();
    let map = self_encryption::DataMap { chunk_identifiers, child: map.child };
    rmp_serde::to_vec(&map).ok()
}

} // verus!
