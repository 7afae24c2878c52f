//! Where an endpoint gets chunk bytes from.
//!
//! An endpoint answers an address with bytes. Everything that decides whether the bytes can be
//! trusted happens at the client, so a source may be wrong without harm to it.

use crate::address::{address_of, hex, ADDRESS_LEN};
use crate::cipher::encrypt;
use crate::data_map::{encode_data_map, DataMap};
use crate::error::Error;
use crate::store::ChunkStore;
use crate::text::join;
use vstd::prelude::*;

verus! {

use crate::address::{blake3_hash, hex_text};
use crate::cipher::{contents, names_chunks, recovers, sealed_as, too_small_text, MAX_RECOVERABLE_LEN};
use crate::data_map::{data_map_in, encoded_data_map, DataMapView};
use vstd::utf8::encode_utf8;

/// A chunk with the address under which it is stored.
#[derive(Debug, PartialEq, Eq)]
pub struct Addressed {
    pub address: [u8; ADDRESS_LEN],
    pub content: Vec<u8>,
}

/// The table of chunks put under given addresses one after another.
pub open spec fn indexed(chunks: Seq<Addressed>) -> Map<Seq<u8>, Seq<u8>>
    decreases chunks.len(),
{
    if chunks.len() == 0 {
        Map::empty()
    } else {
        indexed(chunks.drop_last()).insert(chunks.last().address@, chunks.last().content@)
    }
}

/// The table of chunks put under their hashes one after another.
pub open spec fn stored(chunks: Seq<Seq<u8>>) -> Map<Seq<u8>, Seq<u8>>
    decreases chunks.len(),
{
    if chunks.len() == 0 {
        Map::empty()
    } else {
        stored(chunks.drop_last()).insert(blake3_hash(chunks.last()), chunks.last())
    }
}

/// The value of a [`FixtureSource`].
pub struct FixtureView {
    pub chunks: Map<Seq<u8>, Seq<u8>>,
    pub data_map_address: Seq<u8>,
    pub plaintext_len: nat,
    pub chunk_count: nat,
}

impl FixtureView {
    /// The source of a data map and chunks: each chunk and the serialized data map under its hash.
    pub open spec fn of(
        plaintext_len: nat,
        map: DataMapView,
        chunks: Seq<Seq<u8>>,
    ) -> FixtureView {
        FixtureView {
            chunks: stored(chunks.push(encoded_data_map(map))),
            data_map_address: blake3_hash(encoded_data_map(map)),
            plaintext_len,
            chunk_count: map.infos.len(),
        }
    }

    /// Whether the source is that of a data map and chunks that self-encryption made of content.
    ///
    /// The data map has three entries, each of which names one of the chunks, and is what its
    /// serialized form holds. Map and chunks lead back to the content unless it is too long.
    pub open spec fn made_from(
        self,
        content: Seq<u8>,
        map: DataMapView,
        chunks: Seq<Seq<u8>>,
    ) -> bool {
        &&& self == FixtureView::of(content.len(), map, chunks)
        &&& sealed_as(content, map, chunks)
        &&& map.infos.len() == 3
        &&& names_chunks(map, chunks)
        &&& data_map_in(encoded_data_map(map)) == Ok::<DataMapView, Seq<char>>(map)
        &&& content.len() <= MAX_RECOVERABLE_LEN ==> recovers(map, chunks, content)
    }

    /// Whether the source is that of what self-encryption made of content.
    pub open spec fn serves(self, content: Seq<u8>) -> bool {
        exists|map: DataMapView, chunks: Seq<Seq<u8>>| #[trigger]
            self.made_from(content, map, chunks)
    }
}

/// An in-memory source built by self-encrypting content.
///
/// Serves both the serialized data map and every chunk through the same address space, as the
/// network does.
pub struct FixtureSource {
    chunks: ChunkStore,
    /// Address of the chunk holding the serialized data map.
    pub data_map_address: [u8; ADDRESS_LEN],
    /// Length of the content.
    pub plaintext_len: usize,
    /// Number of chunks that the data map names.
    pub chunk_count: usize,
}

impl View for FixtureSource {
    type V = FixtureView;

    closed spec fn view(&self) -> FixtureView {
        FixtureView {
            chunks: self.chunks@,
            data_map_address: self.data_map_address@,
            plaintext_len: self.plaintext_len as nat,
            chunk_count: self.chunk_count as nat,
        }
    }
}

/// The fields of a source are its values.
proof fn law_the_fields_of_a_source_are_its_values(source: FixtureSource)
    ensures
        source@.data_map_address == source.data_map_address@,
        source@.plaintext_len == source.plaintext_len,
        source@.chunk_count == source.chunk_count,
        source@.chunks == source.chunks@,
{
}

/// The message for content that was not self-encrypted.
pub open spec fn unencrypted_message(text: Seq<char>) -> Seq<char> {
    "self-encryption failed: "@ + text
}

/// The error for content that was not self-encrypted.
pub fn encryption_failed(text: &str) -> (error: Error)
    ensures
        error@ == unencrypted_message(text@),
{
    Error::new(join("self-encryption failed: ", text))
}

impl FixtureSource {
    /// A source of chunks under given addresses; the last of them holds the data map.
    pub fn assemble(
        chunks: Vec<Addressed>,
        data_map: Addressed,
        plaintext_len: usize,
        chunk_count: usize,
    ) -> (source: FixtureSource)
        ensures
            source@ == (FixtureView {
                chunks: indexed(chunks@.push(data_map)),
                data_map_address: data_map.address@,
                plaintext_len: plaintext_len as nat,
                chunk_count: chunk_count as nat,
            }),
    {
        let mut store = ChunkStore::new();
        let mut i: usize = 0;
        while i < chunks.len()
            invariant
                i <= chunks@.len(),
                store@ == indexed(chunks@.take(i as int)),
            decreases chunks.len() - i,
        {
            assert(chunks@.take(i + 1).drop_last() =~= chunks@.take(i as int));
            store.insert(
                chunks[i].address,
                vstd::slice::slice_to_vec(chunks[i].content.as_slice()),
            );
            i += 1;
        }
        assert(chunks@.take(chunks@.len() as int) =~= chunks@);
        assert(chunks@.push(data_map).drop_last() =~= chunks@);
        let data_map_address = data_map.address;
        store.insert(data_map_address, data_map.content);
        FixtureSource { chunks: store, data_map_address, plaintext_len, chunk_count }
    }

    /// The source of a data map and chunks: every chunk is indexed by its address, and the data
    /// map is stored as a chunk like any other, in MessagePack.
    pub fn of_sealed(plaintext_len: usize, map: &DataMap, chunks: &Vec<Vec<u8>>) -> (source: Result<
        FixtureSource,
        Error,
    >)
        ensures
            source matches Ok(made) && made@ == FixtureView::of(
                plaintext_len as nat,
                map@,
                contents(chunks@),
            ),
            source matches Ok(made) && {
                &&& made@.plaintext_len == plaintext_len
                &&& made@.chunk_count == map.infos@.len()
                &&& made@.data_map_address == blake3_hash(encoded_data_map(map@))
                &&& made@.chunks.contains_key(made@.data_map_address)
                &&& made@.chunks[made@.data_map_address] == encoded_data_map(map@)
            },
            map@.infos.len() <= u32::MAX ==> data_map_in(encoded_data_map(map@)) == Ok::<
                DataMapView,
                Seq<char>,
            >(map@),
    {
        let mut addressed: Vec<Addressed> = Vec::new();
        let mut i: usize = 0;
        assert(contents(chunks@).take(0) =~= Seq::<Seq<u8>>::empty());
        while i < chunks.len()
            invariant
                i <= chunks@.len(),
                addressed@.len() == i,
                indexed(addressed@) == stored(contents(chunks@).take(i as int)),
            decreases chunks.len() - i,
        {
            let ghost before = addressed@;
            let address = address_of(chunks[i].as_slice());
            let content = vstd::slice::slice_to_vec(chunks[i].as_slice());
            addressed.push(Addressed { address, content });
            proof {
                let all = contents(chunks@);
                assert(addressed@.drop_last() =~= before);
                assert(all.take(i + 1).drop_last() =~= all.take(i as int));
                assert(all.take(i + 1).last() == chunks@[i as int]@);
            }
            i += 1;
        }
        assert(contents(chunks@).take(chunks@.len() as int) =~= contents(chunks@));
        let serialized = match encode_data_map(map) {
            Some(serialized) => serialized,
            None => return Err(Error::new("failed to serialize the data map".to_owned())),
        };
        let address = address_of(serialized.as_slice());
        let ghost entry = Addressed { address, content: serialized };
        let source = FixtureSource::assemble(
            addressed,
            Addressed { address, content: serialized },
            plaintext_len,
            map.infos.len(),
        );
        proof {
            let all = contents(chunks@);
            assert(addressed@.push(entry).drop_last() =~= addressed@);
            assert(all.push(serialized@).drop_last() =~= all);
        }
        Ok(source)
    }

    /// Self-encrypt `content` and index every resulting chunk by its address.
    ///
    /// Content of less than three bytes is refused.
    pub fn new(content: Vec<u8>) -> (source: Result<FixtureSource, Error>)
        ensures
            match source {
                Ok(source) => content@.len() >= 3 && source@.serves(content@),
                Err(error) => content@.len() < 3 && error@ == unencrypted_message(too_small_text()),
            },
    {
        let plaintext_len = content.len();
        let encrypted = match encrypt(content) {
            Ok(encrypted) => encrypted,
            Err(text) => return Err(encryption_failed(text.as_str())),
        };
        let source = FixtureSource::of_sealed(plaintext_len, &encrypted.map, &encrypted.chunks);
        proof {
            let chunks = contents(encrypted.chunks@);
            assert(source->Ok_0@.made_from(content@, encrypted.map@, chunks));
        }
        source
    }

    /// Address of the chunk holding the serialized data map.
    pub fn data_map_address(&self) -> (address: [u8; ADDRESS_LEN])
        ensures
            address@ == self@.data_map_address,
    {
        self.data_map_address
    }

    /// Length of the content.
    pub fn plaintext_len(&self) -> (len: usize)
        ensures
            len == self@.plaintext_len,
    {
        self.plaintext_len
    }

    /// Number of chunks that the data map names.
    pub fn chunk_count(&self) -> (count: usize)
        ensures
            count == self@.chunk_count,
    {
        self.chunk_count
    }

    /// Every address this source can serve, each once and in no promised order.
    pub fn addresses(&self) -> (addresses: Vec<[u8; ADDRESS_LEN]>)
        ensures
            addresses@.map_values(|a: [u8; ADDRESS_LEN]| a@).no_duplicates(),
            addresses@.map_values(|a: [u8; ADDRESS_LEN]| a@).to_set() == self@.chunks.dom(),
    {
        self.chunks.addresses()
    }

    /// The bytes stored at an address, or `None` if nothing is there.
    pub fn get(&self, address: &[u8; ADDRESS_LEN]) -> (content: Option<Vec<u8>>)
        ensures
            match content {
                Some(content) => self@.chunks.contains_key(address@) && content@
                    == self@.chunks[address@],
                None => !self@.chunks.contains_key(address@),
            },
    {
        self.chunks.get(address)
    }
}

/// A file to write.
#[derive(Debug, PartialEq, Eq)]
pub struct DumpFile {
    pub name: String,
    pub content: Vec<u8>,
}

/// What dumping a source leaves behind: files to write, and a line to print.
#[derive(Debug, PartialEq, Eq)]
pub struct Dump {
    pub files: Vec<DumpFile>,
    pub line: String,
}

/// Whether files hold the chunks of a source, one for each address of a list.
pub open spec fn files_hold(
    files: Seq<DumpFile>,
    addresses: Seq<Seq<u8>>,
    chunks: Map<Seq<u8>, Seq<u8>>,
) -> bool {
    &&& files.len() == addresses.len()
    &&& forall|i: int|
        0 <= i < files.len() ==> (#[trigger] files[i]).name@ == hex_text(addresses[i])
            && files[i].content@ == chunks[addresses[i]]
}

/// Every chunk of a source in a file named by its hex address, and the address of the data map,
/// in hex, in a file of its own and on a line of its own.
#[verifier::spinoff_prover]
pub fn dump(fixture: &FixtureSource) -> (dump: Dump)
    ensures
        dump.files@.len() > 0,
        exists|addresses: Seq<Seq<u8>>|
            {
                &&& addresses.no_duplicates()
                &&& addresses.to_set() == fixture@.chunks.dom()
                &&& #[trigger] files_hold(dump.files@.drop_last(), addresses, fixture@.chunks)
            },
        dump.files@.last().name@ == "data-map-address"@,
        dump.files@.last().content@ == encode_utf8(hex_text(fixture@.data_map_address)),
        dump.line@ == hex_text(fixture@.data_map_address),
        forall|address: Seq<u8>| #[trigger]
            fixture@.chunks.contains_key(address) ==> exists|i: int|
                0 <= i < dump.files@.len() - 1 && (#[trigger] dump.files@[i]).name@ == hex_text(
                    address,
                ) && dump.files@[i].content@ == fixture@.chunks[address],
        exists|addresses: Seq<Seq<u8>>|
            {
                &&& #[trigger] addresses.no_duplicates()
                &&& addresses.to_set() == fixture@.chunks.dom()
                &&& dump.files@.len() == addresses.len() + 1
                &&& forall|i: int|
                    0 <= i < addresses.len() ==> (#[trigger] dump.files@[i]).name@ == hex_text(
                        addresses[i],
                    ) && dump.files@[i].content@ == fixture@.chunks[addresses[i]]
            },
{
    let addresses = fixture.addresses();
    let ghost names = addresses@.map_values(|a: [u8; ADDRESS_LEN]| a@);
    let mut files: Vec<DumpFile> = Vec::new();
    let mut i: usize = 0;
    while i < addresses.len()
        invariant
            i <= addresses@.len(),
            names == addresses@.map_values(|a: [u8; ADDRESS_LEN]| a@),
            names.to_set() == fixture@.chunks.dom(),
            files_hold(files@, names.take(i as int), fixture@.chunks),
        decreases addresses.len() - i,
    {
        proof {
            assert(names[i as int] == addresses@[i as int]@);
            assert(names.to_set().contains(names[i as int]));
        }
        if let Some(content) = fixture.get(&addresses[i]) {
            let name = hex(addresses[i].as_slice());
            files.push(DumpFile { name, content });
        }
        i += 1;
    }
    assert(names.take(names.len() as int) =~= names);
    let ghost chunk_files = files@;
    let line = hex(fixture.data_map_address.as_slice());
    let name = "data-map-address".to_owned();
    let content = line.as_str().as_bytes_vec();
    files.push(DumpFile { name, content });
    assert(files@.drop_last() =~= chunk_files);
    assert(files_hold(files@.drop_last(), names, fixture@.chunks));
    proof {
        assert forall|address: Seq<u8>| #[trigger]
            fixture@.chunks.contains_key(address) implies exists|i: int|
            0 <= i < files@.len() - 1 && (#[trigger] files@[i]).name@ == hex_text(address)
                && files@[i].content@ == fixture@.chunks[address] by {
            assert(names.to_set().contains(address));
            let i = choose|i: int| 0 <= i < names.len() && names[i] == address;
            assert(files@[i] == files@.drop_last()[i]);
        }
        assert(names.no_duplicates());
        assert forall|i: int| 0 <= i < names.len() implies (#[trigger] files@[i]).name@ == hex_text(
            names[i],
        ) && files@[i].content@ == fixture@.chunks[names[i]] by {
            assert(files@[i] == files@.drop_last()[i]);
        }
        assert(names.to_set() == fixture@.chunks.dom());
        assert(files@.len() == names.len() + 1);
    }
    Dump { files, line }
}

} // verus!
