//! Retrieval of one piece of content, with every byte checked against its address.
//!
//! Fetching a chunk is asynchronous, and resolving and decrypting are not. So a [`Retrieval`]
//! does not fetch: it tells which addresses it needs, takes the bytes whenever they arrive, and
//! computes over what it holds.
//!
//! A content address is the BLAKE3 hash of the content. [`Retrieval::begin`] checks the data map
//! against its address and [`Retrieval::supply`] checks every chunk, so whoever serves the bytes
//! can refuse to serve and cannot lie.

use crate::address::{parse_address, ADDRESS_LEN};
use crate::cipher::{decrypt, resolve_root, verify_chunk};
use crate::data_map::decode_data_map;
use crate::error::Error;
use crate::progress::{admitted, delivered, Progress};
use vstd::prelude::*;

verus! {

use crate::address::blake3_hash;
use crate::cipher::{content_of, contents, decrypted_content, mismatch_text, root_data_map, root_of};
use crate::data_map::{data_map_in, decoded_data_map, DataMapView};
use crate::progress::{incomplete_message, lemma_missing_empty, lemma_records, not_a_map_message, records, rejected_chunk_message, rejected_map_message, undecrypted_message, unresolved_message, ProgressView};
use crate::text::begins_with;

/// How a retrieval came to its data map.
pub struct History {
    /// The address that the retrieval was begun with.
    pub address: Seq<u8>,
    /// The bytes that were accepted for that address.
    pub chunk: Seq<u8>,
    /// The chunks that were held when the root map was resolved.
    pub resolved_with: Map<Seq<u8>, Seq<u8>>,
}

/// The value of a [`Retrieval`].
pub struct RetrievalView {
    pub progress: ProgressView,
    pub history: History,
}

/// Whether every chunk of a table stands under its own hash.
pub open spec fn authentic(chunks: Map<Seq<u8>, Seq<u8>>) -> bool {
    forall|address: Seq<u8>| #[trigger]
        chunks.contains_key(address) ==> blake3_hash(chunks[address]) == address
}

impl RetrievalView {
    /// The state after the data map at an address was accepted.
    pub open spec fn begun(address: Seq<u8>, chunk: Seq<u8>, map: DataMapView) -> RetrievalView {
        RetrievalView {
            progress: ProgressView::started(map),
            history: History { address, chunk, resolved_with: Map::empty() },
        }
    }

    /// The state after a chunk was accepted.
    pub open spec fn supplied(self, address: Seq<u8>, chunk: Seq<u8>) -> RetrievalView {
        RetrievalView { progress: self.progress.supplied(address, chunk), ..self }
    }

    /// The state after the root map was found.
    pub open spec fn resolved(self, root: DataMapView) -> RetrievalView {
        RetrievalView {
            progress: self.progress.resolved(root),
            history: History { resolved_with: self.progress.held, ..self.history },
        }
    }

    /// What the chunks held lead to where the root map is to be resolved.
    pub open spec fn root(self) -> Option<DataMapView> {
        root_of(self.progress.map, self.progress.held)
    }

    /// The content, where the retrieval is complete and the chunks decrypt.
    pub open spec fn plaintext(self) -> Option<Seq<u8>> {
        if self.progress.complete() {
            content_of(self.progress.map, self.progress.chunks())
        } else {
            None
        }
    }

    /// What holds of every retrieval: all it holds was checked against its address, and its map
    /// is the one under the address that it was begun with, or the root that this one leads to.
    pub open spec fn wf(self) -> bool {
        &&& self.progress.root_resolved == (self.progress.map.child is None)
        &&& authentic(self.progress.held)
        &&& authentic(self.history.resolved_with)
        &&& blake3_hash(self.history.chunk) == self.history.address
        &&& data_map_in(self.history.chunk) is Ok
        &&& ({
            let stored = data_map_in(self.history.chunk)->Ok_0;
            if self.progress.root_resolved && stored.child is Some {
                forall|more: Map<Seq<u8>, Seq<u8>>|
                    self.history.resolved_with.submap_of(more) ==> #[trigger] root_of(stored, more)
                        == Some(self.progress.map)
            } else {
                self.progress.map == stored
            }
        })
    }
}

/// An in-progress retrieval of one piece of content.
pub struct Retrieval {
    progress: Progress,
    history: Ghost<History>,
}

impl View for Retrieval {
    type V = RetrievalView;

    closed spec fn view(&self) -> RetrievalView {
        RetrievalView { progress: self.progress@, history: self.history@ }
    }
}

impl Retrieval {
    /// Start from the chunk stored at a public address.
    ///
    /// `bytes` must be the chunk stored at `address`; it is verified against that address before
    /// being parsed. Errors if verification fails or the bytes are not a MessagePack-encoded data
    /// map.
    pub fn begin(address: &[u8], bytes: &[u8]) -> (retrieval: Result<Retrieval, Error>)
        ensures
            match retrieval {
                Ok(retrieval) => {
                    &&& address@.len() == ADDRESS_LEN
                    &&& blake3_hash(bytes@) == address@
                    &&& data_map_in(bytes@) matches Ok(map)
                    &&& retrieval@ == RetrievalView::begun(address@, bytes@, map)
                    &&& retrieval@.wf()
                    &&& decoded_data_map(bytes@, usize::BITS as nat) == Ok::<
                        DataMapView,
                        Seq<char>,
                    >(retrieval@.progress.map)
                    &&& retrieval@.progress.root_resolved == (retrieval@.progress.map.child is None)
                    &&& forall|other: Seq<u8>| !retrieval@.progress.held.contains_key(other)
                },
                Err(error) => {
                    ||| address@.len() != ADDRESS_LEN && error@ == "address must be 32 bytes"@
                    ||| address@.len() == ADDRESS_LEN && blake3_hash(bytes@) != address@ && error@
                        == rejected_map_message(mismatch_text(address@, blake3_hash(bytes@)))
                    ||| {
                        &&& address@.len() == ADDRESS_LEN
                        &&& blake3_hash(bytes@) == address@
                        &&& data_map_in(bytes@) matches Err(text)
                        &&& error@ == not_a_map_message(text)
                    }
                },
            },
    {
        let name = match parse_address(address) {
            Ok(name) => name,
            Err(error) => return Err(error),
        };
        let chunk = match admitted(verify_chunk(&name, bytes)) {
            Ok(chunk) => chunk,
            Err(error) => return Err(error),
        };
        match Progress::start(decode_data_map(chunk.as_slice())) {
            Ok(progress) => {
                let history = Ghost(
                    History {
                        address: address@,
                        chunk: bytes@,
                        resolved_with: Map::<Seq<u8>, Seq<u8>>::empty(),
                    },
                );
                Ok(Retrieval { progress, history })
            },
            Err(error) => Err(error),
        }
    }

    /// Addresses still needed, concatenated as 32-byte records.
    pub fn required_addresses(&self) -> (addresses: Vec<u8>)
        ensures
            addresses@ == self@.progress.required(),
            addresses@.len() == ADDRESS_LEN * self@.progress.missing().len(),
            records(addresses@) == self@.progress.missing(),
            forall|i: int|
                0 <= i < self@.progress.missing().len() ==> addresses@.subrange(32 * i, 32 * i + 32)
                    == #[trigger] self@.progress.missing()[i],
            addresses@.len() == 0 <==> (forall|i: int|
                0 <= i < self@.progress.map.infos.len() ==> self@.progress.held.contains_key(
                    (#[trigger] self@.progress.map.infos[i]).dst_hash@,
                )),
    {
        self.progress.required_addresses()
    }

    /// Accept the bytes for one address, verifying them first.
    ///
    /// Errors if the bytes do not hash to `address`, and then leaves the retrieval as it was.
    pub fn supply(&mut self, address: &[u8], bytes: &[u8]) -> (accepted: Result<(), Error>)
        ensures
            match accepted {
                Ok(()) => {
                    &&& address@.len() == ADDRESS_LEN
                    &&& blake3_hash(bytes@) == address@
                    &&& final(self)@ == old(self)@.supplied(address@, bytes@)
                    &&& final(self)@.progress.held == old(self)@.progress.held.insert(
                        address@,
                        bytes@,
                    )
                    &&& final(self)@.progress.map == old(self)@.progress.map
                    &&& final(self)@.progress.root_resolved == old(self)@.progress.root_resolved
                },
                Err(error) => {
                    &&& final(self)@ == old(self)@
                    &&& {
                        ||| address@.len() != ADDRESS_LEN && error@ == "address must be 32 bytes"@
                        ||| address@.len() == ADDRESS_LEN && blake3_hash(bytes@) != address@
                            && error@ == rejected_chunk_message(
                            address@,
                            mismatch_text(address@, blake3_hash(bytes@)),
                        )
                    }
                },
            },
            old(self)@.wf() ==> final(self)@.wf(),
    {
        let name = match parse_address(address) {
            Ok(name) => name,
            Err(error) => return Err(error),
        };
        let verified = verify_chunk(&name, bytes);
        self.progress.supply(&name, verified)
    }

    /// Make progress once every currently-required chunk has been supplied.
    ///
    /// For a large upload the fetched map is *shrunk*: its entries point at wrapper chunks rather
    /// than content chunks. Resolving it yields the root map, after which
    /// [`Retrieval::required_addresses`] reports the real content chunks. For a flat map this
    /// does nothing.
    ///
    /// The message of the error ends with the text that the failed resolution reported, of which
    /// nothing is promised.
    pub fn advance(&mut self) -> (advanced: Result<(), Error>)
        ensures
            if !old(self)@.progress.awaits_root() {
                advanced is Ok && final(self)@ == old(self)@
            } else {
                match advanced {
                    Ok(()) => {
                        &&& old(self)@.root() matches Some(root)
                        &&& final(self)@ == old(self)@.resolved(root)
                    },
                    Err(error) => {
                        &&& old(self)@.root() is None
                        &&& final(self)@ == old(self)@
                        &&& begins_with(error@, unresolved_message(Seq::empty()))
                    },
                }
            },
            old(self)@.wf() ==> final(self)@.wf(),
            old(self)@.progress.root_resolved || old(self)@.progress.required().len() > 0
                ==> advanced is Ok && final(self)@ == old(self)@,
            (exists|i: int|
                0 <= i < old(self)@.progress.map.infos.len() && !old(
                    self,
                )@.progress.held.contains_key(
                    (#[trigger] old(self)@.progress.map.infos[i]).dst_hash@,
                )) ==> advanced is Ok && final(self)@ == old(self)@,
            !old(self)@.progress.root_resolved && old(self)@.progress.required().len() == 0 ==> {
                let root = root_data_map(
                    old(self)@.progress.map,
                    old(self)@.progress.held,
                    usize::BITS as nat,
                );
                match advanced {
                    Ok(()) => {
                        &&& root == Some(final(self)@.progress.map)
                        &&& final(self)@.progress.root_resolved
                        &&& final(self)@.progress.held == old(self)@.progress.held
                    },
                    Err(error) => {
                        &&& root is None
                        &&& final(self)@ == old(self)@
                        &&& exists|rest: Seq<char>|
                            error@ == #[trigger] ("failed to resolve the root data map: "@ + rest)
                    },
                }
            },
    {
        proof {
            lemma_missing_empty(self@.progress);
            lemma_records(self@.progress);
        }
        if !self.progress.awaits_root() {
            return Ok(());
        }
        let ghost held = self.progress@.held;
        let root = resolve_root(self.progress.map(), self.progress.held());
        let resolved = self.progress.resolve(root);
        match resolved {
            Ok(()) => {
                self.history = Ghost(History { resolved_with: held, ..self.history@ });
                Ok(())
            },
            Err(error) => {
                assert(begins_with(error@, unresolved_message(Seq::empty()))) by {
                    let start = unresolved_message(Seq::empty());
                    assert(error@.take(start.len() as int) =~= start);
                }
                Err(error)
            },
        }
    }

    /// True once the root map is resolved and every content chunk is present.
    pub fn is_complete(&self) -> (complete: bool)
        ensures
            complete == self@.progress.complete(),
            complete <==> self@.progress.root_resolved && forall|i: int|
                0 <= i < self@.progress.map.infos.len() ==> self@.progress.held.contains_key(
                    (#[trigger] self@.progress.map.infos[i]).dst_hash@,
                ),
    {
        self.progress.is_complete()
    }

    /// Number of chunks the current map references.
    pub fn chunk_count(&self) -> (count: usize)
        ensures
            count == self@.progress.map.infos.len(),
    {
        self.progress.chunk_count()
    }

    /// Number of chunks already verified and held.
    pub fn chunks_held(&self) -> (count: usize)
        ensures
            count == self@.progress.present().len(),
    {
        self.progress.chunks_held()
    }

    /// Decrypt and reassemble the content.
    ///
    /// Errors unless [`Retrieval::is_complete`] is true. Where decryption fails, the message ends
    /// with the text that it reported, of which nothing is promised.
    pub fn finish(&self) -> (content: Result<Vec<u8>, Error>)
        ensures
            match content {
                Ok(content) => {
                    &&& self@.plaintext() == Some(content@)
                    &&& self@.progress.root_resolved
                    &&& self@.progress.required().len() == 0
                    &&& decrypted_content(
                        self@.progress.map,
                        Seq::new(
                            self@.progress.map.infos.len(),
                            |i: int| self@.progress.held[self@.progress.map.infos[i].dst_hash@],
                        ),
                        usize::BITS as nat,
                    ) == Some(content@)
                },
                Err(error) => {
                    &&& self@.plaintext() is None
                    &&& if self@.progress.complete() {
                        begins_with(error@, undecrypted_message(Seq::empty()))
                    } else {
                        error@ == incomplete_message()
                    }
                },
            },
    {
        let chunks = match self.progress.gather() {
            Ok(chunks) => chunks,
            Err(error) => return Err(error),
        };
        proof {
            lemma_missing_empty(self@.progress);
            lemma_records(self@.progress);
            let in_order = Seq::new(
                self@.progress.map.infos.len(),
                |i: int| self@.progress.held[self@.progress.map.infos[i].dst_hash@],
            );
            assert(contents(chunks@) =~= in_order);
        }
        match delivered(decrypt(self.progress.map(), chunks)) {
            Ok(content) => Ok(content),
            Err(error) => {
                assert(begins_with(error@, undecrypted_message(Seq::empty()))) by {
                    let start = undecrypted_message(Seq::empty());
                    assert(error@.take(start.len() as int) =~= start);
                }
                Err(error)
            },
        }
    }
}

} // verus!
