//! The bookkeeping of a retrieval: which chunks are needed, held and in which order.
//!
//! A [`Progress`] takes the outcome of every check and every decryption as an argument. It
//! believes what it is told: [`Retrieval`](crate::retrieval::Retrieval) holds one and tells it
//! only what was checked.

use crate::address::{hex, ADDRESS_LEN};
use crate::data_map::DataMap;
use crate::error::Error;
use crate::store::ChunkStore;
use crate::text::join;
use vstd::prelude::*;

verus! {

use crate::address::hex_text;
use crate::cipher::contents;
use crate::data_map::DataMapView;

/// A byte string cut into records of the length of an address.
pub open spec fn records(bytes: Seq<u8>) -> Seq<Seq<u8>> {
    Seq::new(
        bytes.len() / (ADDRESS_LEN as nat),
        |i: int| bytes.subrange(ADDRESS_LEN * i, ADDRESS_LEN * i + ADDRESS_LEN),
    )
}

/// The value of a [`Progress`].
pub struct ProgressView {
    /// The data map being worked on: first the one under the address, later its root.
    pub map: DataMapView,
    /// Whether `map` is the root map.
    pub root_resolved: bool,
    /// The chunks held, by address.
    pub held: Map<Seq<u8>, Seq<u8>>,
}

impl ProgressView {
    /// The state in which a data map was just accepted.
    pub open spec fn started(map: DataMapView) -> ProgressView {
        ProgressView { map, root_resolved: map.child is None, held: Map::empty() }
    }

    /// The state after a chunk was accepted.
    pub open spec fn supplied(self, address: Seq<u8>, chunk: Seq<u8>) -> ProgressView {
        ProgressView { held: self.held.insert(address, chunk), ..self }
    }

    /// The state after the root map was found.
    pub open spec fn resolved(self, root: DataMapView) -> ProgressView {
        ProgressView { map: root, root_resolved: true, ..self }
    }

    /// The addresses of the current map whose chunks are not held, in the order of the map.
    pub open spec fn missing(self) -> Seq<Seq<u8>> {
        self.map.addresses().filter(|address: Seq<u8>| !self.held.contains_key(address))
    }

    /// The missing addresses one after another.
    pub open spec fn required(self) -> Seq<u8> {
        self.missing().flatten()
    }

    /// The addresses of the current map whose chunks are held, in the order of the map.
    pub open spec fn present(self) -> Seq<Seq<u8>> {
        self.map.addresses().filter(|address: Seq<u8>| self.held.contains_key(address))
    }

    /// Whether every chunk of the current map is held.
    pub open spec fn all_held(self) -> bool {
        forall|i: int|
            0 <= i < self.map.infos.len() ==> self.held.contains_key(
                (#[trigger] self.map.infos[i]).dst_hash@,
            )
    }

    /// Whether the wrapper chunks are all there and the root map is to be resolved next.
    pub open spec fn awaits_root(self) -> bool {
        !self.root_resolved && self.all_held()
    }

    /// Whether the content can be put together.
    pub open spec fn complete(self) -> bool {
        self.root_resolved && self.all_held()
    }

    /// The chunks of the current map, in its order.
    pub open spec fn chunks(self) -> Seq<Seq<u8>> {
        self.map.addresses().map_values(|address: Seq<u8>| self.held[address])
    }
}

/// Selecting from a sequence with one more element.
proof fn lemma_filter_push(s: Seq<Seq<u8>>, last: Seq<u8>, keep: spec_fn(Seq<u8>) -> bool)
    ensures
        s.push(last).filter(keep) == if keep(last) {
            s.filter(keep).push(last)
        } else {
            s.filter(keep)
        },
{
    reveal(Seq::filter);
    assert(s.push(last).drop_last() =~= s);
}

/// The message for a data map that does not hash to its address.
pub open spec fn rejected_map_message(text: Seq<char>) -> Seq<char> {
    "data map chunk failed verification: "@ + text
}

/// The message for bytes that are not a data map.
pub open spec fn not_a_map_message(text: Seq<char>) -> Seq<char> {
    "address does not hold a data map (MessagePack decode failed: "@ + text + ")"@
}

/// The message for a chunk that was not accepted.
pub open spec fn rejected_chunk_message(address: Seq<u8>, text: Seq<char>) -> Seq<char> {
    "chunk "@ + hex_text(address) + " failed verification: "@ + text
}

/// The message for a root map that was not found.
pub open spec fn unresolved_message(text: Seq<char>) -> Seq<char> {
    "failed to resolve the root data map: "@ + text
}

/// The message for content that was asked for too early.
pub open spec fn incomplete_message() -> Seq<char> {
    "cannot finish: chunks are still missing or the root map is unresolved"@
}

/// The message for content that did not decrypt.
pub open spec fn undecrypted_message(text: Seq<char>) -> Seq<char> {
    "decryption failed: "@ + text
}

/// How far a retrieval has come.
pub struct Progress {
    map: DataMap,
    root_resolved: bool,
    cache: ChunkStore,
}

impl View for Progress {
    type V = ProgressView;

    closed spec fn view(&self) -> ProgressView {
        ProgressView { map: self.map@, root_resolved: self.root_resolved, held: self.cache@ }
    }
}

impl Progress {
    /// Start with what decoding the data map gave.
    pub fn start(decoded: Result<DataMap, String>) -> (progress: Result<Progress, Error>)
        ensures
            match decoded {
                Ok(map) => {
                    &&& progress matches Ok(progress)
                    &&& progress@ == ProgressView::started(map@)
                    &&& progress@.map == map@
                    &&& progress@.root_resolved == (map.child is None)
                    &&& forall|other: Seq<u8>| !progress@.held.contains_key(other)
                },
                Err(text) => progress matches Err(error) && error@ == not_a_map_message(text@),
            },
    {
        match decoded {
            Ok(map) => {
                let root_resolved = !map.is_child();
                Ok(Progress { map, root_resolved, cache: ChunkStore::new() })
            },
            Err(text) => {
                let mut message = join(
                    "address does not hold a data map (MessagePack decode failed: ",
                    text.as_str(),
                );
                message.append(")");
                Err(Error::new(message))
            },
        }
    }

    /// The current map.
    pub fn map(&self) -> (map: &DataMap)
        ensures
            map@ == self@.map,
    {
        &self.map
    }

    /// The chunks held.
    pub fn held(&self) -> (held: &ChunkStore)
        ensures
            held@ == self@.held,
    {
        &self.cache
    }

    /// Addresses still needed, concatenated as 32-byte records.
    pub fn required_addresses(&self) -> (addresses: Vec<u8>)
        ensures
            addresses@ == self@.required(),
            addresses@.len() == ADDRESS_LEN * self@.missing().len(),
            records(addresses@) == self@.missing(),
            forall|i: int|
                0 <= i < self@.missing().len() ==> addresses@.subrange(32 * i, 32 * i + 32)
                    == #[trigger] self@.missing()[i],
            addresses@.len() == 0 <==> (forall|i: int|
                0 <= i < self@.map.infos.len() ==> self@.held.contains_key(
                    (#[trigger] self@.map.infos[i]).dst_hash@,
                )),
    {
        proof {
            lemma_records(self@);
        }
        let ghost all = self@.map.addresses();
        let ghost keep = |address: Seq<u8>| !self@.held.contains_key(address);
        let mut out: Vec<u8> = Vec::new();
        let mut i: usize = 0;
        proof {
            reveal(Seq::filter);
            assert(all.take(0) =~= Seq::<Seq<u8>>::empty());
        }
        while i < self.map.infos.len()
            invariant
                i <= self.map.infos@.len(),
                all == self@.map.addresses(),
                keep == (|address: Seq<u8>| !self@.held.contains_key(address)),
                out@ == all.take(i as int).filter(keep).flatten(),
                out@.len() == ADDRESS_LEN * all.take(i as int).filter(keep).len(),
            decreases self.map.infos.len() - i,
        {
            let ghost next = self.map.infos@[i as int].dst_hash@;
            proof {
                assert(self@.map.infos[i as int] == self.map.infos@[i as int]@);
                assert(all[i as int] == next);
                assert(all.take(i + 1) =~= all.take(i as int).push(next));
                lemma_filter_push(all.take(i as int), next, keep);
            }
            if !self.cache.contains(&self.map.infos[i].dst_hash) {
                out.extend_from_slice(self.map.infos[i].dst_hash.as_slice());
                proof {
                    all.take(i as int).filter(keep).lemma_flatten_push(next);
                    assert(out@ =~= all.take(i as int).filter(keep).flatten() + next);
                }
            }
            i += 1;
        }
        assert(all.take(all.len() as int) =~= all);
        proof {
            lemma_missing_empty(self@);
            assert forall|i: int| 0 <= i < self@.missing().len() implies out@.subrange(
                32 * i,
                32 * i + 32,
            ) == #[trigger] self@.missing()[i] by {
                assert(records(out@)[i] == self@.missing()[i]);
            }
        }
        out
    }

    /// Take a chunk for an address, given what checking it gave.
    pub fn supply(
        &mut self,
        address: &[u8; ADDRESS_LEN],
        verified: Result<Vec<u8>, String>,
    ) -> (accepted: Result<(), Error>)
        ensures
            match verified {
                Ok(chunk) => {
                    &&& accepted is Ok
                    &&& final(self)@ == old(self)@.supplied(address@, chunk@)
                    &&& final(self)@.held == old(self)@.held.insert(address@, chunk@)
                    &&& final(self)@.map == old(self)@.map
                    &&& final(self)@.root_resolved == old(self)@.root_resolved
                },
                Err(text) => {
                    &&& accepted matches Err(error)
                    &&& error@ == rejected_chunk_message(address@, text@)
                    &&& final(self)@ == old(self)@
                },
            },
    {
        match verified {
            Ok(chunk) => {
                self.cache.insert(*address, chunk);
                Ok(())
            },
            Err(text) => {
                let digits = hex(address.as_slice());
                let mut message = join("chunk ", digits.as_str());
                message.append(" failed verification: ");
                message.append(text.as_str());
                Err(Error::new(message))
            },
        }
    }

    /// Whether every chunk of the current map is held.
    fn all_held(&self) -> (all: bool)
        ensures
            all == self@.all_held(),
    {
        let mut i: usize = 0;
        while i < self.map.infos.len()
            invariant
                i <= self.map.infos@.len(),
                forall|j: int|
                    0 <= j < i ==> self@.held.contains_key(
                        (#[trigger] self@.map.infos[j]).dst_hash@,
                    ),
            decreases self.map.infos.len() - i,
        {
            assert(self@.map.infos[i as int] == self.map.infos@[i as int]@);
            if !self.cache.contains(&self.map.infos[i].dst_hash) {
                return false;
            }
            i += 1;
        }
        true
    }

    /// Whether the wrapper chunks are all there and the root map is to be resolved next.
    pub fn awaits_root(&self) -> (awaits: bool)
        ensures
            awaits == self@.awaits_root(),
            awaits <==> !self@.root_resolved && forall|i: int|
                0 <= i < self@.map.infos.len() ==> self@.held.contains_key(
                    (#[trigger] self@.map.infos[i]).dst_hash@,
                ),
    {
        !self.root_resolved && self.all_held()
    }

    /// Go on with what resolving the root map gave.
    pub fn resolve(&mut self, root: Result<DataMap, String>) -> (resolved: Result<(), Error>)
        ensures
            match root {
                Ok(root) => {
                    &&& resolved is Ok
                    &&& final(self)@ == old(self)@.resolved(root@)
                    &&& final(self)@.map == root@
                    &&& final(self)@.root_resolved
                    &&& final(self)@.held == old(self)@.held
                },
                Err(text) => {
                    &&& resolved matches Err(error)
                    &&& error@ == unresolved_message(text@)
                    &&& final(self)@ == old(self)@
                },
            },
    {
        match root {
            Ok(root) => {
                self.map = root;
                self.root_resolved = true;
                Ok(())
            },
            Err(text) => Err(
                Error::new(join("failed to resolve the root data map: ", text.as_str())),
            ),
        }
    }

    /// True once the root map is resolved and every content chunk is present.
    pub fn is_complete(&self) -> (complete: bool)
        ensures
            complete == self@.complete(),
            complete <==> self@.root_resolved && forall|i: int|
                0 <= i < self@.map.infos.len() ==> self@.held.contains_key(
                    (#[trigger] self@.map.infos[i]).dst_hash@,
                ),
    {
        self.root_resolved && self.all_held()
    }

    /// Number of chunks the current map references.
    pub fn chunk_count(&self) -> (count: usize)
        ensures
            count == self@.map.infos.len(),
    {
        self.map.infos.len()
    }

    /// Number of chunks of the current map that are held.
    pub fn chunks_held(&self) -> (count: usize)
        ensures
            count == self@.present().len(),
    {
        let ghost all = self@.map.addresses();
        let ghost keep = |address: Seq<u8>| self@.held.contains_key(address);
        let mut count: usize = 0;
        let mut i: usize = 0;
        proof {
            reveal(Seq::filter);
            assert(all.take(0) =~= Seq::<Seq<u8>>::empty());
        }
        while i < self.map.infos.len()
            invariant
                i <= self.map.infos@.len(),
                all == self@.map.addresses(),
                keep == (|address: Seq<u8>| self@.held.contains_key(address)),
                count <= i,
                count == all.take(i as int).filter(keep).len(),
            decreases self.map.infos.len() - i,
        {
            proof {
                let next = self.map.infos@[i as int].dst_hash@;
                assert(self@.map.infos[i as int] == self.map.infos@[i as int]@);
                assert(all[i as int] == next);
                assert(all.take(i + 1) =~= all.take(i as int).push(next));
                lemma_filter_push(all.take(i as int), next, keep);
            }
            if self.cache.contains(&self.map.infos[i].dst_hash) {
                count += 1;
            }
            i += 1;
        }
        assert(all.take(all.len() as int) =~= all);
        count
    }

    /// The chunks to decrypt, in the order of the root map.
    pub fn gather(&self) -> (chunks: Result<Vec<Vec<u8>>, Error>)
        ensures
            match chunks {
                Ok(chunks) => {
                    &&& self@.complete()
                    &&& contents(chunks@) == self@.chunks()
                    &&& chunks@.len() == self@.map.infos.len()
                    &&& forall|i: int|
                        0 <= i < chunks@.len() ==> (#[trigger] chunks@[i])@
                            == self@.held[self@.map.infos[i].dst_hash@]
                },
                Err(error) => !self@.complete() && error@ == incomplete_message(),
            },
    {
        if !self.is_complete() {
            return Err(
                Error::new(
                    "cannot finish: chunks are still missing or the root map is unresolved".to_owned(),
                ),
            );
        }
        let mut chunks: Vec<Vec<u8>> = Vec::new();
        let mut i: usize = 0;
        while i < self.map.infos.len()
            invariant
                i <= self.map.infos@.len(),
                self@.all_held(),
                contents(chunks@) == self@.chunks().take(i as int),
            decreases self.map.infos.len() - i,
        {
            assert(self@.map.infos[i as int] == self.map.infos@[i as int]@);
            assert(self@.held.contains_key(self@.map.infos[i as int].dst_hash@));
            if let Some(chunk) = self.cache.get(&self.map.infos[i].dst_hash) {
                let ghost before = chunks@;
                chunks.push(chunk);
                assert(contents(chunks@) =~= contents(before).push(chunk@));
                assert(self@.chunks()[i as int] == chunk@);
                assert(contents(chunks@) =~= self@.chunks().take(i + 1));
            }
            i += 1;
        }
        assert(self@.chunks().take(self@.chunks().len() as int) =~= self@.chunks());
        assert forall|i: int| 0 <= i < chunks@.len() implies (#[trigger] chunks@[i])@
            == self@.held[self@.map.infos[i].dst_hash@] by {
            assert(contents(chunks@)[i] == self@.chunks()[i]);
            assert(self@.map.addresses()[i] == self@.map.infos[i].dst_hash@);
        }
        Ok(chunks)
    }
}

/// The chunk that holds the data map, given what checking it gave.
pub fn admitted(verified: Result<Vec<u8>, String>) -> (chunk: Result<Vec<u8>, Error>)
    ensures
        match verified {
            Ok(bytes) => chunk matches Ok(chunk) && chunk@ == bytes@,
            Err(text) => chunk matches Err(error) && error@ == rejected_map_message(text@),
        },
{
    match verified {
        Ok(chunk) => Ok(chunk),
        Err(text) => Err(Error::new(join("data map chunk failed verification: ", text.as_str()))),
    }
}

/// The content, given what decrypting it gave.
pub fn delivered(decrypted: Result<Vec<u8>, String>) -> (content: Result<Vec<u8>, Error>)
    ensures
        match decrypted {
            Ok(bytes) => content matches Ok(content) && content@ == bytes@,
            Err(text) => content matches Err(error) && error@ == undecrypted_message(text@),
        },
{
    match decrypted {
        Ok(content) => Ok(content),
        Err(text) => Err(Error::new(join("decryption failed: ", text.as_str()))),
    }
}

/// Addresses one after another are cut into the same addresses again.
proof fn lemma_flatten_records(addresses: Seq<Seq<u8>>)
    requires
        forall|i: int| 0 <= i < addresses.len() ==> (#[trigger] addresses[i]).len() == ADDRESS_LEN,
    ensures
        addresses.flatten().len() == ADDRESS_LEN * addresses.len(),
        records(addresses.flatten()) == addresses,
    decreases addresses.len(),
{
    let bytes = addresses.flatten();
    if addresses.len() == 0 {
        assert(records(bytes) =~= addresses);
    } else {
        let rest = addresses.drop_last();
        let last = addresses.last();
        lemma_flatten_records(rest);
        rest.lemma_flatten_push(last);
        assert(rest.push(last) =~= addresses);
        assert(bytes == rest.flatten() + last);
        assert forall|i: int| 0 <= i < addresses.len() implies #[trigger] bytes.subrange(
            ADDRESS_LEN * i,
            ADDRESS_LEN * i + ADDRESS_LEN,
        ) == addresses[i] by {
            if i < rest.len() {
                assert(records(rest.flatten())[i] == rest[i]);
                assert(bytes.subrange(ADDRESS_LEN * i, ADDRESS_LEN * i + ADDRESS_LEN)
                    =~= rest.flatten().subrange(ADDRESS_LEN * i, ADDRESS_LEN * i + ADDRESS_LEN));
            } else {
                assert(bytes.subrange(ADDRESS_LEN * i, ADDRESS_LEN * i + ADDRESS_LEN) =~= last);
            }
        }
        assert(records(bytes) =~= addresses);
    }
}

/// What is missing is what the map names and is not held.
pub proof fn lemma_missing(state: ProgressView)
    ensures
        forall|address: Seq<u8>| #[trigger]
            state.missing().contains(address) <==> state.map.addresses().contains(address)
                && !state.held.contains_key(address),
{
    let all = state.map.addresses();
    let keep = |address: Seq<u8>| !state.held.contains_key(address);
    assert forall|address: Seq<u8>| #[trigger]
        state.missing().contains(address) <==> all.contains(address) && !state.held.contains_key(
            address,
        ) by {
        if state.missing().contains(address) {
            let i = choose|i: int| 0 <= i < all.filter(keep).len() && all.filter(keep)[i] == address;
            all.lemma_filter_pred(keep, i);
            all.lemma_filter_contains_rev(keep, address);
        }
        if all.contains(address) && !state.held.contains_key(address) {
            let i = choose|i: int| 0 <= i < all.len() && all[i] == address;
            assert(keep(all[i]));
            all.lemma_filter_contains(keep, i);
        }
    }
}

/// The records of what is required are the missing addresses.
pub proof fn lemma_records(state: ProgressView)
    ensures
        forall|i: int|
            0 <= i < state.missing().len() ==> (#[trigger] state.missing()[i]).len() == ADDRESS_LEN,
        state.required().len() == ADDRESS_LEN * state.missing().len(),
        records(state.required()) == state.missing(),
{
    let all = state.map.addresses();
    lemma_missing(state);
    assert forall|i: int| 0 <= i < state.missing().len() implies (#[trigger] state.missing()[i]).len()
        == ADDRESS_LEN by {
        assert(state.missing().contains(state.missing()[i]));
        let j = choose|j: int| 0 <= j < all.len() && all[j] == state.missing()[i];
        assert(all[j] == state.map.infos[j].dst_hash@);
    }
    lemma_flatten_records(state.missing());
}

/// Nothing is missing exactly if every chunk is held.
pub proof fn lemma_missing_empty(state: ProgressView)
    ensures
        state.missing().len() == 0 <==> state.all_held(),
{
    let addresses = state.map.addresses();
    let keep = |address: Seq<u8>| !state.held.contains_key(address);
    if state.all_held() {
        assert forall|i: int| 0 <= i < addresses.len() implies !keep(#[trigger] addresses[i]) by {
            assert(state.held.contains_key(state.map.infos[i].dst_hash@));
        }
        addresses.lemma_all_neg_filter_empty(keep);
    } else {
        let i = choose|i: int|
            0 <= i < state.map.infos.len() && !state.held.contains_key(
                (#[trigger] state.map.infos[i]).dst_hash@,
            );
        assert(keep(addresses[i]));
        addresses.lemma_filter_contains(keep, i);
        assert(addresses.filter(keep).contains(addresses[i]));
    }
}

} // verus!
