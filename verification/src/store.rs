//! A table of chunks, keyed by content address.

use crate::address::ADDRESS_LEN;
use vstd::prelude::*;
use vstd::slice::slice_to_vec;

verus! {

/// One chunk under its address.
struct Entry {
    address: [u8; ADDRESS_LEN],
    content: Vec<u8>,
}

/// Whether no two entries have the same address.
spec fn distinct(entries: Seq<Entry>) -> bool {
    forall|i: int, j: int|
        0 <= i < j < entries.len() ==> #[trigger] entries[i].address@ != #[trigger] entries[j].address@
}

/// The table that a list of entries stands for.
spec fn table(entries: Seq<Entry>) -> Map<Seq<u8>, Seq<u8>>
    decreases entries.len(),
{
    if entries.len() == 0 {
        Map::empty()
    } else {
        table(entries.drop_last()).insert(entries.last().address@, entries.last().content@)
    }
}

/// The table holds exactly the addresses of the entries, each with its content.
proof fn lemma_table(entries: Seq<Entry>)
    requires
        distinct(entries),
    ensures
        forall|i: int|
            0 <= i < entries.len() ==> table(entries).contains_key(#[trigger] entries[i].address@)
                && table(entries)[entries[i].address@] == entries[i].content@,
        forall|address: Seq<u8>| #[trigger]
            table(entries).contains_key(address) ==> exists|i: int|
                0 <= i < entries.len() && #[trigger] entries[i].address@ == address,
    decreases entries.len(),
{
    if entries.len() > 0 {
        let rest = entries.drop_last();
        lemma_table(rest);
        assert forall|i: int| 0 <= i < entries.len() implies table(entries).contains_key(
            #[trigger] entries[i].address@,
        ) && table(entries)[entries[i].address@] == entries[i].content@ by {
            if i < rest.len() {
                assert(rest[i] == entries[i]);
            }
        }
        assert forall|address: Seq<u8>| #[trigger] table(entries).contains_key(address) implies exists|
            i: int,
        |
            0 <= i < entries.len() && #[trigger] entries[i].address@ == address by {
            if address == entries.last().address@ {
                assert(entries[entries.len() - 1].address@ == address);
            } else {
                assert(table(rest).contains_key(address));
                let i = choose|i: int|
                    0 <= i < rest.len() && #[trigger] rest[i].address@ == address;
                assert(entries[i].address@ == address);
            }
        }
    }
}

/// Whether two addresses are the same.
fn same_address(a: &[u8; ADDRESS_LEN], b: &[u8; ADDRESS_LEN]) -> (same: bool)
    ensures
        same == (a@ == b@),
{
    let mut i: usize = 0;
    while i < ADDRESS_LEN
        invariant
            i <= ADDRESS_LEN,
            forall|j: int| 0 <= j < i ==> a@[j] == b@[j],
        decreases ADDRESS_LEN - i,
    {
        if a[i] != b[i] {
            assert(a@[i as int] != b@[i as int]);
            return false;
        }
        i += 1;
    }
    assert(a@ =~= b@);
    true
}

/// Chunks by content address. Each address occurs once.
pub struct ChunkStore {
    entries: Vec<Entry>,
}

impl View for ChunkStore {
    type V = Map<Seq<u8>, Seq<u8>>;

    closed spec fn view(&self) -> Map<Seq<u8>, Seq<u8>> {
        table(self.entries@)
    }
}

impl ChunkStore {
    #[verifier::type_invariant]
    spec fn inv(self) -> bool {
        distinct(self.entries@)
    }

    /// A store without chunks.
    pub fn new() -> (store: ChunkStore)
        ensures
            store@ == Map::<Seq<u8>, Seq<u8>>::empty(),
    {
        ChunkStore { entries: Vec::new() }
    }

    /// Where the entry of an address stands.
    fn position(&self, address: &[u8; ADDRESS_LEN]) -> (position: Option<usize>)
        ensures
            match position {
                Some(i) => {
                    &&& i < self.entries@.len()
                    &&& self.entries@[i as int].address@ == address@
                    &&& self@.contains_key(address@)
                    &&& self@[address@] == self.entries@[i as int].content@
                },
                None => {
                    &&& !self@.contains_key(address@)
                    &&& forall|j: int|
                        0 <= j < self.entries@.len() ==> #[trigger] self.entries@[j].address@
                            != address@
                },
            },
    {
        proof {
            use_type_invariant(self);
            lemma_table(self.entries@);
        }
        let mut i: usize = 0;
        while i < self.entries.len()
            invariant
                i <= self.entries@.len(),
                forall|j: int|
                    0 <= j < i ==> #[trigger] self.entries@[j].address@ != address@,
            decreases self.entries.len() - i,
        {
            if same_address(&self.entries[i].address, address) {
                proof {
                    use_type_invariant(self);
                    lemma_table(self.entries@);
                }
                return Some(i);
            }
            i += 1;
        }
        None
    }

    /// Whether a chunk is stored under an address.
    pub fn contains(&self, address: &[u8; ADDRESS_LEN]) -> (held: bool)
        ensures
            held == self@.contains_key(address@),
    {
        self.position(address).is_some()
    }

    /// A copy of the chunk stored under an address.
    pub fn get(&self, address: &[u8; ADDRESS_LEN]) -> (content: Option<Vec<u8>>)
        ensures
            match content {
                Some(content) => self@.contains_key(address@) && content@ == self@[address@],
                None => !self@.contains_key(address@),
            },
    {
        match self.position(address) {
            Some(i) => Some(slice_to_vec(self.entries[i].content.as_slice())),
            None => None,
        }
    }

    /// Store a chunk under an address, in place of the one that was there.
    pub fn insert(&mut self, address: [u8; ADDRESS_LEN], content: Vec<u8>)
        ensures
            final(self)@ == old(self)@.insert(address@, content@),
    {
        proof {
            use_type_invariant(&*self);
        }
        let ghost before = self.entries@;
        let position = self.position(&address);
        let mut entries: Vec<Entry> = Vec::new();
        std::mem::swap(&mut entries, &mut self.entries);
        let entry = Entry { address, content };
        match position {
            Some(i) => {
                entries.set(i, entry);
                proof {
                    assert(distinct(entries@));
                    lemma_table(before);
                    lemma_table(entries@);
                    assert forall|a: Seq<u8>| #[trigger]
                        table(entries@).contains_key(a) == table(before).insert(
                            address@,
                            content@,
                        ).contains_key(a) && (table(entries@).contains_key(a) ==> table(entries@)[a]
                            == table(before).insert(address@, content@)[a]) by {
                        if table(entries@).contains_key(a) {
                            let j = choose|j: int|
                                0 <= j < entries@.len() && #[trigger] entries@[j].address@ == a;
                            assert(before[j].address@ == a);
                        }
                        if table(before).contains_key(a) {
                            let j = choose|j: int|
                                0 <= j < before.len() && #[trigger] before[j].address@ == a;
                            assert(entries@[j].address@ == a);
                        }
                        assert(entries@[i as int].address@ == address@);
                    }
                    assert(table(entries@) =~= table(before).insert(address@, content@));
                }
            },
            None => {
                entries.push(entry);
                proof {
                    assert(entries@.drop_last() =~= before);
                }
            },
        }
        self.entries = entries;
    }

    /// Every address under which a chunk is stored, in no promised order.
    pub fn addresses(&self) -> (addresses: Vec<[u8; ADDRESS_LEN]>)
        ensures
            addresses@.map_values(|a: [u8; ADDRESS_LEN]| a@).no_duplicates(),
            addresses@.map_values(|a: [u8; ADDRESS_LEN]| a@).to_set() == self@.dom(),
    {
        proof {
            use_type_invariant(self);
            lemma_table(self.entries@);
        }
        let mut out: Vec<[u8; ADDRESS_LEN]> = Vec::new();
        let mut i: usize = 0;
        while i < self.entries.len()
            invariant
                i <= self.entries@.len(),
                out@.len() == i,
                forall|j: int| 0 <= j < i ==> #[trigger] out@[j]@ == self.entries@[j].address@,
            decreases self.entries.len() - i,
        {
            out.push(self.entries[i].address);
            i += 1;
        }
        proof {
            let seen = out@.map_values(|a: [u8; ADDRESS_LEN]| a@);
            assert forall|a: Seq<u8>| #[trigger]
                seen.to_set().contains(a) == self@.dom().contains(a) by {
                if self@.dom().contains(a) {
                    let j = choose|j: int|
                        0 <= j < self.entries@.len() && #[trigger] self.entries@[j].address@ == a;
                    assert(out@[j]@ == a);
                    assert(seen[j] == a);
                }
                if seen.to_set().contains(a) {
                    let j = choose|j: int| 0 <= j < seen.len() && seen[j] == a;
                    assert(out@[j]@ == self.entries@[j].address@);
                }
            }
            assert(seen.to_set() =~= self@.dom());
            assert forall|i: int, j: int|
                0 <= i < seen.len() && 0 <= j < seen.len() && i != j implies seen[i] != seen[j] by {
                assert(out@[i]@ == self.entries@[i].address@);
                assert(out@[j]@ == self.entries@[j].address@);
            }
        }
        out
    }
}

} // verus!
