//! The block iterator: a transient, read-only cursor over one shared block,
//! with position-based seeks, key-based binary search and forward iteration.
use std::sync::Arc;

use vstd::prelude::*;

use crate::block::{
    encode, key_at, keys_sorted, lemma_entry_round_trip, lemma_lower_bound_at, lower_bound,
    offset_of, value_at, Block,
};
use crate::keys::{
    compare_keys, lemma_lex_lt_transitive, lemma_lex_lt_trichotomy, lex_lt, KeyOrder,
};

verus! {

/// Reads `len` bytes of `data` starting at `start` into an owned buffer.
fn read_range(data: &[u8], start: usize, len: usize) -> (out: Vec<u8>)
    requires
        start + len <= data@.len(),
    ensures
        out@ == data@.subrange(start as int, start as int + len as int),
{
    let total = data.len();
    let mut out: Vec<u8> = Vec::new();
    proof {
        assert(out@ =~= data@.subrange(start as int, start as int));
    }
    let mut i: usize = 0;
    while i < len
        invariant
            i <= len,
            start + len <= total,
            total == data@.len(),
            out@ == data@.subrange(start as int, start as int + i as int),
        decreases len - i,
    {
        out.push(data[start + i]);
        i = i + 1;
        proof {
            assert(out@ =~= data@.subrange(start as int, start as int + i as int));
        }
    }
    out
}

/// A cursor over one block, shared read-only through a reference-counted
/// handle. It owns the decoded copy of the entry it currently stands on; a
/// fresh iterator stands on nothing until the first seek.
pub struct BlockIterator {
    block: Arc<Block>,
    idx: usize,
    key: Vec<u8>,
    value: Vec<u8>,
}

impl BlockIterator {
    /// The entries of the block this iterator reads.
    pub closed spec fn entries(self) -> Seq<(Seq<u8>, Seq<u8>)> {
        (*self.block)@
    }

    /// The stored position.
    pub closed spec fn index(self) -> int {
        self.idx as int
    }

    /// Whether the iterator stands on an entry. Observably, the decoded key is
    /// non-empty exactly then (stored keys are never empty).
    pub closed spec fn is_valid(self) -> bool {
        self.key@.len() > 0
    }

    /// The iterator reads a well-formed block, its position never runs past
    /// the entry count, and when it stands on an entry its buffers hold that
    /// entry's key and value; otherwise both buffers are empty.
    pub closed spec fn wf(self) -> bool {
        &&& (*self.block).wf()
        &&& self.idx <= self.entries().len()
        &&& self.is_valid() ==> self.idx < self.entries().len() && self.key@ == self.entries()[
            self.idx as int
        ].0 && self.value@ == self.entries()[self.idx as int].1
        &&& !self.is_valid() ==> self.value@.len() == 0
    }

    /// A fresh iterator over `block`, positioned invalidly (index 0, empty
    /// key and value) until the caller seeks.
    pub fn new(block: Arc<Block>) -> (it: BlockIterator)
        requires
            (*block).wf(),
        ensures
            it.wf(),
            it.entries() == (*block)@,
            !it.is_valid(),
            it.index() == 0,
    {
        BlockIterator { block, idx: 0, key: Vec::new(), value: Vec::new() }
    }

    /// The key of the entry the iterator stands on; empty when the iterator is
    /// not on any entry.
    pub fn key(&self) -> (k: &[u8])
        requires
            self.wf(),
        ensures
            self.is_valid() ==> k@ == self.entries()[self.index()].0,
            !self.is_valid() ==> k@ == Seq::<u8>::empty(),
    {
        proof {
            if !self.is_valid() {
                assert(self.key@ =~= Seq::<u8>::empty());
            }
        }
        self.key.as_slice()
    }

    /// The value of the entry the iterator stands on; empty when the iterator
    /// is not on any entry.
    pub fn value(&self) -> (v: &[u8])
        requires
            self.wf(),
        ensures
            self.is_valid() ==> v@ == self.entries()[self.index()].1,
            !self.is_valid() ==> v@ == Seq::<u8>::empty(),
    {
        proof {
            if !self.is_valid() {
                assert(self.value@ =~= Seq::<u8>::empty());
            }
        }
        self.value.as_slice()
    }

    /// Decodes the entry that begins at byte `offset` of the data buffer into
    /// the iterator's key and value buffers.
    fn seek_to_offset(&mut self, offset: usize, Ghost(i): Ghost<int>)
        requires
            (*old(self).block).wf(),
            0 <= i < old(self).entries().len(),
            offset == offset_of(old(self).entries(), i),
        ensures
            final(self).block == old(self).block,
            final(self).idx == old(self).idx,
            final(self).key@ == old(self).entries()[i].0,
            final(self).value@ == old(self).entries()[i].1,
    {
        let ghost entries = self.entries();
        proof {
            self.block.lemma_wf();
            lemma_entry_round_trip(entries, i);
        }
        let data = self.block.data_bytes();
        let key_len = (data[offset] as usize) * 256 + (data[offset + 1] as usize);
        assert(key_len == entries[i].0.len());
        let key = read_range(data, offset + 2, key_len);
        let value_len = (data[offset + 2 + key_len] as usize) * 256 + (data[offset + 3 + key_len]
            as usize);
        assert(value_len == entries[i].1.len());
        let value = read_range(data, offset + 4 + key_len, value_len);
        self.key = key;
        self.value = value;
        proof {
            assert(self.key@ == key_at(encode(entries), offset as int));
            assert(self.value@ == value_at(encode(entries), offset as int));
        }
    }

    /// Positions the iterator on entry `idx`, decoding its key and value; an
    /// index at or past the entry count lands it in the invalid state (empty
    /// key and value) and leaves the stored position untouched.
    pub fn seek_to(&mut self, idx: usize)
        requires
            old(self).wf(),
        ensures
            final(self).wf(),
            final(self).entries() == old(self).entries(),
            idx < old(self).entries().len() ==> final(self).is_valid() && final(self).index()
                == idx,
            idx >= old(self).entries().len() ==> !final(self).is_valid() && final(self).index()
                == old(self).index(),
    {
        let n = self.block.entry_count();
        if idx >= n {
            self.key.clear();
            self.value.clear();
            return;
        }
        let offset = self.block.entry_offset(idx);
        self.seek_to_offset(offset, Ghost(idx as int));
        self.idx = idx;
        proof {
            self.block.lemma_wf();
        }
    }

    /// Advances to the entry after the current position; past the last entry
    /// the iterator stays invalid, never wrapping back.
    pub fn next(&mut self)
        requires
            old(self).wf(),
        ensures
            final(self).wf(),
            final(self).entries() == old(self).entries(),
            old(self).index() + 1 < old(self).entries().len() ==> final(self).is_valid()
                && final(self).index() == old(self).index() + 1,
            old(self).index() + 1 >= old(self).entries().len() ==> !final(self).is_valid(),
    {
        let n = self.block.entry_count();
        let target = if self.idx < n {
            self.idx + 1
        } else {
            self.idx
        };
        self.seek_to(target);
    }

    /// Binary search: positions the iterator on the first entry whose key is
    /// greater than or equal to `key` under byte-lexicographic order, or in
    /// the invalid state when every stored key is below `key`.
    pub fn seek_to_key(&mut self, key: &[u8])
        requires
            old(self).wf(),
        ensures
            final(self).wf(),
            final(self).entries() == old(self).entries(),
            lower_bound(old(self).entries(), key@) < old(self).entries().len()
                ==> final(self).is_valid()
                && final(self).index() == lower_bound(old(self).entries(), key@),
            lower_bound(old(self).entries(), key@) == old(self).entries().len()
                ==> !final(self).is_valid(),
    {
        let ghost entries = self.entries();
        proof {
            self.block.lemma_wf();
        }
        let n = self.block.entry_count();
        let mut low: usize = 0;
        let mut high: usize = n;
        while low < high
            invariant
                self.wf(),
                self.entries() == entries,
                entries == old(self).entries(),
                keys_sorted(entries),
                n == entries.len(),
                low <= high <= n,
                forall|i: int| 0 <= i < low ==> lex_lt(#[trigger] entries[i].0, key@),
                forall|i: int| high <= i < n ==> lex_lt(key@, #[trigger] entries[i].0),
            decreases high - low,
        {
            let mid = low + (high - low) / 2;
            self.seek_to(mid);
            proof {
                lemma_lex_lt_trichotomy(entries[mid as int].0, key@);
            }
            match compare_keys(self.key.as_slice(), key) {
                KeyOrder::Less => {
                    low = mid + 1;
                    proof {
                        assert forall|i: int| 0 <= i < low implies lex_lt(
                            #[trigger] entries[i].0,
                            key@,
                        ) by {
                            if i < mid {
                                lemma_lex_lt_transitive(
                                    entries[i].0,
                                    entries[mid as int].0,
                                    key@,
                                );
                            }
                        }
                    }
                },
                KeyOrder::Greater => {
                    high = mid;
                    proof {
                        assert forall|i: int| high <= i < n implies lex_lt(
                            key@,
                            #[trigger] entries[i].0,
                        ) by {
                            if i > mid {
                                lemma_lex_lt_transitive(
                                    key@,
                                    entries[mid as int].0,
                                    entries[i].0,
                                );
                            }
                        }
                    }
                },
                KeyOrder::Equal => {
                    proof {
                        assert forall|i: int| 0 <= i < mid implies lex_lt(
                            #[trigger] entries[i].0,
                            key@,
                        ) by {}
                        lemma_lower_bound_at(entries, key@, mid as int);
                    }
                    return;
                },
            }
        }
        proof {
            assert forall|i: int| low <= i < n implies !lex_lt(#[trigger] entries[i].0, key@) by {
                lemma_lex_lt_trichotomy(entries[i].0, key@);
            }
            lemma_lower_bound_at(entries, key@, low as int);
        }
        self.seek_to(low);
    }
}

} // verus!
