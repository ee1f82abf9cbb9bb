//! The block builder: an incremental, size-bounded encoder that packs
//! key-value pairs into the block layout and finalizes them into a `Block`.
use vstd::prelude::*;

use crate::block::{
    be16, encode, entries_ok, entry_bytes, entry_ok, keys_sorted, lemma_encode_push,
    lemma_offset_push, offset_of, Block,
};
use crate::keys::{lemma_lex_lt_transitive, lex_lt};

verus! {

/// Serialized size in bytes of a block holding `entries`: the packed entry
/// bytes, two bytes per entry offset, and the two-byte trailing entry count.
pub open spec fn block_footprint(entries: Seq<(Seq<u8>, Seq<u8>)>) -> int {
    encode(entries).len() as int + 2 * entries.len() as int + 2
}


/// Appending a pair grows the serialized size by exactly
/// `key.len() + value.len() + 6`: the pair's bytes, its two two-byte length
/// fields, and its two-byte offset slot.
pub proof fn lemma_footprint_push(entries: Seq<(Seq<u8>, Seq<u8>)>, kv: (Seq<u8>, Seq<u8>))
    ensures
        block_footprint(entries.push(kv)) == block_footprint(entries) + kv.0.len() + kv.1.len()
            + 6,
{
    lemma_encode_push(entries, kv);
}

/// Appends all of `src` to `dst`.
fn push_bytes(dst: &mut Vec<u8>, src: &[u8])
    ensures
        final(dst)@ == old(dst)@ + src@,
{
    let n = src.len();
    let mut i: usize = 0;
    while i < n
        invariant
            i <= n,
            n == src@.len(),
            dst@ == old(dst)@ + src@.take(i as int),
        decreases n - i,
    {
        dst.push(src[i]);
        i = i + 1;
        proof {
            assert(dst@ =~= old(dst)@ + src@.take(i as int));
        }
    }
    proof {
        assert(src@.take(n as int) =~= src@);
    }
}

/// Appends the big-endian two-byte encoding of `n` to `dst`.
fn push_u16(dst: &mut Vec<u8>, n: u16)
    ensures
        final(dst)@ == old(dst)@ + be16(n as nat),
{
    dst.push((n / 256) as u8);
    dst.push((n % 256) as u8);
    proof {
        assert(dst@ =~= old(dst)@ + be16(n as nat));
    }
}

/// Transient encoder for one block: owns the growing data buffer and offset
/// array, bounded by the `block_size` ceiling fixed at construction. Consumed
/// by `build`.
pub struct BlockBuilder {
    data: Vec<u8>,
    offsets: Vec<u16>,
    block_size: usize,
    entries: Ghost<Seq<(Seq<u8>, Seq<u8>)>>,
}

impl View for BlockBuilder {
    type V = Seq<(Seq<u8>, Seq<u8>)>;

    closed spec fn view(&self) -> Seq<(Seq<u8>, Seq<u8>)> {
        self.entries@
    }
}

impl BlockBuilder {
    /// The hard ceiling, in bytes, for the finished block's serialized size.
    pub closed spec fn capacity(self) -> int {
        self.block_size as int
    }

    /// The builder's buffers are exactly the serialization of the entries
    /// appended so far, under the same conditions a finished block meets, and
    /// the serialized size fits a `usize`.
    pub closed spec fn wf(self) -> bool {
        &&& self.data@ == encode(self.entries@)
        &&& self.offsets@.len() == self.entries@.len()
        &&& (forall|i: int|
            0 <= i < self.entries@.len() ==> (#[trigger] self.offsets@[i]) as nat == offset_of(
                self.entries@,
                i,
            ))
        &&& entries_ok(self.entries@)
        &&& keys_sorted(self.entries@)
        &&& block_footprint(self.entries@) <= usize::MAX
    }

    /// A fresh, empty builder whose finished block may occupy at most
    /// `block_size` bytes.
    pub fn new(block_size: usize) -> (b: BlockBuilder)
        ensures
            b.wf(),
            b@ == Seq::<(Seq<u8>, Seq<u8>)>::empty(),
            b.capacity() == block_size,
    {
        BlockBuilder {
            data: Vec::new(),
            offsets: Vec::new(),
            block_size,
            entries: Ghost(Seq::empty()),
        }
    }

    /// Serialized size in bytes of the block if it were finished now: the data
    /// buffer, two bytes per offset already appended, and the two bytes
    /// reserved for the trailing entry count.
    pub fn current_size(&self) -> (size: usize)
        requires
            self.wf(),
        ensures
            size == block_footprint(self@),
    {
        self.data.len() + self.offsets.len() * 2 + 2
    }

    /// Appends a key-value pair, or refuses by returning `false`, without any
    /// change to the builder, when the pair would push the serialized size
    /// over `block_size` (or the entry's offset past what its 16-bit slot can
    /// record). The key must be non-empty, small enough to ever fit a block of
    /// this size, representable in the 16-bit length fields, and strictly
    /// greater than every key appended before.
    pub fn append(&mut self, key: &[u8], value: &[u8]) -> (ok: bool)
        requires
            old(self).wf(),
            key@.len() > 0,
            key@.len() + value@.len() + 6 <= old(self).capacity(),
            key@.len() <= 0xFFFF,
            value@.len() <= 0xFFFF,
            old(self)@.len() > 0 ==> lex_lt(old(self)@.last().0, key@),
        ensures
            final(self).wf(),
            final(self).capacity() == old(self).capacity(),
            ok == (block_footprint(old(self)@) + key@.len() + value@.len() + 6 <= old(
                self,
            ).capacity() && encode(old(self)@).len() <= 0xFFFF),
            ok ==> final(self)@ == old(self)@.push((key@, value@)),
            !ok ==> final(self)@ == old(self)@,
    {
        let entry_size = key.len() + value.len() + 6;
        if self.current_size() > self.block_size - entry_size || self.data.len() > 0xFFFF {
            return false;
        }
        let ghost prev = self.entries@;
        let ghost kv = (key@, value@);
        let offset = self.data.len() as u16;
        self.offsets.push(offset);
        push_u16(&mut self.data, key.len() as u16);
        push_bytes(&mut self.data, key);
        push_u16(&mut self.data, value.len() as u16);
        push_bytes(&mut self.data, value);
        self.entries = Ghost(prev.push(kv));
        proof {
            lemma_encode_push(prev, kv);
            assert(self.data@ =~= encode(prev) + entry_bytes(kv));
            assert forall|i: int| 0 <= i < self.entries@.len() implies (
            #[trigger] self.offsets@[i]) as nat == offset_of(self.entries@, i) by {
                lemma_offset_push(prev, kv, i);
                if i == prev.len() {
                    assert(prev.take(i) =~= prev);
                }
            }
            assert forall|i: int| 0 <= i < self.entries@.len() implies entry_ok(
                #[trigger] self.entries@[i],
            ) by {}
            assert forall|i: int, j: int| 0 <= i < j < self.entries@.len() implies lex_lt(
                #[trigger] self.entries@[i].0,
                #[trigger] self.entries@[j].0,
            ) by {
                if j == prev.len() && i < prev.len() - 1 {
                    lemma_lex_lt_transitive(prev[i].0, prev[prev.len() - 1].0, key@);
                }
            }
        }
        true
    }

    /// Finishes the block, consuming the builder. At least one pair must have
    /// been appended.
    pub fn build(self) -> (b: Block)
        requires
            self.wf(),
            self@.len() > 0,
        ensures
            b.wf(),
            b@ == self@,
    {
        Block::from_parts(self.data, self.offsets, Ghost(self.entries@))
    }
}

} // verus!
