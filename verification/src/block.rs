//! The block: a fixed-capacity, serialized run of key-value entries, packed as
//!
//! `| key_len(u16) | key | value_len(u16) | value | ... | offsets | num |`
//!
//! where each entry carries its own 16-bit length fields and a parallel offset
//! array records where each entry begins inside the data buffer.
use vstd::prelude::*;

use crate::keys::lex_lt;

pub mod builder;
pub mod iterator;

verus! {

/// Big-endian two-byte encoding of a length, as stored in the 16-bit length
/// fields of an entry.
pub open spec fn be16(n: nat) -> Seq<u8> {
    seq![(n / 256) as u8, (n % 256) as u8]
}

/// One entry as laid out in the data buffer: key length, key bytes, value
/// length, value bytes.
pub open spec fn entry_bytes(kv: (Seq<u8>, Seq<u8>)) -> Seq<u8> {
    be16(kv.0.len()) + kv.0 + be16(kv.1.len()) + kv.1
}

/// Number of bytes entry `kv` occupies in the data buffer.
pub open spec fn entry_size(kv: (Seq<u8>, Seq<u8>)) -> nat {
    kv.0.len() + kv.1.len() + 4
}

/// The data buffer of a block holding `entries`: the concatenation of the
/// entries' encodings, in order.
pub open spec fn encode(entries: Seq<(Seq<u8>, Seq<u8>)>) -> Seq<u8>
    decreases entries.len(),
{
    if entries.len() == 0 {
        Seq::empty()
    } else {
        encode(entries.drop_last()) + entry_bytes(entries.last())
    }
}

/// Byte position inside the data buffer where entry `i` begins.
pub open spec fn offset_of(entries: Seq<(Seq<u8>, Seq<u8>)>, i: int) -> nat {
    encode(entries.take(i)).len()
}

/// What every entry of a block satisfies: a non-empty key, and a key and a
/// value short enough for their 16-bit length fields.
pub open spec fn entry_ok(kv: (Seq<u8>, Seq<u8>)) -> bool {
    &&& kv.0.len() > 0
    &&& kv.0.len() <= 0xFFFF
    &&& kv.1.len() <= 0xFFFF
}

pub open spec fn entries_ok(entries: Seq<(Seq<u8>, Seq<u8>)>) -> bool {
    forall|i: int| 0 <= i < entries.len() ==> entry_ok(#[trigger] entries[i])
}

/// Keys strictly increase in byte-lexicographic order: the ordering contract
/// the caller upholds while appending, and the one binary search relies on.
pub open spec fn keys_sorted(entries: Seq<(Seq<u8>, Seq<u8>)>) -> bool {
    forall|i: int, j: int|
        0 <= i < j < entries.len() ==> lex_lt(#[trigger] entries[i].0, #[trigger] entries[j].0)
}

/// The 16-bit big-endian integer stored at position `p` of buffer `d`.
pub open spec fn u16_at(d: Seq<u8>, p: int) -> nat {
    (d[p] as nat) * 256 + (d[p + 1] as nat)
}

/// The key of the entry beginning at position `off` of buffer `d`.
pub open spec fn key_at(d: Seq<u8>, off: int) -> Seq<u8> {
    d.subrange(off + 2, off + 2 + u16_at(d, off))
}

/// The value of the entry beginning at position `off` of buffer `d`.
pub open spec fn value_at(d: Seq<u8>, off: int) -> Seq<u8> {
    let k = u16_at(d, off) as int;
    d.subrange(off + 4 + k, off + 4 + k + u16_at(d, off + 2 + k))
}

/// Appending one entry extends the data buffer by that entry's encoding.
pub proof fn lemma_encode_push(entries: Seq<(Seq<u8>, Seq<u8>)>, kv: (Seq<u8>, Seq<u8>))
    ensures
        encode(entries.push(kv)) == encode(entries) + entry_bytes(kv),
{
    assert(entries.push(kv).drop_last() =~= entries);
    assert(entries.push(kv).last() == kv);
}

/// Appending one entry leaves the offsets of the existing entries in place.
pub proof fn lemma_offset_push(entries: Seq<(Seq<u8>, Seq<u8>)>, kv: (Seq<u8>, Seq<u8>), i: int)
    requires
        0 <= i <= entries.len(),
    ensures
        offset_of(entries.push(kv), i) == offset_of(entries, i),
    decreases entries.len(),
{
    assert(entries.push(kv).take(i) =~= entries.take(i));
}

/// A subrange taken inside the left part of a concatenation.
proof fn lemma_subrange_concat_left(p: Seq<u8>, e: Seq<u8>, a: int, b: int)
    requires
        0 <= a <= b <= p.len(),
    ensures
        (p + e).subrange(a, b) == p.subrange(a, b),
{
    assert((p + e).subrange(a, b) =~= p.subrange(a, b));
}

/// A subrange taken inside the right part of a concatenation.
proof fn lemma_subrange_concat_right(p: Seq<u8>, e: Seq<u8>, a: int, b: int)
    requires
        0 <= a <= b <= e.len(),
    ensures
        (p + e).subrange(p.len() + a, p.len() + b) == e.subrange(a, b),
{
    assert((p + e).subrange(p.len() + a, p.len() + b) =~= e.subrange(a, b));
}

/// How one encoded entry reads back: its two length fields hold the key and
/// value lengths, and the stretches between them hold the key and the value.
proof fn lemma_entry_bytes(kv: (Seq<u8>, Seq<u8>))
    requires
        entry_ok(kv),
    ensures
        entry_bytes(kv).len() == entry_size(kv),
        u16_at(entry_bytes(kv), 0) == kv.0.len(),
        entry_bytes(kv).subrange(2, 2 + kv.0.len() as int) == kv.0,
        u16_at(entry_bytes(kv), 2 + kv.0.len() as int) == kv.1.len(),
        entry_bytes(kv).subrange(
            4 + kv.0.len() as int,
            4 + kv.0.len() as int + kv.1.len() as int,
        ) == kv.1,
{
    let e = entry_bytes(kv);
    let kl = kv.0.len() as int;
    let vl = kv.1.len() as int;
    vstd::arithmetic::div_mod::lemma_fundamental_div_mod(kl, 256);
    vstd::arithmetic::div_mod::lemma_fundamental_div_mod(vl, 256);
    assert(e[0] == be16(kv.0.len())[0]);
    assert(e[1] == be16(kv.0.len())[1]);
    assert(e[2 + kl] == be16(kv.1.len())[0]);
    assert(e[3 + kl] == be16(kv.1.len())[1]);
    assert forall|j: int| 0 <= j < kl implies e[2 + j] == kv.0[j] by {}
    assert(e.subrange(2, 2 + kl) =~= kv.0);
    assert forall|j: int| 0 <= j < vl implies e[4 + kl + j] == kv.1[j] by {}
    assert(e.subrange(4 + kl, 4 + kl + vl) =~= kv.1);
}

/// Round trip of the block encoding: entry `i` of the packed data buffer
/// decodes, starting at its recorded offset, to exactly the key and value that
/// were appended as entry `i`, and the entries tile the buffer contiguously.
pub proof fn lemma_entry_round_trip(entries: Seq<(Seq<u8>, Seq<u8>)>, i: int)
    requires
        entries_ok(entries),
        0 <= i < entries.len(),
    ensures
        offset_of(entries, i) + entry_size(entries[i]) == offset_of(entries, i + 1),
        offset_of(entries, i + 1) <= encode(entries).len(),
        u16_at(encode(entries), offset_of(entries, i) as int) == entries[i].0.len(),
        key_at(encode(entries), offset_of(entries, i) as int) == entries[i].0,
        u16_at(encode(entries), offset_of(entries, i) as int + 2 + entries[i].0.len() as int)
            == entries[i].1.len(),
        value_at(encode(entries), offset_of(entries, i) as int) == entries[i].1,
    decreases entries.len(),
{
    let d = encode(entries);
    let kv = entries[i];
    let kl = kv.0.len() as int;
    let vl = kv.1.len() as int;
    let off = offset_of(entries, i) as int;
    lemma_entry_bytes(kv);
    let e = entry_bytes(kv);
    if i == entries.len() - 1 {
        let rest = entries.drop_last();
        let p = encode(rest);
        assert(d == p + e);
        assert(entries.take(i) =~= rest);
        assert(off == p.len());
        assert(entries.take(i + 1) =~= entries);
        assert(offset_of(entries, i + 1) == d.len());
        assert(d[off] == e[0]);
        assert(d[off + 1] == e[1]);
        assert(u16_at(d, off) == u16_at(e, 0));
        lemma_subrange_concat_right(p, e, 2, 2 + kl);
        assert(key_at(d, off) == kv.0);
        assert(d[off + 2 + kl] == e[2 + kl]);
        assert(d[off + 3 + kl] == e[3 + kl]);
        assert(u16_at(d, off + 2 + kl) == u16_at(e, 2 + kl));
        lemma_subrange_concat_right(p, e, 4 + kl, 4 + kl + vl);
        assert(value_at(d, off) == kv.1);
    } else {
        let rest = entries.drop_last();
        let p = encode(rest);
        assert(d == p + entry_bytes(entries.last()));
        assert forall|j: int| 0 <= j < rest.len() implies entry_ok(#[trigger] rest[j]) by {
            assert(rest[j] == entries[j]);
        }
        assert(rest[i] == entries[i]);
        lemma_entry_round_trip(rest, i);
        assert(entries.take(i) =~= rest.take(i));
        assert(entries.take(i + 1) =~= rest.take(i + 1));
        assert(offset_of(entries, i) == offset_of(rest, i));
        assert(offset_of(entries, i + 1) == offset_of(rest, i + 1));
        assert(off + entry_size(kv) <= p.len());
        assert(d[off] == p[off]);
        assert(d[off + 1] == p[off + 1]);
        assert(u16_at(d, off) == u16_at(p, off));
        lemma_subrange_concat_left(p, entry_bytes(entries.last()), off + 2, off + 2 + kl);
        assert(key_at(d, off) == key_at(p, off));
        assert(d[off + 2 + kl] == p[off + 2 + kl]);
        assert(d[off + 3 + kl] == p[off + 3 + kl]);
        assert(u16_at(d, off + 2 + kl) == u16_at(p, off + 2 + kl));
        lemma_subrange_concat_left(p, entry_bytes(entries.last()), off + 4 + kl, off + 4 + kl + vl);
        assert(value_at(d, off) == value_at(p, off));
    }
}

/// Index of the first entry whose key is not below `target`, or the entry
/// count when every key is below it: where `seek_to_key` lands.
pub open spec fn lower_bound(entries: Seq<(Seq<u8>, Seq<u8>)>, target: Seq<u8>) -> int
    decreases entries.len(),
{
    if entries.len() == 0 {
        0
    } else if !lex_lt(entries[0].0, target) {
        0
    } else {
        1 + lower_bound(entries.drop_first(), target)
    }
}

/// In a sorted block, `lower_bound` splits the entries: every key before it is
/// below the target, and no key at or after it is.
pub proof fn lemma_lower_bound(entries: Seq<(Seq<u8>, Seq<u8>)>, target: Seq<u8>)
    requires
        keys_sorted(entries),
    ensures
        0 <= lower_bound(entries, target) <= entries.len(),
        forall|i: int|
            0 <= i < lower_bound(entries, target) ==> lex_lt(#[trigger] entries[i].0, target),
        forall|i: int|
            lower_bound(entries, target) <= i < entries.len() ==> !lex_lt(
                #[trigger] entries[i].0,
                target,
            ),
    decreases entries.len(),
{
    if entries.len() == 0 {
    } else if !lex_lt(entries[0].0, target) {
        assert forall|i: int| 0 <= i < entries.len() implies !lex_lt(
            #[trigger] entries[i].0,
            target,
        ) by {
            if i > 0 && lex_lt(entries[i].0, target) {
                crate::keys::lemma_lex_lt_transitive(entries[0].0, entries[i].0, target);
            }
        }
    } else {
        let rest = entries.drop_first();
        assert forall|i: int, j: int| 0 <= i < j < rest.len() implies lex_lt(
            #[trigger] rest[i].0,
            #[trigger] rest[j].0,
        ) by {
            assert(rest[i] == entries[i + 1]);
            assert(rest[j] == entries[j + 1]);
        }
        lemma_lower_bound(rest, target);
        let lb = lower_bound(entries, target);
        assert forall|i: int| 0 <= i < lb implies lex_lt(#[trigger] entries[i].0, target) by {
            if i > 0 {
                assert(rest[i - 1] == entries[i]);
            }
        }
        assert forall|i: int| lb <= i < entries.len() implies !lex_lt(
            #[trigger] entries[i].0,
            target,
        ) by {
            assert(rest[i - 1] == entries[i]);
        }
    }
}

/// A key present in a sorted block is its own lower bound: `seek_to_key` on
/// that key lands exactly on its entry.
pub proof fn lemma_lower_bound_present(entries: Seq<(Seq<u8>, Seq<u8>)>, target: Seq<u8>, i: int)
    requires
        keys_sorted(entries),
        0 <= i < entries.len(),
        entries[i].0 == target,
    ensures
        lower_bound(entries, target) == i,
{
    crate::keys::lemma_lex_lt_trichotomy(entries[i].0, target);
    lemma_lower_bound_at(entries, target, i);
}

/// A position that splits a sorted block around the target is the lower bound.
pub proof fn lemma_lower_bound_at(entries: Seq<(Seq<u8>, Seq<u8>)>, target: Seq<u8>, m: int)
    requires
        keys_sorted(entries),
        0 <= m <= entries.len(),
        forall|i: int| 0 <= i < m ==> lex_lt(#[trigger] entries[i].0, target),
        m < entries.len() ==> !lex_lt(entries[m].0, target),
    ensures
        lower_bound(entries, target) == m,
{
    lemma_lower_bound(entries, target);
    let lb = lower_bound(entries, target);
    if lb < m {
        assert(lex_lt(entries[lb].0, target));
        assert(!lex_lt(entries[lb].0, target));
    }
    if lb > m {
        assert(lex_lt(entries[m].0, target));
        assert(!lex_lt(entries[m].0, target));
    }
}

/// The immutable serialized block: a packed byte buffer of entries and the
/// parallel array of entry start offsets. Created only by
/// `BlockBuilder::build`, and read-only from then on, so any number of
/// iterators may share it.
pub struct Block {
    data: Vec<u8>,
    offsets: Vec<u16>,
    entries: Ghost<Seq<(Seq<u8>, Seq<u8>)>>,
}

impl View for Block {
    type V = Seq<(Seq<u8>, Seq<u8>)>;

    closed spec fn view(&self) -> Seq<(Seq<u8>, Seq<u8>)> {
        self.entries@
    }
}

impl Block {
    /// The block is exactly the serialization of its entries: the data buffer
    /// holds their packed encodings, the offset array records where each one
    /// begins, every entry fits its 16-bit length fields, keys strictly
    /// increase, and the block holds at least one entry.
    pub closed spec fn wf(self) -> bool {
        &&& self.data@ == encode(self.entries@)
        &&& self.offsets@.len() == self.entries@.len()
        &&& (forall|i: int|
            0 <= i < self.entries@.len() ==> (#[trigger] self.offsets@[i]) as nat == offset_of(
                self.entries@,
                i,
            ))
        &&& entries_ok(self.entries@)
        &&& keys_sorted(self.entries@)
        &&& self.entries@.len() >= 1
    }

    /// What every reader of a well-formed block may assume of its entries.
    pub proof fn lemma_wf(&self)
        requires
            self.wf(),
        ensures
            entries_ok(self@),
            keys_sorted(self@),
            self@.len() >= 1,
    {
    }

    /// Assembles a block from the buffers a builder accumulated.
    pub(crate) fn from_parts(
        data: Vec<u8>,
        offsets: Vec<u16>,
        Ghost(entries): Ghost<Seq<(Seq<u8>, Seq<u8>)>>,
    ) -> (b: Block)
        requires
            data@ == encode(entries),
            offsets@.len() == entries.len(),
            forall|i: int|
                0 <= i < entries.len() ==> (#[trigger] offsets@[i]) as nat == offset_of(entries, i),
            entries_ok(entries),
            keys_sorted(entries),
            entries.len() >= 1,
        ensures
            b.wf(),
            b@ == entries,
    {
        Block { data, offsets, entries: Ghost(entries) }
    }

    /// How many entries the block holds.
    pub(crate) fn entry_count(&self) -> (n: usize)
        requires
            self.wf(),
        ensures
            n == self@.len(),
    {
        self.offsets.len()
    }

    /// Byte position inside the data buffer where entry `idx` begins.
    pub(crate) fn entry_offset(&self, idx: usize) -> (off: usize)
        requires
            self.wf(),
            idx < self@.len(),
        ensures
            off == offset_of(self@, idx as int),
    {
        self.offsets[idx] as usize
    }

    /// The packed data buffer.
    pub(crate) fn data_bytes(&self) -> (d: &[u8])
        requires
            self.wf(),
        ensures
            d@ == encode(self@),
    {
        self.data.as_slice()
    }
}

} // verus!
