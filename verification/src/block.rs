//! The block: the smallest unit of read and caching. A block holds a run of
//! key-value entries in one byte buffer plus an offset index.
//!
//! Encoded layout, all integers big-endian:
//!
//! ```text
//! | entry | ... | entry | offset (u16) | ... | offset (u16) | num_entries (u16) |
//! ```
//!
//! where each entry is `key_len (u16) | key | value_len (u16) | value`.
use crate::wire::{
    be16, bytes_of_range, copy_bytes, bytes_lt, get_u16, lemma_be16_round_trip,
    lemma_lex_lt_trans, lex_lt, put_bytes, put_u16, u16_of,
};
use vstd::prelude::*;

verus! {

/// Largest length that fits the two-byte length fields.
pub const MAX_LEN_U16: usize = 65535;

/// Largest byte size of a single entry: two length fields plus a maximal key
/// and a maximal value.
pub const MAX_ENTRY_SIZE: usize = 131074;

/// The 16-bit big-endian integer at offset `o` of `d`, as a mathematical int.
pub open spec fn u16_at(d: Seq<u8>, o: int) -> int {
    u16_of(d[o], d[o + 1]) as int
}

/// Key length field of the entry starting at `o`.
pub open spec fn klen_at(d: Seq<u8>, o: int) -> int {
    u16_at(d, o)
}

/// Value length field of the entry starting at `o`.
pub open spec fn vlen_at(d: Seq<u8>, o: int) -> int {
    u16_at(d, o + 2 + klen_at(d, o))
}

/// Key bytes of the entry starting at `o`.
pub open spec fn key_at(d: Seq<u8>, o: int) -> Seq<u8> {
    d.subrange(o + 2, o + 2 + klen_at(d, o))
}

/// Value bytes of the entry starting at `o`.
pub open spec fn val_at(d: Seq<u8>, o: int) -> Seq<u8> {
    d.subrange(o + 4 + klen_at(d, o), o + 4 + klen_at(d, o) + vlen_at(d, o))
}

/// One past the last byte of the entry starting at `o`.
pub open spec fn entry_end(d: Seq<u8>, o: int) -> int {
    o + 4 + klen_at(d, o) + vlen_at(d, o)
}

/// Structural well-formedness of an entry area `d` under the offset index
/// `offs`: the offsets partition `d` exactly into entries with non-empty keys.
pub open spec fn block_wf(d: Seq<u8>, offs: Seq<u16>) -> bool {
    &&& offs.len() <= MAX_LEN_U16
    &&& d.len() <= MAX_ENTRY_SIZE
    &&& (offs.len() == 0 ==> d.len() == 0)
    &&& (offs.len() > 0 ==> offs[0] == 0)
    &&& (forall|i: int| 0 <= i < offs.len() ==> klen_at(d, #[trigger] offs[i] as int) >= 1)
    &&& (forall|i: int|
        0 <= i < offs.len() ==> entry_end(d, #[trigger] offs[i] as int) == (if i + 1
            < offs.len() {
            offs[i + 1] as int
        } else {
            d.len() as int
        }))
}

/// The sequence of (key, value) entries held by a block.
pub open spec fn block_entries(d: Seq<u8>, offs: Seq<u16>) -> Seq<(Seq<u8>, Seq<u8>)> {
    Seq::new(offs.len(), |i: int| (key_at(d, offs[i] as int), val_at(d, offs[i] as int)))
}

/// Entries are strictly ascending by key.
pub open spec fn entries_sorted(es: Seq<(Seq<u8>, Seq<u8>)>) -> bool {
    forall|i: int, j: int| 0 <= i < j < es.len() ==> lex_lt(#[trigger] es[i].0, #[trigger] es[j].0)
}

/// Each entry lies inside `d`, and the offsets ascend.
pub proof fn lemma_block_wf_bounds(d: Seq<u8>, offs: Seq<u16>, i: int)
    requires
        block_wf(d, offs),
        0 <= i < offs.len(),
    ensures
        offs[i] + 5 <= entry_end(d, offs[i] as int) <= d.len(),
        i + 1 < offs.len() ==> offs[i] + 5 <= offs[i + 1],
    decreases offs.len() - i,
{
    if i + 1 < offs.len() {
        lemma_block_wf_bounds(d, offs, i + 1);
    }
}

/// The two 16-bit reads of an entry agree between a buffer and any extension
/// of it, so the parsed entry does too.
pub proof fn lemma_entry_frame(d1: Seq<u8>, d2: Seq<u8>, o: int)
    requires
        0 <= o,
        o + 4 <= entry_end(d1, o) <= d1.len(),
        d1.len() <= d2.len(),
        forall|k: int| 0 <= k < d1.len() ==> d1[k] == #[trigger] d2[k],
    ensures
        klen_at(d2, o) == klen_at(d1, o),
        vlen_at(d2, o) == vlen_at(d1, o),
        key_at(d2, o) == key_at(d1, o),
        val_at(d2, o) == val_at(d1, o),
        entry_end(d2, o) == entry_end(d1, o),
{
    assert(o + 4 <= d1.len());
    assert(d2[o] == d1[o]);
    assert(d2[o + 1] == d1[o + 1]);
    assert(klen_at(d2, o) == klen_at(d1, o));
    let k = klen_at(d1, o);
    assert(o + 4 + k <= d1.len());
    assert(d2[o + 2 + k] == d1[o + 2 + k]);
    assert(d2[o + 2 + k + 1] == d1[o + 2 + k + 1]);
    assert(vlen_at(d2, o) == vlen_at(d1, o));
    assert(key_at(d2, o) =~= key_at(d1, o));
    assert(val_at(d2, o) =~= val_at(d1, o));
}

/// The encoded offset index: two big-endian bytes per offset.
pub open spec fn offsets_bytes(offs: Seq<u16>) -> Seq<u8> {
    Seq::new(2 * offs.len(), |i: int| be16(offs[i / 2])[i % 2])
}

/// The full encoded form of a block.
pub open spec fn spec_encode(d: Seq<u8>, offs: Seq<u16>) -> Seq<u8> {
    d + offsets_bytes(offs) + be16(offs.len() as u16)
}

/// The entry count read from the trailer of an encoded block.
pub open spec fn spec_decode_count(e: Seq<u8>) -> int {
    u16_of(e[e.len() - 2], e[e.len() - 1]) as int
}

/// Where the offset index begins in an encoded block.
pub open spec fn spec_decode_data_end(e: Seq<u8>) -> int {
    e.len() - 2 - 2 * spec_decode_count(e)
}

/// The offsets recovered from an encoded block.
pub open spec fn spec_decode_offsets(e: Seq<u8>) -> Seq<u16> {
    Seq::new(
        spec_decode_count(e) as nat,
        |j: int|
            u16_of(
                e[spec_decode_data_end(e) + 2 * j],
                e[spec_decode_data_end(e) + 2 * j + 1],
            ),
    )
}

/// The entry area recovered from an encoded block.
pub open spec fn spec_decode_data(e: Seq<u8>) -> Seq<u8> {
    e.subrange(0, spec_decode_data_end(e))
}

/// Decoding inverts encoding: `decode(encode(b))` returns the same entry
/// area and the same offsets, byte for byte.
pub proof fn lemma_block_round_trip(d: Seq<u8>, offs: Seq<u16>)
    requires
        offs.len() <= MAX_LEN_U16,
    ensures
        spec_decode_count(spec_encode(d, offs)) == offs.len(),
        spec_decode_data(spec_encode(d, offs)) == d,
        spec_decode_offsets(spec_encode(d, offs)) == offs,
{
    let e = spec_encode(d, offs);
    let n = offs.len() as int;
    assert(e.len() == d.len() + 2 * n + 2);
    lemma_be16_round_trip(offs.len() as u16);
    assert(e[e.len() - 2] == be16(offs.len() as u16)[0]);
    assert(e[e.len() - 1] == be16(offs.len() as u16)[1]);
    assert(spec_decode_count(e) == n);
    assert(spec_decode_data_end(e) == d.len());
    assert(spec_decode_data(e) =~= d);
    assert forall|j: int| 0 <= j < n implies spec_decode_offsets(e)[j] == offs[j] by {
        assert(e[d.len() + 2 * j] == offsets_bytes(offs)[2 * j]);
        assert(e[d.len() + 2 * j + 1] == offsets_bytes(offs)[2 * j + 1]);
        assert((2 * j) / 2 == j && (2 * j) % 2 == 0);
        assert((2 * j + 1) / 2 == j && (2 * j + 1) % 2 == 1);
        lemma_be16_round_trip(offs[j]);
    }
    assert(spec_decode_offsets(e) =~= offs);
}

/// A sorted run of key-value entries in one buffer, with its offset index.
#[derive(Clone)]
pub struct Block {
    /// The concatenated encoded entries.
    pub data: Vec<u8>,
    /// Byte offset of each entry's start within `data`.
    pub offsets: Vec<u16>,
}

impl Block {
    /// Structural well-formedness: the offsets partition `data` into entries.
    pub open spec fn wf(self) -> bool {
        block_wf(self.data@, self.offsets@)
    }

    /// The (key, value) entries of this block.
    pub open spec fn entries(self) -> Seq<(Seq<u8>, Seq<u8>)> {
        block_entries(self.data@, self.offsets@)
    }

    /// Serialize: entry area, then the offset index, then the entry count.
    pub fn encode(&self) -> (r: Vec<u8>)
        requires
            self.offsets@.len() <= MAX_LEN_U16,
        ensures
            r@ == spec_encode(self.data@, self.offsets@),
    {
        let mut buf = copy_bytes(&self.data);
        let n = self.offsets.len();
        proof {
            assert(buf@ + offsets_bytes(self.offsets@.subrange(0, 0)) =~= buf@);
        }
        for i in 0..n
            invariant
                n == self.offsets@.len() <= MAX_LEN_U16,
                buf@ == self.data@ + offsets_bytes(self.offsets@.subrange(0, i as int)),
        {
            put_u16(&mut buf, self.offsets[i]);
            proof {
                let pre = self.offsets@.subrange(0, i as int);
                let post = self.offsets@.subrange(0, i + 1);
                assert(offsets_bytes(post) =~= offsets_bytes(pre) + be16(self.offsets@[i as int]))
                    by {
                    assert forall|t: int| 0 <= t < 2 * pre.len() implies offsets_bytes(post)[t]
                        == offsets_bytes(pre)[t] by {
                        assert(post[t / 2] == pre[t / 2]);
                    }
                    assert(post[(2 * pre.len() as int) / 2] == self.offsets@[i as int]);
                    assert(post[(2 * pre.len() as int + 1) / 2] == self.offsets@[i as int]);
                }
                assert(buf@ =~= self.data@ + offsets_bytes(post));
            }
        }
        put_u16(&mut buf, n as u16);
        proof {
            assert(self.offsets@.subrange(0, n as int) =~= self.offsets@);
            assert(buf@ =~= spec_encode(self.data@, self.offsets@));
        }
        buf
    }

    /// Deserialize an encoded block: read the trailing count, then the offset
    /// index, and keep the prefix as the entry area.
    pub fn decode(data: &[u8]) -> (r: Block)
        requires
            data@.len() >= 2,
            2 * spec_decode_count(data@) + 2 <= data@.len(),
        ensures
            r.data@ == spec_decode_data(data@),
            r.offsets@ == spec_decode_offsets(data@),
    {
        let len = data.len();
        let n = get_u16(data, len - 2) as usize;
        let data_end = len - 2 - 2 * n;
        let mut offsets: Vec<u16> = Vec::new();
        for j in 0..n
            invariant
                n == spec_decode_count(data@),
                data_end == spec_decode_data_end(data@),
                data_end + 2 * n + 2 == data@.len(),
                data@.len() <= usize::MAX,
                offsets@ == spec_decode_offsets(data@).subrange(0, j as int),
        {
            proof {
                assert(data_end + 2 * j + 2 <= data@.len());
            }
            let off = get_u16(data, data_end + 2 * j);
            offsets.push(off);
            proof {
                assert(offsets@ =~= spec_decode_offsets(data@).subrange(0, j + 1));
            }
        }
        proof {
            assert(spec_decode_offsets(data@).subrange(0, n as int) =~= spec_decode_offsets(
                data@,
            ));
        }
        let d = bytes_of_range(data, 0, data_end);
        Block { data: d, offsets }
    }
}

/// Accumulates entries for one block until a size bound is reached.
pub struct BlockBuilder {
    /// Byte offset of each accepted entry within `data`.
    pub offsets: Vec<u16>,
    /// The concatenated encoded entries accepted so far.
    pub data: Vec<u8>,
    /// The target size of the encoded block, in bytes.
    pub block_size: usize,
}

impl BlockBuilder {
    pub open spec fn wf(self) -> bool {
        &&& block_wf(self.data@, self.offsets@)
        &&& self.block_size <= MAX_LEN_U16
        &&& (self.offsets@.len() >= 2 ==> self.estimated_size_spec() <= self.block_size)
    }

    /// Size of the block as encoded so far: entry area, offset index, count.
    pub open spec fn estimated_size_spec(self) -> int {
        self.data@.len() + 2 * self.offsets@.len() + 2int
    }

    /// The entries accepted so far, in insertion order.
    pub open spec fn entries(self) -> Seq<(Seq<u8>, Seq<u8>)> {
        block_entries(self.data@, self.offsets@)
    }

    pub fn new(size: usize) -> (r: Self)
        requires
            size <= MAX_LEN_U16,
        ensures
            r.wf(),
            r.entries() == Seq::<(Seq<u8>, Seq<u8>)>::empty(),
            r.offsets@.len() == 0,
            r.block_size == size,
    {
        let r = BlockBuilder { offsets: Vec::new(), data: Vec::new(), block_size: size };
        proof {
            assert(r.entries() =~= Seq::<(Seq<u8>, Seq<u8>)>::empty());
        }
        r
    }

    fn estimated_size(&self) -> (r: usize)
        requires
            self.wf(),
        ensures
            r == self.estimated_size_spec(),
    {
        self.data.len() + 2 * self.offsets.len() + 2
    }

    pub fn is_empty(&self) -> (r: bool)
        ensures
            r == (self.offsets@.len() == 0),
    {
        self.offsets.len() == 0
    }

    /// Append the entry if it fits the size bound; an empty builder accepts
    /// any single entry, so an oversized entry is still storable. Returns
    /// whether the entry was accepted.
    #[must_use]
    pub fn add(&mut self, key: &[u8], value: &[u8]) -> (r: bool)
        requires
            old(self).wf(),
            1 <= key@.len() <= MAX_LEN_U16,
            value@.len() <= MAX_LEN_U16,
        ensures
            r == (old(self).offsets@.len() == 0 || old(self).estimated_size_spec() + key@.len()
                + value@.len() + 6 <= old(self).block_size),
            final(self).wf(),
            final(self).block_size == old(self).block_size,
            r ==> final(self).entries() == old(self).entries().push((key@, value@)),
            !r ==> *final(self) == *old(self),
    {
        if self.estimated_size() + key.len() + value.len() + 3 * 2 > self.block_size
            && !(self.offsets.len() == 0) {
            return false;
        }
        let ghost d0 = self.data@;
        let ghost offs0 = self.offsets@;
        let n0 = self.data.len();
        self.offsets.push(n0 as u16);
        put_u16(&mut self.data, key.len() as u16);
        put_bytes(&mut self.data, key);
        put_u16(&mut self.data, value.len() as u16);
        put_bytes(&mut self.data, value);
        proof {
            let kl = key@.len() as u16;
            let vl = value@.len() as u16;
            let kb = be16(kl);
            let vb = be16(vl);
            let d2 = self.data@;
            let offs2 = self.offsets@;
            let o = n0 as int;
            assert(d2 == d0 + kb + key@ + vb + value@);
            assert(d2.len() == d0.len() + 4 + key@.len() + value@.len());
            lemma_be16_round_trip(kl);
            lemma_be16_round_trip(vl);
            assert(d2[o] == kb[0] && d2[o + 1] == kb[1]);
            assert(klen_at(d2, o) == key@.len());
            assert(d2[o + 2 + key@.len()] == vb[0]);
            assert(d2[o + 2 + key@.len() + 1] == vb[1]);
            assert(vlen_at(d2, o) == value@.len());
            assert(key_at(d2, o) =~= key@);
            assert(val_at(d2, o) =~= value@);
            assert(entry_end(d2, o) == d2.len());
            assert forall|i: int| 0 <= i < offs0.len() implies {
                &&& klen_at(d2, offs0[i] as int) == klen_at(d0, offs0[i] as int)
                &&& vlen_at(d2, offs0[i] as int) == vlen_at(d0, offs0[i] as int)
                &&& key_at(d2, offs0[i] as int) == key_at(d0, offs0[i] as int)
                &&& val_at(d2, offs0[i] as int) == val_at(d0, offs0[i] as int)
                &&& entry_end(d2, offs0[i] as int) == entry_end(d0, offs0[i] as int)
            } by {
                lemma_block_wf_bounds(d0, offs0, i);
                lemma_entry_frame(d0, d2, offs0[i] as int);
            }
            assert(block_wf(d2, offs2)) by {
                assert(forall|i: int|
                    0 <= i < offs2.len() ==> #[trigger] offs2[i] == (if i < offs0.len() {
                        offs0[i]
                    } else {
                        n0 as u16
                    }));
            }
            assert(self.entries() =~= old(self).entries().push((key@, value@)));
        }
        true
    }

    /// Finalize the accumulated entries as a block. Building an empty block
    /// is a caller error and is excluded by contract.
    pub fn build(self) -> (r: Block)
        requires
            self.wf(),
            self.offsets@.len() > 0,
        ensures
            r.wf(),
            r.data@ == self.data@,
            r.offsets@ == self.offsets@,
            r.entries() == self.entries(),
    {
        Block { data: self.data, offsets: self.offsets }
    }
}

/// Cursor over the entries of one decoded block.
pub struct BlockIterator {
    /// The block being read.
    pub block: Block,
    /// Index of the current entry; entries are exhausted when it reaches
    /// the entry count.
    pub idx: usize,
}

impl BlockIterator {
    pub open spec fn wf(self) -> bool {
        &&& self.block.wf()
        &&& self.idx <= self.block.entries().len()
    }

    pub open spec fn entries(self) -> Seq<(Seq<u8>, Seq<u8>)> {
        self.block.entries()
    }

    /// Parse the key of entry `i` out of the block's buffer.
    fn key_of(block: &Block, i: usize) -> (r: Vec<u8>)
        requires
            block.wf(),
            i < block.entries().len(),
        ensures
            r@ == block.entries()[i as int].0,
    {
        proof {
            lemma_block_wf_bounds(block.data@, block.offsets@, i as int);
        }
        let o = block.offsets[i] as usize;
        let klen = get_u16(block.data.as_slice(), o) as usize;
        bytes_of_range(block.data.as_slice(), o + 2, klen)
    }

    /// Parse the value of entry `i` out of the block's buffer.
    fn value_of(block: &Block, i: usize) -> (r: Vec<u8>)
        requires
            block.wf(),
            i < block.entries().len(),
        ensures
            r@ == block.entries()[i as int].1,
    {
        proof {
            lemma_block_wf_bounds(block.data@, block.offsets@, i as int);
        }
        let o = block.offsets[i] as usize;
        let klen = get_u16(block.data.as_slice(), o) as usize;
        let vlen = get_u16(block.data.as_slice(), o + 2 + klen) as usize;
        bytes_of_range(block.data.as_slice(), o + 4 + klen, vlen)
    }

    pub fn create_and_seek_to_first(block: Block) -> (r: Self)
        requires
            block.wf(),
        ensures
            r.wf(),
            r.block == block,
            r.idx == 0,
    {
        BlockIterator { block, idx: 0 }
    }

    pub fn create_and_seek_to_key(block: Block, key: &[u8]) -> (r: Self)
        requires
            block.wf(),
            entries_sorted(block.entries()),
        ensures
            r.wf(),
            r.block == block,
            forall|j: int| 0 <= j < r.idx ==> lex_lt(#[trigger] r.entries()[j].0, key@),
            r.idx < r.entries().len() ==> !lex_lt(r.entries()[r.idx as int].0, key@),
    {
        let mut it = BlockIterator { block, idx: 0 };
        it.seek_to_key(key);
        it
    }

    pub fn seek_to_first(&mut self)
        requires
            old(self).wf(),
        ensures
            final(self).wf(),
            final(self).block == old(self).block,
            final(self).idx == 0,
    {
        self.idx = 0;
    }

    pub fn is_valid(&self) -> (r: bool)
        requires
            self.wf(),
        ensures
            r == (self.idx < self.entries().len()),
    {
        self.idx < self.block.offsets.len()
    }

    /// The current entry's key, as an owned copy.
    pub fn key(&self) -> (r: Vec<u8>)
        requires
            self.wf(),
            self.idx < self.entries().len(),
        ensures
            r@ == self.entries()[self.idx as int].0,
    {
        Self::key_of(&self.block, self.idx)
    }

    /// The current entry's value, as an owned copy.
    pub fn value(&self) -> (r: Vec<u8>)
        requires
            self.wf(),
            self.idx < self.entries().len(),
        ensures
            r@ == self.entries()[self.idx as int].1,
    {
        Self::value_of(&self.block, self.idx)
    }

    pub fn next(&mut self)
        requires
            old(self).wf(),
            old(self).idx < old(self).entries().len(),
        ensures
            final(self).wf(),
            final(self).block == old(self).block,
            final(self).idx == old(self).idx + 1,
    {
        self.idx = self.idx + 1;
    }

    /// Binary-search to the first entry whose key is at least `key`; lands
    /// one past the end when every key is below `key`.
    pub fn seek_to_key(&mut self, key: &[u8])
        requires
            old(self).wf(),
            entries_sorted(old(self).entries()),
        ensures
            final(self).wf(),
            final(self).block == old(self).block,
            forall|j: int| 0 <= j < final(self).idx ==> lex_lt(
                #[trigger] final(self).entries()[j].0,
                key@,
            ),
            final(self).idx < final(self).entries().len() ==> !lex_lt(
                final(self).entries()[final(self).idx as int].0,
                key@,
            ),
    {
        let ghost es = old(self).entries();
        let mut lo: usize = 0;
        let mut hi: usize = self.block.offsets.len();
        while lo < hi
            invariant
                self.wf(),
                *self == *old(self),
                es == self.entries(),
                entries_sorted(es),
                lo <= hi <= es.len(),
                forall|j: int| 0 <= j < lo ==> lex_lt(#[trigger] es[j].0, key@),
                forall|j: int| hi <= j < es.len() ==> !lex_lt(#[trigger] es[j].0, key@),
            decreases hi - lo,
        {
            let mid = lo + (hi - lo) / 2;
            let mk = Self::key_of(&self.block, mid);
            if bytes_lt(mk.as_slice(), key) {
                proof {
                    assert forall|j: int| 0 <= j < mid + 1 implies lex_lt(
                        #[trigger] es[j].0,
                        key@,
                    ) by {
                        if j < mid {
                            lemma_lex_lt_trans(es[j].0, es[mid as int].0, key@);
                        }
                    }
                }
                lo = mid + 1;
            } else {
                proof {
                    assert forall|j: int| mid <= j < es.len() implies !lex_lt(
                        #[trigger] es[j].0,
                        key@,
                    ) by {
                        if j > mid && lex_lt(es[j].0, key@) {
                            lemma_lex_lt_trans(es[mid as int].0, es[j].0, key@);
                        }
                    }
                }
                hi = mid;
            }
        }
        self.idx = lo;
    }
}

} // verus!
