//! The sorted-string table: an immutable byte image holding a run of encoded
//! blocks, followed by a meta index (one record per block: file offset and
//! first key), followed by a four-byte trailer giving the meta region's
//! offset.
//!
//! ```text
//! | block 0 | ... | block n-1 | meta 0 | ... | meta n-1 | meta_offset (u32) |
//! ```
//!
//! where each meta record is `offset (u32) | first_key_len (u16) | first_key`.
use crate::block::{
    block_entries, block_wf, entries_sorted, spec_decode_count, spec_decode_data,
    spec_decode_offsets, spec_encode, Block, BlockBuilder, MAX_LEN_U16,
};
use crate::wire::{
    be16, be32, bytes_le, bytes_lt, copy_bytes, copy_slice, lemma_be32_round_trip,
    lemma_lex_le_lt_trans, lemma_lex_lt_le_trans, lemma_lex_lt_trans, lemma_lex_lt_trichotomy,
    lex_le, lex_lt, put_bytes, put_u16, put_u32,
};
use vstd::prelude::*;

verus! {

/// Most entries one table accepts; keeps every file offset inside the
/// 32-bit trailer and meta fields.
pub const MAX_TABLE_ENTRIES: usize = 16384;

/// A meta record: where a block starts and the smallest key it holds.
pub struct BlockMeta {
    /// Byte offset of the block in the table image.
    pub offset: usize,
    /// The first (smallest) key of the block.
    pub first_key: Vec<u8>,
}

/// The mathematical content of a meta record.
pub open spec fn bm(m: BlockMeta) -> (int, Seq<u8>) {
    (m.offset as int, m.first_key@)
}

/// The mathematical content of a meta index.
pub open spec fn bms(ms: Seq<BlockMeta>) -> Seq<(int, Seq<u8>)> {
    ms.map_values(|m: BlockMeta| bm(m))
}

pub open spec fn meta_wf(v: (int, Seq<u8>)) -> bool {
    &&& 0 <= v.0 <= u32::MAX
    &&& 1 <= v.1.len() <= MAX_LEN_U16
}

pub open spec fn metas_wf(vs: Seq<(int, Seq<u8>)>) -> bool {
    forall|i: int| 0 <= i < vs.len() ==> meta_wf(#[trigger] vs[i])
}

/// The encoded form of one meta record.
pub open spec fn meta_bytes(v: (int, Seq<u8>)) -> Seq<u8> {
    be32(v.0 as u32) + be16(v.1.len() as u16) + v.1
}

/// The encoded form of a meta index: the records, concatenated.
pub open spec fn metas_bytes(vs: Seq<(int, Seq<u8>)>) -> Seq<u8>
    decreases vs.len(),
{
    if vs.len() == 0 {
        Seq::empty()
    } else {
        meta_bytes(vs[0]) + metas_bytes(vs.skip(1))
    }
}

/// Splitting the meta index splits its encoding.
pub proof fn lemma_metas_bytes_split(vs: Seq<(int, Seq<u8>)>, k: int)
    requires
        0 <= k <= vs.len(),
    ensures
        metas_bytes(vs) == metas_bytes(vs.subrange(0, k)) + metas_bytes(vs.skip(k)),
    decreases k,
{
    if k == 0 {
        assert(vs.subrange(0, 0) =~= Seq::<(int, Seq<u8>)>::empty());
        assert(vs.skip(0) =~= vs);
        assert(metas_bytes(vs.subrange(0, 0)) + metas_bytes(vs) =~= metas_bytes(vs));
    } else {
        let tail = vs.skip(1);
        lemma_metas_bytes_split(tail, k - 1);
        assert(tail.subrange(0, k - 1) =~= vs.subrange(1, k));
        assert(tail.skip(k - 1) =~= vs.skip(k));
        let head = vs.subrange(0, k);
        assert(head[0] == vs[0]);
        assert(head.skip(1) =~= vs.subrange(1, k));
        assert(metas_bytes(vs) == meta_bytes(vs[0]) + (metas_bytes(vs.subrange(1, k))
            + metas_bytes(vs.skip(k))));
        assert(meta_bytes(vs[0]) + (metas_bytes(vs.subrange(1, k)) + metas_bytes(vs.skip(k)))
            =~= (meta_bytes(vs[0]) + metas_bytes(vs.subrange(1, k))) + metas_bytes(vs.skip(k)));
    }
}

/// The encoded meta index is no longer than a fixed budget per record.
pub proof fn lemma_metas_bytes_len(vs: Seq<(int, Seq<u8>)>)
    requires
        metas_wf(vs),
    ensures
        metas_bytes(vs).len() <= 65541 * vs.len(),
    decreases vs.len(),
{
    if vs.len() > 0 {
        assert(metas_wf(vs.skip(1))) by {
            assert(forall|i: int|
                0 <= i < vs.skip(1).len() ==> #[trigger] vs.skip(1)[i] == vs[i + 1]);
        }
        lemma_metas_bytes_len(vs.skip(1));
    }
}

/// Append the encoded meta index to a buffer.
pub fn encode_block_meta(block_meta: &Vec<BlockMeta>, buf: &mut Vec<u8>)
    requires
        metas_wf(bms(block_meta@)),
    ensures
        final(buf)@ == old(buf)@ + metas_bytes(bms(block_meta@)),
{
    let ghost buf0 = buf@;
    let ghost vs = bms(block_meta@);
    let n = block_meta.len();
    proof {
        assert(buf@ =~= buf0 + metas_bytes(vs.subrange(0, 0)));
    }
    for i in 0..n
        invariant
            n == block_meta@.len(),
            vs == bms(block_meta@),
            metas_wf(vs),
            buf@ == buf0 + metas_bytes(vs.subrange(0, i as int)),
    {
        let m = &block_meta[i];
        proof {
            assert(vs[i as int] == bm(block_meta@[i as int]));
        }
        put_u32(buf, m.offset as u32);
        put_u16(buf, m.first_key.len() as u16);
        put_bytes(buf, m.first_key.as_slice());
        proof {
            lemma_metas_bytes_split(vs.subrange(0, i + 1), i as int);
            assert(vs.subrange(0, i + 1).subrange(0, i as int) =~= vs.subrange(0, i as int));
            let last = vs.subrange(0, i + 1).skip(i as int);
            assert(last.len() == 1 && last[0] == vs[i as int]);
            assert(metas_bytes(last.skip(1)) == Seq::<u8>::empty());
            assert(metas_bytes(last) =~= meta_bytes(vs[i as int]));
            assert(buf@ =~= buf0 + metas_bytes(vs.subrange(0, i + 1)));
        }
    }
    proof {
        assert(vs.subrange(0, n as int) =~= vs);
    }
}

/// A block region decodes to a well-formed, sorted, non-empty block and
/// re-encodes to the same bytes.
#[verifier::opaque]
pub open spec fn encoding_ok(bd: Seq<u8>) -> bool {
    &&& bd.len() >= 2
    &&& 2 * spec_decode_count(bd) + 2 <= bd.len()
    &&& spec_decode_count(bd) >= 1
    &&& block_wf(spec_decode_data(bd), spec_decode_offsets(bd))
    &&& bd == spec_encode(spec_decode_data(bd), spec_decode_offsets(bd))
    &&& entries_sorted(block_entries_of(bd))
}

/// The entries of an encoded block region.
#[verifier::opaque]
pub open spec fn block_entries_of(bd: Seq<u8>) -> Seq<(Seq<u8>, Seq<u8>)> {
    block_entries(spec_decode_data(bd), spec_decode_offsets(bd))
}

/// What `encoding_ok` gives of a region.
pub proof fn lemma_encoding_ok_facts(bd: Seq<u8>)
    requires
        encoding_ok(bd),
    ensures
        bd.len() >= 2,
        2 * spec_decode_count(bd) + 2 <= bd.len(),
        block_wf(spec_decode_data(bd), spec_decode_offsets(bd)),
        bd == spec_encode(spec_decode_data(bd), spec_decode_offsets(bd)),
        entries_sorted(block_entries_of(bd)),
        block_entries_of(bd) == block_entries(spec_decode_data(bd), spec_decode_offsets(bd)),
        block_entries_of(bd).len() >= 1,
{
    reveal(encoding_ok);
    reveal(block_entries_of);
}

/// The byte region of block `i` inside `file`, under meta index `ms` with the
/// block area ending at `end`.
pub open spec fn region(file: Seq<u8>, ms: Seq<(int, Seq<u8>)>, end: int, i: int) -> Seq<u8> {
    file.subrange(ms[i].0, region_end(ms, end, i))
}

pub open spec fn region_end(ms: Seq<(int, Seq<u8>)>, end: int, i: int) -> int {
    if i + 1 < ms.len() {
        ms[i + 1].0
    } else {
        end
    }
}

/// The entries of blocks `b..` of a table image, concatenated.
#[verifier::opaque]
pub open spec fn sst_entries_from(file: Seq<u8>, ms: Seq<(int, Seq<u8>)>, end: int, b: int) -> Seq<
    (Seq<u8>, Seq<u8>),
>
    decreases ms.len() - b,
{
    if b < 0 || b >= ms.len() {
        Seq::empty()
    } else {
        block_entries_of(region(file, ms, end, b)) + sst_entries_from(file, ms, end, b + 1)
    }
}

/// The block regions of a table image are ordered and lie inside the block
/// area.
pub open spec fn regions_wf(file: Seq<u8>, ms: Seq<(int, Seq<u8>)>, end: int) -> bool {
    &&& end <= file.len()
    &&& (ms.len() > 0 ==> ms[0].0 == 0)
    &&& (forall|i: int| 0 <= i < ms.len() ==> 0 <= #[trigger] ms[i].0 < region_end(ms, end, i))
    &&& (forall|i: int| 0 <= i < ms.len() ==> encoding_ok(#[trigger] region(file, ms, end, i)))
    &&& (forall|i: int|
        0 <= i < ms.len() ==> #[trigger] ms[i].1 == block_entries_of(region(file, ms, end, i))[0].0)
    &&& (forall|i: int|
        0 <= i && i + 1 < ms.len() ==> lex_lt(
            block_entries_of(#[trigger] region(file, ms, end, i)).last().0,
            ms[i + 1].1,
        ))
}

/// Every region ends at or before the block area's end.
pub proof fn lemma_region_bounds(file: Seq<u8>, ms: Seq<(int, Seq<u8>)>, end: int, i: int)
    requires
        regions_wf(file, ms, end),
        0 <= i < ms.len(),
    ensures
        ms[i].0 < region_end(ms, end, i) <= end,
        i + 1 < ms.len() ==> ms[i].0 < ms[i + 1].0,
    decreases ms.len() - i,
{
    if i + 1 < ms.len() {
        lemma_region_bounds(file, ms, end, i + 1);
    }
}

/// Appending an entry above the last key keeps a run sorted.
pub proof fn lemma_sorted_push(es: Seq<(Seq<u8>, Seq<u8>)>, e: (Seq<u8>, Seq<u8>))
    requires
        entries_sorted(es),
        es.len() > 0 ==> lex_lt(es.last().0, e.0),
    ensures
        entries_sorted(es.push(e)),
{
    let es2 = es.push(e);
    assert forall|i: int, j: int| 0 <= i < j < es2.len() implies lex_lt(
        #[trigger] es2[i].0,
        #[trigger] es2[j].0,
    ) by {
        if j < es.len() {
        } else {
            assert(es2[j] == e);
            if i < es.len() - 1 {
                assert(lex_lt(es[i].0, es.last().0));
                lemma_lex_lt_trans(es[i].0, es.last().0, e.0);
            }
        }
    }
}

/// Extending the file past the block area changes no region and no entry.
pub proof fn lemma_regions_extend(d: Seq<u8>, ms: Seq<(int, Seq<u8>)>, f: Seq<u8>, b: int)
    requires
        regions_wf(d, ms, d.len() as int),
        f.len() >= d.len(),
        f.subrange(0, d.len() as int) == d,
        0 <= b <= ms.len(),
    ensures
        regions_wf(f, ms, d.len() as int),
        sst_entries_from(f, ms, d.len() as int, b) == sst_entries_from(d, ms, d.len() as int, b),
    decreases ms.len() - b,
{
    reveal(sst_entries_from);
    assert forall|i: int| 0 <= i < ms.len() implies region(f, ms, d.len() as int, i) == region(
        d,
        ms,
        d.len() as int,
        i,
    ) by {
        lemma_region_bounds(d, ms, d.len() as int, i);
        assert(region(f, ms, d.len() as int, i) =~= region(d, ms, d.len() as int, i));
    }
    let dl = d.len() as int;
    assert forall|i: int| 0 <= i < ms.len() implies encoding_ok(#[trigger] region(f, ms, dl, i))
        && ms[i].1 == block_entries_of(region(f, ms, dl, i))[0].0 by {
        assert(region(f, ms, dl, i) == region(d, ms, dl, i));
    }
    assert forall|i: int| 0 <= i && i + 1 < ms.len() implies lex_lt(
        block_entries_of(#[trigger] region(f, ms, dl, i)).last().0,
        ms[i + 1].1,
    ) by {
        lemma_region_bounds(d, ms, dl, i);
        assert(region(f, ms, dl, i) =~= region(d, ms, dl, i));
    }
    if b < ms.len() {
        lemma_regions_extend(d, ms, f, b + 1);
    }
}

/// Finishing a block appends its entries to the finished run.
pub proof fn lemma_entries_from_append(
    d1: Seq<u8>,
    ms1: Seq<(int, Seq<u8>)>,
    d2: Seq<u8>,
    m: (int, Seq<u8>),
    b: int,
)
    requires
        regions_wf(d1, ms1, d1.len() as int),
        m.0 == d1.len(),
        d2.len() > d1.len(),
        d2.subrange(0, d1.len() as int) == d1,
        0 <= b <= ms1.len(),
    ensures
        sst_entries_from(d2, ms1.push(m), d2.len() as int, b) == sst_entries_from(
            d1,
            ms1,
            d1.len() as int,
            b,
        ) + block_entries_of(d2.subrange(d1.len() as int, d2.len() as int)),
    decreases ms1.len() - b,
{
    reveal(sst_entries_from);
    let ms2 = ms1.push(m);
    let tail = block_entries_of(d2.subrange(d1.len() as int, d2.len() as int));
    if b == ms1.len() {
        assert(region(d2, ms2, d2.len() as int, b) =~= d2.subrange(
            d1.len() as int,
            d2.len() as int,
        ));
        assert(sst_entries_from(d2, ms2, d2.len() as int, b + 1) == Seq::<(Seq<u8>, Seq<u8>)
        >::empty());
        assert(sst_entries_from(d2, ms2, d2.len() as int, b) =~= Seq::<(Seq<u8>, Seq<u8>)
        >::empty() + tail);
        assert(Seq::<(Seq<u8>, Seq<u8>)>::empty() + tail =~= tail);
        assert(sst_entries_from(d1, ms1, d1.len() as int, b) + tail =~= tail);
    } else {
        lemma_entries_from_append(d1, ms1, d2, m, b + 1);
        lemma_region_bounds(d1, ms1, d1.len() as int, b);
        assert(region_end(ms2, d2.len() as int, b) == region_end(ms1, d1.len() as int, b));
        assert(region(d2, ms2, d2.len() as int, b) =~= region(d1, ms1, d1.len() as int, b));
        let blk = block_entries_of(region(d1, ms1, d1.len() as int, b));
        assert(sst_entries_from(d2, ms2, d2.len() as int, b) == blk + (sst_entries_from(
            d1,
            ms1,
            d1.len() as int,
            b + 1,
        ) + tail));
        assert(blk + (sst_entries_from(d1, ms1, d1.len() as int, b + 1) + tail) =~= (blk
            + sst_entries_from(d1, ms1, d1.len() as int, b + 1)) + tail);
    }
}

/// The first key of a block lies below the next block's first key.
#[verifier::spinoff_prover]
proof fn lemma_first_key_step(file: Seq<u8>, ms: Seq<(int, Seq<u8>)>, end: int, i: int)
    requires
        regions_wf(file, ms, end),
        0 <= i,
        i + 1 < ms.len(),
    ensures
        lex_lt(ms[i].1, ms[i + 1].1),
{
    let rg = region(file, ms, end, i);
    assert(encoding_ok(rg));
    lemma_encoding_ok_facts(rg);
    let es = block_entries_of(rg);
    // first key of block i <= its last key < first key of block i + 1
    assert(lex_le(es[0].0, es.last().0)) by {
        if es.len() > 1 {
            assert(lex_lt(es[0].0, es.last().0));
        }
    }
    assert(lex_lt(es.last().0, ms[i + 1].1));
    lemma_lex_le_lt_trans(es[0].0, es.last().0, ms[i + 1].1);
}

/// The first keys of an ordered block area ascend strictly.
pub proof fn lemma_region_first_keys_sorted(
    file: Seq<u8>,
    ms: Seq<(int, Seq<u8>)>,
    end: int,
    i: int,
    j: int,
)
    requires
        regions_wf(file, ms, end),
        0 <= i < j < ms.len(),
    ensures
        lex_lt(ms[i].1, ms[j].1),
    decreases j - i,
{
    lemma_first_key_step(file, ms, end, i);
    if i + 1 < j {
        lemma_region_first_keys_sorted(file, ms, end, i + 1, j);
        lemma_lex_lt_trans(ms[i].1, ms[i + 1].1, ms[j].1);
    }
}

/// Appending one sealed block to the block area keeps the regions ordered.
pub proof fn lemma_regions_push(
    d0: Seq<u8>,
    ms0: Seq<(int, Seq<u8>)>,
    d1: Seq<u8>,
    m: (int, Seq<u8>),
)
    requires
        regions_wf(d0, ms0, d0.len() as int),
        ms0.len() == 0 ==> d0.len() == 0,
        m.0 == d0.len(),
        d1.len() > d0.len(),
        d1.subrange(0, d0.len() as int) == d0,
        encoding_ok(d1.subrange(d0.len() as int, d1.len() as int)),
        m.1 == block_entries_of(d1.subrange(d0.len() as int, d1.len() as int))[0].0,
        ms0.len() > 0 ==> lex_lt(
            block_entries_of(region(d0, ms0, d0.len() as int, ms0.len() - 1)).last().0,
            m.1,
        ),
    ensures
        regions_wf(d1, ms0.push(m), d1.len() as int),
{
    let ms1 = ms0.push(m);
    let rg = d1.subrange(d0.len() as int, d1.len() as int);
    assert forall|i: int| 0 <= i < ms1.len() implies 0 <= #[trigger] ms1[i].0 < region_end(
        ms1,
        d1.len() as int,
        i,
    ) && region(d1, ms1, d1.len() as int, i) == (if i < ms0.len() {
        region(d0, ms0, d0.len() as int, i)
    } else {
        rg
    }) by {
        if i < ms0.len() {
            lemma_region_bounds(d0, ms0, d0.len() as int, i);
            assert(region_end(ms1, d1.len() as int, i) == region_end(ms0, d0.len() as int, i));
            assert(region(d1, ms1, d1.len() as int, i) =~= region(d0, ms0, d0.len() as int, i));
        } else {
            assert(region(d1, ms1, d1.len() as int, i) =~= rg);
        }
    }
    assert forall|i: int| 0 <= i && i + 1 < ms1.len() implies lex_lt(
        block_entries_of(#[trigger] region(d1, ms1, d1.len() as int, i)).last().0,
        ms1[i + 1].1,
    ) by {
        if i + 1 < ms0.len() {
            assert(region(d1, ms1, d1.len() as int, i) == region(d0, ms0, d0.len() as int, i));
        } else {
            assert(i == ms0.len() - 1);
            assert(region(d1, ms1, d1.len() as int, i) == region(d0, ms0, d0.len() as int, i));
        }
    }
}

/// Every key of an ordered block lies between its first and its last key.
proof fn lemma_block_key_span(bd: Seq<u8>, t: int)
    requires
        encoding_ok(bd),
        0 <= t < block_entries_of(bd).len(),
    ensures
        lex_le(block_entries_of(bd)[0].0, block_entries_of(bd)[t].0),
        lex_le(block_entries_of(bd)[t].0, block_entries_of(bd).last().0),
{
    lemma_encoding_ok_facts(bd);
    let es = block_entries_of(bd);
    if t > 0 {
        assert(lex_lt(es[0].0, es[t].0));
    }
    if t < es.len() - 1 {
        assert(lex_lt(es[t].0, es.last().0));
    }
}

/// Blocks whose first key lies above `k` hold nothing under `k`.
proof fn lemma_tail_lookup_none(file: Seq<u8>, ms: Seq<(int, Seq<u8>)>, end: int, b: int, k: Seq<u8>)
    requires
        regions_wf(file, ms, end),
        0 <= b,
        forall|i: int| b <= i < ms.len() ==> lex_lt(k, #[trigger] ms[i].1),
    ensures
        crate::mem_table::seq_get(sst_entries_from(file, ms, end, b), k) is None,
    decreases ms.len() - b,
{
    reveal(sst_entries_from);
    if b >= ms.len() {
        assert(sst_entries_from(file, ms, end, b) =~= Seq::<(Seq<u8>, Seq<u8>)>::empty());
    } else {
        let rg = region(file, ms, end, b);
        assert(encoding_ok(rg));
        lemma_encoding_ok_facts(rg);
        let es = block_entries_of(rg);
        assert forall|t: int| 0 <= t < es.len() implies (#[trigger] es[t]).0 != k by {
            lemma_block_key_span(rg, t);
            lemma_lex_lt_le_trans(k, ms[b].1, es[t].0);
            crate::wire::lemma_lex_lt_irrefl(k);
        }
        crate::mem_table::lemma_seq_get_none(es, k);
        lemma_tail_lookup_none(file, ms, end, b + 1, k);
        crate::mem_table::lemma_seq_get_concat(
            es,
            sst_entries_from(file, ms, end, b + 1),
            k,
        );
    }
}

/// The only block that can hold `k` is the last one whose first key is at
/// most `k`: the whole table's lookup equals that block's lookup.
#[verifier::rlimit(100)]
#[verifier::spinoff_prover]
proof fn lemma_table_lookup_at_block(
    file: Seq<u8>,
    ms: Seq<(int, Seq<u8>)>,
    end: int,
    b: int,
    j: int,
    k: Seq<u8>,
)
    requires
        regions_wf(file, ms, end),
        0 <= b <= j < ms.len(),
        j > 0 ==> lex_le(ms[j].1, k),
        forall|i: int| j < i < ms.len() ==> !lex_le(#[trigger] ms[i].1, k),
    ensures
        crate::mem_table::seq_get(sst_entries_from(file, ms, end, b), k)
            == crate::mem_table::seq_get(block_entries_of(region(file, ms, end, j)), k),
    decreases ms.len() - b,
{
    reveal(sst_entries_from);
    let rg = region(file, ms, end, b);
    assert(encoding_ok(rg));
    lemma_encoding_ok_facts(rg);
    let es = block_entries_of(rg);
    let rest = sst_entries_from(file, ms, end, b + 1);
    crate::mem_table::lemma_seq_get_concat(es, rest, k);
    if b == j {
        assert forall|i: int| j + 1 <= i < ms.len() implies lex_lt(k, #[trigger] ms[i].1) by {
            lemma_lex_lt_trichotomy(k, ms[i].1);
        }
        lemma_tail_lookup_none(file, ms, end, j + 1, k);
    } else {
        // this block's keys all lie strictly below `k`
        assert forall|t: int| 0 <= t < es.len() implies (#[trigger] es[t]).0 != k by {
            lemma_block_key_span(rg, t);
            assert(lex_lt(es.last().0, ms[b + 1].1));
            if b + 1 < j {
                lemma_region_first_keys_sorted(file, ms, end, b + 1, j);
            }
            // es[t] <= last < first(b+1) <= first(j) <= k
            lemma_lex_le_lt_trans(es[t].0, es.last().0, ms[b + 1].1);
            if b + 1 < j {
                lemma_lex_lt_trans(es[t].0, ms[b + 1].1, ms[j].1);
            }
            lemma_lex_lt_le_trans(es[t].0, ms[j].1, k);
            crate::wire::lemma_lex_lt_irrefl(k);
        }
        crate::mem_table::lemma_seq_get_none(es, k);
        lemma_table_lookup_at_block(file, ms, end, b + 1, j, k);
    }
}

/// A shared cache of decoded blocks, keyed by table id and block index.
/// Concurrent misses on one key coalesce into a single decode.
#[verifier::external_body]
pub struct BlockCache {
    cache: moka::sync::Cache<(usize, usize), Block>,
}

impl BlockCache {
    /// Relies on moka::sync::Cache::new: an empty cache bounded to
    /// `capacity` entries.
    #[verifier::external_body]
    pub fn new(capacity: u64) -> (r: BlockCache) {
        BlockCache { cache: moka::sync::Cache::new(capacity) }
    }

    /// Relies on moka::sync::Cache::clone: another handle to the same shared
    /// cache, not a copy of its contents.
    #[verifier::external_body]
    pub fn clone_handle(&self) -> (r: BlockCache) {
        BlockCache { cache: self.cache.clone() }
    }

    /// Relies on moka::sync::Cache::get_with: returns the value cached under
    /// the key, or, on a miss, runs the loader once (coalescing concurrent
    /// misses) and caches its result. Which of the two happened is not
    /// visible here, so nothing is promised of the returned block; the
    /// caller re-validates it against the bytes it must encode.
    #[verifier::external_body]
    fn get_with(&self, id: usize, idx: usize, raw: &[u8]) -> (r: Block)
        requires
            raw@.len() >= 2,
            2 * spec_decode_count(raw@) + 2 <= raw@.len(),
    {
        self.cache.get_with((id, idx), || Block::decode(raw))
    }
}

/// An immutable sorted-string table held as one encoded image.
pub struct SsTable {
    /// The full encoded image: blocks, meta index, trailer.
    pub file_bytes: Vec<u8>,
    /// The decoded meta index.
    pub metas: Vec<BlockMeta>,
    /// Where the meta index starts; the blocks end there.
    pub meta_offset: usize,
    /// The table's unique id.
    pub id: usize,
    /// The shared block cache, if one is attached.
    pub block_cache: Option<BlockCache>,
}

impl SsTable {
    pub open spec fn wf(self) -> bool {
        &&& 1 <= self.metas@.len() <= MAX_TABLE_ENTRIES
        &&& metas_wf(bms(self.metas@))
        &&& regions_wf(self.file_bytes@, bms(self.metas@), self.meta_offset as int)
        &&& self.meta_offset <= u32::MAX
        &&& self.file_bytes@.len() == self.meta_offset + metas_bytes(bms(self.metas@)).len() + 4
        &&& self.file_bytes@.subrange(
            self.meta_offset as int,
            self.file_bytes@.len() - 4,
        ) == metas_bytes(bms(self.metas@))
        &&& self.file_bytes@.subrange(self.file_bytes@.len() - 4, self.file_bytes@.len() as int)
            == be32(self.meta_offset as u32)
    }

    /// All entries of the table, in key order.
    pub open spec fn entries(self) -> Seq<(Seq<u8>, Seq<u8>)> {
        sst_entries_from(self.file_bytes@, bms(self.metas@), self.meta_offset as int, 0)
    }

    /// The entries of block `i`.
    pub open spec fn block_at(self, i: int) -> Seq<(Seq<u8>, Seq<u8>)> {
        block_entries_of(region(self.file_bytes@, bms(self.metas@), self.meta_offset as int, i))
    }

    pub fn num_of_blocks(&self) -> (r: usize)
        ensures
            r == self.metas@.len(),
    {
        self.metas.len()
    }

    /// The first keys of the meta index ascend strictly.
    pub proof fn lemma_first_keys_sorted(self, i: int, j: int)
        requires
            self.wf(),
            0 <= i < j < self.metas@.len(),
        ensures
            lex_lt(self.metas@[i].first_key@, self.metas@[j].first_key@),
    {
        lemma_region_first_keys_sorted(
            self.file_bytes@,
            bms(self.metas@),
            self.meta_offset as int,
            i,
            j,
        );
    }

    /// The block that may contain `key`: the last block whose first key is at
    /// most `key`, or block 0 when `key` is below every first key.
    #[verifier::rlimit(100)]
    pub fn find_block_idx(&self, key: &[u8]) -> (r: usize)
        requires
            self.wf(),
        ensures
            r < self.metas@.len(),
            r > 0 ==> lex_le(self.metas@[r as int].first_key@, key@),
            forall|j: int|
                r < j < self.metas@.len() ==> !lex_le(
                    #[trigger] self.metas@[j].first_key@,
                    key@,
                ),
    {
        let n = self.metas.len();
        let mut lo: usize = 0;
        let mut hi: usize = n;
        while lo < hi
            invariant
                self.wf(),
                n == self.metas@.len(),
                lo <= hi <= n,
                forall|j: int| 0 <= j < lo ==> lex_le(#[trigger] self.metas@[j].first_key@, key@),
                forall|j: int| hi <= j < n ==> !lex_le(#[trigger] self.metas@[j].first_key@, key@),
            decreases hi - lo,
        {
            let mid = lo + (hi - lo) / 2;
            if bytes_le(self.metas[mid].first_key.as_slice(), key) {
                proof {
                    assert forall|j: int| 0 <= j < mid + 1 implies lex_le(
                        #[trigger] self.metas@[j].first_key@,
                        key@,
                    ) by {
                        if j < mid {
                            self.lemma_first_keys_sorted(j, mid as int);
                            lemma_lex_lt_le_trans(
                                self.metas@[j].first_key@,
                                self.metas@[mid as int].first_key@,
                                key@,
                            );
                        }
                    }
                }
                lo = mid + 1;
            } else {
                proof {
                    assert forall|j: int| mid <= j < n implies !lex_le(
                        #[trigger] self.metas@[j].first_key@,
                        key@,
                    ) by {
                        if j > mid && lex_le(self.metas@[j].first_key@, key@) {
                            self.lemma_first_keys_sorted(mid as int, j);
                            lemma_lex_lt_le_trans(
                                self.metas@[mid as int].first_key@,
                                self.metas@[j].first_key@,
                                key@,
                            );
                        }
                    }
                }
                hi = mid;
            }
        }
        if lo == 0 {
            0
        } else {
            lo - 1
        }
    }

    /// Slice out and decode block `block_idx` of the image.
    pub fn read_block(&self, block_idx: usize) -> (r: Block)
        requires
            self.wf(),
            block_idx < self.metas@.len(),
        ensures
            r.wf(),
            r.entries() == self.block_at(block_idx as int),
            entries_sorted(r.entries()),
            r.entries().len() >= 1,
    {
        proof {
            lemma_region_bounds(
                self.file_bytes@,
                bms(self.metas@),
                self.meta_offset as int,
                block_idx as int,
            );
            lemma_encoding_ok_facts(
                region(self.file_bytes@, bms(self.metas@), self.meta_offset as int, block_idx as int),
            );
        }
        let off = self.metas[block_idx].offset;
        let end = if block_idx + 1 < self.metas.len() {
            self.metas[block_idx + 1].offset
        } else {
            self.meta_offset
        };
        let raw = vstd::slice::slice_subrange(self.file_bytes.as_slice(), off, end);
        Block::decode(raw)
    }

    /// Like `read_block`, but consults the shared cache first. A cached block
    /// is trusted only after it is checked to encode back to the exact bytes
    /// of the region, so a wrong cache entry cannot change the result.
    pub fn read_block_cached(&self, block_idx: usize) -> (r: Block)
        requires
            self.wf(),
            block_idx < self.metas@.len(),
        ensures
            r.wf(),
            r.entries() == self.block_at(block_idx as int),
            entries_sorted(r.entries()),
            r.entries().len() >= 1,
    {
        match &self.block_cache {
            Option::Some(cache) => {
                proof {
                    lemma_region_bounds(
                        self.file_bytes@,
                        bms(self.metas@),
                        self.meta_offset as int,
                        block_idx as int,
                    );
                    lemma_encoding_ok_facts(
                        region(
                            self.file_bytes@,
                            bms(self.metas@),
                            self.meta_offset as int,
                            block_idx as int,
                        ),
                    );
                }
                let off = self.metas[block_idx].offset;
                let end = if block_idx + 1 < self.metas.len() {
                    self.metas[block_idx + 1].offset
                } else {
                    self.meta_offset
                };
                let raw = vstd::slice::slice_subrange(self.file_bytes.as_slice(), off, end);
                let blk = cache.get_with(self.id, block_idx, raw);
                if blk.offsets.len() <= MAX_LEN_U16 {
                    let enc = blk.encode();
                    if crate::wire::bytes_eq(enc.as_slice(), raw) {
                        proof {
                            crate::block::lemma_block_round_trip(blk.data@, blk.offsets@);
                        }
                        return blk;
                    }
                }
                Block::decode(raw)
            },
            Option::None => self.read_block(block_idx),
        }
    }

    /// Exactly what the table stores under `key`, tombstones included:
    /// locate the one block that can hold it, then search that block.
    pub fn get(&self, key: &[u8]) -> (r: Option<Vec<u8>>)
        requires
            self.wf(),
        ensures
            match r {
                Option::Some(v) => crate::mem_table::seq_get(self.entries(), key@)
                    == Option::Some(v@),
                Option::None => crate::mem_table::seq_get(self.entries(), key@) is None,
            },
    {
        let ghost ms = bms(self.metas@);
        let ghost end = self.meta_offset as int;
        let j = self.find_block_idx(key);
        let blk = self.read_block_cached(j);
        let ghost es = blk.entries();
        proof {
            assert forall|i: int| (j as int) < i < ms.len() implies !lex_le(
                #[trigger] ms[i].1,
                key@,
            ) by {
                assert(ms[i] == bm(self.metas@[i]));
            }
            if j > 0 {
                assert(ms[j as int] == bm(self.metas@[j as int]));
            }
            lemma_table_lookup_at_block(self.file_bytes@, ms, end, 0, j as int, key@);
        }
        let it = crate::block::BlockIterator::create_and_seek_to_key(blk, key);
        if it.is_valid() {
            let ik = it.key();
            if crate::wire::bytes_eq(ik.as_slice(), key) {
                proof {
                    crate::mem_table::lemma_seq_get_at(es, key@, it.idx as int);
                }
                return Option::Some(it.value());
            }
        }
        proof {
            if it.idx < es.len() && es[it.idx as int].0 != key@ {
                lemma_lex_lt_trichotomy(key@, es[it.idx as int].0);
            }
            assert forall|t: int| 0 <= t < es.len() implies (#[trigger] es[t]).0 != key@ by {
                crate::wire::lemma_lex_lt_irrefl(key@);
                if t >= it.idx {
                    assert(lex_lt(key@, es[it.idx as int].0));
                    if t > it.idx {
                        lemma_lex_lt_trans(key@, es[it.idx as int].0, es[t].0);
                    }
                }
            }
            crate::mem_table::lemma_seq_get_none(es, key@);
        }
        Option::None
    }
}

/// Streams ascending key-value entries into blocks, sealing a block whenever
/// the next entry does not fit, and finalizes the whole run as one table.
pub struct SsTableBuilder {
    /// The block being filled.
    pub builder: BlockBuilder,
    /// First key of the block being filled.
    pub first_key: Vec<u8>,
    /// Encoded finished blocks, concatenated.
    pub data: Vec<u8>,
    /// One meta record per finished block.
    pub meta: Vec<BlockMeta>,
    /// Target size of each block, in bytes.
    pub block_size: usize,
}

impl SsTableBuilder {
    /// Entries already sealed into finished blocks.
    pub open spec fn finished(self) -> Seq<(Seq<u8>, Seq<u8>)> {
        sst_entries_from(self.data@, bms(self.meta@), self.data@.len() as int, 0)
    }

    /// All entries accepted so far, in insertion (equally: key) order.
    pub open spec fn entries(self) -> Seq<(Seq<u8>, Seq<u8>)> {
        self.finished() + self.builder.entries()
    }

    pub open spec fn wf(self) -> bool {
        &&& self.builder.wf()
        &&& self.builder.block_size == self.block_size
        &&& self.block_size <= MAX_LEN_U16
        &&& metas_wf(bms(self.meta@))
        &&& regions_wf(self.data@, bms(self.meta@), self.data@.len() as int)
        &&& entries_sorted(self.entries())
        &&& (self.builder.entries().len() > 0 ==> self.first_key@ == self.builder.entries()[0].0)
        &&& (self.meta@.len() > 0 ==> self.finished().len() > 0 && self.finished().last()
            == block_entries_of(
            region(
                self.data@,
                bms(self.meta@),
                self.data@.len() as int,
                self.meta@.len() - 1,
            ),
        ).last())
        &&& (self.meta@.len() > 0 && self.builder.entries().len() > 0 ==> lex_lt(
            self.finished().last().0,
            self.builder.entries()[0].0,
        ))
        &&& (self.finished().len() > 0 ==> self.builder.entries().len() > 0)
        &&& (self.meta@.len() == 0 ==> self.data@.len() == 0)
        &&& self.meta@.len() <= self.finished().len()
        &&& self.data@.len() + self.builder.data@.len() + 2 * self.builder.offsets@.len() + 6
            * self.meta@.len() <= 131084 * self.entries().len()
    }

    pub fn new(block_size: usize) -> (r: Self)
        requires
            block_size <= MAX_LEN_U16,
        ensures
            r.wf(),
            r.entries() == Seq::<(Seq<u8>, Seq<u8>)>::empty(),
            r.block_size == block_size,
    {
        let r = SsTableBuilder {
            builder: BlockBuilder::new(block_size),
            first_key: Vec::new(),
            data: Vec::new(),
            meta: Vec::new(),
            block_size,
        };
        proof {
            reveal(sst_entries_from);
            assert(bms(r.meta@) =~= Seq::<(int, Seq<u8>)>::empty());
            assert(r.finished() =~= Seq::<(Seq<u8>, Seq<u8>)>::empty());
            assert(r.entries() =~= Seq::<(Seq<u8>, Seq<u8>)>::empty());
        }
        r
    }

    /// Seal the block being filled: record its meta, append its encoding.
    #[verifier::rlimit(100)]
    #[verifier::spinoff_prover]
    fn finish_block(&mut self)
        requires
            old(self).wf(),
            old(self).builder.entries().len() > 0,
            old(self).entries().len() <= MAX_TABLE_ENTRIES,
        ensures
            final(self).block_size == old(self).block_size,
            final(self).builder.wf(),
            final(self).builder.block_size == old(self).block_size,
            final(self).builder.entries().len() == 0,
            final(self).builder.offsets@.len() == 0,
            final(self).builder.data@.len() == 0,
            final(self).meta@.len() == old(self).meta@.len() + 1,
            metas_wf(bms(final(self).meta@)),
            regions_wf(final(self).data@, bms(final(self).meta@), final(self).data@.len() as int),
            final(self).finished() == old(self).entries(),
            final(self).entries() == old(self).entries(),
            final(self).finished().len() > 0,
            final(self).finished().last() == block_entries_of(
                region(
                    final(self).data@,
                    bms(final(self).meta@),
                    final(self).data@.len() as int,
                    final(self).meta@.len() - 1,
                ),
            ).last(),
            final(self).meta@.len() <= final(self).finished().len(),
            final(self).data@.len() + 6 * final(self).meta@.len() <= 131084
                * final(self).entries().len() + 8,
            entries_sorted(final(self).entries()),
    {
        let ghost bd = self.builder.data@;
        let ghost boffs = self.builder.offsets@;
        let ghost ms0 = bms(self.meta@);
        let ghost d0 = self.data@;
        let mut fresh = BlockBuilder::new(self.block_size);
        core::mem::swap(&mut self.builder, &mut fresh);
        let blk = fresh.build();
        let enc = blk.encode();
        let off = self.data.len();
        let mut fk: Vec<u8> = Vec::new();
        core::mem::swap(&mut self.first_key, &mut fk);
        self.meta.push(BlockMeta { offset: off, first_key: fk });
        put_bytes(&mut self.data, enc.as_slice());
        proof {
            let m = (off as int, old(self).first_key@);
            let ms1 = bms(self.meta@);
            let d1 = self.data@;
            assert(ms1 =~= ms0.push(m));
            assert(d1.subrange(0, d0.len() as int) =~= d0);
            let rg = d1.subrange(d0.len() as int, d1.len() as int);
            assert(rg =~= spec_encode(bd, boffs));
            crate::block::lemma_block_round_trip(bd, boffs);
            assert(block_entries_of(rg) == old(self).builder.entries()) by {
                reveal(block_entries_of);
            }
            // the run the builder held is sorted: it is a suffix of a sorted run
            let fin0 = old(self).finished();
            let be = old(self).builder.entries();
            assert(entries_sorted(be)) by {
                assert forall|i: int, j: int| 0 <= i < j < be.len() implies lex_lt(
                    #[trigger] be[i].0,
                    #[trigger] be[j].0,
                ) by {
                    assert(old(self).entries()[fin0.len() + i] == be[i]);
                    assert(old(self).entries()[fin0.len() + j] == be[j]);
                }
            }
            assert(encoding_ok(rg)) by {
                reveal(encoding_ok);
                reveal(block_entries_of);
            }
            // the first key recorded is the first key of the sealed block
            crate::block::lemma_block_wf_bounds(bd, boffs, 0);
            assert(m.1 == block_entries_of(rg)[0].0);
            assert(meta_wf(m)) by {
                assert(be[0].0.len() == crate::block::klen_at(bd, boffs[0] as int));
            }
            assert(metas_wf(ms1)) by {
                assert(forall|i: int|
                    0 <= i < ms0.len() ==> ms1[i] == #[trigger] ms0[i] && meta_wf(ms0[i]));
            }
            lemma_regions_push(d0, ms0, d1, m);
            lemma_entries_from_append(d0, ms0, d1, m, 0);
            assert(self.finished() == fin0 + be);
            assert(self.finished() =~= old(self).entries());
            assert(self.entries() =~= self.finished());
            assert(self.finished().last() == be.last());
            assert(block_entries_of(
                region(d1, ms1, d1.len() as int, ms1.len() - 1),
            ) == block_entries_of(rg)) by {
                assert(region(d1, ms1, d1.len() as int, ms1.len() - 1) =~= rg);
            }
        }
    }

    /// Append the next entry; keys must arrive in strictly ascending order.
    /// Seals the current block first when the entry does not fit it.
    pub fn add(&mut self, key: &[u8], value: &[u8])
        requires
            old(self).wf(),
            1 <= key@.len() <= MAX_LEN_U16,
            value@.len() <= MAX_LEN_U16,
            old(self).entries().len() < MAX_TABLE_ENTRIES,
            old(self).entries().len() == 0 || lex_lt(old(self).entries().last().0, key@),
        ensures
            final(self).wf(),
            final(self).block_size == old(self).block_size,
            final(self).entries() == old(self).entries().push((key@, value@)),
    {
        if self.builder.is_empty() {
            self.first_key = copy_slice(key);
        }
        let ghost pre = *self;
        let ok = self.builder.add(key, value);
        if ok {
            proof {
                let e = (key@, value@);
                assert(self.finished() == pre.finished());
                assert(self.entries() =~= pre.entries().push(e));
                lemma_sorted_push(pre.entries(), e);
                if pre.builder.entries().len() > 0 {
                    assert(self.builder.entries()[0] == pre.builder.entries()[0]);
                } else {
                    assert(self.builder.entries()[0] == e);
                }
            }
            return;
        }
        self.finish_block();
        let ghost mid = *self;
        let ok2 = self.builder.add(key, value);
        assert(ok2);
        self.first_key = copy_slice(key);
        proof {
            let e = (key@, value@);
            assert(self.finished() == mid.finished());
            assert(self.builder.entries() =~= Seq::<(Seq<u8>, Seq<u8>)>::empty().push(e));
            assert(self.entries() =~= pre.entries().push(e));
            lemma_sorted_push(pre.entries(), e);
            assert(self.builder.entries()[0] == e);
            assert(self.finished().last().0 == pre.entries().last().0);
        }
    }

    /// Seal the last block, append the meta index and the trailer, and hand
    /// back the finished table.
    pub fn build(self, id: usize, block_cache: Option<BlockCache>) -> (r: SsTable)
        requires
            self.wf(),
            1 <= self.entries().len() <= MAX_TABLE_ENTRIES,
        ensures
            r.wf(),
            r.entries() == self.entries(),
            r.id == id,
            r.metas@.len() == self.meta@.len() + (if self.builder.entries().len() > 0 {
                1int
            } else {
                0int
            }),
    {
        let mut b = self;
        proof {
            if b.builder.entries().len() == 0 {
                assert(b.finished().len() == 0);
                assert(b.entries().len() == 0);
            }
        }
        proof {
            reveal(sst_entries_from);
        }
        b.finish_block();
        let meta_offset = b.data.len();
        let ghost d = b.data@;
        let ghost ms = bms(b.meta@);
        proof {
            lemma_metas_bytes_len(ms);
            assert(b.meta@.len() <= MAX_TABLE_ENTRIES);
            assert(65541 * bms(b.meta@).len() <= 65541 * MAX_TABLE_ENTRIES);
        }
        encode_block_meta(&b.meta, &mut b.data);
        put_u32(&mut b.data, meta_offset as u32);
        let r = SsTable {
            file_bytes: b.data,
            metas: b.meta,
            meta_offset,
            id,
            block_cache,
        };
        proof {
            assert(r.file_bytes@.subrange(0, d.len() as int) =~= d);
            lemma_regions_extend(d, ms, r.file_bytes@, 0);
            assert(r.file_bytes@.subrange(
                meta_offset as int,
                r.file_bytes@.len() - 4,
            ) =~= metas_bytes(ms));
            assert(r.file_bytes@.subrange(
                r.file_bytes@.len() - 4,
                r.file_bytes@.len() as int,
            ) =~= be32(meta_offset as u32));
        }
        r
    }
}

} // verus!
