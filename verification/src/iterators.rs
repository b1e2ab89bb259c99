//! The iterator stack: a common capability set over the memtable and table
//! cursors, and the k-way merge with newest-wins tie-breaking.
use crate::block::{entries_sorted, BlockIterator};
use crate::mem_table::{above_lower, evs, Bound};
use crate::table::{
    block_entries_of, bms, lemma_encoding_ok_facts, lemma_region_first_keys_sorted, region,
    region_end, regions_wf, sst_entries_from, SsTable,
};
use crate::wire::{
    bytes_eq, bytes_lt, copy_bytes, lemma_lex_le_lt_trans, lemma_lex_lt_asym,
    lemma_lex_lt_le_trans, lemma_lex_lt_trans, lemma_lex_lt_trichotomy, lex_le, lex_lt,
};
use vstd::prelude::*;

verus! {

/// What every source of the merge provides: a current position in a strictly
/// ascending run of entries.
pub trait StorageIterator: Sized {
    spec fn inv(&self) -> bool;

    /// The entries not yet consumed, the current one first.
    spec fn remaining(&self) -> Seq<(Seq<u8>, Seq<u8>)>;

    proof fn lemma_remaining_sorted(&self)
        requires
            self.inv(),
        ensures
            entries_sorted(self.remaining()),
    ;

    fn is_valid(&self) -> (r: bool)
        requires
            self.inv(),
        ensures
            r == (self.remaining().len() > 0),
    ;

    fn key(&self) -> (r: Vec<u8>)
        requires
            self.inv(),
            self.remaining().len() > 0,
        ensures
            r@ == self.remaining()[0].0,
    ;

    fn value(&self) -> (r: Vec<u8>)
        requires
            self.inv(),
            self.remaining().len() > 0,
        ensures
            r@ == self.remaining()[0].1,
    ;

    fn next(&mut self)
        requires
            old(self).inv(),
            old(self).remaining().len() > 0,
        ensures
            final(self).inv(),
            final(self).remaining() == old(self).remaining().skip(1),
    ;
}

/// Cursor over one frozen run of memtable entries.
pub struct MemtableIterator {
    /// The entries, strictly ascending by key.
    pub entries: Vec<(Vec<u8>, Vec<u8>)>,
    /// The current position.
    pub idx: usize,
}

impl MemtableIterator {
    pub fn new(entries: Vec<(Vec<u8>, Vec<u8>)>) -> (r: Self)
        requires
            entries_sorted(evs(entries@)),
        ensures
            r.inv(),
            r.remaining() == evs(entries@),
    {
        let r = MemtableIterator { entries, idx: 0 };
        proof {
            assert(r.remaining() =~= evs(r.entries@));
        }
        r
    }
}

impl StorageIterator for MemtableIterator {
    open spec fn inv(&self) -> bool {
        &&& entries_sorted(evs(self.entries@))
        &&& self.idx <= self.entries@.len()
    }

    open spec fn remaining(&self) -> Seq<(Seq<u8>, Seq<u8>)> {
        evs(self.entries@).skip(self.idx as int)
    }

    proof fn lemma_remaining_sorted(&self) {
        let es = evs(self.entries@);
        let r = self.remaining();
        assert forall|a: int, b: int| 0 <= a < b < r.len() implies lex_lt(
            #[trigger] r[a].0,
            #[trigger] r[b].0,
        ) by {
            assert(r[a] == es[self.idx + a] && r[b] == es[self.idx + b]);
        }
    }

    fn is_valid(&self) -> (r: bool) {
        self.idx < self.entries.len()
    }

    fn key(&self) -> (r: Vec<u8>) {
        proof {
            assert(self.remaining()[0] == evs(self.entries@)[self.idx as int]);
        }
        copy_bytes(&self.entries[self.idx].0)
    }

    fn value(&self) -> (r: Vec<u8>) {
        proof {
            assert(self.remaining()[0] == evs(self.entries@)[self.idx as int]);
        }
        copy_bytes(&self.entries[self.idx].1)
    }

    fn next(&mut self) {
        let n = self.entries.len();
        proof {
            assert(self.idx < n);
        }
        self.idx = self.idx + 1;
        proof {
            assert(self.remaining() =~= old(self).remaining().skip(1));
        }
    }
}

/// The entries of blocks `b..` ascend strictly, and none is below block `b`'s
/// first key.
#[verifier::rlimit(100)]
#[verifier::spinoff_prover]
pub proof fn lemma_from_sorted(file: Seq<u8>, ms: Seq<(int, Seq<u8>)>, end: int, b: int)
    requires
        regions_wf(file, ms, end),
        0 <= b,
    ensures
        entries_sorted(sst_entries_from(file, ms, end, b)),
        b < ms.len() ==> forall|t: int|
            0 <= t < sst_entries_from(file, ms, end, b).len() ==> lex_le(
                ms[b].1,
                (#[trigger] sst_entries_from(file, ms, end, b)[t]).0,
            ),
    decreases ms.len() - b,
{
    reveal(sst_entries_from);
    if b < ms.len() {
        lemma_from_sorted(file, ms, end, b + 1);
        let rg = region(file, ms, end, b);
        assert(crate::table::encoding_ok(rg));
        lemma_encoding_ok_facts(rg);
        let blk = block_entries_of(rg);
        let rest = sst_entries_from(file, ms, end, b + 1);
        let all = sst_entries_from(file, ms, end, b);
        assert(all == blk + rest);
        // every key of this block lies between its first key and its last
        assert forall|t: int| 0 <= t < blk.len() implies lex_le(ms[b].1, #[trigger] blk[t].0)
            && lex_le(blk[t].0, blk.last().0) by {
            if t > 0 {
                assert(lex_lt(blk[0].0, blk[t].0));
            }
            if t < blk.len() - 1 {
                assert(lex_lt(blk[t].0, blk.last().0));
            }
        }
        assert forall|a: int, c: int| 0 <= a < c < all.len() implies lex_lt(
            #[trigger] all[a].0,
            #[trigger] all[c].0,
        ) by {
            if c < blk.len() {
                assert(all[a] == blk[a] && all[c] == blk[c]);
            } else if a >= blk.len() {
                assert(all[a] == rest[a - blk.len()] && all[c] == rest[c - blk.len()]);
            } else {
                assert(all[a] == blk[a] && all[c] == rest[c - blk.len()]);
                // block keys end below the next block's first key, which
                // bounds the rest from below
                assert(b + 1 < ms.len());
                assert(lex_lt(blk.last().0, ms[b + 1].1));
                lemma_lex_le_lt_trans(blk[a].0, blk.last().0, ms[b + 1].1);
                lemma_lex_lt_le_trans(blk[a].0, ms[b + 1].1, rest[c - blk.len()].0);
            }
        }
        if blk.len() > 0 {
            assert forall|t: int| 0 <= t < all.len() implies lex_le(
                ms[b].1,
                (#[trigger] all[t]).0,
            ) by {
                if t < blk.len() {
                    assert(all[t] == blk[t]);
                } else {
                    assert(all[t] == rest[t - blk.len()]);
                    assert(b + 1 < ms.len());
                    assert(lex_lt(blk.last().0, ms[b + 1].1));
                    lemma_lex_le_lt_trans(ms[b].1, blk.last().0, ms[b + 1].1);
                    lemma_lex_lt_le_trans(ms[b].1, ms[b + 1].1, rest[t - blk.len()].0);
                }
            }
        }
    }
}

/// Entries of blocks `j..` form a suffix of the entries of blocks `b..`.
#[verifier::rlimit(100)]
#[verifier::spinoff_prover]
proof fn lemma_from_suffix_eq(file: Seq<u8>, ms: Seq<(int, Seq<u8>)>, end: int, b: int, j: int)
    requires
        regions_wf(file, ms, end),
        0 <= b <= j <= ms.len(),
    ensures
        sst_entries_from(file, ms, end, b).len() >= sst_entries_from(file, ms, end, j).len(),
        sst_entries_from(file, ms, end, b).skip(
            sst_entries_from(file, ms, end, b).len() - sst_entries_from(file, ms, end, j).len(),
        ) == sst_entries_from(file, ms, end, j),
    decreases j - b,
{
    reveal(sst_entries_from);
    let fb = sst_entries_from(file, ms, end, b);
    let fj = sst_entries_from(file, ms, end, j);
    if b == j {
        assert(fb.skip(0) =~= fb);
    } else {
        lemma_from_suffix_eq(file, ms, end, b + 1, j);
        let blk = block_entries_of(region(file, ms, end, b));
        let fb1 = sst_entries_from(file, ms, end, b + 1);
        assert(fb == blk + fb1);
        let g1 = fb1.len() - fj.len();
        assert(fb.skip(blk.len() + g1) =~= fb1.skip(g1));
    }
}

/// As `lemma_from_suffix_eq`, and everything dropped lies below block `j`'s
/// first key: the run is sorted and block `j` opens with that key.
#[verifier::rlimit(100)]
#[verifier::spinoff_prover]
proof fn lemma_from_suffix(file: Seq<u8>, ms: Seq<(int, Seq<u8>)>, end: int, b: int, j: int)
    requires
        regions_wf(file, ms, end),
        0 <= b <= j <= ms.len(),
    ensures
        sst_entries_from(file, ms, end, b).len() >= sst_entries_from(file, ms, end, j).len(),
        sst_entries_from(file, ms, end, b).skip(
            sst_entries_from(file, ms, end, b).len() - sst_entries_from(file, ms, end, j).len(),
        ) == sst_entries_from(file, ms, end, j),
        j < ms.len() ==> forall|t: int|
            0 <= t < sst_entries_from(file, ms, end, b).len() - sst_entries_from(
                file,
                ms,
                end,
                j,
            ).len() ==> lex_lt((#[trigger] sst_entries_from(file, ms, end, b)[t]).0, ms[j].1),
{
    lemma_from_suffix_eq(file, ms, end, b, j);
    if j < ms.len() {
        lemma_from_sorted(file, ms, end, b);
        let fb = sst_entries_from(file, ms, end, b);
        let fj = sst_entries_from(file, ms, end, j);
        let pre = fb.len() - fj.len();
        assert(fj.len() >= 1) by {
            reveal(sst_entries_from);
            lemma_encoding_ok_facts(region(file, ms, end, j));
        }
        assert(fj[0].0 == ms[j].1) by {
            reveal(sst_entries_from);
            lemma_encoding_ok_facts(region(file, ms, end, j));
        }
        assert(fb[pre as int] == fj[0]) by {
            assert(fb.skip(pre as int)[0] == fj[0]);
        }
        assert forall|t: int| 0 <= t < pre implies lex_lt((#[trigger] fb[t]).0, ms[j].1) by {
            assert(lex_lt(fb[t].0, fb[pre as int].0));
        }
    }
}

/// What a positioned cursor still holds is a suffix of the table's entries,
/// and everything it skipped lies strictly below the sought key.
#[verifier::rlimit(100)]
#[verifier::spinoff_prover]
proof fn lemma_seek_decompose(
    file: Seq<u8>,
    ms: Seq<(int, Seq<u8>)>,
    end: int,
    j: int,
    idx: int,
    key: Seq<u8>,
)
    requires
        regions_wf(file, ms, end),
        0 <= j < ms.len(),
        0 <= idx <= block_entries_of(region(file, ms, end, j)).len(),
        forall|t: int|
            0 <= t < idx ==> lex_lt(
                (#[trigger] block_entries_of(region(file, ms, end, j))[t]).0,
                key,
            ),
        j > 0 ==> lex_le(ms[j].1, key),
    ensures
        exists|g: int|
            0 <= g <= sst_entries_from(file, ms, end, 0).len() && sst_entries_from(
                file,
                ms,
                end,
                0,
            ).skip(g) == block_entries_of(region(file, ms, end, j)).skip(idx) + sst_entries_from(
                file,
                ms,
                end,
                j + 1,
            ) && (forall|t: int|
                0 <= t < g ==> lex_lt((#[trigger] sst_entries_from(file, ms, end, 0)[t]).0, key)),
{
    reveal(sst_entries_from);
    lemma_from_suffix(file, ms, end, 0, j);
    let all = sst_entries_from(file, ms, end, 0);
    let fj = sst_entries_from(file, ms, end, j);
    let blk = block_entries_of(region(file, ms, end, j));
    let pre = all.len() - fj.len();
    let g = pre + idx;
    assert(fj == blk + sst_entries_from(file, ms, end, j + 1));
    assert(all.skip(g) =~= fj.skip(idx));
    assert(fj.skip(idx) =~= blk.skip(idx) + sst_entries_from(file, ms, end, j + 1));
    assert forall|t: int| 0 <= t < g implies lex_lt((#[trigger] all[t]).0, key) by {
        if t < pre {
            assert(lex_lt(all[t].0, ms[j].1));
            if j > 0 {
                lemma_lex_lt_le_trans(all[t].0, ms[j].1, key);
            } else {
                assert(pre == 0);
            }
        } else {
            assert(all[t] == all.skip(pre as int)[t - pre]);
            assert(all.skip(pre as int)[t - pre] == fj[t - pre]);
            assert(fj[t - pre] == blk[t - pre]);
        }
    }
    assert(0 <= g <= all.len() && all.skip(g) == blk.skip(idx) + sst_entries_from(
        file,
        ms,
        end,
        j + 1,
    ));
}

/// Cursor over all entries of one table, loading blocks through the shared
/// cache as it crosses block boundaries.
pub struct SsTableIterator {
    /// The table being read.
    pub table: SsTable,
    /// Cursor inside the block currently loaded.
    pub blk: BlockIterator,
    /// Which block is loaded; the table is exhausted when this reaches the
    /// block count.
    pub blk_idx: usize,
}

impl SsTableIterator {
    pub open spec fn ms(self) -> Seq<(int, Seq<u8>)> {
        bms(self.table.metas@)
    }

    pub open spec fn end(self) -> int {
        self.table.meta_offset as int
    }

    /// Start at the first entry of the first block.
    pub fn create_and_seek_to_first(table: SsTable) -> (r: Self)
        requires
            table.wf(),
        ensures
            r.inv(),
            r.remaining() == table.entries(),
    {
        let b0 = table.read_block_cached(0);
        let blk = BlockIterator::create_and_seek_to_first(b0);
        let r = SsTableIterator { table, blk, blk_idx: 0 };
        proof {
            reveal(sst_entries_from);
            assert(r.remaining() =~= r.table.entries());
        }
        r
    }

    /// Start at the first entry whose key is at least `key`; every entry the
    /// cursor can still yield is at or above `key`.
    /// Start at the first entry whose key is at least `key`: the cursor's
    /// remaining run is exactly the suffix of the table's entries from that
    /// point, and everything skipped lies strictly below `key`.
    #[verifier::rlimit(100)]
    #[verifier::spinoff_prover]
    pub fn create_and_seek_to_key(table: SsTable, key: &[u8]) -> (r: Self)
        requires
            table.wf(),
        ensures
            r.inv(),
            r.table == table,
            r.remaining().len() > 0 ==> !lex_lt(r.remaining()[0].0, key@),
            exists|g: int|
                0 <= g <= table.entries().len() && r.remaining() == table.entries().skip(g) && (
                forall|t: int| 0 <= t < g ==> lex_lt((#[trigger] table.entries()[t]).0, key@)),
    {
        let j = table.find_block_idx(key);
        let b = table.read_block_cached(j);
        let ghost ms = bms(table.metas@);
        let ghost end = table.meta_offset as int;
        let ghost file = table.file_bytes@;
        let ghost blkes = b.entries();
        let mut blk = BlockIterator::create_and_seek_to_key(b, key);
        let ghost idx = blk.idx as int;
        let mut r = SsTableIterator { table, blk, blk_idx: j };
        proof {
            if j > 0 {
                assert(ms[j as int] == crate::table::bm(r.table.metas@[j as int]));
            }
            lemma_seek_decompose(file, ms, end, j as int, idx, key@);
        }
        if r.blk.idx == r.blk.block.offsets.len() {
            // past the block's end: the answer, if any, opens the next block
            r.blk_idx = j + 1;
            proof {
                assert(blkes.skip(idx) =~= Seq::<(Seq<u8>, Seq<u8>)>::empty());
            }
            if r.blk_idx < r.table.metas.len() {
                let nb = r.table.read_block_cached(r.blk_idx);
                r.blk = BlockIterator::create_and_seek_to_first(nb);
                proof {
                    reveal(sst_entries_from);
                    lemma_encoding_ok_facts(region(r.table.file_bytes@, ms, end, j + 1));
                    assert(r.remaining()[0] == r.blk.block.entries()[0]);
                    assert(r.remaining()[0].0 == ms[j + 1].1);
                    // the next block's first key lies above `key`
                    assert(!lex_le(ms[j + 1].1, key@));
                    lemma_lex_lt_trichotomy(ms[j + 1].1, key@);
                    assert(r.remaining() =~= blkes.skip(idx) + sst_entries_from(
                        file,
                        ms,
                        end,
                        j + 1,
                    ));
                }
            } else {
                proof {
                    reveal(sst_entries_from);
                    assert(r.remaining() =~= blkes.skip(idx) + sst_entries_from(
                        file,
                        ms,
                        end,
                        j + 1,
                    ));
                }
            }
        } else {
            proof {
                assert(r.remaining()[0] == r.blk.block.entries()[r.blk.idx as int]);
                assert(r.remaining() =~= blkes.skip(idx) + sst_entries_from(file, ms, end, j + 1));
            }
        }
        proof {
            let all = sst_entries_from(file, ms, end, 0);
            let g = choose|g: int|
                0 <= g <= all.len() && all.skip(g) == blkes.skip(idx) + sst_entries_from(
                    file,
                    ms,
                    end,
                    j + 1,
                ) && (forall|t: int| 0 <= t < g ==> lex_lt((#[trigger] all[t]).0, key@));
            assert(r.table.entries() == all);
            assert(r.remaining() == all.skip(g));
        }
        r
    }
}

impl StorageIterator for SsTableIterator {
    open spec fn inv(&self) -> bool {
        &&& self.table.wf()
        &&& self.blk_idx <= self.table.metas@.len()
        &&& (self.blk_idx < self.table.metas@.len() ==> {
            &&& self.blk.wf()
            &&& self.blk.block.entries() == block_entries_of(
                region(self.table.file_bytes@, self.ms(), self.end(), self.blk_idx as int),
            )
            &&& self.blk.idx < self.blk.block.entries().len()
        })
    }

    open spec fn remaining(&self) -> Seq<(Seq<u8>, Seq<u8>)> {
        if self.blk_idx >= self.table.metas@.len() {
            Seq::empty()
        } else {
            self.blk.block.entries().skip(self.blk.idx as int) + sst_entries_from(
                self.table.file_bytes@,
                self.ms(),
                self.end(),
                self.blk_idx + 1,
            )
        }
    }

    #[verifier::rlimit(100)]
    #[verifier::spinoff_prover]
    proof fn lemma_remaining_sorted(&self) {
        reveal(sst_entries_from);
        if self.blk_idx < self.table.metas@.len() {
            let b = self.blk_idx as int;
            lemma_from_sorted(self.table.file_bytes@, self.ms(), self.end(), b);
            let all = sst_entries_from(self.table.file_bytes@, self.ms(), self.end(), b);
            let blk = self.blk.block.entries();
            let r = self.remaining();
            assert forall|a: int, c: int| 0 <= a < c < r.len() implies lex_lt(
                #[trigger] r[a].0,
                #[trigger] r[c].0,
            ) by {
                let sk = blk.len() - self.blk.idx;
                if a < sk {
                    assert(r[a] == all[self.blk.idx + a]);
                } else {
                    assert(r[a] == all[self.blk.idx + a]);
                }
                assert(r[c] == all[self.blk.idx + c]);
                assert(lex_lt(all[self.blk.idx + a].0, all[self.blk.idx + c].0));
            }
        }
    }

    fn is_valid(&self) -> (r: bool) {
        proof {
            if self.blk_idx < self.table.metas@.len() {
                assert(self.remaining().len() > 0);
            }
        }
        self.blk_idx < self.table.metas.len()
    }

    fn key(&self) -> (r: Vec<u8>) {
        proof {
            assert(self.remaining()[0] == self.blk.block.entries()[self.blk.idx as int]);
        }
        self.blk.key()
    }

    fn value(&self) -> (r: Vec<u8>) {
        proof {
            assert(self.remaining()[0] == self.blk.block.entries()[self.blk.idx as int]);
        }
        self.blk.value()
    }

    #[verifier::rlimit(100)]
    #[verifier::spinoff_prover]
    fn next(&mut self) {
        let ghost r0 = old(self).remaining();
        let ghost a = old(self).blk.block.entries();
        let ghost rest = sst_entries_from(
            old(self).table.file_bytes@,
            old(self).ms(),
            old(self).end(),
            old(self).blk_idx + 1,
        );
        proof {
            reveal(sst_entries_from);
            lemma_skip_concat(a, rest, old(self).blk.idx as int);
        }
        self.blk.next();
        if !self.blk.is_valid() {
            self.blk_idx = self.blk_idx + 1;
            proof {
                assert(a.skip(self.blk.idx as int) =~= Seq::<(Seq<u8>, Seq<u8>)>::empty());
                assert(r0.skip(1) =~= rest);
            }
            if self.blk_idx < self.table.metas.len() {
                let nb = self.table.read_block_cached(self.blk_idx);
                self.blk = BlockIterator::create_and_seek_to_first(nb);
                proof {
                    reveal(sst_entries_from);
                    lemma_encoding_ok_facts(
                        region(
                            self.table.file_bytes@,
                            self.ms(),
                            self.end(),
                            self.blk_idx as int,
                        ),
                    );
                    assert(self.blk.block.entries().skip(0) =~= self.blk.block.entries());
                    assert(self.remaining() == rest);
                }
            }
        } else {
            proof {
                assert(self.remaining() == a.skip(self.blk.idx as int) + rest);
            }
        }
    }
}

/// Consuming the head of a positioned run drops exactly one entry.
proof fn lemma_skip_concat(a: Seq<(Seq<u8>, Seq<u8>)>, b: Seq<(Seq<u8>, Seq<u8>)>, i: int)
    requires
        0 <= i < a.len(),
    ensures
        (a.skip(i) + b).skip(1) == a.skip(i + 1) + b,
{
    assert((a.skip(i) + b).skip(1) =~= a.skip(i + 1) + b);
}

/// One source of a merge: a memtable cursor or a table cursor.
pub enum IterSource {
    Mem(MemtableIterator),
    Table(SsTableIterator),
}

impl StorageIterator for IterSource {
    open spec fn inv(&self) -> bool {
        match self {
            IterSource::Mem(it) => it.inv(),
            IterSource::Table(it) => it.inv(),
        }
    }

    open spec fn remaining(&self) -> Seq<(Seq<u8>, Seq<u8>)> {
        match self {
            IterSource::Mem(it) => it.remaining(),
            IterSource::Table(it) => it.remaining(),
        }
    }

    proof fn lemma_remaining_sorted(&self) {
        match self {
            IterSource::Mem(it) => it.lemma_remaining_sorted(),
            IterSource::Table(it) => it.lemma_remaining_sorted(),
        }
    }

    fn is_valid(&self) -> (r: bool) {
        match self {
            IterSource::Mem(it) => it.is_valid(),
            IterSource::Table(it) => it.is_valid(),
        }
    }

    fn key(&self) -> (r: Vec<u8>) {
        match self {
            IterSource::Mem(it) => it.key(),
            IterSource::Table(it) => it.key(),
        }
    }

    fn value(&self) -> (r: Vec<u8>) {
        match self {
            IterSource::Mem(it) => it.value(),
            IterSource::Table(it) => it.value(),
        }
    }

    fn next(&mut self) {
        match self {
            IterSource::Mem(it) => it.next(),
            IterSource::Table(it) => it.next(),
        }
    }
}

/// The not-yet-consumed runs of a list of sources.
pub open spec fn rems<I: StorageIterator>(s: Seq<I>) -> Seq<Seq<(Seq<u8>, Seq<u8>)>> {
    s.map_values(|it: I| it.remaining())
}

/// Source `i` holds the entry a merge must emit next: the smallest current
/// key, and among sources tied at that key, the smallest index — the most
/// recent data.
pub open spec fn chosen(vs: Seq<Seq<(Seq<u8>, Seq<u8>)>>, i: int) -> bool {
    &&& 0 <= i < vs.len()
    &&& vs[i].len() > 0
    &&& forall|j: int|
        0 <= j < vs.len() && (#[trigger] vs[j]).len() > 0 ==> lex_le(vs[i][0].0, vs[j][0].0)
    &&& forall|j: int| 0 <= j < i && (#[trigger] vs[j]).len() > 0 ==> lex_lt(vs[i][0].0, vs[j][0].0)
}

/// How many entries all sources still hold, together.
pub open spec fn total_rem<I: StorageIterator>(s: Seq<I>) -> nat
    decreases s.len(),
{
    if s.len() == 0 {
        0
    } else {
        s[0].remaining().len() + total_rem(s.skip(1))
    }
}

/// Every run whose head carries key `k` drops that head.
pub open spec fn advance_past(vs: Seq<Seq<(Seq<u8>, Seq<u8>)>>, k: Seq<u8>) -> Seq<
    Seq<(Seq<u8>, Seq<u8>)>,
> {
    vs.map_values(
        |s: Seq<(Seq<u8>, Seq<u8>)>|
            if s.len() > 0 && s[0].0 == k {
                s.skip(1)
            } else {
                s
            },
    )
}

/// How many entries the runs hold, together.
pub open spec fn total_len(vs: Seq<Seq<(Seq<u8>, Seq<u8>)>>) -> nat
    decreases vs.len(),
{
    if vs.len() == 0 {
        0
    } else {
        vs[0].len() + total_len(vs.skip(1))
    }
}

proof fn lemma_total_len_advance(vs: Seq<Seq<(Seq<u8>, Seq<u8>)>>, k: Seq<u8>, i: int)
    requires
        0 <= i < vs.len(),
        vs[i].len() > 0,
        vs[i][0].0 == k,
    ensures
        total_len(advance_past(vs, k)) < total_len(vs),
    decreases vs.len(),
{
    let av = advance_past(vs, k);
    assert(av.skip(1) =~= advance_past(vs.skip(1), k));
    if i == 0 {
        lemma_total_len_le(vs.skip(1), k);
    } else {
        assert(vs.skip(1)[i - 1] == vs[i]);
        lemma_total_len_advance(vs.skip(1), k, i - 1);
    }
}

proof fn lemma_total_len_le(vs: Seq<Seq<(Seq<u8>, Seq<u8>)>>, k: Seq<u8>)
    ensures
        total_len(advance_past(vs, k)) <= total_len(vs),
    decreases vs.len(),
{
    if vs.len() > 0 {
        assert(advance_past(vs, k).skip(1) =~= advance_past(vs.skip(1), k));
        lemma_total_len_le(vs.skip(1), k);
    }
}

/// `run` is what is left of `es` after dropping exactly the prefix that
/// lies outside the lower bound.
pub open spec fn lower_suffix(
    run: Seq<(Seq<u8>, Seq<u8>)>,
    es: Seq<(Seq<u8>, Seq<u8>)>,
    lo: Bound,
) -> bool {
    exists|g: int|
        0 <= g <= es.len() && run == es.skip(g) && (forall|t: int|
            0 <= t < g ==> !above_lower(lo, (#[trigger] es[t]).0))
}

/// The stream a newest-wins merge of the runs yields: repeatedly emit the
/// entry of the chosen run (smallest key, smallest index on ties), dropping
/// that key from every run that holds it at the front.
pub open spec fn merged(vs: Seq<Seq<(Seq<u8>, Seq<u8>)>>) -> Seq<(Seq<u8>, Seq<u8>)>
    decreases total_len(vs),
    via merged_decreases
{
    if exists|i: int| chosen(vs, i) {
        let i = choose|i: int| chosen(vs, i);
        seq![vs[i][0]] + merged(advance_past(vs, vs[i][0].0))
    } else {
        Seq::empty()
    }
}

#[via_fn]
proof fn merged_decreases(vs: Seq<Seq<(Seq<u8>, Seq<u8>)>>) {
    if exists|i: int| chosen(vs, i) {
        let i = choose|i: int| chosen(vs, i);
        lemma_total_len_advance(vs, vs[i][0].0, i);
    }
}

/// The chosen run is unique.
proof fn lemma_chosen_unique(vs: Seq<Seq<(Seq<u8>, Seq<u8>)>>, i: int, j: int)
    requires
        chosen(vs, i),
        chosen(vs, j),
    ensures
        i == j,
{
    crate::wire::lemma_lex_lt_irrefl(vs[i][0].0);
    if i < j {
        assert(lex_lt(vs[j][0].0, vs[i][0].0));
        assert(lex_le(vs[i][0].0, vs[j][0].0));
        lemma_lex_lt_le_trans(vs[j][0].0, vs[i][0].0, vs[j][0].0);
        crate::wire::lemma_lex_lt_irrefl(vs[j][0].0);
    }
    if j < i {
        assert(lex_lt(vs[i][0].0, vs[j][0].0));
        assert(lex_le(vs[j][0].0, vs[i][0].0));
        lemma_lex_lt_le_trans(vs[i][0].0, vs[j][0].0, vs[i][0].0);
    }
}

proof fn lemma_total_rem_mono<I: StorageIterator>(s1: Seq<I>, s2: Seq<I>)
    requires
        s1.len() == s2.len(),
        forall|i: int|
            0 <= i < s1.len() ==> (#[trigger] s2[i]).remaining().len()
                <= s1[i].remaining().len(),
    ensures
        total_rem(s2) <= total_rem(s1),
    decreases s1.len(),
{
    if s1.len() > 0 {
        assert(forall|i: int|
            0 <= i < s1.skip(1).len() ==> #[trigger] s1.skip(1)[i] == s1[i + 1] && s2.skip(1)[i]
                == s2[i + 1]);
        lemma_total_rem_mono(s1.skip(1), s2.skip(1));
    }
}

proof fn lemma_total_rem_strict<I: StorageIterator>(s1: Seq<I>, s2: Seq<I>, j: int)
    requires
        s1.len() == s2.len(),
        forall|i: int|
            0 <= i < s1.len() ==> (#[trigger] s2[i]).remaining().len()
                <= s1[i].remaining().len(),
        0 <= j < s1.len(),
        s2[j].remaining().len() < s1[j].remaining().len(),
    ensures
        total_rem(s2) < total_rem(s1),
    decreases s1.len(),
{
    assert(forall|i: int|
        0 <= i < s1.skip(1).len() ==> #[trigger] s1.skip(1)[i] == s1[i + 1] && s2.skip(1)[i]
            == s2[i + 1]);
    if j == 0 {
        lemma_total_rem_mono(s1.skip(1), s2.skip(1));
    } else {
        lemma_total_rem_strict(s1.skip(1), s2.skip(1), j - 1);
    }
}

/// A k-way merge of ascending sources. Lower source indexes hold more recent
/// data, so on ties the smallest index wins and the others drop their entry.
pub struct MergeIterator<I> {
    /// The sources; every one sits strictly past the current entry.
    pub sources: Vec<I>,
    /// The current entry, already taken out of its source.
    pub cur: Option<(Vec<u8>, Vec<u8>)>,
}

impl<I: StorageIterator> MergeIterator<I> {
    pub open spec fn srcs_ok(self) -> bool {
        forall|i: int| 0 <= i < self.sources@.len() ==> (#[trigger] self.sources@[i]).inv()
    }

    pub open spec fn cur_key(self) -> Seq<u8> {
        match self.cur {
            Option::Some(e) => e.0@,
            Option::None => Seq::empty(),
        }
    }

    pub open spec fn cur_val(self) -> Seq<u8> {
        match self.cur {
            Option::Some(e) => e.1@,
            Option::None => Seq::empty(),
        }
    }

    pub open spec fn inv(self) -> bool {
        &&& self.srcs_ok()
        &&& match self.cur {
            Option::Some(e) => forall|j: int|
                0 <= j < self.sources@.len() && (#[trigger] self.sources@[j]).remaining().len()
                    > 0 ==> lex_lt(e.0@, self.sources@[j].remaining()[0].0),
            Option::None => forall|j: int|
                0 <= j < self.sources@.len() ==> (#[trigger] self.sources@[j]).remaining().len()
                    == 0,
        }
    }

    /// The whole stream this merge will emit: the held entry, then the
    /// newest-wins merge of what the sources still hold.
    pub open spec fn stream(self) -> Seq<(Seq<u8>, Seq<u8>)> {
        match self.cur {
            Option::Some(e) => seq![(e.0@, e.1@)] + merged(rems(self.sources@)),
            Option::None => Seq::empty(),
        }
    }

    /// Entries left to emit, the held one included.
    pub open spec fn size(self) -> int {
        total_rem(self.sources@) + if self.cur is Some {
            1int
        } else {
            0int
        }
    }

    /// Take the next entry out of the sources: the smallest current key,
    /// from the smallest (most recent) source holding it; every other source
    /// tied at that key drops its entry.
    #[verifier::rlimit(100)]
    fn select_and_drain(sources: &mut Vec<I>) -> (r: Option<(Vec<u8>, Vec<u8>)>)
        requires
            forall|i: int|
                0 <= i < old(sources)@.len() ==> (#[trigger] old(sources)@[i]).inv(),
        ensures
            final(sources)@.len() == old(sources)@.len(),
            forall|i: int|
                0 <= i < final(sources)@.len() ==> (#[trigger] final(sources)@[i]).inv(),
            match r {
                Option::Some(e) => {
                    &&& exists|i: int| chosen(rems(old(sources)@), i)
                    &&& forall|i: int|
                        chosen(rems(old(sources)@), i) ==> e.0@ == rems(old(sources)@)[i][0].0
                            && e.1@ == rems(old(sources)@)[i][0].1
                    &&& forall|j: int|
                        0 <= j < final(sources)@.len() && (
                        #[trigger] final(sources)@[j]).remaining().len() > 0 ==> lex_lt(
                            e.0@,
                            final(sources)@[j].remaining()[0].0,
                        )
                    &&& total_rem(final(sources)@) < total_rem(old(sources)@)
                    &&& forall|j: int|
                        0 <= j < old(sources)@.len() && (
                        #[trigger] old(sources)@[j]).remaining().len() > 0 ==> lex_le(
                            e.0@,
                            old(sources)@[j].remaining()[0].0,
                        )
                    &&& merged(rems(old(sources)@)) == seq![(e.0@, e.1@)] + merged(
                        rems(final(sources)@),
                    )
                },
                Option::None => {
                    &&& final(sources)@ == old(sources)@
                    &&& forall|j: int|
                        0 <= j < old(sources)@.len() ==> (
                        #[trigger] old(sources)@[j]).remaining().len() == 0
                    &&& merged(rems(old(sources)@)) == Seq::<(Seq<u8>, Seq<u8>)>::empty()
                },
            },
    {
        let ghost vs = rems(old(sources)@);
        let n = sources.len();
        let mut found = false;
        let mut best: usize = 0;
        let mut bk: Vec<u8> = Vec::new();
        for j in 0..n
            invariant
                *sources == *old(sources),
                vs == rems(sources@),
                n == sources@.len(),
                forall|i: int| 0 <= i < n ==> (#[trigger] sources@[i]).inv(),
                found == exists|i: int| 0 <= i < j && (#[trigger] vs[i]).len() > 0,
                found ==> best < j && vs[best as int].len() > 0 && bk@ == vs[best as int][0].0,
                found ==> forall|i: int|
                    0 <= i < j && (#[trigger] vs[i]).len() > 0 ==> lex_le(bk@, vs[i][0].0),
                found ==> forall|i: int|
                    0 <= i < best && (#[trigger] vs[i]).len() > 0 ==> lex_lt(bk@, vs[i][0].0),
        {
            proof {
                assert(vs[j as int] == sources@[j as int].remaining());
            }
            if sources[j].is_valid() {
                let kj = sources[j].key();
                if !found || bytes_lt(kj.as_slice(), bk.as_slice()) {
                    proof {
                        if found {
                            assert forall|i: int| 0 <= i < j && (#[trigger] vs[i]).len()
                                > 0 implies lex_lt(kj@, vs[i][0].0) by {
                                lemma_lex_lt_le_trans(kj@, bk@, vs[i][0].0);
                            }
                        }
                    }
                    found = true;
                    best = j;
                    bk = kj;
                } else {
                    proof {
                        lemma_lex_lt_trichotomy(kj@, bk@);
                        if kj@ != bk@ {
                            lemma_lex_lt_asym(bk@, kj@);
                        }
                    }
                }
            }
        }
        if !found {
            proof {
                assert forall|j: int| 0 <= j < sources@.len() implies (
                #[trigger] sources@[j]).remaining().len() == 0 by {
                    assert(vs[j] == sources@[j].remaining());
                }
                assert(!exists|i: int| chosen(vs, i)) by {
                    if exists|i: int| chosen(vs, i) {
                        let i = choose|i: int| chosen(vs, i);
                        assert(vs[i].len() > 0);
                    }
                }
                assert(merged(vs) == Seq::<(Seq<u8>, Seq<u8>)>::empty());
            }
            return Option::None;
        }
        let v = sources[best].value();
        let ghost snap = sources@;
        let mut out: Vec<I> = Vec::new();
        let mut k: usize = 0;
        while k < n
            invariant
                n == snap.len(),
                out@.len() == k,
                k <= n,
                sources@.len() == n - k,
                vs == rems(snap),
                forall|t: int| 0 <= t < n - k ==> #[trigger] sources@[t] == snap[k + t],
                forall|i: int| 0 <= i < n ==> (#[trigger] snap[i]).inv(),
                best < n && vs[best as int].len() > 0 && bk@ == vs[best as int][0].0,
                forall|i: int|
                    0 <= i < n && (#[trigger] vs[i]).len() > 0 ==> lex_le(bk@, vs[i][0].0),
                forall|i: int|
                    0 <= i < best && (#[trigger] vs[i]).len() > 0 ==> lex_lt(bk@, vs[i][0].0),
                v@ == vs[best as int][0].1,
                forall|t: int| 0 <= t < k ==> (#[trigger] out@[t]).inv(),
                forall|t: int|
                    0 <= t < k ==> (#[trigger] out@[t]).remaining() == (if snap[t].remaining().len()
                        > 0 && snap[t].remaining()[0].0 == bk@ {
                        snap[t].remaining().skip(1)
                    } else {
                        snap[t].remaining()
                    }),
                forall|t: int|
                    0 <= t < k ==> (#[trigger] out@[t]).remaining().len()
                        <= snap[t].remaining().len(),
                forall|t: int|
                    0 <= t < k && (#[trigger] out@[t]).remaining().len() > 0 ==> lex_lt(
                        bk@,
                        out@[t].remaining()[0].0,
                    ),
                best < k ==> out@[best as int].remaining().len() < snap[best as int].remaining().len(),
            decreases n - k,
        {
            let mut it = sources.remove(0);
            proof {
                assert(it == snap[k as int]);
                it.lemma_remaining_sorted();
            }
            if it.is_valid() {
                let ik = it.key();
                if bytes_eq(ik.as_slice(), bk.as_slice()) {
                    proof {
                        if it.remaining().len() > 1 {
                            assert(lex_lt(it.remaining()[0].0, it.remaining()[1].0));
                        }
                    }
                    it.next();
                    proof {
                        assert(forall|z: int|
                            0 <= z < it.remaining().len() ==> #[trigger] it.remaining()[z]
                                == snap[k as int].remaining()[z + 1]);
                    }
                } else {
                    proof {
                        assert(vs[k as int] == it.remaining());
                        assert(lex_le(bk@, ik@));
                        assert(lex_lt(bk@, ik@));
                    }
                }
            }
            out.push(it);
            k = k + 1;
        }
        let ghost built = out@;
        core::mem::swap(sources, &mut out);
        proof {
            assert(sources@ == built);
            lemma_total_rem_strict(snap, sources@, best as int);
            assert forall|i: int| chosen(vs, i) implies bk@ == vs[i][0].0 && v@
                == vs[i][0].1 by {
                crate::wire::lemma_lex_lt_irrefl(bk@);
                if i < best {
                    assert(lex_lt(bk@, vs[i][0].0));
                    assert(lex_le(vs[i][0].0, vs[best as int][0].0));
                    lemma_lex_lt_le_trans(bk@, vs[i][0].0, bk@);
                } else if i > best {
                    assert(lex_lt(vs[i][0].0, vs[best as int][0].0));
                    assert(lex_le(bk@, vs[i][0].0));
                    lemma_lex_le_lt_trans(bk@, vs[i][0].0, bk@);
                }
            }
            assert(chosen(vs, best as int));
            assert(snap == old(sources)@);
            assert forall|j: int|
                0 <= j < sources@.len() && (#[trigger] sources@[j]).remaining().len()
                    > 0 implies lex_lt(bk@, sources@[j].remaining()[0].0) by {
                assert(sources@[j] == built[j]);
            }
            assert forall|j: int|
                0 <= j < snap.len() && (#[trigger] snap[j]).remaining().len() > 0 implies lex_le(
                    bk@,
                    snap[j].remaining()[0].0,
                ) by {
                assert(vs[j] == snap[j].remaining());
            }
            assert(rems(sources@) =~= advance_past(vs, bk@)) by {
                assert forall|t: int| 0 <= t < n implies rems(sources@)[t] == advance_past(
                    vs,
                    bk@,
                )[t] by {
                    assert(rems(sources@)[t] == built[t].remaining());
                    assert(vs[t] == snap[t].remaining());
                }
            }
            assert(exists|i: int| chosen(vs, i));
            let c = choose|i: int| chosen(vs, i);
            lemma_chosen_unique(vs, c, best as int);
            assert(merged(vs) == seq![vs[best as int][0]] + merged(advance_past(vs, bk@)));
            assert(vs[best as int][0] == (bk@, v@));
        }
        Option::Some((bk, v))
    }

    /// Merge the given sources; index order is recency order, newest first.
    pub fn create(sources: Vec<I>) -> (r: Self)
        requires
            forall|i: int| 0 <= i < sources@.len() ==> (#[trigger] sources@[i]).inv(),
        ensures
            r.inv(),
            r.stream() == merged(rems(sources@)),
            (r.cur is Some) == exists|i: int| chosen(rems(sources@), i),
            forall|i: int|
                chosen(rems(sources@), i) ==> r.cur_key() == rems(sources@)[i][0].0
                    && r.cur_val() == rems(sources@)[i][0].1,
    {
        let mut s = sources;
        let cur = Self::select_and_drain(&mut s);
        let r = MergeIterator { sources: s, cur };
        proof {
            if r.cur is None {
                if exists|i: int| chosen(rems(sources@), i) {
                    let i = choose|i: int| chosen(rems(sources@), i);
                    assert(rems(sources@)[i].len() > 0);
                    assert(sources@[i].remaining().len() == 0);
                }
            }
        }
        r
    }

    pub fn is_valid(&self) -> (r: bool)
        ensures
            r == (self.cur is Some),
    {
        match &self.cur {
            Option::Some(_) => true,
            Option::None => false,
        }
    }

    /// The current entry's key.
    pub fn key(&self) -> (r: Vec<u8>)
        requires
            self.cur is Some,
        ensures
            r@ == self.cur_key(),
    {
        match &self.cur {
            Option::Some(e) => copy_bytes(&e.0),
            Option::None => Vec::new(),
        }
    }

    /// The current entry's value: the value of the most recent source that
    /// held the current key.
    pub fn value(&self) -> (r: Vec<u8>)
        requires
            self.cur is Some,
        ensures
            r@ == self.cur_val(),
    {
        match &self.cur {
            Option::Some(e) => copy_bytes(&e.1),
            Option::None => Vec::new(),
        }
    }

    /// Step to the next entry. The keys emitted over successive steps ascend
    /// strictly, whatever the sources held.
    pub fn next(&mut self)
        requires
            old(self).inv(),
            old(self).cur is Some,
        ensures
            final(self).inv(),
            final(self).stream() == old(self).stream().skip(1),
            final(self).cur is Some ==> lex_lt(old(self).cur_key(), final(self).cur_key()),
            forall|i: int|
                chosen(rems(old(self).sources@), i) ==> (final(self).cur is Some)
                    && final(self).cur_key() == rems(old(self).sources@)[i][0].0
                    && final(self).cur_val() == rems(old(self).sources@)[i][0].1,
            final(self).size() < old(self).size(),
    {
        let ghost pre = *self;
        let nxt = Self::select_and_drain(&mut self.sources);
        self.cur = nxt;
        proof {
            match &self.cur {
                Option::Some(e) => {
                    let i = choose|i: int| chosen(rems(pre.sources@), i);
                    assert(rems(pre.sources@)[i].len() > 0);
                    assert(pre.sources@[i].remaining().len() > 0);
                    assert(e.0@ == pre.sources@[i].remaining()[0].0);
                    assert(lex_lt(pre.cur_key(), e.0@));
                },
                Option::None => {},
            }
            assert(pre.stream().skip(1) =~= merged(rems(pre.sources@)));
            assert(self.stream() == merged(rems(pre.sources@)));
        }
    }
}

} // verus!
