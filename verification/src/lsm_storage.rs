//! The storage engine: writes land in the mutable memtable, `sync` freezes
//! it into a new level-0 table, and reads merge the memtable stack with the
//! tables, newest first; empty values are deletion tombstones.
use crate::iterators::{IterSource, MemtableIterator, MergeIterator, SsTableIterator, StorageIterator};
use crate::lsm_iterator::{FusedIterator, LsmError, LsmIterator};
use crate::mem_table::{above_lower, Bound, Memtable};
use crate::table::{bms, BlockCache, BlockMeta, SsTable, SsTableBuilder, MAX_TABLE_ENTRIES};
use crate::wire::{bytes_eq, copy_bytes};
use vstd::prelude::*;

verus! {

/// The block size every flushed table uses.
pub const FLUSH_BLOCK_SIZE: usize = 4096;

/// One published state of the engine.
pub struct LsmStorageInner {
    /// The mutable memtable: all writes land here.
    pub memtable: Memtable,
    /// Frozen memtables not yet flushed, oldest first. A flush empties it
    /// again before returning.
    pub imm_memtable: Vec<Memtable>,
    /// Flushed level-0 tables, oldest first; readers walk them newest first.
    pub l0_sstable: Vec<SsTable>,
    /// The id the next flushed table receives.
    pub next_sst_id: usize,
}

/// The storage engine.
pub struct LsmStorage {
    /// The current state.
    pub inner: LsmStorageInner,
    /// The shared cache of decoded blocks.
    pub block_cache: BlockCache,
}

/// The newest-first lookup over the level-0 tables: the last (newest)
/// table answers first.
pub open spec fn l0_lookup(ssts: Seq<SsTable>, k: Seq<u8>) -> Option<Seq<u8>>
    decreases ssts.len(),
{
    if ssts.len() == 0 {
        Option::None
    } else {
        match crate::mem_table::seq_get(ssts.last().entries(), k) {
            Option::Some(v) => Option::Some(v),
            Option::None => l0_lookup(ssts.drop_last(), k),
        }
    }
}

impl LsmStorage {
    pub open spec fn wf(self) -> bool {
        &&& self.inner.memtable.wf()
        &&& self.inner.memtable.view_entries().len() <= MAX_TABLE_ENTRIES
        &&& self.inner.imm_memtable@.len() == 0
        &&& forall|i: int|
            0 <= i < self.inner.l0_sstable@.len() ==> (#[trigger] self.inner.l0_sstable@[i]).wf()
        &&& self.inner.next_sst_id >= 1
    }

    /// A fresh, empty engine: no recovery is attempted, table ids start
    /// at 1, and a block cache shared by all later tables is attached.
    pub fn open() -> (r: Self)
        ensures
            r.wf(),
            r.inner.memtable.view_entries().len() == 0,
            r.inner.imm_memtable@.len() == 0,
            r.inner.l0_sstable@.len() == 0,
            r.inner.next_sst_id == 1,
    {
        LsmStorage {
            inner: LsmStorageInner {
                memtable: Memtable::create(),
                imm_memtable: Vec::new(),
                l0_sstable: Vec::new(),
                next_sst_id: 1,
            },
            block_cache: BlockCache::new(1 << 20),
        }
    }

    /// Store `value` under `key`. Neither may be empty. Fails only when the
    /// memtable is at capacity and the key is fresh; a `sync` then makes
    /// room.
    pub fn put(&mut self, key: &[u8], value: &[u8]) -> (r: Result<(), LsmError>)
        requires
            old(self).wf(),
            1 <= key@.len() <= 65535,
            1 <= value@.len() <= 65535,
        ensures
            final(self).wf(),
            r is Ok <==> (old(self).inner.memtable.lookup(key@) is Some || old(
                self,
            ).inner.memtable.view_entries().len() < MAX_TABLE_ENTRIES),
            r is Ok ==> final(self).inner.memtable.lookup(key@) == Option::Some(value@)
                && (forall|k: Seq<u8>|
                k != key@ ==> final(self).inner.memtable.lookup(k) == old(
                    self,
                ).inner.memtable.lookup(k)),
            final(self).inner.memtable.view_entries().len()
                <= old(self).inner.memtable.view_entries().len() + 1,
            old(self).inner.memtable.lookup(key@) is Some
                ==> final(self).inner.memtable.view_entries().len()
                == old(self).inner.memtable.view_entries().len(),
            final(self).inner.l0_sstable@ == old(self).inner.l0_sstable@,
            final(self).inner.imm_memtable@ == old(self).inner.imm_memtable@,
            final(self).inner.next_sst_id == old(self).inner.next_sst_id,
            r is Err ==> *final(self) == *old(self),
    {
        let present = self.inner.memtable.get(key).is_some();
        if !present && self.inner.memtable.len() >= MAX_TABLE_ENTRIES {
            return Result::Err(LsmError::MemtableFull);
        }
        self.inner.memtable.put(key, value);
        Result::Ok(())
    }

    /// Remove `key` by storing the tombstone, an empty value.
    pub fn delete(&mut self, key: &[u8]) -> (r: Result<(), LsmError>)
        requires
            old(self).wf(),
            1 <= key@.len() <= 65535,
        ensures
            final(self).wf(),
            r is Ok <==> (old(self).inner.memtable.lookup(key@) is Some || old(
                self,
            ).inner.memtable.view_entries().len() < MAX_TABLE_ENTRIES),
            r is Ok ==> final(self).inner.memtable.lookup(key@) == Option::Some(
                Seq::<u8>::empty(),
            ) && (forall|k: Seq<u8>|
                k != key@ ==> final(self).inner.memtable.lookup(k) == old(
                    self,
                ).inner.memtable.lookup(k)),
            final(self).inner.memtable.view_entries().len()
                <= old(self).inner.memtable.view_entries().len() + 1,
            old(self).inner.memtable.lookup(key@) is Some
                ==> final(self).inner.memtable.view_entries().len()
                == old(self).inner.memtable.view_entries().len(),
            final(self).inner.l0_sstable@ == old(self).inner.l0_sstable@,
            final(self).inner.imm_memtable@ == old(self).inner.imm_memtable@,
            final(self).inner.next_sst_id == old(self).inner.next_sst_id,
            r is Err ==> *final(self) == *old(self),
    {
        let present = self.inner.memtable.get(key).is_some();
        if !present && self.inner.memtable.len() >= MAX_TABLE_ENTRIES {
            return Result::Err(LsmError::MemtableFull);
        }
        let empty: Vec<u8> = Vec::new();
        self.inner.memtable.put(key, empty.as_slice());
        proof {
            assert(empty@ =~= Seq::<u8>::empty());
        }
        Result::Ok(())
    }

    /// What the layered state stores under `k`, newest layer first:
    /// the memtable, then the level-0 tables newest to oldest. The frozen
    /// stack is always empty between operations. Tombstones included.
    pub open spec fn lookup(self, k: Seq<u8>) -> Option<Seq<u8>> {
        match self.inner.memtable.lookup(k) {
            Option::Some(v) => Option::Some(v),
            Option::None => l0_lookup(self.inner.l0_sstable@, k),
        }
    }

    /// Read `key`: the newest write wins across the memtable and the
    /// level-0 tables newest first; an empty value means the key was
    /// deleted and reads as not-found.
    pub fn get(&self, key: &[u8]) -> (r: Option<Vec<u8>>)
        requires
            self.wf(),
        ensures
            match self.lookup(key@) {
                Option::Some(v) => if v.len() > 0 {
                    r matches Option::Some(rv) && rv@ == v
                } else {
                    r is None
                },
                Option::None => r is None,
            },
    {
        match self.inner.memtable.get(key) {
            Option::Some(v) => {
                if v.len() == 0 {
                    return Option::None;
                }
                return Option::Some(v);
            },
            Option::None => {},
        }
        // the frozen memtable stack is empty between operations: a flush
        // completes within sync, so reads fall through to the tables,
        // newest first
        proof {
            assert(self.inner.memtable.lookup(key@) is None);
        }
        let ghost l0 = self.inner.l0_sstable@;
        let mut j = self.inner.l0_sstable.len();
        proof {
            assert(l0.subrange(0, l0.len() as int) =~= l0);
        }
        while j > 0
            invariant
                self.wf(),
                l0 == self.inner.l0_sstable@,
                j <= l0.len(),
                self.inner.memtable.lookup(key@) is None,
                l0_lookup(l0, key@) == l0_lookup(l0.subrange(0, j as int), key@),
            decreases j,
        {
            j = j - 1;
            let hit = self.inner.l0_sstable[j].get(key);
            proof {
                assert(l0.subrange(0, j + 1).last() == l0[j as int]);
                assert(l0.subrange(0, j + 1).drop_last() =~= l0.subrange(0, j as int));
            }
            match hit {
                Option::Some(v) => {
                    proof {
                        assert(l0_lookup(l0.subrange(0, j + 1), key@) == Option::Some(v@));
                        assert(self.lookup(key@) == Option::Some(v@));
                    }
                    if v.len() == 0 {
                        return Option::None;
                    }
                    return Option::Some(v);
                },
                Option::None => {
                    proof {
                        assert(l0_lookup(l0.subrange(0, j + 1), key@) == l0_lookup(
                            l0.subrange(0, j as int),
                            key@,
                        ));
                    }
                },
            }
        }
        proof {
            assert(l0.subrange(0, 0) =~= Seq::<SsTable>::empty());
        }
        Option::None
    }

    /// Flush: freeze the memtable, write it as one table, publish the table
    /// at the end of level 0, and retire the frozen memtable. Returns the
    /// new table's id and its encoded image, for the caller to persist.
    pub fn sync(&mut self) -> (r: (usize, Vec<u8>))
        requires
            old(self).wf(),
            old(self).inner.memtable.view_entries().len() > 0,
            old(self).inner.next_sst_id < usize::MAX,
        ensures
            final(self).wf(),
            final(self).inner.memtable.view_entries().len() == 0,
            final(self).inner.l0_sstable@.len() == old(self).inner.l0_sstable@.len() + 1,
            forall|i: int|
                0 <= i < old(self).inner.l0_sstable@.len() ==> final(self).inner.l0_sstable@[i]
                    == #[trigger] old(self).inner.l0_sstable@[i],
            final(self).inner.l0_sstable@.last().entries() == old(
                self,
            ).inner.memtable.view_entries(),
            final(self).inner.l0_sstable@.last().id == old(self).inner.next_sst_id,
            final(self).inner.next_sst_id == old(self).inner.next_sst_id + 1,
            r.0 == old(self).inner.next_sst_id,
            r.1@ == final(self).inner.l0_sstable@.last().file_bytes@,
    {
        // freeze: swap in a fresh memtable, park the old one
        let mut frozen = Memtable::create();
        core::mem::swap(&mut self.inner.memtable, &mut frozen);
        self.inner.imm_memtable.push(frozen);
        let sst_id = self.inner.next_sst_id;
        // flush the frozen memtable into one table
        let last = self.inner.imm_memtable.len() - 1;
        let ghost es = old(self).inner.memtable.view_entries();
        let mut builder = SsTableBuilder::new(FLUSH_BLOCK_SIZE);
        let n = self.inner.imm_memtable[last].entries.len();
        for t in 0..n
            invariant
                self.inner.imm_memtable@.len() == old(self).inner.imm_memtable@.len() + 1,
                last == self.inner.imm_memtable@.len() - 1,
                self.inner.imm_memtable@[last as int] == old(self).inner.memtable,
                es == old(self).inner.memtable.view_entries(),
                old(self).inner.memtable.wf(),
                n == es.len() <= MAX_TABLE_ENTRIES,
                builder.wf(),
                builder.block_size == FLUSH_BLOCK_SIZE,
                builder.entries() == es.subrange(0, t as int),
        {
            let e = &self.inner.imm_memtable[last].entries[t];
            proof {
                assert(crate::mem_table::evs(old(self).inner.memtable.entries@)[t as int] == (
                e.0@,
                e.1@,
                ));
                if t > 0 {
                    assert(builder.entries().last() == es[t - 1]);
                    assert(crate::block::entries_sorted(es));
                }
            }
            builder.add(e.0.as_slice(), e.1.as_slice());
            proof {
                assert(builder.entries() =~= es.subrange(0, t + 1));
            }
        }
        proof {
            assert(es.subrange(0, n as int) =~= es);
        }
        let sst = builder.build(sst_id, Option::Some(self.block_cache.clone_handle()));
        let bytes = copy_bytes(&sst.file_bytes);
        // publish: retire the frozen memtable, append the table
        self.inner.imm_memtable.pop();
        self.inner.l0_sstable.push(sst);
        self.inner.next_sst_id = sst_id + 1;
        proof {
            assert(self.inner.imm_memtable@ =~= old(self).inner.imm_memtable@);
        }
        (sst_id, bytes)
    }

    /// A cursor over one table, positioned past an excluded lower endpoint.
    #[verifier::rlimit(100)]
    #[verifier::spinoff_prover]
    fn table_source_excluded(table: SsTable, v: &Vec<u8>) -> (r: SsTableIterator)
        requires
            table.wf(),
        ensures
            r.inv(),
            exists|g: int|
                0 <= g <= table.entries().len() && r.remaining() == table.entries().skip(g) && (
                forall|t: int|
                    0 <= t < g ==> crate::wire::lex_le((#[trigger] table.entries()[t]).0, v@)),
    {
        let ghost tes = table.entries();
        let mut it = SsTableIterator::create_and_seek_to_key(table, v.as_slice());
        let ghost g0 = choose|g: int|
            0 <= g <= tes.len() && it.remaining() == tes.skip(g) && (forall|t: int|
                0 <= t < g ==> crate::wire::lex_lt((#[trigger] tes[t]).0, v@));
        if StorageIterator::is_valid(&it) {
            let k = StorageIterator::key(&it);
            if bytes_eq(k.as_slice(), v.as_slice()) {
                StorageIterator::next(&mut it);
                proof {
                    assert(tes.skip(g0)[0] == tes[g0]);
                    assert(it.remaining() =~= tes.skip(g0 + 1));
                }
            }
        }
        it
    }

    /// A cursor over one table, positioned at the lower bound: what it still
    /// holds is the table's entries with exactly the keys outside the lower
    /// bound dropped from the front.
    #[verifier::rlimit(100)]
    #[verifier::spinoff_prover]
    fn table_source(table: SsTable, lower: &Bound) -> (r: SsTableIterator)
        requires
            table.wf(),
        ensures
            r.inv(),
            crate::iterators::lower_suffix(r.remaining(), table.entries(), *lower),
    {
        let ghost tes = table.entries();
        let it = match lower {
            Bound::Unbounded => {
                let it = SsTableIterator::create_and_seek_to_first(table);
                proof {
                    assert(tes.skip(0) =~= tes);
                    assert(crate::iterators::lower_suffix(it.remaining(), tes, *lower));
                }
                it
            },
            Bound::Included(v) => {
                let it = SsTableIterator::create_and_seek_to_key(table, v.as_slice());
                proof {
                    let g = choose|g: int|
                        0 <= g <= tes.len() && it.remaining() == tes.skip(g) && (forall|t: int|
                            0 <= t < g ==> crate::wire::lex_lt((#[trigger] tes[t]).0, v@));
                    assert forall|t: int| 0 <= t < g implies !above_lower(
                        *lower,
                        (#[trigger] tes[t]).0,
                    ) by {
                        crate::wire::lemma_lex_lt_asym(tes[t].0, v@);
                        crate::wire::lemma_lex_lt_irrefl(v@);
                    }
                    assert(crate::iterators::lower_suffix(it.remaining(), tes, *lower));
                }
                it
            },
            Bound::Excluded(v) => {
                let it = Self::table_source_excluded(table, v);
                proof {
                    let g = choose|g: int|
                        0 <= g <= tes.len() && it.remaining() == tes.skip(g) && (forall|t: int|
                            0 <= t < g ==> crate::wire::lex_le((#[trigger] tes[t]).0, v@));
                    assert forall|t: int| 0 <= t < g implies !above_lower(
                        *lower,
                        (#[trigger] tes[t]).0,
                    ) by {
                        if crate::wire::lex_lt(v@, tes[t].0) {
                            crate::wire::lemma_lex_le_lt_trans(tes[t].0, v@, tes[t].0);
                            crate::wire::lemma_lex_lt_irrefl(tes[t].0);
                        }
                    }
                    assert(crate::iterators::lower_suffix(it.remaining(), tes, *lower));
                }
                it
            },
        };
        it
    }

    /// An ordered view of all live entries whose keys fall within the
    /// bounds: the newest-wins merge of the memtable and the level-0 tables
    /// (newest first), restricted to the range, tombstones elided.
    #[verifier::rlimit(100)]
    #[verifier::spinoff_prover]
    pub fn scan(&self, lower: &Bound, upper: &Bound) -> (r: FusedIterator)
        requires
            self.wf(),
        ensures
            r.inv(),
            forall|k: Seq<u8>|
                crate::mem_table::below_upper(r.iter.upper, k) == crate::mem_table::below_upper(
                    *upper,
                    k,
                ),
            exists|srcs: Seq<Seq<(Seq<u8>, Seq<u8>)>>|
                {
                    &&& srcs.len() == 1 + self.inner.l0_sstable@.len()
                    &&& srcs[0] == crate::mem_table::filter_range(
                        self.inner.memtable.view_entries(),
                        *lower,
                        *upper,
                    )
                    &&& (forall|t: int|
                        1 <= t < srcs.len() ==> crate::iterators::lower_suffix(
                            #[trigger] srcs[t],
                            self.inner.l0_sstable@[srcs.len() - 1 - t].entries(),
                            *lower,
                        ))
                    &&& r.stream() == crate::lsm_iterator::lsm_stream(
                        crate::iterators::merged(srcs),
                        r.iter.upper,
                    )
                },
    {
        let mut iters: Vec<IterSource> = Vec::new();
        // the mutable memtable is the most recent source
        iters.push(
            IterSource::Mem(MemtableIterator::new(self.inner.memtable.scan(lower, upper))),
        );
        // the frozen memtable stack is empty between operations, so the
        // tables follow directly, newest first
        let ghost n = self.inner.l0_sstable@.len();
        let mut j = self.inner.l0_sstable.len();
        while j > 0
            invariant
                self.wf(),
                n == self.inner.l0_sstable@.len(),
                j <= n,
                iters@.len() == 1 + (n - j),
                forall|t: int| 0 <= t < iters@.len() ==> (#[trigger] iters@[t]).inv(),
                iters@[0].remaining() == crate::mem_table::filter_range(
                    self.inner.memtable.view_entries(),
                    *lower,
                    *upper,
                ),
                forall|t: int|
                    1 <= t < iters@.len() ==> crate::iterators::lower_suffix(
                        (#[trigger] iters@[t]).remaining(),
                        self.inner.l0_sstable@[n - t].entries(),
                        *lower,
                    ),
            decreases j,
        {
            j = j - 1;
            let table = self.inner.l0_sstable[j].duplicate();
            let ghost tes = table.entries();
            let it = Self::table_source(table, lower);
            proof {
                assert(crate::iterators::lower_suffix(it.remaining(), tes, *lower));
            }
            let ghost pre_iters = iters@;
            iters.push(IterSource::Table(it));
            proof {
                assert(iters@.len() == 1 + (n - j));
                assert(iters@[iters@.len() - 1].remaining() == it.remaining());
                assert(n - (iters@.len() - 1) == j);
                assert forall|t: int| 1 <= t < iters@.len() implies crate::iterators::lower_suffix(
                    (#[trigger] iters@[t]).remaining(),
                    self.inner.l0_sstable@[n - t].entries(),
                    *lower,
                ) by {
                    if t < iters@.len() - 1 {
                        assert(iters@[t] == pre_iters[t]);
                    }
                }
            }
        }
        let ghost srcs = crate::iterators::rems(iters@);
        proof {
            assert(srcs.len() == 1 + n);
            assert(srcs[0] == iters@[0].remaining());
            assert forall|t: int| 1 <= t < srcs.len() implies crate::iterators::lower_suffix(
                #[trigger] srcs[t],
                self.inner.l0_sstable@[srcs.len() - 1 - t].entries(),
                *lower,
            ) by {
                assert(srcs[t] == iters@[t].remaining());
                assert(n - t == srcs.len() - 1 - t);
            }
        }
        let merge = MergeIterator::<IterSource>::create(iters);
        let lsm = LsmIterator::new(merge, upper.duplicate());
        let r = FusedIterator::new(lsm);
        proof {
            assert(r.stream() == crate::lsm_iterator::lsm_stream(
                crate::iterators::merged(srcs),
                r.iter.upper,
            ));
        }
        r
    }
}

impl SsTable {
    /// An owned copy of the table, sharing the block cache.
    pub fn duplicate(&self) -> (r: SsTable)
        ensures
            r.file_bytes@ == self.file_bytes@,
            bms(r.metas@) == bms(self.metas@),
            r.meta_offset == self.meta_offset,
            r.id == self.id,
            r.metas@.len() == self.metas@.len(),
            self.wf() ==> r.wf(),
            self.wf() ==> r.entries() == self.entries(),
    {
        let mut metas: Vec<BlockMeta> = Vec::new();
        let n = self.metas.len();
        for i in 0..n
            invariant
                n == self.metas@.len(),
                metas@.len() == i,
                forall|t: int|
                    0 <= t < i ==> (#[trigger] metas@[t]).offset == self.metas@[t].offset
                        && metas@[t].first_key@ == self.metas@[t].first_key@,
        {
            let m = &self.metas[i];
            metas.push(BlockMeta { offset: m.offset, first_key: copy_bytes(&m.first_key) });
        }
        let cache = match &self.block_cache {
            Option::Some(c) => Option::Some(c.clone_handle()),
            Option::None => Option::None,
        };
        let r = SsTable {
            file_bytes: copy_bytes(&self.file_bytes),
            metas,
            meta_offset: self.meta_offset,
            id: self.id,
            block_cache: cache,
        };
        proof {
            assert(bms(r.metas@) =~= bms(self.metas@));
        }
        r
    }
}

} // verus!
