//! The memtable: the mutable in-memory ordered map that absorbs writes until
//! a flush turns it into a table. A zero-length value is the deletion
//! tombstone.
use crate::block::entries_sorted;
use crate::wire::{
    bytes_eq, bytes_lt, copy_bytes, copy_slice, lemma_lex_lt_trans, lex_le, lex_lt,
};
use vstd::prelude::*;

verus! {

/// The mathematical content of a run of owned entries.
pub open spec fn evs(es: Seq<(Vec<u8>, Vec<u8>)>) -> Seq<(Seq<u8>, Seq<u8>)> {
    es.map_values(|p: (Vec<u8>, Vec<u8>)| (p.0@, p.1@))
}

/// The value stored under `k` by the first entry that carries it, if any.
/// On a strictly sorted run the carrier is unique.
pub open spec fn seq_get(es: Seq<(Seq<u8>, Seq<u8>)>, k: Seq<u8>) -> Option<Seq<u8>>
    decreases es.len(),
{
    if es.len() == 0 {
        Option::None
    } else if es[0].0 == k {
        Option::Some(es[0].1)
    } else {
        seq_get(es.skip(1), k)
    }
}

/// A run with `k` nowhere in it stores nothing under `k`.
pub proof fn lemma_seq_get_none(es: Seq<(Seq<u8>, Seq<u8>)>, k: Seq<u8>)
    requires
        forall|i: int| 0 <= i < es.len() ==> (#[trigger] es[i]).0 != k,
    ensures
        seq_get(es, k) is None,
    decreases es.len(),
{
    if es.len() > 0 {
        assert(forall|i: int|
            0 <= i < es.skip(1).len() ==> #[trigger] es.skip(1)[i] == es[i + 1]);
        lemma_seq_get_none(es.skip(1), k);
    }
}

/// On a strictly sorted run, an entry with key `k` at position `i` settles
/// `seq_get`.
pub proof fn lemma_seq_get_at(es: Seq<(Seq<u8>, Seq<u8>)>, k: Seq<u8>, i: int)
    requires
        entries_sorted(es),
        0 <= i < es.len(),
        es[i].0 == k,
    ensures
        seq_get(es, k) == Option::Some(es[i].1),
    decreases es.len(),
{
    if i == 0 {
    } else {
        assert(lex_lt(es[0].0, es[i].0));
        if es[0].0 == k {
            crate::wire::lemma_lex_lt_irrefl(k);
        }
        let tail = es.skip(1);
        assert(forall|t: int| 0 <= t < tail.len() ==> #[trigger] tail[t] == es[t + 1]);
        assert(entries_sorted(tail)) by {
            assert forall|a: int, b: int| 0 <= a < b < tail.len() implies lex_lt(
                #[trigger] tail[a].0,
                #[trigger] tail[b].0,
            ) by {
                assert(tail[a] == es[a + 1] && tail[b] == es[b + 1]);
            }
        }
        lemma_seq_get_at(tail, k, i - 1);
    }
}

/// Looking up in a concatenation: the left run answers first.
pub proof fn lemma_seq_get_concat(a: Seq<(Seq<u8>, Seq<u8>)>, b: Seq<(Seq<u8>, Seq<u8>)>, k: Seq<u8>)
    ensures
        seq_get(a + b, k) == (if seq_get(a, k) is Some {
            seq_get(a, k)
        } else {
            seq_get(b, k)
        }),
    decreases a.len(),
{
    if a.len() == 0 {
        assert(a + b =~= b);
    } else {
        assert((a + b)[0] == a[0]);
        assert((a + b).skip(1) =~= a.skip(1) + b);
        lemma_seq_get_concat(a.skip(1), b, k);
    }
}

/// Keys within the lower bound of a scan.
pub open spec fn above_lower(b: Bound, k: Seq<u8>) -> bool {
    match b {
        Bound::Unbounded => true,
        Bound::Included(v) => lex_le(v@, k),
        Bound::Excluded(v) => lex_lt(v@, k),
    }
}

/// Keys within the upper bound of a scan.
pub open spec fn below_upper(b: Bound, k: Seq<u8>) -> bool {
    match b {
        Bound::Unbounded => true,
        Bound::Included(v) => lex_le(k, v@),
        Bound::Excluded(v) => lex_lt(k, v@),
    }
}

/// A key lies within both endpoints of a scan.
pub open spec fn in_bounds(lo: Bound, up: Bound, k: Seq<u8>) -> bool {
    above_lower(lo, k) && below_upper(up, k)
}

/// The subsequence of a run whose keys lie within the bounds.
pub open spec fn filter_range(es: Seq<(Seq<u8>, Seq<u8>)>, lo: Bound, up: Bound) -> Seq<
    (Seq<u8>, Seq<u8>),
>
    decreases es.len(),
{
    if es.len() == 0 {
        Seq::empty()
    } else {
        let rest = filter_range(es.drop_last(), lo, up);
        if in_bounds(lo, up, es.last().0) {
            rest.push(es.last())
        } else {
            rest
        }
    }
}

/// A scan endpoint.
pub enum Bound {
    Unbounded,
    Included(Vec<u8>),
    Excluded(Vec<u8>),
}

impl Bound {
    /// An owned copy of the endpoint: it bounds exactly the same keys.
    pub fn duplicate(&self) -> (r: Bound)
        ensures
            forall|k: Seq<u8>| above_lower(r, k) == above_lower(*self, k),
            forall|k: Seq<u8>| below_upper(r, k) == below_upper(*self, k),
    {
        match self {
            Bound::Unbounded => Bound::Unbounded,
            Bound::Included(v) => Bound::Included(copy_bytes(v)),
            Bound::Excluded(v) => Bound::Excluded(copy_bytes(v)),
        }
    }
}

/// A mutable ordered map from keys to values, tombstones included.
pub struct Memtable {
    /// The entries, strictly ascending by key.
    pub entries: Vec<(Vec<u8>, Vec<u8>)>,
}

impl Memtable {
    pub open spec fn view_entries(self) -> Seq<(Seq<u8>, Seq<u8>)> {
        evs(self.entries@)
    }

    pub open spec fn wf(self) -> bool {
        &&& entries_sorted(self.view_entries())
        &&& forall|i: int|
            0 <= i < self.view_entries().len() ==> 1 <= (#[trigger] self.view_entries()[i]).0.len()
                <= 65535 && self.view_entries()[i].1.len() <= 65535
    }

    /// What the memtable stores under `k`, tombstones included.
    pub open spec fn lookup(self, k: Seq<u8>) -> Option<Seq<u8>> {
        seq_get(self.view_entries(), k)
    }

    pub fn create() -> (r: Memtable)
        ensures
            r.wf(),
            r.view_entries() == Seq::<(Seq<u8>, Seq<u8>)>::empty(),
    {
        let r = Memtable { entries: Vec::new() };
        proof {
            assert(r.view_entries() =~= Seq::<(Seq<u8>, Seq<u8>)>::empty());
        }
        r
    }

    pub fn len(&self) -> (r: usize)
        ensures
            r == self.view_entries().len(),
    {
        self.entries.len()
    }

    /// The index of the first entry whose key is at least `key`.
    fn lower_bound(&self, key: &[u8]) -> (r: usize)
        requires
            self.wf(),
        ensures
            r <= self.view_entries().len(),
            forall|j: int| 0 <= j < r ==> lex_lt(#[trigger] self.view_entries()[j].0, key@),
            r < self.view_entries().len() ==> !lex_lt(self.view_entries()[r as int].0, key@),
    {
        let ghost es = self.view_entries();
        let mut lo: usize = 0;
        let mut hi: usize = self.entries.len();
        while lo < hi
            invariant
                self.wf(),
                es == self.view_entries(),
                lo <= hi <= es.len(),
                forall|j: int| 0 <= j < lo ==> lex_lt(#[trigger] es[j].0, key@),
                forall|j: int| hi <= j < es.len() ==> !lex_lt(#[trigger] es[j].0, key@),
            decreases hi - lo,
        {
            let mid = lo + (hi - lo) / 2;
            if bytes_lt(self.entries[mid].0.as_slice(), key) {
                proof {
                    assert forall|j: int| 0 <= j < mid + 1 implies lex_lt(
                        #[trigger] es[j].0,
                        key@,
                    ) by {
                        if j < mid {
                            lemma_lex_lt_trans(es[j].0, es[mid as int].0, key@);
                        }
                    }
                }
                lo = mid + 1;
            } else {
                proof {
                    assert forall|j: int| mid <= j < es.len() implies !lex_lt(
                        #[trigger] es[j].0,
                        key@,
                    ) by {
                        if j > mid && lex_lt(es[j].0, key@) {
                            lemma_lex_lt_trans(es[mid as int].0, es[j].0, key@);
                        }
                    }
                }
                hi = mid;
            }
        }
        lo
    }

    /// Store `value` under `key`, replacing any earlier value. An empty
    /// `value` stores the deletion tombstone.
    pub fn put(&mut self, key: &[u8], value: &[u8])
        requires
            old(self).wf(),
            1 <= key@.len() <= 65535,
            value@.len() <= 65535,
        ensures
            final(self).wf(),
            final(self).lookup(key@) == Option::Some(value@),
            forall|k: Seq<u8>| k != key@ ==> final(self).lookup(k) == old(self).lookup(k),
            final(self).view_entries().len() <= old(self).view_entries().len() + 1,
            old(self).lookup(key@) is Some ==> final(self).view_entries().len() == old(
                self,
            ).view_entries().len(),
    {
        let ghost es0 = self.view_entries();
        let i = self.lower_bound(key);
        let hit = i < self.entries.len() && bytes_eq(self.entries[i].0.as_slice(), key);
        proof {
            if i < es0.len() && es0[i as int].0 != key@ {
                crate::wire::lemma_lex_lt_trichotomy(key@, es0[i as int].0);
            }
        }
        if hit {
            let v = copy_slice(value);
            let k = copy_slice(key);
            self.entries.set(i, (k, v));
            proof {
                let es1 = self.view_entries();
                assert(es1 =~= es0.update(i as int, (key@, value@)));
                assert forall|a: int, b: int| 0 <= a < b < es1.len() implies lex_lt(
                    #[trigger] es1[a].0,
                    #[trigger] es1[b].0,
                ) by {
                    assert(es1[a].0 == es0[a].0 && es1[b].0 == es0[b].0);
                }
                lemma_seq_get_at(es1, key@, i as int);
                assert forall|k2: Seq<u8>| k2 != key@ implies final(self).lookup(k2) == old(
                    self,
                ).lookup(k2) by {
                    lemma_lookup_frame(es0, es1, key@, k2);
                }
                lemma_seq_get_at(es0, key@, i as int);
            }
        } else {
            let v = copy_slice(value);
            let k = copy_slice(key);
            self.entries.insert(i, (k, v));
            proof {
                let es1 = self.view_entries();
                assert(es1 =~= es0.insert(i as int, (key@, value@)));
                assert forall|a: int, b: int| 0 <= a < b < es1.len() implies lex_lt(
                    #[trigger] es1[a].0,
                    #[trigger] es1[b].0,
                ) by {
                    lemma_insert_indexing(es0, es1, i as int, a);
                    lemma_insert_indexing(es0, es1, i as int, b);
                    if a == i {
                        // the new key is below every entry from the insertion
                        // point on
                        assert(es1[b] == es0[b - 1]);
                        assert(lex_lt(key@, es0[i as int].0));
                        if b - 1 > i {
                            lemma_lex_lt_trans(key@, es0[i as int].0, es0[b - 1].0);
                        }
                    } else if b == i {
                        assert(lex_lt(es0[a].0, key@));
                    } else if a < i && i < b {
                        if a < i {
                            assert(es1[a] == es0[a]);
                        }
                        assert(es1[b] == es0[b - 1]);
                        if a < b - 1 {
                        }
                    }
                }
                lemma_seq_get_at(es1, key@, i as int);
                assert forall|k2: Seq<u8>| k2 != key@ implies final(self).lookup(k2) == old(
                    self,
                ).lookup(k2) by {
                    lemma_lookup_frame_insert(es0, es1, i as int, k2);
                }
                assert forall|t: int| 0 <= t < es0.len() implies (#[trigger] es0[t]).0
                    != key@ by {
                    crate::wire::lemma_lex_lt_irrefl(key@);
                    if t >= i {
                        assert(lex_lt(key@, es0[i as int].0));
                        if t > i {
                            lemma_lex_lt_trans(key@, es0[i as int].0, es0[t].0);
                        }
                    }
                }
                lemma_seq_get_none(es0, key@);
            }
        }
    }

    /// The value stored under `key`, tombstones included; `None` when the
    /// key was never written.
    pub fn get(&self, key: &[u8]) -> (r: Option<Vec<u8>>)
        requires
            self.wf(),
        ensures
            match r {
                Option::Some(v) => self.lookup(key@) == Option::Some(v@),
                Option::None => self.lookup(key@) is None,
            },
    {
        let i = self.lower_bound(key);
        if i < self.entries.len() && bytes_eq(self.entries[i].0.as_slice(), key) {
            proof {
                lemma_seq_get_at(self.view_entries(), key@, i as int);
            }
            Option::Some(copy_bytes(&self.entries[i].1))
        } else {
            proof {
                let es = self.view_entries();
                if i < es.len() && es[i as int].0 != key@ {
                    crate::wire::lemma_lex_lt_trichotomy(key@, es[i as int].0);
                }
                assert forall|t: int| 0 <= t < es.len() implies (#[trigger] es[t]).0 != key@ by {
                    crate::wire::lemma_lex_lt_irrefl(key@);
                    if t >= i {
                        assert(lex_lt(key@, es[i as int].0));
                        if t > i {
                            lemma_lex_lt_trans(key@, es[i as int].0, es[t].0);
                        }
                    }
                }
                lemma_seq_get_none(es, key@);
            }
            Option::None
        }
    }

    /// All entries whose keys fall within the bounds, in key order.
    pub fn scan(&self, lower: &Bound, upper: &Bound) -> (r: Vec<(Vec<u8>, Vec<u8>)>)
        requires
            self.wf(),
        ensures
            evs(r@) == filter_range(self.view_entries(), *lower, *upper),
            entries_sorted(evs(r@)),
            forall|i: int|
                0 <= i < evs(r@).len() ==> above_lower(*lower, (#[trigger] evs(r@)[i]).0)
                    && below_upper(*upper, evs(r@)[i].0) && 1 <= evs(r@)[i].0.len() <= 65535
                    && evs(r@)[i].1.len() <= 65535,
    {
        let ghost es = self.view_entries();
        let mut r: Vec<(Vec<u8>, Vec<u8>)> = Vec::new();
        let n = self.entries.len();
        proof {
            assert(es.subrange(0, 0) =~= Seq::<(Seq<u8>, Seq<u8>)>::empty());
        }
        for i in 0..n
            invariant
                self.wf(),
                es == self.view_entries(),
                n == es.len(),
                evs(r@) == filter_range(es.subrange(0, i as int), *lower, *upper),
                entries_sorted(evs(r@)),
                forall|t: int|
                    0 <= t < evs(r@).len() ==> above_lower(*lower, (#[trigger] evs(r@)[t]).0)
                        && below_upper(*upper, evs(r@)[t].0) && 1 <= evs(r@)[t].0.len() <= 65535
                        && evs(r@)[t].1.len() <= 65535,
                evs(r@).len() > 0 ==> exists|j: int| 0 <= j < i && evs(r@).last().0 == es[j].0,
        {
            proof {
                assert(es.subrange(0, i + 1).drop_last() =~= es.subrange(0, i as int));
                assert(es.subrange(0, i + 1).last() == es[i as int]);
            }
            let within_lower = match lower {
                Bound::Unbounded => true,
                Bound::Included(v) => crate::wire::bytes_le(v.as_slice(), self.entries[i].0.as_slice()),
                Bound::Excluded(v) => bytes_lt(v.as_slice(), self.entries[i].0.as_slice()),
            };
            let within_upper = match upper {
                Bound::Unbounded => true,
                Bound::Included(v) => crate::wire::bytes_le(self.entries[i].0.as_slice(), v.as_slice()),
                Bound::Excluded(v) => bytes_lt(self.entries[i].0.as_slice(), v.as_slice()),
            };
            if within_lower && within_upper {
                let ghost r0 = evs(r@);
                let k = copy_bytes(&self.entries[i].0);
                let v = copy_bytes(&self.entries[i].1);
                r.push((k, v));
                proof {
                    assert(evs(r@) =~= r0.push((es[i as int].0, es[i as int].1)));
                    assert(es[i as int] == (es[i as int].0, es[i as int].1));
                    if r0.len() > 0 {
                        let j = choose|j: int| 0 <= j < i && r0.last().0 == es[j].0;
                        assert(lex_lt(es[j].0, es[i as int].0));
                    }
                    crate::table::lemma_sorted_push(r0, (es[i as int].0, es[i as int].1));
                }
            }
        }
        proof {
            assert(es.subrange(0, n as int) =~= es);
        }
        r
    }
}

/// Replacing the value under `changed` changes no other key's lookup.
proof fn lemma_lookup_frame(
    es0: Seq<(Seq<u8>, Seq<u8>)>,
    es1: Seq<(Seq<u8>, Seq<u8>)>,
    changed: Seq<u8>,
    k: Seq<u8>,
)
    requires
        entries_sorted(es0),
        entries_sorted(es1),
        es0.len() == es1.len(),
        forall|i: int| 0 <= i < es0.len() ==> (#[trigger] es1[i]).0 == es0[i].0,
        forall|i: int| 0 <= i < es0.len() && (#[trigger] es0[i]).0 != changed ==> es1[i] == es0[i],
        k != changed,
    ensures
        seq_get(es1, k) == seq_get(es0, k),
{
    if exists|i: int| 0 <= i < es0.len() && (#[trigger] es0[i]).0 == k {
        let i = choose|i: int| 0 <= i < es0.len() && (#[trigger] es0[i]).0 == k;
        lemma_seq_get_at(es0, k, i);
        assert(es1[i] == es0[i]);
        lemma_seq_get_at(es1, k, i);
    } else {
        lemma_seq_get_none(es0, k);
        lemma_seq_get_none(es1, k);
    }
}

/// How indexes shift when one entry is inserted at `at`.
proof fn lemma_insert_indexing(
    es0: Seq<(Seq<u8>, Seq<u8>)>,
    es1: Seq<(Seq<u8>, Seq<u8>)>,
    at: int,
    i: int,
)
    requires
        0 <= at <= es0.len(),
        es1.len() == es0.len() + 1,
        forall|t: int| 0 <= t < at ==> #[trigger] es1[t] == es0[t],
        forall|t: int| at < t < es1.len() ==> #[trigger] es1[t] == es0[t - 1],
        0 <= i < es1.len(),
    ensures
        i < at ==> es1[i] == es0[i],
        i > at ==> es1[i] == es0[i - 1],
{
}

/// Inserting a fresh key changes no other key's lookup.
proof fn lemma_lookup_frame_insert(
    es0: Seq<(Seq<u8>, Seq<u8>)>,
    es1: Seq<(Seq<u8>, Seq<u8>)>,
    at: int,
    k: Seq<u8>,
)
    requires
        entries_sorted(es0),
        entries_sorted(es1),
        0 <= at <= es0.len(),
        es1 == es0.insert(at, es1[at]),
        es1[at].0 != k,
    ensures
        seq_get(es1, k) == seq_get(es0, k),
{
    assert(forall|t: int| 0 <= t < at ==> #[trigger] es1[t] == es0[t]);
    assert(forall|t: int| at < t < es1.len() ==> #[trigger] es1[t] == es0[t - 1]);
    if exists|i: int| 0 <= i < es0.len() && (#[trigger] es0[i]).0 == k {
        let i = choose|i: int| 0 <= i < es0.len() && (#[trigger] es0[i]).0 == k;
        let shifted: int = if i < at {
            i
        } else {
            i + 1
        };
        lemma_seq_get_at(es0, k, i);
        assert(es1[shifted] == es0[i]);
        lemma_seq_get_at(es1, k, shifted);
    } else {
        assert forall|t: int| 0 <= t < es1.len() implies (#[trigger] es1[t]).0 != k by {
            if t < at {
                assert(es1[t] == es0[t]);
            } else if t > at {
                assert(es1[t] == es0[t - 1]);
            }
        }
        lemma_seq_get_none(es0, k);
        lemma_seq_get_none(es1, k);
    }
}

} // verus!
