//! The outermost read cursors: upper-bound truncation and tombstone elision
//! over the merged view, and a fuse that makes use-after-end safe.
use crate::iterators::{IterSource, MergeIterator, StorageIterator};
use crate::mem_table::{below_upper, Bound};
use vstd::prelude::*;

verus! {

/// The stream left after eliding tombstones and truncating at the first
/// live key beyond the upper bound.
pub open spec fn lsm_stream(s: Seq<(Seq<u8>, Seq<u8>)>, up: Bound) -> Seq<(Seq<u8>, Seq<u8>)>
    decreases s.len(),
{
    if s.len() == 0 {
        Seq::empty()
    } else if s[0].1.len() == 0 {
        lsm_stream(s.skip(1), up)
    } else if !below_upper(up, s[0].0) {
        Seq::empty()
    } else {
        seq![s[0]] + lsm_stream(s.skip(1), up)
    }
}

/// An error surfaced by the engine.
#[derive(Debug, PartialEq, Eq, Structural)]
pub enum LsmError {
    /// The memtable is at capacity; a sync must run before more fresh keys.
    MemtableFull,
    /// A cursor was driven past its end.
    IteratorExhausted,
}

/// Merged view of one snapshot: skips tombstones and stops at the upper
/// bound.
pub struct LsmIterator {
    /// The merged sources.
    pub inner: MergeIterator<IterSource>,
    /// Where the scan ends.
    pub upper: Bound,
    /// Set once the upper bound was passed.
    pub stopped: bool,
}

impl LsmIterator {
    pub open spec fn inv(self) -> bool {
        &&& self.inner.inv()
        &&& (!self.stopped && self.inner.cur is Some ==> self.inner.cur_val().len() > 0
            && below_upper(self.upper, self.inner.cur_key()))
    }

    pub open spec fn valid_spec(self) -> bool {
        !self.stopped && self.inner.cur is Some
    }

    /// The live, bounded entries this cursor will still yield.
    pub open spec fn stream(self) -> Seq<(Seq<u8>, Seq<u8>)> {
        if self.stopped {
            Seq::empty()
        } else {
            lsm_stream(self.inner.stream(), self.upper)
        }
    }

    /// Move forward until the current entry is live (no tombstone) and
    /// within the upper bound, or the sources are exhausted.
    fn settle(&mut self)
        requires
            old(self).inner.inv(),
        ensures
            final(self).inv(),
            final(self).upper == old(self).upper,
            !old(self).stopped ==> final(self).stream() == lsm_stream(
                old(self).inner.stream(),
                old(self).upper,
            ),
            (final(self).inner.cur is Some && old(self).inner.cur is Some)
                ==> (final(self).inner.cur_key() == old(self).inner.cur_key()
                || crate::wire::lex_lt(old(self).inner.cur_key(), final(self).inner.cur_key())),
            old(self).inner.cur is None ==> final(self).inner.cur is None,
    {
        loop
            invariant_except_break
                self.inner.inv(),
                self.upper == old(self).upper,
                self.stopped == old(self).stopped,
                lsm_stream(self.inner.stream(), self.upper) == lsm_stream(
                    old(self).inner.stream(),
                    old(self).upper,
                ),
                (self.inner.cur is Some && old(self).inner.cur is Some) ==> (self.inner.cur_key()
                    == old(self).inner.cur_key() || crate::wire::lex_lt(
                    old(self).inner.cur_key(),
                    self.inner.cur_key(),
                )),
                old(self).inner.cur is None ==> self.inner.cur is None,
            ensures
                self.inner.inv(),
                self.upper == old(self).upper,
                self.stopped == old(self).stopped,
                lsm_stream(self.inner.stream(), self.upper) == lsm_stream(
                    old(self).inner.stream(),
                    old(self).upper,
                ),
                (self.inner.cur is Some && old(self).inner.cur is Some) ==> (self.inner.cur_key()
                    == old(self).inner.cur_key() || crate::wire::lex_lt(
                    old(self).inner.cur_key(),
                    self.inner.cur_key(),
                )),
                old(self).inner.cur is None ==> self.inner.cur is None,
                self.inner.cur is Some ==> self.inner.cur_val().len() > 0,
            decreases self.inner.size(),
        {
            if !self.inner.is_valid() {
                break ;
            }
            let v = self.inner.value();
            if v.len() > 0 {
                break ;
            }
            let ghost prev = self.inner.cur_key();
            let ghost s_pre = self.inner.stream();
            self.inner.next();
            proof {
                // a tombstone at the head leaves the live stream unchanged
                assert(s_pre.len() > 0 && s_pre[0].1.len() == 0);
                assert(lsm_stream(s_pre, self.upper) == lsm_stream(s_pre.skip(1), self.upper));
                if self.inner.cur is Some && old(self).inner.cur is Some {
                    if prev != old(self).inner.cur_key() {
                        crate::wire::lemma_lex_lt_trans(
                            old(self).inner.cur_key(),
                            prev,
                            self.inner.cur_key(),
                        );
                    }
                }
            }
        }
        if self.inner.is_valid() {
            let k = self.inner.key();
            let within = match &self.upper {
                Bound::Unbounded => true,
                Bound::Included(u) => crate::wire::bytes_le(k.as_slice(), u.as_slice()),
                Bound::Excluded(u) => crate::wire::bytes_lt(k.as_slice(), u.as_slice()),
            };
            proof {
                // a live head beyond the bound empties the stream either way
                assert(self.inner.stream()[0] == (self.inner.cur_key(), self.inner.cur_val()));
            }
            if !within {
                self.stopped = true;
            }
        }
    }

    /// Wrap a merged view, honoring `upper`.
    pub fn new(inner: MergeIterator<IterSource>, upper: Bound) -> (r: Self)
        requires
            inner.inv(),
        ensures
            r.inv(),
            r.upper == upper,
            r.stream() == lsm_stream(inner.stream(), upper),
    {
        let mut r = LsmIterator { inner, upper, stopped: false };
        r.settle();
        r
    }

    pub fn is_valid(&self) -> (r: bool)
        requires
            self.inv(),
        ensures
            r == self.valid_spec(),
            r == (self.stream().len() > 0),
    {
        proof {
            if self.valid_spec() {
                assert(self.inner.stream()[0] == (self.inner.cur_key(), self.inner.cur_val()));
            }
        }
        !self.stopped && self.inner.is_valid()
    }

    /// The current key; it lies within the upper bound.
    pub fn key(&self) -> (r: Vec<u8>)
        requires
            self.inv(),
            self.valid_spec(),
        ensures
            r@ == self.inner.cur_key(),
            r@ == self.stream()[0].0,
            below_upper(self.upper, r@),
    {
        proof {
            assert(self.inner.stream()[0] == (self.inner.cur_key(), self.inner.cur_val()));
        }
        self.inner.key()
    }

    /// The current value; never a tombstone.
    pub fn value(&self) -> (r: Vec<u8>)
        requires
            self.inv(),
            self.valid_spec(),
        ensures
            r@ == self.inner.cur_val(),
            r@ == self.stream()[0].1,
            r@.len() > 0,
    {
        proof {
            assert(self.inner.stream()[0] == (self.inner.cur_key(), self.inner.cur_val()));
        }
        self.inner.value()
    }

    pub fn next(&mut self)
        requires
            old(self).inv(),
            old(self).valid_spec(),
        ensures
            final(self).inv(),
            final(self).upper == old(self).upper,
            final(self).stream() == old(self).stream().skip(1),
            final(self).valid_spec() ==> crate::wire::lex_lt(
                old(self).inner.cur_key(),
                final(self).inner.cur_key(),
            ),
    {
        let ghost k0 = old(self).inner.cur_key();
        let ghost s0 = old(self).inner.stream();
        proof {
            assert(s0[0] == (old(self).inner.cur_key(), old(self).inner.cur_val()));
            assert(lsm_stream(s0, old(self).upper) == seq![s0[0]] + lsm_stream(
                s0.skip(1),
                old(self).upper,
            ));
            assert((seq![s0[0]] + lsm_stream(s0.skip(1), old(self).upper)).skip(1) =~= lsm_stream(
                s0.skip(1),
                old(self).upper,
            ));
        }
        self.inner.next();
        let ghost mid = self.inner;
        self.settle();
        proof {
            if !self.stopped && self.inner.cur is Some && mid.cur is Some {
                if self.inner.cur_key() != mid.cur_key() {
                    crate::wire::lemma_lex_lt_trans(k0, mid.cur_key(), self.inner.cur_key());
                }
            }
        }
    }
}

/// Guards the cursor against use after its end: once invalid, every further
/// step reports an error instead of touching the inner cursor.
pub struct FusedIterator {
    /// The guarded cursor.
    pub iter: LsmIterator,
    /// Set once a step past the end was attempted.
    pub errored: bool,
}

impl FusedIterator {
    pub open spec fn inv(self) -> bool {
        self.iter.inv()
    }

    pub open spec fn valid_spec(self) -> bool {
        !self.errored && self.iter.valid_spec()
    }

    /// The live, bounded entries this cursor will still yield.
    pub open spec fn stream(self) -> Seq<(Seq<u8>, Seq<u8>)> {
        if self.errored {
            Seq::empty()
        } else {
            self.iter.stream()
        }
    }

    pub fn new(iter: LsmIterator) -> (r: Self)
        requires
            iter.inv(),
        ensures
            r.inv(),
            r.iter == iter,
            r.errored == false,
    {
        FusedIterator { iter, errored: false }
    }

    pub fn is_valid(&self) -> (r: bool)
        requires
            self.inv(),
        ensures
            r == self.valid_spec(),
            r == (self.stream().len() > 0),
    {
        !self.errored && self.iter.is_valid()
    }

    /// The current key; it lies within the upper bound.
    pub fn key(&self) -> (r: Vec<u8>)
        requires
            self.inv(),
            self.valid_spec(),
        ensures
            r@ == self.iter.inner.cur_key(),
            r@ == self.stream()[0].0,
            below_upper(self.iter.upper, r@),
    {
        self.iter.key()
    }

    /// The current value; never a tombstone.
    pub fn value(&self) -> (r: Vec<u8>)
        requires
            self.inv(),
            self.valid_spec(),
        ensures
            r@ == self.iter.inner.cur_val(),
            r@ == self.stream()[0].1,
            r@.len() > 0,
    {
        self.iter.value()
    }

    /// Step forward; stepping an exhausted or errored cursor reports an
    /// error and latches it: an ended cursor stays ended.
    pub fn next(&mut self) -> (r: Result<(), LsmError>)
        requires
            old(self).inv(),
        ensures
            final(self).inv(),
            r is Ok <==> old(self).valid_spec(),
            r is Ok ==> final(self).stream() == old(self).stream().skip(1),
            final(self).errored == (old(self).errored || !old(self).iter.valid_spec()),
            !old(self).valid_spec() ==> !final(self).valid_spec() && final(self).iter == old(
                self,
            ).iter,
            final(self).iter.upper == old(self).iter.upper,
            final(self).valid_spec() ==> crate::wire::lex_lt(
                old(self).iter.inner.cur_key(),
                final(self).iter.inner.cur_key(),
            ),
    {
        if self.errored {
            return Result::Err(LsmError::IteratorExhausted);
        }
        if !self.iter.is_valid() {
            self.errored = true;
            return Result::Err(LsmError::IteratorExhausted);
        }
        self.iter.next();
        Result::Ok(())
    }
}

} // verus!
