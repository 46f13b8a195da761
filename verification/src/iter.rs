//! A bidirectional, fusing cursor over an inclusive address interval.
//!
//! The upper bound can be the top address `255.255.255.255`, which cannot be
//! incremented past without wrapping, so the cursor keeps a `done` flag
//! instead of a one-past-the-end position.

use vstd::prelude::*;

verus! {

/// The addresses of the inclusive interval `[lo, hi]`, in increasing order.
pub open spec fn addr_seq(lo: u32, hi: u32) -> Seq<u32>
    recommends
        lo <= hi,
{
    Seq::new((hi - lo + 1) as nat, |i: int| (lo + i) as u32)
}

/// Every address of `[lo, hi]` appears in `addr_seq(lo, hi)`, nothing else
/// does, and no address appears twice.
pub proof fn lemma_addr_seq_covers(lo: u32, hi: u32)
    requires
        lo <= hi,
    ensures
        forall|x: u32| #[trigger] addr_seq(lo, hi).contains(x) <==> lo <= x <= hi,
        forall|i: int, j: int|
            0 <= i < j < addr_seq(lo, hi).len() ==> addr_seq(lo, hi)[i] != addr_seq(lo, hi)[j],
{
    assert forall|x: u32| lo <= x <= hi implies #[trigger] addr_seq(lo, hi).contains(x) by {
        assert(addr_seq(lo, hi)[x - lo] == x);
    }
}

/// A cursor over `[cur, end]`; `done` marks that both ends have met and the
/// last address has been yielded.
#[derive(Clone, Debug)]
pub struct IpRangeIter {
    cur: u32,
    end: u32,
    done: bool,
}

impl IpRangeIter {
    /// The addresses not yet yielded, in increasing order.
    pub closed spec fn remaining(self) -> Seq<u32> {
        if self.done {
            Seq::empty()
        } else {
            addr_seq(self.cur, self.end)
        }
    }

    /// The cursor's invariant: its bounds are ordered until it is done.
    pub closed spec fn wf(self) -> bool {
        self.done || self.cur <= self.end
    }

    /// Builds a cursor over `[lo, hi]` with nothing yielded yet.
    pub(crate) fn new(lo: u32, hi: u32) -> (it: IpRangeIter)
        requires
            lo <= hi,
        ensures
            it.wf(),
            it.remaining() == addr_seq(lo, hi),
    {
        IpRangeIter { cur: lo, end: hi, done: false }
    }

    /// Yields the least remaining address, or nothing once exhausted;
    /// exhaustion is permanent.
    pub fn next(&mut self) -> (r: Option<u32>)
        requires
            old(self).wf(),
        ensures
            final(self).wf(),
            old(self).remaining().len() == 0 ==> r is None && final(self).remaining()
                == old(self).remaining(),
            old(self).remaining().len() > 0 ==> r == Some(old(self).remaining()[0])
                && final(self).remaining() == old(self).remaining().skip(1),
    {
        if self.done {
            return None;
        }
        let out: u32 = self.cur;
        if self.cur == self.end {
            self.done = true;
            proof {
                assert(old(self).remaining().skip(1) =~= Seq::<u32>::empty());
            }
        } else {
            self.cur = self.cur + 1;
            proof {
                assert(final(self).remaining() =~= old(self).remaining().skip(1));
            }
        }
        Some(out)
    }

    /// Yields the greatest remaining address, or nothing once exhausted;
    /// exhaustion is permanent.
    pub fn next_back(&mut self) -> (r: Option<u32>)
        requires
            old(self).wf(),
        ensures
            final(self).wf(),
            old(self).remaining().len() == 0 ==> r is None && final(self).remaining()
                == old(self).remaining(),
            old(self).remaining().len() > 0 ==> r == Some(old(self).remaining().last())
                && final(self).remaining() == old(self).remaining().drop_last(),
    {
        if self.done {
            return None;
        }
        let out: u32 = self.end;
        if self.cur == self.end {
            self.done = true;
            proof {
                assert(old(self).remaining().drop_last() =~= Seq::<u32>::empty());
            }
        } else {
            self.end = self.end - 1;
            proof {
                assert(final(self).remaining() =~= old(self).remaining().drop_last());
            }
        }
        Some(out)
    }

    /// A lower bound on the remaining count — exact whenever that count fits
    /// the host's size type — and an upper bound only once exhausted (the
    /// full universe holds more addresses than a 32-bit count can express).
    pub fn size_hint(&self) -> (r: (usize, Option<usize>))
        requires
            self.wf(),
        ensures
            r.0 == if self.remaining().len() > usize::MAX {
                usize::MAX as int
            } else {
                self.remaining().len() as int
            },
            r.1 == if self.remaining().len() == 0 {
                Some(0usize)
            } else {
                None::<usize>
            },
    {
        if self.done {
            return (0, Some(0));
        }
        let rem: u128 = (self.end as u128) - (self.cur as u128) + 1;
        let lb: usize = if rem < (usize::MAX as u128) {
            rem as usize
        } else {
            usize::MAX
        };
        (lb, None)
    }
}

} // verus!
