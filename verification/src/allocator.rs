use vstd::prelude::*;

verus! {

/// Hands out the output-file indices `1..=total`, smallest first, each
/// exactly once.  One allocator is created per run; writers draw from it
/// under mutual exclusion (the caller serializes access), so the whole
/// run's file names form a dense, gap-free sequence.
pub struct OutputIndexAllocator {
    given: usize,
    total: usize,
}

impl OutputIndexAllocator {
    /// The indices not yet handed out, in the order they will be returned.
    pub closed spec fn remaining(self) -> Seq<int> {
        Seq::new((self.total - self.given) as nat, |i: int| self.given + 1 + i)
    }

    /// The indices handed out so far, in the order they were returned.
    pub closed spec fn handed_out(self) -> Seq<int> {
        Seq::new(self.given as nat, |i: int| 1 + i)
    }

    /// The full sequence the allocator was seeded with: `1..=total`.
    pub closed spec fn seeded(self) -> Seq<int> {
        Seq::new(self.total as nat, |i: int| 1 + i)
    }

    pub closed spec fn wf(self) -> bool {
        self.given <= self.total
    }

    /// Seeds the allocator with the ordered sequence `1..=total`.
    pub fn new(total: usize) -> (a: OutputIndexAllocator)
        ensures
            a.wf(),
            a.remaining() == Seq::new(total as nat, |i: int| 1 + i),
            a.handed_out() == Seq::<int>::empty(),
            a.seeded() == a.remaining(),
    {
        let a = OutputIndexAllocator { given: 0, total };
        proof {
            assert(a.remaining() =~= Seq::new(total as nat, |i: int| 1 + i));
            assert(a.handed_out() =~= Seq::<int>::empty());
        }
        a
    }

    /// Removes and returns the smallest remaining index, or `None` once
    /// the seeded sequence is exhausted.
    pub fn take(&mut self) -> (r: Option<usize>)
        requires
            old(self).wf(),
        ensures
            final(self).wf(),
            final(self).seeded() == old(self).seeded(),
            old(self).remaining().len() == 0 ==> {
                &&& r is None
                &&& *final(self) == *old(self)
            },
            old(self).remaining().len() > 0 ==> {
                &&& r == Some((old(self).remaining()[0]) as usize)
                &&& final(self).remaining() == old(self).remaining().drop_first()
                &&& final(self).handed_out() == old(self).handed_out().push(
                    old(self).remaining()[0],
                )
            },
    {
        if self.given < self.total {
            let idx = self.given + 1;
            self.given = idx;
            proof {
                assert(self.remaining() =~= old(self).remaining().drop_first());
                assert(self.handed_out() =~= old(self).handed_out().push(
                    old(self).remaining()[0],
                ));
            }
            Some(idx)
        } else {
            None
        }
    }
}

/// Accounting law for the allocator: at every state, what has been handed
/// out followed by what remains is exactly the seeded sequence `1..=total`,
/// and the seeded sequence has no duplicates.  Hence over a whole run the
/// values returned by `take` are exactly `{1, ..., total}`, no value twice,
/// no value skipped, however the calls are interleaved.
pub proof fn lemma_allocator_accounting(a: OutputIndexAllocator)
    requires
        a.wf(),
    ensures
        a.handed_out() + a.remaining() == a.seeded(),
        forall|i: int, j: int|
            0 <= i < j < a.seeded().len() ==> a.seeded()[i] != a.seeded()[j],
        forall|i: int| 0 <= i < a.seeded().len() ==> a.seeded()[i] == i + 1,
{
    assert(a.handed_out() + a.remaining() =~= a.seeded());
}

} // verus!
