//! The load balancer's snapshot: one queue depth per worker, and their
//! arithmetic mean, recomputed on every write.

use vstd::prelude::*;

verus! {

/// The sum of a sequence of queue depths.
pub open spec fn sum(s: Seq<usize>) -> int
    decreases s.len(),
{
    if s.len() == 0 {
        0
    } else {
        s.first() + sum(s.drop_first())
    }
}

pub proof fn lemma_sum_nonneg(s: Seq<usize>)
    ensures
        sum(s) >= 0,
    decreases s.len(),
{
    if s.len() > 0 {
        lemma_sum_nonneg(s.drop_first());
    }
}

pub proof fn lemma_sum_split(s: Seq<usize>, i: int)
    requires
        0 <= i <= s.len(),
    ensures
        sum(s) == sum(s.take(i)) + sum(s.skip(i)),
    decreases i,
{
    if i == 0 {
        assert(s.take(0) =~= Seq::<usize>::empty());
        assert(s.skip(0) =~= s);
    } else {
        lemma_sum_split(s.drop_first(), i - 1);
        assert(s.take(i).first() == s.first());
        assert(s.take(i).drop_first() =~= s.drop_first().take(i - 1));
        assert(s.skip(i) =~= s.drop_first().skip(i - 1));
    }
}

pub proof fn lemma_sum_snoc(s: Seq<usize>, x: usize)
    ensures
        sum(s.push(x)) == sum(s) + x,
    decreases s.len(),
{
    if s.len() == 0 {
        assert(s.push(x).drop_first() =~= Seq::<usize>::empty());
        assert(sum(Seq::<usize>::empty()) == 0);
        assert(s.push(x).first() == x);
    } else {
        assert(s.push(x).first() == s.first());
        assert(s.push(x).drop_first() =~= s.drop_first().push(x));
        lemma_sum_snoc(s.drop_first(), x);
    }
}

/// Per-worker queue depths and their arithmetic mean. Any worker may
/// overwrite its own entry; the mean is recomputed on every write, so it is
/// always the mean of the entries.
pub struct LoadStats {
    per_worker: Vec<usize>,
    mean: usize,
}

impl LoadStats {
    /// The published depth of each worker's queue, indexed by worker id.
    pub closed spec fn depths(&self) -> Seq<usize> {
        self.per_worker@
    }

    /// The published mean.
    pub closed spec fn mean_value(&self) -> usize {
        self.mean
    }

    /// The mean is the arithmetic mean of the per-worker depths.
    pub open spec fn wf(&self) -> bool {
        &&& self.depths().len() > 0
        &&& self.mean_value() == sum(self.depths()) / (self.depths().len() as int)
    }

    /// Statistics for `workers` workers, all depths zero.
    pub fn new(workers: usize) -> (r: LoadStats)
        requires
            workers > 0,
        ensures
            r.depths().len() == workers,
            forall|i: int| 0 <= i < workers ==> r.depths()[i] == 0,
            r.mean_value() == 0,
            r.wf(),
    {
        let mut per_worker: Vec<usize> = Vec::new();
        let mut i: usize = 0;
        while i < workers
            invariant
                i <= workers,
                per_worker@.len() == i,
                forall|j: int| 0 <= j < i ==> per_worker@[j] == 0,
                sum(per_worker@) == 0,
            decreases workers - i,
        {
            proof {
                lemma_sum_snoc(per_worker@, 0);
            }
            per_worker.push(0);
            i = i + 1;
        }
        LoadStats { per_worker, mean: 0 }
    }

    /// How many workers this snapshot covers.
    pub fn worker_count(&self) -> (r: usize)
        ensures
            r == self.depths().len(),
    {
        self.per_worker.len()
    }

    /// The published depth of worker `id`'s queue.
    pub fn depth_of(&self, id: usize) -> (r: usize)
        requires
            id < self.depths().len(),
        ensures
            r == self.depths()[id as int],
    {
        self.per_worker[id]
    }

    /// The published mean of all queue depths.
    pub fn mean(&self) -> (r: usize)
        ensures
            r == self.mean_value(),
    {
        self.mean
    }

    /// Worker `id` publishes the depth of its queue; the mean is recomputed
    /// so that it again equals the arithmetic mean of all entries.
    pub fn publish(&mut self, id: usize, depth: usize)
        requires
            id < old(self).depths().len(),
            sum(old(self).depths().update(id as int, depth)) <= usize::MAX,
        ensures
            final(self).depths() == old(self).depths().update(id as int, depth),
            final(self).mean_value() == sum(final(self).depths()) / (
            final(self).depths().len() as int),
            final(self).wf(),
    {
        self.per_worker.set(id, depth);
        let ghost ds = self.per_worker@;
        let len = self.per_worker.len();
        let mut acc: usize = 0;
        let mut i: usize = 0;
        while i < len
            invariant
                i <= len,
                len == ds.len(),
                ds == self.per_worker@,
                acc == sum(ds.take(i as int)),
                sum(ds) <= usize::MAX,
            decreases len - i,
        {
            proof {
                assert(ds.take(i as int + 1) =~= ds.take(i as int).push(ds[i as int]));
                lemma_sum_snoc(ds.take(i as int), ds[i as int]);
                lemma_sum_split(ds, i as int + 1);
                lemma_sum_nonneg(ds.skip(i as int + 1));
            }
            acc = acc + self.per_worker[i];
            i = i + 1;
        }
        proof {
            assert(ds.take(len as int) =~= ds);
        }
        self.mean = acc / len;
    }
}

} // verus!
