//! The executor's scheduling decisions, modelled as a verified state
//! machine: the shared injector, one run queue per worker, and the load
//! statistics the balancer publishes.
//!
//! The surrounding threads — parking, thread-local slots, and running a
//! task — perform these decisions one at a time; every transition here
//! preserves the task population: a task is in the injector, in exactly one
//! run queue, or handed to a worker to execute.

use crate::queue::{half_batch, capped_batch, Injector, RunQueue, Steal};
use crate::stats::{sum, LoadStats};
use vstd::multiset::Multiset;
use vstd::prelude::*;

verus! {

/// The multiset of tasks held by a family of run queues.
pub open spec fn tasks_of<T>(qs: Seq<Seq<T>>) -> Multiset<T>
    decreases qs.len(),
{
    if qs.len() == 0 {
        Multiset::empty()
    } else {
        tasks_of(qs.drop_last()).add(qs.last().to_multiset())
    }
}

/// Replacing one queue exchanges exactly its tasks: the other queues'
/// contribution is untouched.
pub proof fn lemma_tasks_of_update<T>(qs: Seq<Seq<T>>, i: int, q: Seq<T>)
    requires
        0 <= i < qs.len(),
    ensures
        tasks_of(qs.update(i, q)).add(qs[i].to_multiset()) == tasks_of(qs).add(q.to_multiset()),
    decreases qs.len(),
{
    broadcast use vstd::multiset::group_multiset_axioms;

    let u = qs.update(i, q);
    if i == qs.len() - 1 {
        assert(u.drop_last() =~= qs.drop_last());
        assert(u.last() == q);
        assert(qs.last() == qs[i]);
        assert(u.len() == qs.len());
        assert(tasks_of(u) == tasks_of(u.drop_last()).add(u.last().to_multiset()));
        assert(tasks_of(u) == tasks_of(qs.drop_last()).add(q.to_multiset()));
        assert(tasks_of(qs) == tasks_of(qs.drop_last()).add(qs[i].to_multiset()));
        assert(tasks_of(u).add(qs[i].to_multiset()) =~= tasks_of(qs).add(q.to_multiset())) by {
            let a = tasks_of(qs.drop_last());
            let b = q.to_multiset();
            let c = qs[i].to_multiset();
            assert(forall|v: T|
                #![trigger a.count(v)]
                a.add(b).add(c).count(v) == a.count(v) + b.count(v) + c.count(v));
            assert(forall|v: T|
                #![trigger a.count(v)]
                a.add(c).add(b).count(v) == a.count(v) + c.count(v) + b.count(v));
            assert(a.add(b).add(c) =~= a.add(c).add(b));
        }
    } else {
        assert(u.drop_last() =~= qs.drop_last().update(i, q));
        assert(u.last() == qs.last());
        assert(qs.drop_last()[i] == qs[i]);
        lemma_tasks_of_update(qs.drop_last(), i, q);
        assert(tasks_of(u).add(qs[i].to_multiset()) =~= tasks_of(qs).add(q.to_multiset())) by {
            let x = tasks_of(qs.drop_last().update(i, q));
            let y = tasks_of(qs.drop_last());
            let l = qs.last().to_multiset();
            let b = q.to_multiset();
            let c = qs[i].to_multiset();
            assert(tasks_of(u) == x.add(l));
            assert(tasks_of(qs) == y.add(l));
            assert(x.add(c) == y.add(b));
            assert(forall|v: T|
                #![trigger x.count(v)]
                x.add(l).add(c).count(v) == x.count(v) + l.count(v) + c.count(v));
            assert(forall|v: T|
                #![trigger y.count(v)]
                y.add(l).add(b).count(v) == y.count(v) + l.count(v) + b.count(v));
            assert(forall|v: T|
                #![trigger x.count(v)]
                x.add(c).count(v) == x.count(v) + c.count(v));
            assert(forall|v: T|
                #![trigger y.count(v)]
                y.add(b).count(v) == y.count(v) + b.count(v));
            assert(x.add(l).add(c) =~= y.add(l).add(b));
        }
    }
}

/// A family of empty queues holds no tasks.
pub proof fn lemma_tasks_of_empty<T>(qs: Seq<Seq<T>>)
    requires
        forall|i: int| 0 <= i < qs.len() ==> (#[trigger] qs[i]).len() == 0,
    ensures
        tasks_of(qs) == Multiset::<T>::empty(),
    decreases qs.len(),
{
    broadcast use vstd::seq_lib::group_to_multiset_ensures;

    if qs.len() > 0 {
        lemma_tasks_of_empty(qs.drop_last());
        assert(qs.last() == qs[qs.len() - 1]);
        assert(qs.last().to_multiset().len() == 0);
        assert(tasks_of(qs) =~= Multiset::<T>::empty());
    }
}

/// Taking a batch off the front of a queue partitions its tasks: the one
/// returned at once, the moved remainder of the batch, and what stays.
pub proof fn lemma_batch_decomposition<T>(q: Seq<T>, n: int)
    requires
        1 <= n <= q.len(),
    ensures
        q.to_multiset() == q.skip(n).to_multiset().add(q.subrange(1, n).to_multiset()).insert(
            q[0],
        ),
{
    broadcast use vstd::seq_lib::group_to_multiset_ensures;
    broadcast use vstd::multiset::group_multiset_axioms;

    assert(q =~= q.subrange(0, n) + q.skip(n));
    vstd::seq_lib::lemma_multiset_commutative(q.subrange(0, n), q.skip(n));
    assert(q.subrange(0, n) =~= seq![q[0]] + q.subrange(1, n));
    vstd::seq_lib::lemma_multiset_commutative(seq![q[0]], q.subrange(1, n));
    assert(seq![q[0]] =~= Seq::<T>::empty().push(q[0]));
    assert(Seq::<T>::empty().push(q[0]).to_multiset() == Seq::<T>::empty().to_multiset().insert(
        q[0],
    ));
    assert(Seq::<T>::empty().to_multiset() =~= Multiset::<T>::empty());
    let sk = q.skip(n).to_multiset();
    let mv = q.subrange(1, n).to_multiset();
    let s = Multiset::singleton(q[0]);
    assert(seq![q[0]].to_multiset() =~= s);
    assert(q.to_multiset() == s.add(mv).add(sk));
    assert(forall|v: T|
        #![trigger sk.count(v)]
        s.add(mv).add(sk).count(v) == s.count(v) + mv.count(v) + sk.count(v));
    assert(forall|v: T|
        #![trigger sk.count(v)]
        sk.add(mv).add(s).count(v) == sk.count(v) + mv.count(v) + s.count(v));
    assert(s.add(mv).add(sk) =~= sk.add(mv).add(s));
}

proof fn lemma_add_insert_cancel<T>(x: Multiset<T>, y: Multiset<T>, a: Multiset<T>, b: Multiset<
    T,
>, t: T)
    requires
        x.add(a) == y.add(b),
        a == b.insert(t),
    ensures
        y == x.insert(t),
{
    broadcast use vstd::multiset::group_multiset_axioms;

    let s = Multiset::singleton(t);
    assert forall|v: T| #[trigger] y.count(v) == x.insert(t).count(v) by {
        assert(x.add(a).count(v) == y.add(b).count(v));
        assert(x.add(a).count(v) == x.count(v) + a.count(v));
        assert(a.count(v) == b.count(v) + s.count(v));
        assert(y.add(b).count(v) == y.count(v) + b.count(v));
        assert(x.insert(t).count(v) == x.count(v) + s.count(v));
    }
    assert(y =~= x.insert(t));
}

proof fn lemma_add_both<T>(i: Multiset<T>, x: Multiset<T>, t: T)
    ensures
        i.add(x.insert(t)) == i.add(x).insert(t),
{
    broadcast use vstd::multiset::group_multiset_axioms;

    let s = Multiset::singleton(t);
    assert forall|v: T| #[trigger] i.add(x.insert(t)).count(v) == i.add(x).insert(t).count(
        v,
    ) by {
        assert(i.add(x.insert(t)).count(v) == i.count(v) + x.count(v) + s.count(v));
        assert(i.add(x).insert(t).count(v) == i.count(v) + x.count(v) + s.count(v));
    }
    assert(i.add(x.insert(t)) =~= i.add(x).insert(t));
}

proof fn lemma_add_empty<T>(x: Multiset<T>)
    ensures
        x.add(Multiset::<T>::empty()) == x,
        Multiset::<T>::empty().add(x) == x,
{
    broadcast use vstd::multiset::group_multiset_axioms;

    assert(x.add(Multiset::<T>::empty()) =~= x);
    assert(Multiset::<T>::empty().add(x) =~= x);
}

/// What a worker does with its turn: run the task it obtained, or park on
/// the coordinator because nothing is queued anywhere.
pub enum WorkerAction<T> {
    Run(T),
    Park,
}

/// The executor's state: the shared injector, one run queue per worker, and
/// the published load statistics.
pub struct Executor<T> {
    injector: Injector<T>,
    workers: Vec<RunQueue<T>>,
    stats: LoadStats,
}

spec fn views<T>(ws: Seq<RunQueue<T>>) -> Seq<Seq<T>> {
    ws.map_values(|q: RunQueue<T>| q@)
}

impl<T> Executor<T> {
    /// The tasks waiting in the shared injector, oldest first.
    pub closed spec fn injector_q(&self) -> Seq<T> {
        self.injector@
    }

    /// The run queues' contents, indexed by worker id.
    pub closed spec fn worker_qs(&self) -> Seq<Seq<T>> {
        views(self.workers@)
    }

    /// The tasks in worker `i`'s run queue, steal end first.
    pub open spec fn worker_q(&self, i: int) -> Seq<T> {
        self.worker_qs()[i]
    }

    /// How many workers the executor drives.
    pub open spec fn worker_count(&self) -> int {
        self.worker_qs().len() as int
    }

    /// The published per-worker queue depths.
    pub closed spec fn stats_depths(&self) -> Seq<usize> {
        self.stats.depths()
    }

    /// The published mean queue depth.
    pub closed spec fn stats_mean(&self) -> usize {
        self.stats.mean_value()
    }

    /// The statistics cover every worker and carry a true mean.
    pub closed spec fn stats_ok(&self) -> bool {
        self.stats.wf()
    }

    /// One statistics entry per worker, at least one worker, and a mean
    /// that is the arithmetic mean of the entries.
    pub open spec fn wf(&self) -> bool {
        &&& self.worker_count() > 0
        &&& self.stats_depths().len() == self.worker_count()
        &&& self.stats_ok()
    }

    /// Every task currently queued anywhere in the executor.
    pub open spec fn tasks(&self) -> Multiset<T> {
        self.injector_q().to_multiset().add(tasks_of(self.worker_qs()))
    }

    /// An executor for `workers` workers, with nothing queued anywhere.
    pub fn new(workers: usize) -> (r: Executor<T>)
        requires
            workers > 0,
        ensures
            r.wf(),
            r.worker_count() == workers,
            r.injector_q().len() == 0,
            forall|i: int| 0 <= i < workers ==> r.worker_q(i).len() == 0,
            r.stats_mean() == 0,
            forall|i: int| 0 <= i < workers ==> r.stats_depths()[i] == 0,
            r.tasks() == Multiset::<T>::empty(),
    {
        let mut ws: Vec<RunQueue<T>> = Vec::new();
        let mut i: usize = 0;
        while i < workers
            invariant
                i <= workers,
                ws@.len() == i,
                forall|j: int| 0 <= j < i ==> (#[trigger] ws@[j])@.len() == 0,
            decreases workers - i,
        {
            ws.push(RunQueue::new());
            i = i + 1;
        }
        let r = Executor { injector: Injector::new(), workers: ws, stats: LoadStats::new(workers) };
        proof {
            broadcast use vstd::seq_lib::group_to_multiset_ensures;

            assert(forall|j: int|
                0 <= j < workers ==> (#[trigger] r.worker_qs()[j]).len() == 0);
            lemma_tasks_of_empty(r.worker_qs());
            assert(r.injector_q().to_multiset().len() == 0);
            assert(r.tasks() =~= Multiset::<T>::empty());
        }
        r
    }

    /// The scheduler hook's decision. A task scheduled from worker `w`'s own
    /// thread goes to the back of `w`'s run queue and nowhere else; one
    /// scheduled from a foreign thread goes to the back of the shared
    /// injector. Either way exactly one copy of the task enters the system.
    pub fn schedule(&mut self, task: T, caller: Option<usize>)
        requires
            old(self).wf(),
            caller matches Some(w) ==> w < old(self).worker_count(),
        ensures
            final(self).wf(),
            final(self).worker_count() == old(self).worker_count(),
            final(self).stats_depths() == old(self).stats_depths(),
            final(self).stats_mean() == old(self).stats_mean(),
            final(self).tasks() == old(self).tasks().insert(task),
            final(self).tasks().len() == old(self).tasks().len() + 1,
            caller is None ==> final(self).injector_q() == old(self).injector_q().push(task)
                && final(self).worker_qs() == old(self).worker_qs(),
            caller matches Some(w) ==> final(self).worker_q(w as int) == old(self).worker_q(
                w as int,
            ).push(task) && final(self).injector_q() == old(self).injector_q() && forall|j: int|
                0 <= j < old(self).worker_count() && j != w ==> final(self).worker_q(j) == old(
                    self,
                ).worker_q(j),
    {
        broadcast use vstd::seq_lib::group_to_multiset_ensures;
        broadcast use vstd::multiset::group_multiset_axioms;

        match caller {
            None => {
                self.injector.push(task);
                proof {
                    assert(self.worker_qs() =~= old(self).worker_qs());
                    assert(self.tasks() =~= old(self).tasks().insert(task));
                }
            },
            Some(w) => {
                let ghost qs0 = old(self).worker_qs();
                let mut q = self.workers.remove(w);
                q.push(task);
                self.workers.insert(w, q);
                proof {
                    assert(self.workers@ =~= old(self).workers@.update(w as int, q));
                    assert(self.worker_qs() =~= qs0.update(
                        w as int,
                        qs0[w as int].push(task),
                    ));
                    lemma_tasks_of_update(qs0, w as int, qs0[w as int].push(task));
                    assert(tasks_of(self.worker_qs()) =~= tasks_of(qs0).insert(task)) by {
                        let m = qs0[w as int].to_multiset();
                        let s = Multiset::singleton(task);
                        let x = tasks_of(self.worker_qs());
                        let y = tasks_of(qs0);
                        assert(qs0[w as int].push(task).to_multiset() == m.insert(task));
                        assert(x.add(m) == y.add(m.insert(task)));
                        assert(forall|v: T|
                            #![trigger x.count(v)]
                            x.add(m).count(v) == x.count(v) + m.count(v));
                        assert(forall|v: T|
                            #![trigger y.count(v)]
                            y.add(m.add(s)).count(v) == y.count(v) + m.count(v) + s.count(v));
                        assert(forall|v: T|
                            #![trigger y.count(v)]
                            y.add(s).count(v) == y.count(v) + s.count(v));
                        assert(x =~= y.add(s));
                    }
                    assert(self.tasks() =~= old(self).tasks().insert(task)) by {
                        let iv = old(self).injector_q().to_multiset();
                        let s = Multiset::singleton(task);
                        let x = tasks_of(self.worker_qs());
                        let y = tasks_of(qs0);
                        assert(x == y.add(s));
                        assert(forall|v: T|
                            #![trigger iv.count(v)]
                            iv.add(y.add(s)).count(v) == iv.count(v) + y.count(v) + s.count(
                                v,
                            ));
                        assert(forall|v: T|
                            #![trigger iv.count(v)]
                            iv.add(y).add(s).count(v) == iv.count(v) + y.count(v) + s.count(
                                v,
                            ));
                        assert(iv.add(x) =~= iv.add(y).add(s));
                    }
                }
            },
        }
    }

    /// Worker `id` publishes its queue depth; the mean is recomputed and is
    /// again the arithmetic mean of all published depths. No queue changes.
    pub fn publish_depth(&mut self, id: usize)
        requires
            old(self).wf(),
            id < old(self).worker_count(),
            sum(
                old(self).stats_depths().update(
                    id as int,
                    old(self).worker_q(id as int).len() as usize,
                ),
            ) <= usize::MAX,
        ensures
            final(self).wf(),
            final(self).worker_count() == old(self).worker_count(),
            final(self).injector_q() == old(self).injector_q(),
            final(self).worker_qs() == old(self).worker_qs(),
            final(self).tasks() == old(self).tasks(),
            final(self).stats_depths() == old(self).stats_depths().update(
                id as int,
                old(self).worker_q(id as int).len() as usize,
            ),
            final(self).stats_mean() == sum(final(self).stats_depths()) / (
            final(self).worker_count() as int),
    {
        let depth = self.workers[id].len();
        self.stats.publish(id, depth);
    }

    /// How many tasks wait in the shared injector.
    pub fn injector_len(&self) -> (r: usize)
        ensures
            r == self.injector_q().len(),
    {
        self.injector.len()
    }

    /// How many tasks sit in worker `id`'s run queue.
    pub fn queue_len(&self, id: usize) -> (r: usize)
        requires
            id < self.worker_count(),
        ensures
            r == self.worker_q(id as int).len(),
    {
        self.workers[id].len()
    }

    /// The published mean queue depth.
    pub fn mean(&self) -> (r: usize)
        ensures
            r == self.stats_mean(),
    {
        self.stats.mean()
    }

    /// What a successful steal by worker `id` from victim `j` left behind:
    /// the victim lost a batch off its front — `mean` tasks when a positive
    /// mean is published, half otherwise — the first of the batch was
    /// returned, the rest went to `id`'s queue, and nothing else moved.
    pub open spec fn stole_from(pre: Executor<T>, post: Executor<T>, id: int, j: int, r: Option<
        T,
    >) -> bool {
        let lenj = pre.worker_q(j).len() as int;
        let n = if pre.stats_mean() > 0 {
            capped_batch(pre.stats_mean() as int, lenj)
        } else {
            half_batch(lenj)
        };
        &&& 0 <= j < pre.worker_count()
        &&& j != id
        &&& lenj > 0
        &&& r == Some(pre.worker_q(j)[0])
        &&& post.worker_q(j) == pre.worker_q(j).skip(n)
        &&& post.worker_q(id) == pre.worker_q(j).subrange(1, n)
        &&& post.injector_q() == pre.injector_q()
        &&& forall|k: int|
            0 <= k < pre.worker_count() && k != j && k != id ==> post.worker_q(k)
                == pre.worker_q(k)
        &&& forall|k: int|
            0 <= k < pre.worker_count() && k != id && pre.stats_depths()[k]
                > pre.stats_depths()[j] ==> pre.worker_q(k).len() == 0
    }

    /// The steal algorithm, in priority order: pop the worker's own queue;
    /// else take a batch from the shared injector; else steal a batch from
    /// the deepest-looking victim that has work. Returns a task whenever one
    /// is queued anywhere, and removes exactly that task from the queues;
    /// returns nothing only when every queue and the injector are empty.
    #[verifier::rlimit(100)]
    pub fn fetch(&mut self, id: usize) -> (r: Option<T>)
        requires
            old(self).wf(),
            id < old(self).worker_count(),
        ensures
            final(self).wf(),
            final(self).worker_count() == old(self).worker_count(),
            final(self).stats_depths() == old(self).stats_depths(),
            final(self).stats_mean() == old(self).stats_mean(),
            r matches Some(t) ==> old(self).tasks() == final(self).tasks().insert(t),
            r is None ==> final(self).injector_q() == old(self).injector_q()
                && final(self).worker_qs() == old(self).worker_qs(),
            r is None ==> old(self).injector_q().len() == 0 && forall|j: int|
                0 <= j < old(self).worker_count() ==> old(self).worker_q(j).len() == 0,
            old(self).worker_q(id as int).len() > 0 ==> r == Some(
                old(self).worker_q(id as int).last(),
            ) && final(self).worker_q(id as int) == old(self).worker_q(id as int).drop_last()
                && final(self).injector_q() == old(self).injector_q() && forall|j: int|
                0 <= j < old(self).worker_count() && j != id ==> final(self).worker_q(j) == old(
                    self,
                ).worker_q(j),
            old(self).worker_q(id as int).len() == 0 && old(self).injector_q().len() > 0 ==> ({
                let n = half_batch(old(self).injector_q().len() as int);
                &&& r == Some(old(self).injector_q()[0])
                &&& final(self).injector_q() == old(self).injector_q().skip(n)
                &&& final(self).worker_q(id as int) == old(self).injector_q().subrange(1, n)
                &&& forall|j: int|
                    0 <= j < old(self).worker_count() && j != id ==> final(self).worker_q(j)
                        == old(self).worker_q(j)
            }),
            old(self).worker_q(id as int).len() == 0 && old(self).injector_q().len() == 0 && (
            exists|j: int|
                0 <= j < old(self).worker_count() && (#[trigger] old(self).worker_q(j)).len()
                    > 0) ==> exists|j: int|
                #[trigger] Self::stole_from(*old(self), *final(self), id as int, j, r),
    {
        broadcast use vstd::seq_lib::group_to_multiset_ensures;
        broadcast use vstd::multiset::group_multiset_axioms;

        let ghost pre = *old(self);
        let mut local = self.workers.remove(id);
        assert(views(self.workers@) =~= pre.worker_qs().remove(id as int));
        match local.pop() {
            Some(t) => {
                self.workers.insert(id, local);
                proof {
                    let q0 = pre.worker_q(id as int);
                    let upd = pre.worker_qs().update(id as int, q0.drop_last());
                    assert(self.worker_qs() =~= upd);
                    lemma_tasks_of_update(pre.worker_qs(), id as int, q0.drop_last());
                    assert(q0 =~= q0.drop_last().push(t));
                    assert(q0.drop_last().push(t).to_multiset() == q0.drop_last().to_multiset()
                        .insert(t));
                    lemma_add_insert_cancel(
                        tasks_of(upd),
                        tasks_of(pre.worker_qs()),
                        q0.to_multiset(),
                        q0.drop_last().to_multiset(),
                        t,
                    );
                    lemma_add_both(pre.injector_q().to_multiset(), tasks_of(upd), t);
                }
                return Some(t);
            },
            None => {},
        }
        let st = self.injector.steal_batch_and_pop(&mut local);
        match st {
            Steal::Success(t) => {
                self.workers.insert(id, local);
                proof {
                    let inj0 = pre.injector_q();
                    let n = half_batch(inj0.len() as int);
                    let moved = inj0.subrange(1, n);
                    assert(local@ =~= moved);
                    let upd = pre.worker_qs().update(id as int, moved);
                    assert(self.worker_qs() =~= upd);
                    lemma_tasks_of_update(pre.worker_qs(), id as int, moved);
                    assert(pre.worker_q(id as int).to_multiset() =~= Multiset::<T>::empty());
                    lemma_add_empty(tasks_of(upd));
                    assert(tasks_of(upd) == tasks_of(pre.worker_qs()).add(moved.to_multiset()));
                    lemma_batch_decomposition(inj0, n);
                    assert(old(self).tasks() =~= final(self).tasks().insert(t)) by {
                        let w = tasks_of(pre.worker_qs());
                        let sk = inj0.skip(n).to_multiset();
                        let mv = moved.to_multiset();
                        let s = Multiset::singleton(t);
                        assert(inj0[0] == t);
                        assert(old(self).tasks() == sk.add(mv).insert(t).add(w));
                        assert(final(self).tasks() == sk.add(w.add(mv)));
                        assert(forall|v: T|
                            #![trigger sk.count(v)]
                            sk.add(mv).insert(t).add(w).count(v) == sk.count(v) + mv.count(v)
                                + s.count(v) + w.count(v));
                        assert(forall|v: T|
                            #![trigger sk.count(v)]
                            sk.add(w.add(mv)).insert(t).count(v) == sk.count(v) + w.count(v)
                                + mv.count(v) + s.count(v));
                    }
                }
                return Some(t);
            },
            _ => {},
        }
        assert(pre.injector_q().len() == 0);
        let order = victim_order(&self.stats);
        let mean = self.stats.mean();
        let mut vi: usize = 0;
        while vi < order.len()
            invariant
                pre == *old(self),
                pre.wf(),
                id < pre.worker_count(),
                vi <= order@.len(),
                order@.len() == pre.worker_count(),
                forall|k: int| 0 <= k < order@.len() ==> (#[trigger] order@[k]) < order@.len(),
                forall|v: usize| v < order@.len() ==> #[trigger] order@.contains(v),
                forall|a: int, b: int|
                    0 <= a <= b < order@.len() ==> pre.stats_depths()[(#[trigger] order@[a]) as int]
                        >= pre.stats_depths()[(#[trigger] order@[b]) as int],
                self.stats == pre.stats,
                mean == pre.stats_mean(),
                self.injector@ == pre.injector_q(),
                pre.injector_q().len() == 0,
                local@.len() == 0,
                pre.worker_q(id as int).len() == 0,
                views(self.workers@) == pre.worker_qs().remove(id as int),
                forall|k: int|
                    0 <= k < vi ==> pre.worker_q(order@[k] as int).len() == 0,
            decreases order@.len() - vi,
        {
            let v = order[vi];
            if v != id {
                let vadj = if v < id {
                    v
                } else {
                    v - 1
                };
                assert(pre.worker_qs().remove(id as int)[vadj as int] == pre.worker_q(v as int));
                let ghost ws_before = self.workers@;
                proof {
                    assert(views(ws_before).len() == ws_before.len());
                    assert(ws_before.len() == pre.worker_count() - 1);
                    assert(vadj < ws_before.len());
                }
                let mut vq = self.workers.remove(vadj);
                proof {
                    assert(vq == ws_before[vadj as int]);
                    assert(views(ws_before)[vadj as int] == vq@);
                }
                assert(vq@ == pre.worker_q(v as int));
                let ghost rest = self.workers@;
                let st2 = if mean > 0 {
                    vq.steal_batch_and_pop_with_amount(&mut local, mean)
                } else {
                    vq.steal_batch_and_pop(&mut local)
                };
                self.workers.insert(vadj, vq);
                proof {
                    assert(self.workers@ =~= rest.insert(vadj as int, vq));
                    assert(rest =~= ws_before.remove(vadj as int));
                    assert(self.workers@ =~= ws_before.update(vadj as int, vq));
                    assert(views(self.workers@) =~= views(ws_before).update(vadj as int, vq@));
                }
                let ghost ws_mid = self.workers@;
                match st2 {
                    Steal::Success(t) => {
                        self.workers.insert(id, local);
                        proof {
                            broadcast use vstd::seq_lib::group_to_multiset_ensures;
                            broadcast use vstd::multiset::group_multiset_axioms;

                            let q = pre.worker_q(v as int);
                            let lenj = q.len() as int;
                            let n = if pre.stats_mean() > 0 {
                                capped_batch(pre.stats_mean() as int, lenj)
                            } else {
                                half_batch(lenj)
                            };
                            let moved = q.subrange(1, n);
                            assert(vq@ == q.skip(n));
                            assert(local@ =~= moved);
                            let qs1 = pre.worker_qs().update(v as int, q.skip(n));
                            let qs2 = qs1.update(id as int, moved);
                            assert(self.workers@ =~= ws_mid.insert(id as int, local));
                            assert(views(self.workers@) =~= views(ws_mid).insert(
                                id as int,
                                local@,
                            ));
                            assert(views(ws_mid) =~= views(ws_before).update(vadj as int, vq@));
                            assert(views(ws_before) == pre.worker_qs().remove(id as int));
                            assert(self.worker_qs() =~= qs2);
                            lemma_tasks_of_update(pre.worker_qs(), v as int, q.skip(n));
                            assert(qs1[id as int] == pre.worker_q(id as int));
                            lemma_tasks_of_update(qs1, id as int, moved);
                            assert(qs1[id as int] =~= Seq::<T>::empty());
                            assert(Seq::<T>::empty().to_multiset() =~= Multiset::<T>::empty());
                            assert(qs1[id as int].to_multiset() =~= Multiset::<T>::empty());
                            lemma_add_empty(tasks_of(qs2));
                            assert(tasks_of(qs2) == tasks_of(qs1).add(moved.to_multiset()));
                            lemma_batch_decomposition(q, n);
                            assert(tasks_of(pre.worker_qs()) =~= tasks_of(qs2).insert(t)) by {
                                broadcast use vstd::multiset::group_multiset_axioms;

                                let t0 = tasks_of(pre.worker_qs());
                                let t1 = tasks_of(qs1);
                                let sk = q.skip(n).to_multiset();
                                let mv = moved.to_multiset();
                                let s = Multiset::singleton(t);
                                assert(q[0] == t);
                                assert(t1.add(sk.add(mv).insert(t)) == t0.add(sk));
                                assert forall|v2: T| #[trigger] t0.count(v2) == tasks_of(
                                    qs2,
                                ).insert(t).count(v2) by {
                                    assert(t1.add(sk.add(mv).insert(t)).count(v2) == t0.add(
                                        sk,
                                    ).count(v2));
                                    assert(sk.add(mv).insert(t).count(v2) == sk.count(v2)
                                        + mv.count(v2) + s.count(v2));
                                    assert(t1.add(sk.add(mv).insert(t)).count(v2) == t1.count(
                                        v2,
                                    ) + sk.count(v2) + mv.count(v2) + s.count(v2));
                                    assert(t0.add(sk).count(v2) == t0.count(v2) + sk.count(v2));
                                    assert(tasks_of(qs2).insert(t).count(v2) == t1.count(v2)
                                        + mv.count(v2) + s.count(v2));
                                }
                                assert(t0 =~= tasks_of(qs2).insert(t));
                            }
                            lemma_add_both(
                                pre.injector_q().to_multiset(),
                                tasks_of(qs2),
                                t,
                            );
                            assert forall|k: int|
                                0 <= k < pre.worker_count() && k != id
                                    && pre.stats_depths()[k] > pre.stats_depths()[v as int]
                                implies pre.worker_q(k).len() == 0 by {
                                assert(order@.contains(k as usize));
                                let p = choose|p: int|
                                    0 <= p < order@.len() && order@[p] == k as usize;
                                assert(order@[vi as int] == v);
                                if p > vi as int {
                                    assert(pre.stats_depths()[(order@[vi as int]) as int]
                                        >= pre.stats_depths()[(order@[p]) as int]);
                                } else if p < vi as int {
                                    assert(pre.worker_q(order@[p] as int).len() == 0);
                                }
                            }
                            assert(Self::stole_from(pre, *self, id as int, v as int, Some(t)));
                        }
                        return Some(t);
                    },
                    _ => {
                        proof {
                            assert(vq@.len() == 0);
                            assert(views(self.workers@) =~= pre.worker_qs().remove(
                                id as int,
                            ));
                        }
                    },
                }
            }
            vi = vi + 1;
        }
        let ghost ws_end = self.workers@;
        self.workers.insert(id, local);
        proof {
            assert(local@ =~= pre.worker_q(id as int));
            assert(self.workers@ =~= ws_end.insert(id as int, local));
            assert(views(self.workers@) =~= views(ws_end).insert(id as int, local@));
            assert(views(ws_end) == pre.worker_qs().remove(id as int));
            assert(pre.worker_qs().remove(id as int).insert(id as int, local@)
                =~= pre.worker_qs());
            assert(self.worker_qs() =~= pre.worker_qs());
            assert forall|j: int| 0 <= j < pre.worker_count() implies pre.worker_q(j).len()
                == 0 by {
                if j != id {
                    assert(order@.contains(j as usize));
                    let k = choose|k: int| 0 <= k < order@.len() && order@[k] == j as usize;
                    assert(pre.worker_q(order@[k] as int).len() == 0);
                }
            }
        }
        None
    }

    /// One turn of a worker's main loop: publish the depth of its own
    /// queue, then try to obtain a task by the steal algorithm. The worker
    /// runs the task it got, and parks only when nothing is queued anywhere.
    pub fn worker_step(&mut self, id: usize) -> (r: WorkerAction<T>)
        requires
            old(self).wf(),
            id < old(self).worker_count(),
            sum(
                old(self).stats_depths().update(
                    id as int,
                    old(self).worker_q(id as int).len() as usize,
                ),
            ) <= usize::MAX,
        ensures
            final(self).wf(),
            final(self).worker_count() == old(self).worker_count(),
            final(self).stats_depths() == old(self).stats_depths().update(
                id as int,
                old(self).worker_q(id as int).len() as usize,
            ),
            final(self).stats_mean() == sum(final(self).stats_depths()) / (
            final(self).worker_count() as int),
            r matches WorkerAction::Run(t) ==> old(self).tasks() == final(self).tasks().insert(
                t,
            ),
            r is Park ==> final(self).injector_q() == old(self).injector_q()
                && final(self).worker_qs() == old(self).worker_qs()
                && old(self).injector_q().len() == 0 && forall|j: int|
                0 <= j < old(self).worker_count() ==> old(self).worker_q(j).len() == 0,
    {
        self.publish_depth(id);
        let ghost mid = *self;
        match self.fetch(id) {
            Some(t) => WorkerAction::Run(t),
            None => {
                proof {
                    assert(mid.worker_qs() == old(self).worker_qs());
                    assert forall|j: int|
                        0 <= j < old(self).worker_count() implies old(self).worker_q(j).len()
                        == 0 by {
                        assert(mid.worker_q(j).len() == 0);
                    }
                }
                WorkerAction::Park
            },
        }
    }
}

/// A task is in exactly one place. Scheduling adds exactly one occurrence
/// of the task to the pool of queued tasks, so a task that was not yet in
/// the system is afterwards held exactly once — by the injector or by one
/// run queue — until an acquisition removes that single occurrence and
/// hands it to the fetching worker.
pub proof fn lemma_task_in_one_place<T>(pre: Executor<T>, post: Executor<T>, t: T)
    requires
        post.tasks() == pre.tasks().insert(t),
        pre.tasks().count(t) == 0,
    ensures
        post.tasks().count(t) == 1,
{
    broadcast use vstd::multiset::group_multiset_axioms;
}

/// Scheduler hook locality: when a worker schedules a task onto its own
/// queue and then immediately pops locally, with no other consumer in
/// between, it gets that very task back and its queue is as before. The
/// hypotheses are exactly what `schedule` from the worker's own thread and
/// the local-pop case of `fetch` ensure.
pub proof fn lemma_scheduler_hook_locality<T>(
    pre: Executor<T>,
    mid: Executor<T>,
    post: Executor<T>,
    w: int,
    t: T,
    r: Option<T>,
)
    requires
        mid.worker_q(w) == pre.worker_q(w).push(t),
        mid.worker_q(w).len() > 0 ==> r == Some(mid.worker_q(w).last()) && post.worker_q(w)
            == mid.worker_q(w).drop_last(),
    ensures
        r == Some(t),
        post.worker_q(w) == pre.worker_q(w),
{
    assert(pre.worker_q(w).push(t).drop_last() =~= pre.worker_q(w));
}

/// Every worker id exactly once, ordered by descending published depth, so
/// that stealing tries the most overloaded victim first.
fn victim_order(stats: &LoadStats) -> (r: Vec<usize>)
    ensures
        r@.len() == stats.depths().len(),
        forall|k: int| 0 <= k < r@.len() ==> (#[trigger] r@[k]) < stats.depths().len(),
        forall|v: usize| v < stats.depths().len() ==> #[trigger] r@.contains(v),
        forall|a: int, b: int|
            0 <= a <= b < r@.len() ==> stats.depths()[(#[trigger] r@[a]) as int]
                >= stats.depths()[(#[trigger] r@[b]) as int],
{
    let n = stats.worker_count();
    let mut order: Vec<usize> = Vec::new();
    let mut i: usize = 0;
    while i < n
        invariant
            i <= n,
            order@.len() == i,
            forall|k: int| 0 <= k < i ==> #[trigger] order@[k] == k,
        decreases n - i,
    {
        order.push(i);
        i = i + 1;
    }
    proof {
        assert forall|v: usize| v < n implies #[trigger] order@.contains(v) by {
            assert(order@[v as int] == v);
        }
    }
    let ghost d = stats.depths();
    let mut i: usize = 0;
    while i < n
        invariant
            i <= n,
            n == d.len(),
            d == stats.depths(),
            order@.len() == n,
            forall|k: int| 0 <= k < n ==> (#[trigger] order@[k]) < n,
            forall|v: usize| v < n ==> #[trigger] order@.contains(v),
            forall|a: int, b: int|
                0 <= a <= b < i ==> d[(#[trigger] order@[a]) as int] >= d[(#[trigger] order@[b]) as int],
            forall|a: int, b: int|
                0 <= a < i <= b < n ==> d[(#[trigger] order@[a]) as int] >= d[(#[trigger] order@[b]) as int],
        decreases n - i,
    {
        let mut m: usize = i;
        let mut j: usize = i + 1;
        while j < n
            invariant
                i <= m < n,
                i < j <= n,
                n == d.len(),
                d == stats.depths(),
                order@.len() == n,
                forall|k: int| 0 <= k < n ==> (#[trigger] order@[k]) < n,
                forall|k: int|
                    i <= k < j ==> d[order@[m as int] as int] >= d[(#[trigger] order@[k]) as int],
            decreases n - j,
        {
            if stats.depth_of(order[j]) > stats.depth_of(order[m]) {
                m = j;
            }
            j = j + 1;
        }
        let ghost before = order@;
        let oi = order[i];
        let om = order[m];
        order.set(i, om);
        order.set(m, oi);
        proof {
            assert(order@ =~= before.update(i as int, om).update(m as int, oi));
            assert forall|v: usize| v < n implies #[trigger] order@.contains(v) by {
                assert(before.contains(v));
                let k0 = choose|k0: int| 0 <= k0 < before.len() && before[k0] == v;
                if k0 == i as int {
                    assert(order@[m as int] == v);
                } else if k0 == m as int {
                    assert(order@[i as int] == v);
                } else {
                    assert(order@[k0] == v);
                }
            }
        }
        i = i + 1;
    }
    order
}

} // verus!
