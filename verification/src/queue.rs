//! The executor's queues, modelled sequentially: a worker's run queue (the
//! owner pushes and pops at one end, thieves take batches from the other)
//! and the shared injector (first in, first out).
//!
//! A steal either succeeds with one task to run at once — the rest of the
//! batch having been moved into the thief's queue — or finds the victim
//! empty. `Retry` exists for inconclusive contention windows; in this
//! sequential model a steal is always conclusive.

use vstd::prelude::*;

verus! {

/// Outcome of a steal attempt.
pub enum Steal<T> {
    /// One task to run now; the rest of the batch went to the thief's queue.
    Success(T),
    /// The victim had nothing to take.
    Empty,
    /// The attempt was inconclusive and should be repeated.
    Retry,
}

impl<T> Steal<T> {
    /// Whether this outcome asks for another attempt.
    pub fn is_retry(&self) -> (r: bool)
        ensures
            r == (self is Retry),
    {
        match self {
            Steal::Retry => true,
            _ => false,
        }
    }

    /// The stolen task, if the attempt succeeded.
    pub fn success(self) -> (r: Option<T>)
        ensures
            self is Success ==> r == Some(self->Success_0),
            !(self is Success) ==> r is None,
    {
        match self {
            Steal::Success(t) => Some(t),
            _ => None,
        }
    }
}

/// How many tasks a default batch steal takes from a victim holding `len`:
/// half of them, rounded up.
pub open spec fn half_batch(len: int) -> int {
    len - len / 2
}

/// How many tasks a steal bounded by `amount` takes from a victim holding
/// `len`: `amount`, capped by what is there.
pub open spec fn capped_batch(amount: int, len: int) -> int {
    if amount < len {
        amount
    } else {
        len
    }
}

/// A worker's run queue. The owning worker pushes and pops at the back, so
/// local work is popped last in, first out; thieves steal batches from the
/// front, oldest tasks first.
pub struct RunQueue<T> {
    items: Vec<T>,
}

impl<T> View for RunQueue<T> {
    type V = Seq<T>;

    closed spec fn view(&self) -> Seq<T> {
        self.items@
    }
}

impl<T> RunQueue<T> {
    /// An empty run queue.
    pub fn new() -> (r: RunQueue<T>)
        ensures
            r@ == Seq::<T>::empty(),
    {
        RunQueue { items: Vec::new() }
    }

    /// How many tasks sit in this queue.
    pub fn len(&self) -> (r: usize)
        ensures
            r == self@.len(),
    {
        self.items.len()
    }

    /// The owner's push: the task goes to the back of the queue.
    pub fn push(&mut self, task: T)
        ensures
            final(self)@ == old(self)@.push(task),
    {
        self.items.push(task);
    }

    /// The owner's pop: the task most recently pushed comes back first.
    pub fn pop(&mut self) -> (r: Option<T>)
        ensures
            old(self)@.len() == 0 ==> r is None && final(self)@ == old(self)@,
            old(self)@.len() > 0 ==> r == Some(old(self)@.last()) && final(self)@ == old(
                self,
            )@.drop_last(),
    {
        self.items.pop()
    }

    /// A thief's batch steal: take half of the victim's tasks, rounded up,
    /// from the front; the first goes to the caller to run at once, the rest
    /// to the back of `dest`. An empty victim yields `Empty`, never `Retry`.
    pub fn steal_batch_and_pop(&mut self, dest: &mut RunQueue<T>) -> (r: Steal<T>)
        ensures
            !(r is Retry),
            old(self)@.len() == 0 ==> r is Empty && final(self)@ == old(self)@ && final(dest)@
                == old(dest)@,
            old(self)@.len() > 0 ==> {
                let n = half_batch(old(self)@.len() as int);
                &&& r == Steal::Success(old(self)@[0])
                &&& final(self)@ == old(self)@.skip(n)
                &&& final(dest)@ == old(dest)@ + old(self)@.subrange(1, n)
            },
    {
        let len = self.items.len();
        let n = len - len / 2;
        self.steal_front(dest, n)
    }

    /// A thief's batch steal bounded by `amount`: take at most `amount`
    /// tasks from the front; the first goes to the caller, the rest to the
    /// back of `dest`. An empty victim, or a zero bound, yields `Empty`.
    pub fn steal_batch_and_pop_with_amount(&mut self, dest: &mut RunQueue<T>, amount: usize) -> (r:
        Steal<T>)
        ensures
            !(r is Retry),
            old(self)@.len() == 0 || amount == 0 ==> r is Empty && final(self)@ == old(self)@
                && final(dest)@ == old(dest)@,
            old(self)@.len() > 0 && amount > 0 ==> {
                let n = capped_batch(amount as int, old(self)@.len() as int);
                &&& r == Steal::Success(old(self)@[0])
                &&& final(self)@ == old(self)@.skip(n)
                &&& final(dest)@ == old(dest)@ + old(self)@.subrange(1, n)
            },
    {
        let len = self.items.len();
        let n = if amount < len {
            amount
        } else {
            len
        };
        self.steal_front(dest, n)
    }

    /// Move the first `n` tasks out of this queue: return the very first,
    /// append the remaining `n - 1` to `dest`.
    fn steal_front(&mut self, dest: &mut RunQueue<T>, n: usize) -> (r: Steal<T>)
        requires
            n <= old(self)@.len(),
        ensures
            !(r is Retry),
            n == 0 ==> r is Empty && final(self)@ == old(self)@ && final(dest)@ == old(dest)@,
            n > 0 ==> r == Steal::Success(old(self)@[0]) && final(self)@ == old(self)@.skip(
                n as int,
            ) && final(dest)@ == old(dest)@ + old(self)@.subrange(1, n as int),
    {
        if n == 0 {
            return Steal::Empty;
        }
        let first = self.items.remove(0);
        proof {
            assert(self@ =~= old(self)@.skip(1));
            assert(dest@ =~= old(dest)@ + old(self)@.subrange(1, 1));
        }
        let mut moved: usize = 1;
        while moved < n
            invariant
                1 <= moved <= n,
                n <= old(self)@.len(),
                self@ == old(self)@.skip(moved as int),
                dest@ == old(dest)@ + old(self)@.subrange(1, moved as int),
            decreases n - moved,
        {
            let t = self.items.remove(0);
            dest.items.push(t);
            proof {
                assert(self@ =~= old(self)@.skip(moved as int + 1));
                assert(dest@ =~= old(dest)@ + old(self)@.subrange(1, moved as int + 1));
            }
            moved = moved + 1;
        }
        Steal::Success(first)
    }
}

/// The shared injector: a first-in, first-out queue that any thread may
/// push to and any worker may steal from.
pub struct Injector<T> {
    items: Vec<T>,
}

impl<T> View for Injector<T> {
    type V = Seq<T>;

    closed spec fn view(&self) -> Seq<T> {
        self.items@
    }
}

impl<T> Injector<T> {
    /// An empty injector.
    pub fn new() -> (r: Injector<T>)
        ensures
            r@ == Seq::<T>::empty(),
    {
        Injector { items: Vec::new() }
    }

    /// How many tasks sit in the injector.
    pub fn len(&self) -> (r: usize)
        ensures
            r == self@.len(),
    {
        self.items.len()
    }

    /// Push a task; it queues behind everything already injected.
    pub fn push(&mut self, task: T)
        ensures
            final(self)@ == old(self)@.push(task),
    {
        self.items.push(task);
    }

    /// A worker's batch steal from the injector: take half of what is
    /// there, rounded up, oldest first; the first task goes to the caller,
    /// the rest to the back of `dest`. Empty yields `Empty`, never `Retry`.
    pub fn steal_batch_and_pop(&mut self, dest: &mut RunQueue<T>) -> (r: Steal<T>)
        ensures
            !(r is Retry),
            old(self)@.len() == 0 ==> r is Empty && final(self)@ == old(self)@ && final(dest)@
                == old(dest)@,
            old(self)@.len() > 0 ==> {
                let n = half_batch(old(self)@.len() as int);
                &&& r == Steal::Success(old(self)@[0])
                &&& final(self)@ == old(self)@.skip(n)
                &&& final(dest)@ == old(dest)@ + old(self)@.subrange(1, n)
            },
    {
        let len = self.items.len();
        let n = len - len / 2;
        if n == 0 {
            return Steal::Empty;
        }
        let first = self.items.remove(0);
        proof {
            assert(self@ =~= old(self)@.skip(1));
            assert(dest@ =~= old(dest)@ + old(self)@.subrange(1, 1));
        }
        let mut moved: usize = 1;
        while moved < n
            invariant
                1 <= moved <= n,
                n <= old(self)@.len(),
                self@ == old(self)@.skip(moved as int),
                dest@ == old(dest)@ + old(self)@.subrange(1, moved as int),
            decreases n - moved,
        {
            let t = self.items.remove(0);
            dest.push(t);
            proof {
                assert(self@ =~= old(self)@.skip(moved as int + 1));
                assert(dest@ =~= old(dest)@ + old(self)@.subrange(1, moved as int + 1));
            }
            moved = moved + 1;
        }
        Steal::Success(first)
    }
}

} // verus!
