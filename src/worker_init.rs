//! Pairing of worker subscribers with workers as they register.
use vstd::prelude::*;

verus! {

/// Waiting subscribers and idle workers. At most one of the two queues is
/// non-empty at any time.
pub struct WorkerInit<W, S> {
    subscribers: Vec<S>,
    workers: Vec<W>,
}

impl<W, S> WorkerInit<W, S> {
    pub closed spec fn subscribers(&self) -> Seq<S> {
        self.subscribers@
    }

    pub closed spec fn workers(&self) -> Seq<W> {
        self.workers@
    }

    pub open spec fn wf(&self) -> bool {
        self.subscribers().len() == 0 || self.workers().len() == 0
    }

    pub fn new() -> (r: Self)
        ensures
            r.wf(),
            r.subscribers().len() == 0,
            r.workers().len() == 0,
    {
        WorkerInit { subscribers: Vec::new(), workers: Vec::new() }
    }
}

/// A subscriber asks for a worker: it gets the most recently registered idle
/// one, returned with it, or waits in the queue when none is idle.
pub fn get_worker<W, S>(init: &mut WorkerInit<W, S>, subscriber: S) -> (r: Option<(S, W)>)
    requires
        old(init).wf(),
    ensures
        final(init).wf(),
        old(init).workers().len() > 0 ==> r == Some((subscriber, old(init).workers().last()))
            && final(init).workers() == old(init).workers().drop_last() && final(init).subscribers()
            == old(init).subscribers(),
        old(init).workers().len() == 0 ==> r is None && final(init).workers() == old(
            init,
        ).workers() && final(init).subscribers() == old(init).subscribers().push(subscriber),
{
    match init.workers.pop() {
        Some(w) => Some((subscriber, w)),
        None => {
            init.subscribers.push(subscriber);
            None
        },
    }
}

/// A worker registers: the most recent waiting subscriber gets it, returned
/// with it, or it joins the idle queue when nobody waits.
pub fn register_worker<W, S>(init: &mut WorkerInit<W, S>, worker: W) -> (r: Option<(S, W)>)
    requires
        old(init).wf(),
    ensures
        final(init).wf(),
        old(init).subscribers().len() > 0 ==> r == Some((old(init).subscribers().last(), worker))
            && final(init).subscribers() == old(init).subscribers().drop_last()
            && final(init).workers() == old(init).workers(),
        old(init).subscribers().len() == 0 ==> r is None && final(init).subscribers() == old(
            init,
        ).subscribers() && final(init).workers() == old(init).workers().push(worker),
{
    match init.subscribers.pop() {
        Some(s) => Some((s, worker)),
        None => {
            init.workers.push(worker);
            None
        },
    }
}

} // verus!
