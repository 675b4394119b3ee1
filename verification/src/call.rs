//! Callbacks that take the arguments queued for them.
use vstd::prelude::*;

pub use crate::sys::delete::Delete;

verus! {

broadcast use vstd::function::group_function_axioms;

/// A callback with the arguments queued for it.
///
/// Arguments are queued with `add`; `call` hands the whole queue to the
/// callback, which decides what to do with it and what stays queued.
pub struct Call<Args, F: FnMut(&mut Vec<Args>)> {
    call: F,
    queue: Vec<Args>,
}

impl<Args, F: FnMut(&mut Vec<Args>)> Call<Args, F> {
    /// The arguments queued, oldest first.
    pub closed spec fn queued(&self) -> Seq<Args> {
        self.queue@
    }

    /// The callback.
    pub closed spec fn callback(&self) -> F {
        self.call
    }

    /// A call of `call` with nothing queued.
    pub fn new(call: F) -> (c: Self)
        ensures
            c.queued() == Seq::<Args>::empty(),
            c.callback() == call,
    {
        Call { call, queue: Vec::new() }
    }

    /// Queues `args` behind those already queued.
    pub fn add(&mut self, args: Args)
        ensures
            final(self).queued() == old(self).queued().push(args),
            final(self).callback() == old(self).callback(),
    {
        self.queue.push(args);
    }

    /// Hands the queue to the callback: the callback runs once, on a
    /// mutable borrow of the queue as it was, and the queue afterwards is
    /// what the callback left in it.
    pub fn call(&mut self)
        requires
            forall|q: &mut Vec<Args>| call_requires(old(self).callback(), (q,)),
        ensures
            exists|q: &mut Vec<Args>| {
                &&& (*q)@ == old(self).queued()
                &&& (*final(q))@ == final(self).queued()
                &&& call_ensures(old(self).callback(), (q,), ())
            },
    {
        let f = &mut self.call;
        let q = &mut self.queue;
        assert(*f == old(self).callback());
        assert(forall|r: &mut Vec<Args>| call_requires(*f, (r,)));
        let ghost q0 = q;
        Self::run(f, q);
        proof {
            let r = choose|r: &mut Vec<Args>| *r == *q0 && *final(r) == *final(q0)
                && call_ensures(old(self).callback(), (r,), ());
            assert(*r == *q0);
            assert((*r)@ == old(self).queued());
            assert(*final(r) == *final(q0));
            assert((*final(r))@ == self.queued());
        }
    }

    /// Runs `f` once on `queue`.
    fn run(f: &mut F, queue: &mut Vec<Args>)
        requires
            forall|q: &mut Vec<Args>| call_requires(*old(f), (q,)),
        ensures
            exists|q: &mut Vec<Args>| {
                &&& *q == *old(queue)
                &&& *final(q) == *final(queue)
                &&& call_ensures(*old(f), (q,), ())
            },
    {
        f(queue);
    }
}

} // verus!
