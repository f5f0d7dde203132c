//! A single-assignment memo cell.
//!
//! A cell starts out pending, or already holding its value. The first
//! requester of a pending cell is told to evaluate it and the cell becomes
//! running; everyone who asks while it runs is told to wait; once the
//! evaluator hands in the value, every request sees that value, forever.
use vstd::prelude::*;

verus! {

/// Where a memo cell is in its life.
#[derive(Debug)]
pub enum LazyState<T> {
    /// Nobody has asked for the value yet.
    Pending,
    /// One requester is computing the value.
    Running,
    /// The value is known.
    Ready(T),
}

/// A memo cell: its computation runs at most once, and every requester sees
/// the same value.
#[derive(Debug)]
pub struct Lazy<T> {
    pub state: LazyState<T>,
}

/// What a request on a cell tells the requester.
#[derive(Clone, Copy, Debug, PartialEq, Eq)]
pub enum Claim {
    /// The requester is the one to compute the value.
    Evaluate,
    /// Someone else computes the value; ask again once it is handed in.
    Wait,
    /// The value is there.
    Ready,
}

/// An operation on a cell, for stating what a run of operations observes.
pub enum LazyOp<T> {
    Get,
    Resolve(T),
}

/// What one operation observes.
pub enum Observation<T> {
    Evaluate,
    Wait,
    Value(T),
    Resolved(bool),
}

/// The state a request leaves behind, and what it observes.
pub open spec fn get_step<T>(s: LazyState<T>) -> (LazyState<T>, Observation<T>) {
    match s {
        LazyState::Pending => (LazyState::Running, Observation::Evaluate),
        LazyState::Running => (LazyState::Running, Observation::Wait),
        LazyState::Ready(v) => (LazyState::Ready(v), Observation::Value(v)),
    }
}

/// The state that handing in `v` leaves behind, and whether it was taken.
pub open spec fn resolve_step<T>(s: LazyState<T>, v: T) -> (LazyState<T>, Observation<T>) {
    match s {
        LazyState::Running => (LazyState::Ready(v), Observation::Resolved(true)),
        _ => (s, Observation::Resolved(false)),
    }
}

pub open spec fn apply<T>(s: LazyState<T>, op: LazyOp<T>) -> (LazyState<T>, Observation<T>) {
    match op {
        LazyOp::Get => get_step(s),
        LazyOp::Resolve(v) => resolve_step(s, v),
    }
}

/// What each operation of `ops`, run in turn from `s`, observes.
pub open spec fn run<T>(s: LazyState<T>, ops: Seq<LazyOp<T>>) -> Seq<Observation<T>>
    decreases ops.len(),
{
    if ops.len() == 0 {
        Seq::empty()
    } else {
        let (next, o) = apply(s, ops[0]);
        seq![o] + run(next, ops.drop_first())
    }
}

impl<T> Lazy<T> {
    /// A cell whose value is yet to be computed.
    pub fn new() -> (r: Lazy<T>)
        ensures
            r.state is Pending,
    {
        Lazy { state: LazyState::Pending }
    }

    /// A cell that holds `val` from the start.
    pub fn new_immediate(val: T) -> (r: Lazy<T>)
        ensures
            r.state == LazyState::Ready(val),
    {
        Lazy { state: LazyState::Ready(val) }
    }

    /// Requests the value: the first requester of a pending cell is told to
    /// evaluate it, and the cell is then running.
    pub fn get(&mut self) -> (r: Claim)
        ensures
            final(self).state == get_step(old(self).state).0,
            r == (match old(self).state {
                LazyState::Pending => Claim::Evaluate,
                LazyState::Running => Claim::Wait,
                LazyState::Ready(_) => Claim::Ready,
            }),
    {
        match self.state {
            LazyState::Pending => {
                self.state = LazyState::Running;
                Claim::Evaluate
            },
            LazyState::Running => Claim::Wait,
            LazyState::Ready(_) => Claim::Ready,
        }
    }

    /// Hands in the value of a running cell; a cell in any other state is
    /// left as it is.
    pub fn resolve(&mut self, v: T) -> (r: bool)
        ensures
            final(self).state == resolve_step(old(self).state, v).0,
            r == old(self).state is Running,
    {
        match self.state {
            LazyState::Running => {
                self.state = LazyState::Ready(v);
                true
            },
            _ => false,
        }
    }

    /// The value, once it is there.
    pub fn value(&self) -> (r: Option<&T>)
        ensures
            r == (match self.state {
                LazyState::Ready(v) => Some(&v),
                _ => None,
            }),
    {
        match &self.state {
            LazyState::Ready(v) => Some(v),
            _ => None,
        }
    }

    pub open spec fn is_pending(&self) -> bool {
        self.state is Pending
    }

    pub open spec fn is_ready(&self) -> bool {
        self.state is Ready
    }
}

/// A computation runs at most once: whatever operations follow, from a
/// pending cell at most one request is told to evaluate it, and none from a
/// cell that has left the pending state.
pub proof fn lemma_evaluates_at_most_once<T>(s: LazyState<T>, ops: Seq<LazyOp<T>>)
    ensures
        forall|i: int, j: int|
            0 <= i < j < ops.len() && run(s, ops)[i] is Evaluate ==> !(run(s, ops)[j] is Evaluate),
        !(s is Pending) ==> forall|i: int| 0 <= i < ops.len() ==> !(run(s, ops)[i] is Evaluate),
    decreases ops.len(),
{
    if ops.len() > 0 {
        let (next, o) = apply(s, ops[0]);
        let rest = ops.drop_first();
        lemma_evaluates_at_most_once(next, rest);
        lemma_run_len(next, rest);
        assert forall|i: int, j: int|
            0 <= i < j < ops.len() && run(s, ops)[i] is Evaluate implies !(run(s, ops)[j] is Evaluate) by {
            assert(run(s, ops)[j] == run(next, rest)[j - 1]);
            if i > 0 {
                assert(run(s, ops)[i] == run(next, rest)[i - 1]);
            }
        }
        assert forall|i: int| !(s is Pending) && 0 <= i < ops.len() implies !(run(s, ops)[i] is Evaluate) by {
            if i > 0 {
                assert(run(s, ops)[i] == run(next, rest)[i - 1]);
            }
        }
    }
}

/// A request on a pending cell is told to evaluate it: with the law above,
/// a run that makes a request evaluates exactly once.
pub proof fn lemma_first_request_evaluates<T>(ops: Seq<LazyOp<T>>)
    requires
        ops.len() > 0,
        ops[0] is Get,
    ensures
        run(LazyState::Pending, ops)[0] is Evaluate,
{
}

/// Every requester sees the same value: any two values that a run observes
/// are equal, and equal to the value of a cell that starts out ready.
pub proof fn lemma_one_value<T>(s: LazyState<T>, ops: Seq<LazyOp<T>>)
    ensures
        forall|i: int, j: int|
            0 <= i < ops.len() && 0 <= j < ops.len() && run(s, ops)[i] is Value && run(
                s,
                ops,
            )[j] is Value ==> run(s, ops)[i] == run(s, ops)[j],
        forall|i: int|
            0 <= i < ops.len() && s is Ready && run(s, ops)[i] is Value ==> run(s, ops)[i]
                == Observation::Value(s->Ready_0),
    decreases ops.len(),
{
    if ops.len() > 0 {
        let (next, o) = apply(s, ops[0]);
        let rest = ops.drop_first();
        lemma_one_value(next, rest);
        lemma_run_len(next, rest);
        lemma_no_value_before_ready(s, ops);
        assert forall|i: int| 0 < i < ops.len() implies run(s, ops)[i] == run(next, rest)[i - 1] by {}
    }
}

proof fn lemma_no_value_before_ready<T>(s: LazyState<T>, ops: Seq<LazyOp<T>>)
    requires
        ops.len() > 0,
    ensures
        !(s is Ready) ==> !(run(s, ops)[0] is Value),
        s is Ready ==> apply(s, ops[0]).0 == s,
        run(s, ops)[0] == apply(s, ops[0]).1,
{
}

proof fn lemma_run_len<T>(s: LazyState<T>, ops: Seq<LazyOp<T>>)
    ensures
        run(s, ops).len() == ops.len(),
    decreases ops.len(),
{
    if ops.len() > 0 {
        lemma_run_len(apply(s, ops[0]).0, ops.drop_first());
    }
}

} // verus!
