//! The decision of the worker pool: which worker takes the next job.
use vstd::prelude::*;

verus! {

/// Where a submitted job goes.
#[derive(Debug, PartialEq, Eq, Structural, Clone, Copy)]
pub enum Dispatch {
    /// To the idle worker at this index.
    Idle(usize),
    /// To a new worker.
    Spawn,
    /// To the busy worker at this index.
    Any(usize),
}

/// The worker for the next job, given which workers are busy, the pool's
/// capacity, and a random number: the first idle worker; else a new worker
/// while the capacity is unset or not reached, or while there is none; else
/// the worker the random number picks.
pub fn choose_worker(busy: &Vec<bool>, capacity: Option<usize>, random: usize) -> (r: Dispatch)
    ensures
        (exists|i: int| 0 <= i < busy@.len() && !busy@[i]) ==> (r matches Dispatch::Idle(i) && i
            < busy@.len() && !busy@[i as int] && forall|j: int| 0 <= j < i ==> busy@[j]),
        !(exists|i: int| 0 <= i < busy@.len() && !busy@[i]) ==> r == (match capacity {
            Some(c) => if busy@.len() < c || busy@.len() == 0 {
                Dispatch::Spawn
            } else {
                Dispatch::Any(random % busy@.len() as usize)
            },
            None => Dispatch::Spawn,
        }),
{
    let mut i: usize = 0;
    while i < busy.len()
        invariant
            0 <= i <= busy@.len(),
            forall|j: int| 0 <= j < i ==> busy@[j],
        decreases busy@.len() - i,
    {
        if !busy[i] {
            return Dispatch::Idle(i);
        }
        i = i + 1;
    }
    match capacity {
        Some(c) => if busy.len() < c || busy.len() == 0 {
            Dispatch::Spawn
        } else {
            Dispatch::Any(random % busy.len())
        },
        None => Dispatch::Spawn,
    }
}

} // verus!
