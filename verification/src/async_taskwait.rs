//! A limit on the tasks that run at the same time.
use std::sync::Arc;
use tokio::sync::Semaphore;
use vstd::prelude::*;

verus! {

/// The semaphore of the crate `tokio`.
#[verifier::external_type_specification]
#[verifier::external_body]
pub struct ExSemaphore(tokio::sync::Semaphore);

/// The number of permits that a semaphore was made with.
pub uninterp spec fn permits_made(semaphore: Semaphore) -> nat;

/// The largest number of permits that a semaphore can be made with.
pub open spec fn permit_limit() -> nat {
    (usize::MAX / 8) as nat
}

/// `Semaphore::new`: a semaphore with so many permits. It panics above
/// `Semaphore::MAX_PERMITS`, an eighth of the largest `usize`.
#[verifier::external_body]
fn semaphore_new(permits: usize) -> (r: Semaphore)
    requires
        permits <= permit_limit(),
    ensures
        permits_made(r) == permits,
{
    Semaphore::new(permits)
}

/// `Semaphore::available_permits`: the permits that no task holds at the
/// moment. The number rests on what the tasks do; a semaphore keeps one bit of
/// its counter for itself, so that it is at most half of the largest `usize`.
#[verifier::external_body]
fn semaphore_available(semaphore: &Semaphore) -> (r: usize)
    ensures
        r <= usize::MAX / 2,
{
    semaphore.available_permits()
}

/// Whether the program is to go on.
#[derive(Clone, Copy, PartialEq, Eq, Structural, Debug)]
pub struct RunFlag {
    pub running: bool,
}

impl RunFlag {
    /// The flag is set when the program starts.
    pub fn new() -> (r: Self)
        ensures
            r.running,
    {
        RunFlag { running: true }
    }
}

/// Whether the program is to go on.
pub fn is_running(flag: &RunFlag) -> (r: bool)
    ensures
        r == flag.running,
{
    flag.running
}

/// Says whether the program is to go on.
pub fn set_running(flag: &mut RunFlag, running: bool)
    ensures
        final(flag).running == running,
{
    flag.running = running;
}

/// A limit on the tasks that run at the same time: each holds a permit.
#[derive(Debug)]
pub struct AsyncTaskWait {
    semaphore: Arc<Semaphore>,
    max_parallel: usize,
}

/// A step of a task that waits for its slot.
#[derive(Clone, Copy, PartialEq, Eq, Structural, Debug)]
pub enum SlotStep {
    /// Ask the semaphore for a permit, and keep it.
    Acquire,
    /// The wait is over. The task may go on if the value says so.
    Done(bool),
}

impl AsyncTaskWait {
    /// The number of tasks that may run at the same time.
    pub closed spec fn limit(self) -> nat {
        self.max_parallel as nat
    }

    /// The semaphore that all tasks share.
    pub closed spec fn shared(self) -> Semaphore {
        *self.semaphore
    }

    /// The semaphore was made with one permit for each task.
    pub closed spec fn wf(self) -> bool {
        permits_made(*self.semaphore) == self.max_parallel
    }

    /// A limit of `max_parallel` tasks.
    pub fn new(max_parallel: i32) -> (r: Self)
        requires
            0 <= max_parallel <= permit_limit(),
        ensures
            r.wf(),
            r.limit() == max_parallel,
    {
        AsyncTaskWait {
            semaphore: Arc::new(semaphore_new(max_parallel as usize)),
            max_parallel: max_parallel as usize,
        }
    }

    /// The number of tasks that may run at the same time.
    pub fn max_parallel(&self) -> (r: usize)
        ensures
            r == self.limit(),
    {
        self.max_parallel
    }

    /// The semaphore that hands out the permits: the same one at every call.
    pub fn semaphore(&self) -> (r: Arc<Semaphore>)
        requires
            self.wf(),
        ensures
            *r == self.shared(),
            permits_made(*r) == self.limit(),
    {
        self.semaphore.clone()
    }

    /// Whether the shared semaphore may answer that `n` permits are free.
    pub closed spec fn may_show(self, n: usize) -> bool {
        call_ensures(semaphore_available, (&self.shared(),), n)
    }

    /// The permits that no task holds at the moment, as the shared semaphore
    /// tells them.
    pub fn available_permits(&self) -> (r: usize)
        ensures
            self.may_show(r),
            r <= usize::MAX / 2,
    {
        semaphore_available(&self.semaphore)
    }

    /// The next step of a task that waits for its slot. `granted` is the answer
    /// of the semaphore, once there is one.
    pub fn wait_for_slot(&self, flag: &RunFlag, granted: Option<bool>) -> (r: SlotStep)
        ensures
            r == (match granted {
                Some(granted) => SlotStep::Done(granted),
                None => if flag.running {
                    SlotStep::Acquire
                } else {
                    SlotStep::Done(false)
                },
            }),
    {
        match granted {
            Some(granted) => SlotStep::Done(granted),
            None => {
                if !is_running(flag) {
                    SlotStep::Done(false)
                } else {
                    SlotStep::Acquire
                }
            },
        }
    }
}

/// A semaphore can be made with up to an eighth of the largest `usize` permits.
pub proof fn law_permit_limit()
    ensures
        permit_limit() == usize::MAX / 8,
{
}

/// A limit is made with just the number of tasks that it is given, and hands out
/// one semaphore, the same to all, with a permit for each of them.
pub proof fn law_limit_shares_one_semaphore(
    max_parallel: i32,
    limit: AsyncTaskWait,
    number: usize,
    a: Arc<Semaphore>,
    b: Arc<Semaphore>,
)
    requires
        0 <= max_parallel,
        call_ensures(AsyncTaskWait::new, (max_parallel,), limit),
        call_ensures(AsyncTaskWait::max_parallel, (&limit,), number),
        call_ensures(AsyncTaskWait::semaphore, (&limit,), a),
        call_ensures(AsyncTaskWait::semaphore, (&limit,), b),
    ensures
        number == max_parallel,
        *a == *b,
        permits_made(*a) == max_parallel,
{
}

/// A task asks for a permit while the program goes on, and gives up when it has
/// been stopped; the answer of the semaphore then decides.
pub proof fn law_steps_of_a_waiting_task(
    limit: AsyncTaskWait,
    flag: &mut RunFlag,
    running: bool,
    granted: bool,
    first: SlotStep,
    afterwards: SlotStep,
)
    requires
        call_ensures(set_running, (flag, running), ()),
        call_ensures(AsyncTaskWait::wait_for_slot, (&limit, &*final(flag), None), first),
        call_ensures(
            AsyncTaskWait::wait_for_slot,
            (&limit, &*final(flag), Some(granted)),
            afterwards,
        ),
    ensures
        running ==> first is Acquire,
        !running ==> first == SlotStep::Done(false),
        afterwards == SlotStep::Done(granted),
{
}

/// The program goes on from the start until it is told otherwise.
pub proof fn law_flag_says_what_it_was_told(
    fresh: RunFlag,
    flag: &mut RunFlag,
    running: bool,
    at_first: bool,
    later: bool,
)
    requires
        call_ensures(RunFlag::new, (), fresh),
        call_ensures(is_running, (&fresh,), at_first),
        call_ensures(set_running, (flag, running), ()),
        call_ensures(is_running, (&*final(flag),), later),
    ensures
        at_first,
        later == running,
{
}

}
