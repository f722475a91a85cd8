//! A count of running threads, and the waiting for it.
//!
//! The program keeps one [`TaskState`] behind a lock, takes a step on it, and
//! sleeps without the lock when the step says so.
use vstd::prelude::*;

verus! {

/// What the threads of the program share.
#[derive(Clone, Copy, PartialEq, Eq, Structural, Debug)]
pub struct TaskState {
    /// Whether the program is to go on.
    pub running: bool,
    /// The number of threads at work.
    pub threads: i32,
}

impl TaskState {
    /// One thread more.
    pub open spec fn taken(self) -> TaskState {
        TaskState { threads: (self.threads + 1) as i32, ..self }
    }

    /// One thread less.
    pub open spec fn released(self) -> TaskState {
        TaskState { threads: (self.threads - 1) as i32, ..self }
    }

    /// Whether there are no more threads than allowed, and none is owed.
    pub open spec fn within(self, parallel: i32) -> bool {
        0 <= self.threads <= parallel
    }

    /// The state in which the program starts.
    pub fn new() -> (r: Self)
        ensures
            !r.running,
            r.threads == 0,
    {
        TaskState { running: false, threads: 0 }
    }
}

/// Whether the program is to go on.
pub fn is_running(state: &TaskState) -> (r: bool)
    ensures
        r == state.running,
{
    state.running
}

/// One look of a thread that waits for its turn.
#[derive(Clone, Copy, PartialEq, Eq, Structural, Debug)]
pub enum ThreadWait {
    /// The wait is over. The thread may go on if the value says so.
    Done(bool),
    /// Look again after so many milliseconds.
    Sleep(u64),
}

/// Takes a place among at most `parallel` threads. While all places are taken
/// the caller looks again, unless the program has been stopped.
pub fn wait_available_thread(state: &mut TaskState, parallel: i32) -> (r: ThreadWait)
    ensures
        *final(state) == (if old(state).threads < parallel {
            old(state).taken()
        } else {
            *old(state)
        }),
        old(state).within(parallel) ==> final(state).within(parallel),
        r == (if old(state).threads < parallel || !old(state).running {
            ThreadWait::Done(old(state).running)
        } else {
            ThreadWait::Sleep(300)
        }),
{
    if state.threads < parallel {
        state.threads = state.threads + 1;
        return ThreadWait::Done(is_running(state));
    }
    if !is_running(state) {
        return ThreadWait::Done(false);
    }
    ThreadWait::Sleep(300)
}

/// Gives a place back.
pub fn new_thread_available(state: &mut TaskState)
    requires
        old(state).threads > i32::MIN,
    ensures
        *final(state) == old(state).released(),
{
    state.threads = state.threads - 1;
}

/// Ends a task. One that came without a permit has taken a place, and gives it
/// back; one that came with a permit has not.
pub fn task_ended(state: &mut TaskState, had_permit: bool)
    requires
        !had_permit ==> old(state).threads > i32::MIN,
    ensures
        *final(state) == (if had_permit {
            *old(state)
        } else {
            old(state).released()
        }),
{
    if !had_permit {
        new_thread_available(state);
    }
}

/// As long as a place is only taken when one is free, and only given back when
/// one was taken, there are never more threads than allowed.
pub proof fn law_threads_stay_within_limit(state: TaskState, parallel: i32)
    requires
        state.within(parallel),
    ensures
        state.threads < parallel ==> state.taken().within(parallel),
        state.threads > 0 ==> state.released().within(parallel),
{
}

/// A place that is taken and given back leaves everything as it was.
pub proof fn law_release_undoes_take(state: TaskState)
    requires
        state.threads < i32::MAX,
    ensures
        state.taken().released() == state,
{
}

/// Where the wait for the end of all threads stands.
#[derive(Clone, Copy, PartialEq, Eq, Structural, Debug)]
pub enum DrainPhase {
    /// Threads may still be at work.
    Poll,
    /// No thread was at work at the last look.
    Confirm,
}

/// One look at the threads.
#[derive(Clone, Copy, PartialEq, Eq, Structural, Debug)]
pub enum DrainStep {
    /// The wait is over: all threads have ended, or the program was stopped.
    Done(bool),
    /// Look again after so many milliseconds.
    Sleep(u64, DrainPhase),
}

/// Waits until no thread is at work at two looks in a row.
pub fn wait_all_thread_done(phase: DrainPhase, state: &TaskState) -> (r: DrainStep)
    ensures
        r == (match phase {
            DrainPhase::Poll => if !state.running {
                DrainStep::Done(false)
            } else if state.threads == 0 {
                DrainStep::Sleep(500, DrainPhase::Confirm)
            } else {
                DrainStep::Sleep(500, DrainPhase::Poll)
            },
            DrainPhase::Confirm => if state.threads == 0 {
                DrainStep::Done(true)
            } else if !state.running {
                DrainStep::Done(false)
            } else {
                DrainStep::Sleep(500, DrainPhase::Poll)
            },
        }),
{
    match phase {
        DrainPhase::Poll => {
            if !is_running(state) {
                DrainStep::Done(false)
            } else if state.threads == 0 {
                DrainStep::Sleep(500, DrainPhase::Confirm)
            } else {
                DrainStep::Sleep(500, DrainPhase::Poll)
            }
        },
        DrainPhase::Confirm => {
            if state.threads == 0 {
                DrainStep::Done(true)
            } else if !is_running(state) {
                DrainStep::Done(false)
            } else {
                DrainStep::Sleep(500, DrainPhase::Poll)
            }
        },
    }
}

/// Taking a place makes one thread more, giving one back makes one less, and
/// neither stops the program or lets it go on.
pub proof fn law_places_are_counted_one_by_one(state: TaskState)
    requires
        i32::MIN < state.threads < i32::MAX,
    ensures
        state.taken().threads == state.threads + 1,
        state.released().threads == state.threads - 1,
        state.taken().running == state.running,
        state.released().running == state.running,
{
}

/// The number of threads is within a limit if it is neither negative nor above
/// it.
pub proof fn law_limit_bounds_the_threads(state: TaskState, parallel: i32)
    ensures
        state.within(parallel) <==> state.threads >= 0 && state.threads <= parallel,
{
}

/// A place is taken if one is free, and only then; a thread that has one goes on
/// if the program does, and one that has none looks again, or gives up once the
/// program has been stopped.
pub proof fn law_waiting_for_a_place(state: &mut TaskState, parallel: i32, r: ThreadWait)
    requires
        call_ensures(wait_available_thread, (state, parallel), r),
    ensures
        final(state).running == old(state).running,
        old(state).threads < parallel ==> {
            &&& final(state).threads == old(state).threads + 1
            &&& r == ThreadWait::Done(old(state).running)
        },
        old(state).threads >= parallel ==> {
            &&& final(state).threads == old(state).threads
            &&& r == (if old(state).running {
                ThreadWait::Sleep(300)
            } else {
                ThreadWait::Done(false)
            })
        },
{
}

/// A task that came without a permit gives its place back when it ends, and one
/// that came with a permit leaves the count alone.
pub proof fn law_task_gives_back_what_it_took(state: &mut TaskState, had_permit: bool)
    requires
        i32::MIN < old(state).threads < i32::MAX,
        call_ensures(task_ended, (state, had_permit), ()),
    ensures
        had_permit ==> *final(state) == *old(state),
        !had_permit ==> final(state).threads == old(state).threads - 1 && final(state).running
            == old(state).running,
{
}

/// The wait for all threads ends well only when none is at work, at two looks in
/// a row; a stopped program ends it.
pub proof fn law_waiting_for_all_threads(phase: DrainPhase, state: TaskState, r: DrainStep)
    requires
        call_ensures(wait_all_thread_done, (phase, &state), r),
    ensures
        r == DrainStep::Done(true) <==> phase is Confirm && state.threads == 0,
        r == DrainStep::Sleep(500, DrainPhase::Confirm) <==> phase is Poll && state.running
            && state.threads == 0,
        r is Sleep ==> state.running,
        !state.running && (phase is Poll || state.threads != 0) ==> r == DrainStep::Done(false),
        state.running && state.threads != 0 ==> r == DrainStep::Sleep(500, DrainPhase::Poll),
{
}

/// The program starts with no thread at work, and has yet to be set going.
pub proof fn law_start(state: TaskState, running: bool)
    requires
        call_ensures(TaskState::new, (), state),
        call_ensures(is_running, (&state,), running),
    ensures
        state.threads == 0,
        !running,
{
}

}
