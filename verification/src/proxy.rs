//! The state of the worker thread that runs the proxy.

use vstd::prelude::*;

verus! {

/// What the proxy worker is doing.
#[allow(non_camel_case_types)]
pub enum ThreadState {
    /// Created, not yet running.
    WAITTING,
    /// The proxy is running.
    RUNNING,
    /// The proxy stopped on an error; the text says why.
    ABORT(String),
    /// The worker has exited.
    EXIT,
}

/// The contents of a worker state.
pub enum WorkerPhase {
    Waiting,
    Running,
    Aborted(Seq<char>),
    Exited,
}

impl View for ThreadState {
    type V = WorkerPhase;

    open spec fn view(&self) -> WorkerPhase {
        match self {
            ThreadState::WAITTING => WorkerPhase::Waiting,
            ThreadState::RUNNING => WorkerPhase::Running,
            ThreadState::ABORT(why) => WorkerPhase::Aborted(why@),
            ThreadState::EXIT => WorkerPhase::Exited,
        }
    }
}

/// What the worker reports.
pub enum WorkerEvent {
    /// The worker thread has begun and is about to start the proxy.
    Started,
    /// The proxy returned without an error.
    Finished,
    /// The proxy returned an error.
    Failed,
}

/// The state after `event`: a started worker is running, a failed one
/// is aborted with the reason `proxy close`, and a proxy that returns
/// without an error leaves the state as it was.
pub open spec fn step(p: WorkerPhase, event: WorkerEvent) -> WorkerPhase {
    match event {
        WorkerEvent::Started => WorkerPhase::Running,
        WorkerEvent::Failed => WorkerPhase::Aborted("proxy close"@),
        WorkerEvent::Finished => p,
    }
}

/// The state after the events, in order, starting from `p`.
pub open spec fn run(p: WorkerPhase, events: Seq<WorkerEvent>) -> WorkerPhase
    decreases events.len(),
{
    if events.len() == 0 {
        p
    } else {
        step(run(p, events.drop_last()), events.last())
    }
}

/// The events of one run of the worker: it starts, then the proxy
/// returns, with an error or without.
pub open spec fn worker_events(proxy_ok: bool) -> Seq<WorkerEvent> {
    seq![WorkerEvent::Started, if proxy_ok { WorkerEvent::Finished } else { WorkerEvent::Failed }]
}

impl ThreadState {
    /// The state of a worker that has just been created.
    pub fn initial() -> (s: ThreadState)
        ensures
            s@ == WorkerPhase::Waiting,
    {
        ThreadState::WAITTING
    }

    /// The state after `event`.
    pub fn next(self, event: WorkerEvent) -> (s: ThreadState)
        ensures
            s@ == step(self@, event),
    {
        match event {
            WorkerEvent::Started => ThreadState::RUNNING,
            WorkerEvent::Failed => ThreadState::ABORT("proxy close".to_owned()),
            WorkerEvent::Finished => self,
        }
    }
}

/// Law: one run of the worker goes from waiting to running, and then
/// stays running when the proxy returns without an error, or is aborted
/// with the reason `proxy close` when it returns an error.
pub proof fn lemma_worker_run(proxy_ok: bool)
    ensures
        run(WorkerPhase::Waiting, worker_events(proxy_ok).take(0)) == WorkerPhase::Waiting,
        run(WorkerPhase::Waiting, worker_events(proxy_ok).take(1)) == WorkerPhase::Running,
        run(WorkerPhase::Waiting, worker_events(proxy_ok)) == (if proxy_ok {
            WorkerPhase::Running
        } else {
            WorkerPhase::Aborted("proxy close"@)
        }),
{
    let evs = worker_events(proxy_ok);
    assert(evs.take(0).len() == 0);
    assert(evs.take(1).drop_last() == evs.take(0));
    assert(evs.drop_last() == evs.take(1));
}

/// Law: from waiting, whatever events come, the worker never reaches the
/// exited state; it is aborted only with the reason `proxy close` and
/// only when the last event other than a normal return was a failure;
/// and it is running exactly when that event was a start.
pub proof fn lemma_worker_states(events: Seq<WorkerEvent>)
    ensures
        !(run(WorkerPhase::Waiting, events) is Exited),
        run(WorkerPhase::Waiting, events) is Aborted ==> run(WorkerPhase::Waiting, events)
            == WorkerPhase::Aborted("proxy close"@),
        run(WorkerPhase::Waiting, events) is Aborted <==> last_decisive(events) == Some(
            WorkerEvent::Failed,
        ),
        run(WorkerPhase::Waiting, events) is Running <==> last_decisive(events) == Some(
            WorkerEvent::Started,
        ),
        run(WorkerPhase::Waiting, events) is Waiting <==> last_decisive(events) is None,
    decreases events.len(),
{
    if events.len() > 0 {
        lemma_worker_states(events.drop_last());
    }
}

/// The last event that is not a normal return, if any.
pub open spec fn last_decisive(events: Seq<WorkerEvent>) -> Option<WorkerEvent>
    decreases events.len(),
{
    if events.len() == 0 {
        None
    } else if events.last() is Finished {
        last_decisive(events.drop_last())
    } else {
        Some(events.last())
    }
}

} // verus!
