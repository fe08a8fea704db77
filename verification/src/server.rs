//! What the server decides between its system calls: which connections it takes, when its
//! background work is due, how a connection ends, and what to do with a socket path.
use crate::bytes::bytes_equal;
use crate::protocol::{status, status_response, RESP_ERROR, RESP_OK};
use vstd::prelude::*;

verus! {

/// The number of connections that are served at once by default.
pub const MAX_CONNECTIONS: usize = 256;

/// The number of seconds after which a read from a silent client is given up.
pub const READ_TIMEOUT_SECS: u64 = 30;

/// The number of milliseconds between two looks at the shutdown flag.
pub const ACCEPT_POLL_MS: u64 = 100;

/// The answer to a request for a permit to serve a connection.
#[derive(Debug, Clone, Copy, PartialEq, Eq, Structural)]
pub enum Permit {
    /// The connection may be served.
    Granted,
    /// As many connections as allowed are being served.
    Wait,
    /// The server is shutting down.
    ShuttingDown,
}

/// Keeps the number of connections that are served at once to a maximum: it holds as many permits
/// as further connections may be served.
#[derive(Debug)]
pub struct ConnSemaphore {
    permits: usize,
}

impl ConnSemaphore {
    /// The number of permits that are left.
    pub closed spec fn free(&self) -> nat {
        self.permits as nat
    }

    /// Creates a semaphore that lets `max` connections be served at once.
    pub fn new(max: usize) -> (sem: Self)
        ensures
            sem.free() == max,
    {
        ConnSemaphore { permits: max }
    }

    /// Asks for a permit. A server that is shutting down gives none.
    pub fn acquire_or_shutdown(&mut self, shutdown: bool) -> (permit: Permit)
        ensures
            permit == if shutdown {
                Permit::ShuttingDown
            } else if old(self).free() > 0 {
                Permit::Granted
            } else {
                Permit::Wait
            },
            final(self).free() == if permit == Permit::Granted {
                old(self).free() - 1
            } else {
                old(self).free() as int
            },
    {
        if shutdown {
            return Permit::ShuttingDown;
        }
        if self.permits > 0 {
            self.permits -= 1;
            return Permit::Granted;
        }
        Permit::Wait
    }

    /// Gives a permit back.
    pub fn release(&mut self)
        requires
            old(self).free() < usize::MAX,
        ensures
            final(self).free() == old(self).free() + 1,
    {
        self.permits += 1;
    }
}

/// What happens to the permits: one is asked for, or one is given back.
pub enum PermitEvent {
    Asked { shutdown: bool },
    Released,
}

/// The permits that are left, and those that are held, after some events.
pub open spec fn permits_after(max: nat, events: Seq<PermitEvent>) -> (int, int)
    decreases events.len(),
{
    if events.len() == 0 {
        (max as int, 0)
    } else {
        let (free, held) = permits_after(max, events.drop_last());
        match events.last() {
            PermitEvent::Asked { shutdown } => if !shutdown && free > 0 {
                (free - 1, held + 1)
            } else {
                (free, held)
            },
            PermitEvent::Released => (free + 1, held - 1),
        }
    }
}

/// Whether only permits that are held are given back.
pub open spec fn paired(max: nat, events: Seq<PermitEvent>) -> bool {
    forall|i: int|
        0 <= i < events.len() && events[i] is Released ==> permits_after(
            max,
            #[trigger] events.take(i),
        ).1 > 0
}

/// Never are more connections served than allowed, and no permit is lost: as long as each permit
/// is given back once, those that are left and those that are held are always `max` in all.
pub proof fn law_connections_within_max(max: nat, events: Seq<PermitEvent>)
    requires
        paired(max, events),
    ensures
        permits_after(max, events).0 >= 0,
        0 <= permits_after(max, events).1 <= max,
        permits_after(max, events).0 + permits_after(max, events).1 == max,
    decreases events.len(),
{
    if events.len() > 0 {
        let rest = events.drop_last();
        assert forall|i: int| 0 <= i < rest.len() && rest[i] is Released implies permits_after(
            max,
            #[trigger] rest.take(i),
        ).1 > 0 by {
            assert(rest.take(i) =~= events.take(i));
            assert(events[i] is Released);
        }
        law_connections_within_max(max, rest);
        assert(events.take(events.len() - 1) =~= rest);
    }
}

/// What an accept loop learns next.
#[derive(Debug, Clone, Copy, PartialEq, Eq, Structural)]
pub enum AcceptEvent {
    /// A look at the shutdown flag, between two connections.
    Polled { shutdown: bool },
    /// A connection came in.
    Connected,
    /// No connection is waiting.
    WouldBlock,
    /// Accepting failed.
    Failed,
    /// The answer to a request for a permit for the connection that came in.
    Asked { permit: Permit },
    /// The connection was handed to a thread, or no thread could be had for it.
    Spawned { ok: bool },
}

/// What an accept loop does next.
#[derive(Debug, Clone, Copy, PartialEq, Eq, Structural)]
pub enum AcceptAction {
    /// Look at the shutdown flag.
    Poll,
    /// Accept a connection if one is waiting.
    Accept,
    /// Ask for a permit for the connection that came in.
    AskPermit,
    /// Wait a while for a permit, then ask again.
    AwaitPermit,
    /// Hand the connection to a thread, together with its permit.
    Spawn,
    /// Sleep, then look at the shutdown flag. Report an error first if there was one.
    Pause { report: bool },
    /// Report that no thread could be had, and look at the shutdown flag.
    ReportSpawn,
    /// End the loop.
    Stop,
}

/// The next action of an accept loop. The loop ends exactly when the server is shutting down:
/// neither a failed accept nor a missing thread ends it.
pub fn next_accept(event: AcceptEvent) -> (action: AcceptAction)
    ensures
        action == match event {
            AcceptEvent::Polled { shutdown: true } => AcceptAction::Stop,
            AcceptEvent::Polled { shutdown: false } => AcceptAction::Accept,
            AcceptEvent::Connected => AcceptAction::AskPermit,
            AcceptEvent::WouldBlock => AcceptAction::Pause { report: false },
            AcceptEvent::Failed => AcceptAction::Pause { report: true },
            AcceptEvent::Asked { permit: Permit::Granted } => AcceptAction::Spawn,
            AcceptEvent::Asked { permit: Permit::Wait } => AcceptAction::AwaitPermit,
            AcceptEvent::Asked { permit: Permit::ShuttingDown } => AcceptAction::Stop,
            AcceptEvent::Spawned { ok: true } => AcceptAction::Poll,
            AcceptEvent::Spawned { ok: false } => AcceptAction::ReportSpawn,
        },
        action == AcceptAction::Stop <==> event == (AcceptEvent::Polled { shutdown: true })
            || event == (AcceptEvent::Asked { permit: Permit::ShuttingDown }),
{
    match event {
        AcceptEvent::Polled { shutdown } => if shutdown {
            AcceptAction::Stop
        } else {
            AcceptAction::Accept
        },
        AcceptEvent::Connected => AcceptAction::AskPermit,
        AcceptEvent::WouldBlock => AcceptAction::Pause { report: false },
        AcceptEvent::Failed => AcceptAction::Pause { report: true },
        AcceptEvent::Asked { permit } => match permit {
            Permit::Granted => AcceptAction::Spawn,
            Permit::Wait => AcceptAction::AwaitPermit,
            Permit::ShuttingDown => AcceptAction::Stop,
        },
        AcceptEvent::Spawned { ok } => if ok {
            AcceptAction::Poll
        } else {
            AcceptAction::ReportSpawn
        },
    }
}

/// Why no further request could be read from a client.
#[derive(Debug, Clone, Copy, PartialEq, Eq, Structural)]
pub enum ReadFailure {
    /// The client closed the connection.
    UnexpectedEof,
    /// The connection was reset.
    ConnectionReset,
    /// The client was silent for too long.
    TimedOut,
    /// The client was silent for too long, as some systems report it.
    WouldBlock,
    /// Anything else, such as a frame that is too long.
    Other,
}

/// What is sent to a client before its connection is closed because no further request could be
/// read: nothing where it went away or was silent, else the error status.
pub fn farewell(failure: ReadFailure) -> (reply: Option<Vec<u8>>)
    ensures
        reply is Some <==> failure == ReadFailure::Other,
        reply matches Some(bytes) ==> bytes@ == status(RESP_ERROR),
{
    match failure {
        ReadFailure::Other => Some(status_response(RESP_ERROR)),
        _ => None,
    }
}

/// What stands at the path where the server wants to bind its socket.
#[derive(Debug, Clone, Copy, PartialEq, Eq, Structural)]
pub enum PathState {
    /// Nothing.
    Missing,
    /// A socket, which a server answers on or not.
    Socket { live: bool },
    /// Something else.
    NotSocket,
}

/// What to do about a socket path.
#[derive(Debug, Clone, Copy, PartialEq, Eq, Structural)]
pub enum BindPlan {
    /// Bind.
    Bind,
    /// Remove the stale socket, then bind.
    RemoveAndBind,
    /// Fail: another server is using the path.
    RefuseLive,
    /// Fail: what stands there is not a socket.
    RefuseNotSocket,
}

/// Decides what to do about a socket path. Only a socket that nobody answers on is removed: never
/// another server's socket, and never a file of another kind.
pub fn plan_bind(found: PathState) -> (plan: BindPlan)
    ensures
        plan == match found {
            PathState::Missing => BindPlan::Bind,
            PathState::Socket { live: true } => BindPlan::RefuseLive,
            PathState::Socket { live: false } => BindPlan::RemoveAndBind,
            PathState::NotSocket => BindPlan::RefuseNotSocket,
        },
        plan == BindPlan::RemoveAndBind <==> found == (PathState::Socket { live: false }),
{
    match found {
        PathState::Missing => BindPlan::Bind,
        PathState::Socket { live } => if live {
            BindPlan::RefuseLive
        } else {
            BindPlan::RemoveAndBind
        },
        PathState::NotSocket => BindPlan::RefuseNotSocket,
    }
}

/// The exit code of the health check, from the response to a PING (`None` where there was none):
/// 0 for exactly the OK status, else 1.
pub fn ping_exit_code(response: Option<&[u8]>) -> (code: i32)
    ensures
        code == match response {
            Some(bytes) => if bytes@ == status(RESP_OK) {
                0i32
            } else {
                1i32
            },
            None => 1i32,
        },
{
    match response {
        Some(bytes) => {
            let ok = status_response(RESP_OK);
            if bytes_equal(bytes, ok.as_slice()) {
                0
            } else {
                1
            }
        },
        None => 1,
    }
}

/// What a background task does next.
#[derive(Debug, Clone, Copy, PartialEq, Eq, Structural)]
pub enum TaskAction {
    /// Sleep for a second.
    SleepSecond,
    /// Do the work.
    Run,
    /// End.
    Stop,
}

/// A task that runs every so many seconds, and looks at the shutdown flag every second.
#[derive(Debug)]
pub struct PeriodicTask {
    interval_secs: u64,
    remaining_secs: u64,
}

impl PeriodicTask {
    /// The number of seconds between two runs.
    pub closed spec fn interval(&self) -> nat {
        self.interval_secs as nat
    }

    /// The number of seconds that are left until the next run.
    pub closed spec fn remaining(&self) -> nat {
        self.remaining_secs as nat
    }

    /// Starts a task, or returns `None` where the interval is 0: then it is disabled.
    pub fn start(interval_secs: u64) -> (task: Option<PeriodicTask>)
        ensures
            task is Some <==> interval_secs > 0,
            task matches Some(task) ==> task.interval() == interval_secs && task.remaining()
                == interval_secs,
    {
        if interval_secs == 0 {
            return None;
        }
        Some(PeriodicTask { interval_secs, remaining_secs: interval_secs })
    }

    /// The next action, given whether the server is shutting down.
    pub fn next(&mut self, shutdown: bool) -> (action: TaskAction)
        ensures
            final(self).interval() == old(self).interval(),
            (action, final(self).remaining()) == next_action(
                old(self).interval(),
                old(self).remaining(),
                shutdown,
            ),
    {
        if shutdown {
            return TaskAction::Stop;
        }
        if self.remaining_secs == 0 {
            self.remaining_secs = self.interval_secs;
            return TaskAction::Run;
        }
        self.remaining_secs -= 1;
        TaskAction::SleepSecond
    }
}

/// The next action of a task with so many seconds left, and the seconds left after it.
pub open spec fn next_action(interval: nat, remaining: nat, shutdown: bool) -> (TaskAction, nat) {
    if shutdown {
        (TaskAction::Stop, remaining)
    } else if remaining == 0 {
        (TaskAction::Run, interval)
    } else {
        (TaskAction::SleepSecond, (remaining - 1) as nat)
    }
}

/// The seconds left after `n` actions of a task that has just been started, with no shutdown.
pub open spec fn left_after(interval: nat, n: nat) -> nat
    decreases n,
{
    if n == 0 {
        interval
    } else {
        next_action(interval, left_after(interval, (n - 1) as nat), false).1
    }
}

/// A task runs after exactly as many seconds of sleep as its interval has, again and again: of
/// its actions, every one that ends a round of `interval` sleeps is a run, and no other.
pub proof fn law_runs_every_interval(interval: nat, n: nat)
    ensures
        left_after(interval, n) == interval - n % (interval + 1),
        next_action(interval, left_after(interval, n), false).0 == if n % (interval + 1)
            == interval {
            TaskAction::Run
        } else {
            TaskAction::SleepSecond
        },
    decreases n,
{
    let round = interval + 1;
    if n > 0 {
        law_runs_every_interval(interval, (n - 1) as nat);
        let r = (n - 1) % (round as int);
        vstd::arithmetic::div_mod::lemma_fundamental_div_mod(n - 1, round as int);
        let q = (n - 1) / (round as int);
        if r == interval {
            assert(n == round * (q + 1)) by (nonlinear_arith)
                requires
                    n - 1 == round * q + r,
                    r + 1 == round,
            ;
            vstd::arithmetic::div_mod::lemma_fundamental_div_mod_converse(
                n as int,
                round as int,
                q + 1,
                0,
            );
        } else {
            vstd::arithmetic::div_mod::lemma_fundamental_div_mod_converse(
                n as int,
                round as int,
                q,
                r + 1,
            );
        }
    } else {
        vstd::arithmetic::div_mod::lemma_small_mod(0, round);
    }
}

} // verus!
