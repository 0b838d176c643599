//! Killing a process: the checks and the messages around a plain `kill -9`,
//! and the gentler kill of the process that holds a port — `SIGTERM`
//! first, `SIGKILL` only when the process is still alive after a grace
//! period, the pid and port checked again right before each signal.
use vstd::prelude::*;
use crate::text::{decimal, push_decimal, string_from_chars};

verus! {

/// How long a process gets between `SIGTERM` and `SIGKILL`.
pub const GRACE_MS: u64 = 500;

pub open spec fn invalid_pid_text() -> Seq<char> {
    "invalid pid"@
}

pub open spec fn kill_failed_text(pid: u32) -> Seq<char> {
    "kill failed for pid "@ + decimal(pid as nat)
        + " (it may require higher privileges or already exited)"@
}

pub open spec fn not_listening_text(pid: u32, port: u16) -> Seq<char> {
    "pid "@ + decimal(pid as nat) + " is no longer listening on port "@ + decimal(port as nat)
}

fn decimal_string(n: u64) -> (r: String)
    ensures
        r@ == decimal(n as nat),
{
    let mut digits: Vec<char> = Vec::new();
    push_decimal(&mut digits, n);
    assert(digits@ =~= decimal(n as nat));
    string_from_chars(&digits)
}

fn invalid_pid_message() -> (r: String)
    ensures
        r@ == invalid_pid_text(),
{
    String::from_str("invalid pid")
}

fn kill_failed_message(pid: u32) -> (r: String)
    ensures
        r@ == kill_failed_text(pid),
{
    let mut s = String::from_str("kill failed for pid ");
    let digits = decimal_string(pid as u64);
    s.append(digits.as_str());
    s.append(" (it may require higher privileges or already exited)");
    s
}

fn not_listening_message(pid: u32, port: u16) -> (r: String)
    ensures
        r@ == not_listening_text(pid, port),
{
    let mut s = String::from_str("pid ");
    let p = decimal_string(pid as u64);
    s.append(p.as_str());
    s.append(" is no longer listening on port ");
    let q = decimal_string(port as u64);
    s.append(q.as_str());
    s
}

// ---------------------------------------------------------------------
// `kill -9 <pid>`
// ---------------------------------------------------------------------

/// Whether `kill -9` may be run for `pid`: pid 0 would signal the whole
/// process group, so it is refused with "invalid pid".
pub fn kill_pid_precheck(pid: u32) -> (r: Result<(), String>)
    ensures
        pid == 0 <==> r is Err,
        r matches Err(e) ==> e@ == invalid_pid_text(),
{
    if pid == 0 {
        Err(invalid_pid_message())
    } else {
        Ok(())
    }
}

/// What a finished `kill -9 <pid>` means: success, or the error that
/// explains a refusal.
pub fn kill_pid_outcome(pid: u32, exited_successfully: bool) -> (r: Result<(), String>)
    ensures
        exited_successfully <==> r is Ok,
        r matches Err(e) ==> e@ == kill_failed_text(pid),
{
    if exited_successfully {
        Ok(())
    } else {
        Err(kill_failed_message(pid))
    }
}

// ---------------------------------------------------------------------
// Killing the process that holds a port
// ---------------------------------------------------------------------

#[derive(Debug, PartialEq, Eq, Clone, Copy, Structural)]
pub enum Signal {
    Term,
    Kill,
}

/// Where a kill of the process holding a port stands.
#[derive(Debug, PartialEq, Eq, Clone, Copy, Structural)]
pub enum KillPhase {
    /// Waiting to learn whether the pid still listens on the port, before `SIGTERM`.
    CheckBeforeTerm,
    /// `SIGTERM` was handed out; waiting for whether sending it worked.
    TermSent,
    /// Waiting out the grace period.
    Waiting,
    /// Waiting to learn whether the process is still alive.
    CheckingAlive,
    /// Waiting to learn whether the pid still listens on the port, before `SIGKILL`.
    CheckBeforeKill,
    /// `SIGKILL` was handed out; waiting for whether sending it worked.
    KillSent,
    /// Finished.
    Done,
}

/// What the caller is asked to do next.
#[derive(Debug, PartialEq, Eq)]
pub enum KillAction {
    /// Find out whether the pid still listens on the port.
    Revalidate,
    /// Send this signal to the pid.
    Send(Signal),
    /// Sleep this many milliseconds.
    Wait(u64),
    /// Find out whether the process is still alive.
    CheckAlive,
    /// Stop, with this result.
    Finish(Result<(), String>),
}

/// What the caller found out by doing the last action.
#[derive(Debug, PartialEq, Eq, Clone, Copy, Structural)]
pub enum KillEvent {
    /// Whether the pid still listens on the port.
    Listening(bool),
    /// Whether sending the signal succeeded.
    Sent(bool),
    /// The wait is over.
    Waited,
    /// Whether the process is still alive.
    Alive(bool),
}

#[derive(Debug, PartialEq, Eq, Clone, Copy, Structural)]
pub struct KillOnPort {
    pub pid: u32,
    pub port: u16,
    pub phase: KillPhase,
}

/// The abstract form of an action: messages by their characters.
pub enum KillActionView {
    Revalidate,
    Send(Signal),
    Wait(u64),
    CheckAlive,
    Finish(Result<(), Seq<char>>),
}

impl View for KillAction {
    type V = KillActionView;

    open spec fn view(&self) -> KillActionView {
        match self {
            KillAction::Revalidate => KillActionView::Revalidate,
            KillAction::Send(s) => KillActionView::Send(*s),
            KillAction::Wait(ms) => KillActionView::Wait(*ms),
            KillAction::CheckAlive => KillActionView::CheckAlive,
            KillAction::Finish(Ok(())) => KillActionView::Finish(Ok(())),
            KillAction::Finish(Err(e)) => KillActionView::Finish(Err(e@)),
        }
    }
}

/// Whether `event` answers the action that `phase` waits on.
pub open spec fn event_fits(phase: KillPhase, event: KillEvent) -> bool {
    match phase {
        KillPhase::CheckBeforeTerm | KillPhase::CheckBeforeKill => event is Listening,
        KillPhase::TermSent | KillPhase::KillSent => event is Sent,
        KillPhase::Waiting => event is Waited,
        KillPhase::CheckingAlive => event is Alive,
        KillPhase::Done => false,
    }
}

pub open spec fn kill_start_spec(pid: u32, port: u16) -> (KillOnPort, KillActionView) {
    if pid == 0 {
        (
            KillOnPort { pid, port, phase: KillPhase::Done },
            KillActionView::Finish(Err(invalid_pid_text())),
        )
    } else {
        (KillOnPort { pid, port, phase: KillPhase::CheckBeforeTerm }, KillActionView::Revalidate)
    }
}

/// One decision: the phase reached and the action to take, given the
/// answer to the last action.
#[verifier::opaque]
pub open spec fn kill_step_spec(m: KillOnPort, event: KillEvent) -> (KillOnPort, KillActionView) {
    let done = KillOnPort { phase: KillPhase::Done, ..m };
    match (m.phase, event) {
        (KillPhase::CheckBeforeTerm, KillEvent::Listening(true)) => (
            KillOnPort { phase: KillPhase::TermSent, ..m },
            KillActionView::Send(Signal::Term),
        ),
        (KillPhase::CheckBeforeTerm, KillEvent::Listening(false)) => (
            done,
            KillActionView::Finish(Err(not_listening_text(m.pid, m.port))),
        ),
        (KillPhase::TermSent, KillEvent::Sent(true)) => (
            KillOnPort { phase: KillPhase::Waiting, ..m },
            KillActionView::Wait(GRACE_MS),
        ),
        (KillPhase::TermSent, KillEvent::Sent(false)) => (
            done,
            KillActionView::Finish(Err(kill_failed_text(m.pid))),
        ),
        (KillPhase::Waiting, KillEvent::Waited) => (
            KillOnPort { phase: KillPhase::CheckingAlive, ..m },
            KillActionView::CheckAlive,
        ),
        (KillPhase::CheckingAlive, KillEvent::Alive(false)) => (
            done,
            KillActionView::Finish(Ok(())),
        ),
        (KillPhase::CheckingAlive, KillEvent::Alive(true)) => (
            KillOnPort { phase: KillPhase::CheckBeforeKill, ..m },
            KillActionView::Revalidate,
        ),
        (KillPhase::CheckBeforeKill, KillEvent::Listening(true)) => (
            KillOnPort { phase: KillPhase::KillSent, ..m },
            KillActionView::Send(Signal::Kill),
        ),
        (KillPhase::CheckBeforeKill, KillEvent::Listening(false)) => (
            done,
            KillActionView::Finish(Ok(())),
        ),
        (KillPhase::KillSent, KillEvent::Sent(true)) => (done, KillActionView::Finish(Ok(()))),
        (KillPhase::KillSent, KillEvent::Sent(false)) => (
            done,
            KillActionView::Finish(Err(kill_failed_text(m.pid))),
        ),
        _ => arbitrary(),
    }
}

/// Starts killing the process `pid` that holds `port`.
pub fn kill_on_port_start(pid: u32, port: u16) -> (r: (KillOnPort, KillAction))
    ensures
        (r.0, r.1@) == kill_start_spec(pid, port),
{
    if pid == 0 {
        (KillOnPort { pid, port, phase: KillPhase::Done }, KillAction::Finish(Err(invalid_pid_message())))
    } else {
        (KillOnPort { pid, port, phase: KillPhase::CheckBeforeTerm }, KillAction::Revalidate)
    }
}

/// Takes the answer to the last action and decides the next one.
pub fn kill_on_port_step(m: KillOnPort, event: KillEvent) -> (r: (KillOnPort, KillAction))
    requires
        event_fits(m.phase, event),
    ensures
        (r.0, r.1@) == kill_step_spec(m, event),
{
    proof {
        reveal(kill_step_spec);
    }
    let done = KillOnPort { phase: KillPhase::Done, ..m };
    match (m.phase, event) {
        (KillPhase::CheckBeforeTerm, KillEvent::Listening(true)) => (
            KillOnPort { phase: KillPhase::TermSent, ..m },
            KillAction::Send(Signal::Term),
        ),
        (KillPhase::CheckBeforeTerm, KillEvent::Listening(false)) => (
            done,
            KillAction::Finish(Err(not_listening_message(m.pid, m.port))),
        ),
        (KillPhase::TermSent, KillEvent::Sent(true)) => (
            KillOnPort { phase: KillPhase::Waiting, ..m },
            KillAction::Wait(GRACE_MS),
        ),
        (KillPhase::TermSent, KillEvent::Sent(false)) => (
            done,
            KillAction::Finish(Err(kill_failed_message(m.pid))),
        ),
        (KillPhase::Waiting, KillEvent::Waited) => (
            KillOnPort { phase: KillPhase::CheckingAlive, ..m },
            KillAction::CheckAlive,
        ),
        (KillPhase::CheckingAlive, KillEvent::Alive(false)) => (done, KillAction::Finish(Ok(()))),
        (KillPhase::CheckingAlive, KillEvent::Alive(true)) => (
            KillOnPort { phase: KillPhase::CheckBeforeKill, ..m },
            KillAction::Revalidate,
        ),
        (KillPhase::CheckBeforeKill, KillEvent::Listening(true)) => (
            KillOnPort { phase: KillPhase::KillSent, ..m },
            KillAction::Send(Signal::Kill),
        ),
        (KillPhase::CheckBeforeKill, KillEvent::Listening(false)) => (
            done,
            KillAction::Finish(Ok(())),
        ),
        (KillPhase::KillSent, KillEvent::Sent(true)) => (done, KillAction::Finish(Ok(()))),
        (KillPhase::KillSent, KillEvent::Sent(false)) => (
            done,
            KillAction::Finish(Err(kill_failed_message(m.pid))),
        ),
        _ => unreached(),
    }
}

// ---------------------------------------------------------------------
// Runs of the kill
// ---------------------------------------------------------------------

/// The phases and actions that a kill goes through from `m` when its actions
/// are answered with `events`, one per step, as long as they fit.
pub open spec fn kill_run(m: KillOnPort, events: Seq<KillEvent>) -> Seq<(KillOnPort, KillActionView)>
    decreases events.len(),
{
    if events.len() == 0 || !event_fits(m.phase, events[0]) {
        seq![]
    } else {
        let next = kill_step_spec(m, events[0]);
        seq![next] + kill_run(next.0, events.drop_first())
    }
}

/// Every action of a kill of `pid` on `port`: the first one, then one for
/// each answered event (action `i + 1` answers `events[i]`).
pub open spec fn kill_actions(pid: u32, port: u16, events: Seq<KillEvent>) -> Seq<KillActionView> {
    let start = kill_start_spec(pid, port);
    seq![start.1] + kill_run(start.0, events).map_values(|x: (KillOnPort, KillActionView)| x.1)
}

pub open spec fn phase_rank(p: KillPhase) -> int {
    match p {
        KillPhase::CheckBeforeTerm => 0,
        KillPhase::TermSent => 1,
        KillPhase::Waiting => 2,
        KillPhase::CheckingAlive => 3,
        KillPhase::CheckBeforeKill => 4,
        KillPhase::KillSent => 5,
        KillPhase::Done => 6,
    }
}

/// What one step does, phase by phase.
pub proof fn lemma_kill_step_facts(m: KillOnPort, e: KillEvent)
    requires
        event_fits(m.phase, e),
    ensures
        phase_rank(kill_step_spec(m, e).0.phase) > phase_rank(m.phase),
        kill_step_spec(m, e).0.pid == m.pid,
        kill_step_spec(m, e).0.port == m.port,
        kill_step_spec(m, e).1 is Send <==> (m.phase is CheckBeforeTerm || m.phase is CheckBeforeKill)
            && e == KillEvent::Listening(true),
        kill_step_spec(m, e).1 == KillActionView::Send(Signal::Kill) <==> m.phase is CheckBeforeKill
            && e == KillEvent::Listening(true),
        kill_step_spec(m, e).1 == KillActionView::Send(Signal::Term) <==> m.phase is CheckBeforeTerm
            && e == KillEvent::Listening(true),
        kill_step_spec(m, e).1 is Revalidate <==> kill_step_spec(m, e).0.phase is CheckBeforeKill,
        kill_step_spec(m, e).1 is Finish <==> kill_step_spec(m, e).0.phase is Done,
        !(kill_step_spec(m, e).0.phase is CheckBeforeTerm),
        kill_step_spec(m, e).0.phase is CheckBeforeKill ==> m.phase is CheckingAlive && e
            == KillEvent::Alive(true),
        kill_step_spec(m, e).0.phase is CheckingAlive ==> m.phase is Waiting && e is Waited
            && kill_step_spec(m, e).1 == KillActionView::CheckAlive,
        kill_step_spec(m, e).0.phase is Waiting ==> m.phase is TermSent && e == KillEvent::Sent(true)
            && kill_step_spec(m, e).1 == KillActionView::Wait(GRACE_MS),
        kill_step_spec(m, e).0.phase is TermSent ==> m.phase is CheckBeforeTerm && e
            == KillEvent::Listening(true) && kill_step_spec(m, e).1 == KillActionView::Send(
            Signal::Term,
        ),
        kill_step_spec(m, e).0.phase is KillSent ==> kill_step_spec(m, e).1 == KillActionView::Send(
            Signal::Kill,
        ),
        e == KillEvent::Sent(false) ==> kill_step_spec(m, e).1 == KillActionView::Finish(
            Err(kill_failed_text(m.pid)),
        ),
        kill_step_spec(m, e).1 == KillActionView::Finish(Ok(())) ==> (m.phase is CheckingAlive && e
            == KillEvent::Alive(false)) || (m.phase is CheckBeforeKill && e == KillEvent::Listening(
            false,
        )) || (m.phase is KillSent && e == KillEvent::Sent(true)),
{
    reveal(kill_step_spec);
}

proof fn lemma_kill_run_length(m: KillOnPort, events: Seq<KillEvent>)
    ensures
        kill_run(m, events).len() <= 6 - phase_rank(m.phase),
    decreases events.len(),
{
    if events.len() > 0 && event_fits(m.phase, events[0]) {
        lemma_kill_step_facts(m, events[0]);
        lemma_kill_run_length(kill_step_spec(m, events[0]).0, events.drop_first());
    }
}

/// Step `j` of a run is the step from the state the previous step reached.
proof fn lemma_kill_run_index(m: KillOnPort, events: Seq<KillEvent>, j: int)
    requires
        0 <= j < kill_run(m, events).len(),
    ensures
        j < events.len(),
        j == 0 ==> event_fits(m.phase, events[0]) && kill_run(m, events)[0] == kill_step_spec(m, events[0]),
        j > 0 ==> event_fits(kill_run(m, events)[j - 1].0.phase, events[j]) && kill_run(m, events)[j]
            == kill_step_spec(kill_run(m, events)[j - 1].0, events[j]),
    decreases j,
{
    let next = kill_step_spec(m, events[0]);
    let rest = events.drop_first();
    let run = kill_run(m, events);
    let tail = kill_run(next.0, rest);
    assert(run == seq![next] + tail);
    if j > 0 {
        lemma_kill_run_index(next.0, rest, j - 1);
        assert(run[j] == tail[j - 1]);
        assert(events[j] == rest[j - 1]);
        if j > 1 {
            assert(run[j - 1] == tail[j - 2]);
        }
    }
}

proof fn lemma_kill_actions_index(pid: u32, port: u16, events: Seq<KillEvent>, i: int)
    requires
        1 <= i < kill_actions(pid, port, events).len(),
    ensures
        kill_actions(pid, port, events)[i] == kill_run(kill_start_spec(pid, port).0, events)[i - 1].1,
{
}

/// The action before step `j` of a kill, and the state that step starts from.
proof fn lemma_kill_step_at(pid: u32, port: u16, events: Seq<KillEvent>, i: int)
    requires
        1 <= i < kill_actions(pid, port, events).len(),
    ensures
        ({
            let m0 = kill_start_spec(pid, port).0;
            let run = kill_run(m0, events);
            let before = if i == 1 { m0 } else { run[i - 2].0 };
            &&& event_fits(before.phase, events[i - 1])
            &&& run[i - 1] == kill_step_spec(before, events[i - 1])
            &&& kill_actions(pid, port, events)[i] == run[i - 1].1
            &&& i >= 2 ==> kill_actions(pid, port, events)[i - 1] == run[i - 2].1
            &&& i == 1 ==> kill_actions(pid, port, events)[0] == kill_start_spec(pid, port).1
        }),
{
    let m0 = kill_start_spec(pid, port).0;
    lemma_kill_run_index(m0, events, i - 1);
    lemma_kill_actions_index(pid, port, events, i);
    if i >= 2 {
        lemma_kill_actions_index(pid, port, events, i - 1);
    }
}

/// A kill never signals without asking right before whether the pid still
/// listens on the port and hearing that it does.
pub proof fn lemma_signal_follows_revalidation(pid: u32, port: u16, events: Seq<KillEvent>)
    ensures
        forall|i: int|
            0 < i < kill_actions(pid, port, events).len() && #[trigger] kill_actions(pid, port, events)[i] is Send
                ==> kill_actions(pid, port, events)[i - 1] is Revalidate && events[i - 1]
                == KillEvent::Listening(true),
{
    let m0 = kill_start_spec(pid, port).0;
    let run = kill_run(m0, events);
    let acts = kill_actions(pid, port, events);
    assert forall|i: int| 0 < i < acts.len() && #[trigger] acts[i] is Send implies acts[i - 1] is Revalidate
        && events[i - 1] == KillEvent::Listening(true) by {
        lemma_kill_step_at(pid, port, events, i);
        let before = if i == 1 { m0 } else { run[i - 2].0 };
        lemma_kill_step_facts(before, events[i - 1]);
        if i >= 2 {
            lemma_kill_step_at(pid, port, events, i - 1);
            let earlier = if i == 2 { m0 } else { run[i - 3].0 };
            lemma_kill_step_facts(earlier, events[i - 2]);
        }
    }
}

/// `SIGKILL` comes only as the sixth action: after a `SIGTERM` that was sent,
/// the grace period, a check that found the process still alive, and a
/// check that it still listens on the port.
pub proof fn lemma_sigkill_follows_grace(pid: u32, port: u16, events: Seq<KillEvent>)
    ensures
        forall|i: int|
            0 <= i < kill_actions(pid, port, events).len() && #[trigger] kill_actions(pid, port, events)[i]
                == KillActionView::Send(Signal::Kill) ==> {
                &&& i == 5
                &&& kill_actions(pid, port, events)[1] == KillActionView::Send(Signal::Term)
                &&& events[1] == KillEvent::Sent(true)
                &&& kill_actions(pid, port, events)[2] == KillActionView::Wait(GRACE_MS)
                &&& kill_actions(pid, port, events)[3] == KillActionView::CheckAlive
                &&& events[3] == KillEvent::Alive(true)
                &&& kill_actions(pid, port, events)[4] == KillActionView::Revalidate
                &&& events[4] == KillEvent::Listening(true)
            },
{
    let m0 = kill_start_spec(pid, port).0;
    let run = kill_run(m0, events);
    let acts = kill_actions(pid, port, events);
    assert forall|i: int|
        0 <= i < acts.len() && #[trigger] acts[i] == KillActionView::Send(Signal::Kill) implies {
        &&& i == 5
        &&& acts[1] == KillActionView::Send(Signal::Term)
        &&& events[1] == KillEvent::Sent(true)
        &&& acts[2] == KillActionView::Wait(GRACE_MS)
        &&& acts[3] == KillActionView::CheckAlive
        &&& events[3] == KillEvent::Alive(true)
        &&& acts[4] == KillActionView::Revalidate
        &&& events[4] == KillEvent::Listening(true)
    } by {
        assert(i >= 1);
        // step i - 1 sent SIGKILL from CheckBeforeKill
        lemma_kill_step_at(pid, port, events, i);
        let s1 = if i == 1 { m0 } else { run[i - 2].0 };
        lemma_kill_step_facts(s1, events[i - 1]);
        assert(s1.phase is CheckBeforeKill);
        assert(i >= 2);
        lemma_kill_step_at(pid, port, events, i - 1);
        let s2 = if i == 2 { m0 } else { run[i - 3].0 };
        lemma_kill_step_facts(s2, events[i - 2]);
        assert(s2.phase is CheckingAlive);
        assert(i >= 3);
        lemma_kill_step_at(pid, port, events, i - 2);
        let s3 = if i == 3 { m0 } else { run[i - 4].0 };
        lemma_kill_step_facts(s3, events[i - 3]);
        assert(s3.phase is Waiting);
        assert(i >= 4);
        lemma_kill_step_at(pid, port, events, i - 3);
        let s4 = if i == 4 { m0 } else { run[i - 5].0 };
        lemma_kill_step_facts(s4, events[i - 4]);
        assert(s4.phase is TermSent);
        assert(i >= 5);
        lemma_kill_step_at(pid, port, events, i - 4);
        let s5 = if i == 5 { m0 } else { run[i - 6].0 };
        lemma_kill_step_facts(s5, events[i - 5]);
        assert(s5.phase is CheckBeforeTerm);
        if i > 5 {
            lemma_kill_step_at(pid, port, events, i - 5);
            let s6 = if i == 6 { m0 } else { run[i - 7].0 };
            lemma_kill_step_facts(s6, events[i - 6]);
        }
        assert(i == 5);
    }
}

/// A kill takes at most seven actions, and its result comes last.
pub proof fn lemma_kill_finishes(pid: u32, port: u16, events: Seq<KillEvent>)
    ensures
        kill_actions(pid, port, events).len() <= 7,
        forall|i: int|
            0 <= i < kill_actions(pid, port, events).len() - 1 ==> !(
            #[trigger] kill_actions(pid, port, events)[i] is Finish),
{
    let m0 = kill_start_spec(pid, port).0;
    let run = kill_run(m0, events);
    let acts = kill_actions(pid, port, events);
    lemma_kill_run_length(m0, events);
    assert forall|i: int| 0 <= i < acts.len() - 1 implies !(#[trigger] acts[i] is Finish) by {
        lemma_kill_step_at(pid, port, events, i + 1);
        if i >= 1 {
            lemma_kill_step_at(pid, port, events, i);
            let before = if i == 1 { m0 } else { run[i - 2].0 };
            lemma_kill_step_facts(before, events[i - 1]);
        }
    }
}

/// Pid 0 is never signalled: the kill ends at once with "invalid pid".
pub proof fn lemma_pid_zero_never_signalled(port: u16, events: Seq<KillEvent>)
    ensures
        kill_actions(0, port, events) == seq![KillActionView::Finish(Err(invalid_pid_text()))],
{
    let m0 = kill_start_spec(0, port).0;
    assert(kill_run(m0, events) =~= Seq::<(KillOnPort, KillActionView)>::empty());
    assert(kill_actions(0, port, events) =~= seq![KillActionView::Finish(Err(invalid_pid_text()))]);
}

proof fn lemma_kill_run_pid(m: KillOnPort, events: Seq<KillEvent>, j: int)
    requires
        0 <= j < kill_run(m, events).len(),
    ensures
        kill_run(m, events)[j].0.pid == m.pid,
    decreases j,
{
    lemma_kill_run_index(m, events, j);
    if j == 0 {
        lemma_kill_step_facts(m, events[0]);
    } else {
        lemma_kill_run_pid(m, events, j - 1);
        lemma_kill_step_facts(kill_run(m, events)[j - 1].0, events[j]);
    }
}

/// A signal that could not be sent is reported, never passed off as
/// success: whenever the answer to a send is `Sent(false)`, whether of
/// `SIGTERM` or of `SIGKILL`, the kill ends with the "kill failed" error
/// for its pid.
pub proof fn lemma_failed_send_is_reported(pid: u32, port: u16, events: Seq<KillEvent>)
    ensures
        forall|i: int|
            1 <= i < kill_actions(pid, port, events).len() && events[i - 1] == KillEvent::Sent(false)
                ==> #[trigger] kill_actions(pid, port, events)[i] == KillActionView::Finish(
                Err(kill_failed_text(pid)),
            ),
{
    let m0 = kill_start_spec(pid, port).0;
    let run = kill_run(m0, events);
    let acts = kill_actions(pid, port, events);
    assert forall|i: int|
        1 <= i < acts.len() && events[i - 1] == KillEvent::Sent(false) implies #[trigger] acts[i]
        == KillActionView::Finish(Err(kill_failed_text(pid))) by {
        lemma_kill_step_at(pid, port, events, i);
        let before = if i == 1 { m0 } else { run[i - 2].0 };
        lemma_kill_step_facts(before, events[i - 1]);
        if i >= 2 {
            lemma_kill_run_pid(m0, events, i - 2);
        }
    }
}

/// A kill reports success only when the process is gone or has let go of
/// the port: it was found dead after the grace period, or it was found no
/// longer listening right before `SIGKILL`, or `SIGKILL` was sent.
pub proof fn lemma_success_only_when_done(pid: u32, port: u16, events: Seq<KillEvent>)
    ensures
        forall|i: int|
            0 <= i < kill_actions(pid, port, events).len() && #[trigger] kill_actions(pid, port, events)[i]
                == KillActionView::Finish(Ok(())) ==> i >= 1 && ({
                ||| kill_actions(pid, port, events)[i - 1] == KillActionView::CheckAlive
                    && events[i - 1] == KillEvent::Alive(false)
                ||| i >= 2 && kill_actions(pid, port, events)[i - 1] == KillActionView::Revalidate
                    && events[i - 2] == KillEvent::Alive(true) && events[i - 1]
                    == KillEvent::Listening(false)
                ||| kill_actions(pid, port, events)[i - 1] == KillActionView::Send(Signal::Kill)
                    && events[i - 1] == KillEvent::Sent(true)
            }),
{
    let m0 = kill_start_spec(pid, port).0;
    let run = kill_run(m0, events);
    let acts = kill_actions(pid, port, events);
    assert forall|i: int|
        0 <= i < acts.len() && #[trigger] acts[i] == KillActionView::Finish(Ok(())) implies i >= 1 && ({
        ||| acts[i - 1] == KillActionView::CheckAlive && events[i - 1] == KillEvent::Alive(false)
        ||| i >= 2 && acts[i - 1] == KillActionView::Revalidate && events[i - 2] == KillEvent::Alive(
            true,
        ) && events[i - 1] == KillEvent::Listening(false)
        ||| acts[i - 1] == KillActionView::Send(Signal::Kill) && events[i - 1] == KillEvent::Sent(
            true,
        )
    }) by {
        if i == 0 {
            assert(acts[0] == kill_start_spec(pid, port).1);
        } else {
            lemma_kill_step_at(pid, port, events, i);
            let before = if i == 1 { m0 } else { run[i - 2].0 };
            lemma_kill_step_facts(before, events[i - 1]);
            if i >= 2 {
                lemma_kill_step_at(pid, port, events, i - 1);
                let earlier = if i == 2 { m0 } else { run[i - 3].0 };
                lemma_kill_step_facts(earlier, events[i - 2]);
            }
        }
    }
}

} // verus!
