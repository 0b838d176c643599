//! Bringing the app that owns a process to the front. Listening processes
//! are often windowless children (node, vite…), so the walk goes up the
//! parent chain until it meets a pid that belongs to an app with windows.
use vstd::prelude::*;

verus! {

/// How many pids of the parent chain are looked up at most.
pub const MAX_LOOKUPS: u32 = 10;

/// The activation policy of a background daemon (no windows to show).
pub const POLICY_PROHIBITED: i64 = 2;

pub open spec fn no_app_text() -> Seq<char> {
    "no app with windows found for this process"@
}

#[derive(Debug, PartialEq, Eq, Clone, Copy, Structural)]
pub enum FocusPhase {
    /// Waiting for what the lookup of the current pid found.
    LookingUp,
    /// Waiting for the parent of the current pid.
    AwaitingParent,
    /// Finished.
    Done,
}

#[derive(Debug, PartialEq, Eq, Clone, Copy, Structural)]
pub struct FocusWalk {
    /// The pid looked up last.
    pub current: u32,
    /// How many pids have been looked up so far.
    pub lookups: u32,
    pub phase: FocusPhase,
}

/// What the caller is asked to do next.
#[derive(Debug, PartialEq, Eq)]
pub enum FocusAction {
    /// Look up the running app of this pid.
    LookUp(u32),
    /// Activate the app of this pid; the walk ends with success.
    Activate(u32),
    /// Find the parent pid of this pid.
    FindParent(u32),
    /// Stop, with this result.
    Finish(Result<(), String>),
}

/// What the caller found out by doing the last action.
#[derive(Debug, PartialEq, Eq, Clone, Copy, Structural)]
pub enum FocusEvent {
    /// The pid belongs to no running app.
    NoApp,
    /// The pid belongs to a running app with this activation policy.
    App(i64),
    /// The parent pid, if there is one.
    Parent(Option<u32>),
}

pub enum FocusActionView {
    LookUp(u32),
    Activate(u32),
    FindParent(u32),
    Finish(Result<(), Seq<char>>),
}

impl View for FocusAction {
    type V = FocusActionView;

    open spec fn view(&self) -> FocusActionView {
        match self {
            FocusAction::LookUp(p) => FocusActionView::LookUp(*p),
            FocusAction::Activate(p) => FocusActionView::Activate(*p),
            FocusAction::FindParent(p) => FocusActionView::FindParent(*p),
            FocusAction::Finish(Ok(())) => FocusActionView::Finish(Ok(())),
            FocusAction::Finish(Err(e)) => FocusActionView::Finish(Err(e@)),
        }
    }
}

/// A walk that has looked up between 1 and `MAX_LOOKUPS` pids.
pub open spec fn walk_wf(w: FocusWalk) -> bool {
    1 <= w.lookups <= MAX_LOOKUPS
}

/// Whether `event` answers the action that `phase` waits on.
pub open spec fn focus_event_fits(phase: FocusPhase, event: FocusEvent) -> bool {
    match phase {
        FocusPhase::LookingUp => event is NoApp || event is App,
        FocusPhase::AwaitingParent => event is Parent,
        FocusPhase::Done => false,
    }
}

pub open spec fn focus_start_spec(pid: u32) -> (FocusWalk, FocusActionView) {
    (FocusWalk { current: pid, lookups: 1, phase: FocusPhase::LookingUp }, FocusActionView::LookUp(pid))
}

/// One decision: an app that may be shown is activated; otherwise the walk
/// moves to the parent, until the chain ends or `MAX_LOOKUPS` pids were
/// looked up.
#[verifier::opaque]
pub open spec fn focus_step_spec(w: FocusWalk, event: FocusEvent) -> (FocusWalk, FocusActionView) {
    let done = FocusWalk { phase: FocusPhase::Done, ..w };
    match (w.phase, event) {
        (FocusPhase::LookingUp, FocusEvent::App(policy)) => if policy != POLICY_PROHIBITED {
            (done, FocusActionView::Activate(w.current))
        } else {
            (FocusWalk { phase: FocusPhase::AwaitingParent, ..w }, FocusActionView::FindParent(w.current))
        },
        (FocusPhase::LookingUp, FocusEvent::NoApp) => (
            FocusWalk { phase: FocusPhase::AwaitingParent, ..w },
            FocusActionView::FindParent(w.current),
        ),
        (FocusPhase::AwaitingParent, FocusEvent::Parent(Some(parent))) => if w.lookups < MAX_LOOKUPS {
            (
                FocusWalk { current: parent, lookups: (w.lookups + 1) as u32, phase: FocusPhase::LookingUp },
                FocusActionView::LookUp(parent),
            )
        } else {
            (done, FocusActionView::Finish(Err(no_app_text())))
        },
        (FocusPhase::AwaitingParent, FocusEvent::Parent(None)) => (
            done,
            FocusActionView::Finish(Err(no_app_text())),
        ),
        _ => arbitrary(),
    }
}

/// Starts the walk at `pid`.
pub fn focus_start(pid: u32) -> (r: (FocusWalk, FocusAction))
    ensures
        (r.0, r.1@) == focus_start_spec(pid),
        walk_wf(r.0),
{
    (FocusWalk { current: pid, lookups: 1, phase: FocusPhase::LookingUp }, FocusAction::LookUp(pid))
}

/// Takes the answer to the last action and decides the next one.
pub fn focus_step(w: FocusWalk, event: FocusEvent) -> (r: (FocusWalk, FocusAction))
    requires
        walk_wf(w),
        focus_event_fits(w.phase, event),
    ensures
        (r.0, r.1@) == focus_step_spec(w, event),
        walk_wf(r.0),
{
    proof {
        reveal(focus_step_spec);
    }
    let done = FocusWalk { phase: FocusPhase::Done, ..w };
    match (w.phase, event) {
        (FocusPhase::LookingUp, FocusEvent::App(policy)) => if policy != POLICY_PROHIBITED {
            (done, FocusAction::Activate(w.current))
        } else {
            (FocusWalk { phase: FocusPhase::AwaitingParent, ..w }, FocusAction::FindParent(w.current))
        },
        (FocusPhase::LookingUp, FocusEvent::NoApp) => (
            FocusWalk { phase: FocusPhase::AwaitingParent, ..w },
            FocusAction::FindParent(w.current),
        ),
        (FocusPhase::AwaitingParent, FocusEvent::Parent(Some(parent))) => if w.lookups < MAX_LOOKUPS {
            (
                FocusWalk { current: parent, lookups: w.lookups + 1, phase: FocusPhase::LookingUp },
                FocusAction::LookUp(parent),
            )
        } else {
            (done, FocusAction::Finish(Err(String::from_str("no app with windows found for this process"))))
        },
        (FocusPhase::AwaitingParent, FocusEvent::Parent(None)) => (
            done,
            FocusAction::Finish(Err(String::from_str("no app with windows found for this process"))),
        ),
        _ => unreached(),
    }
}

// ---------------------------------------------------------------------
// Runs of the walk
// ---------------------------------------------------------------------

/// What one step does.
pub proof fn lemma_focus_step_facts(w: FocusWalk, e: FocusEvent)
    requires
        walk_wf(w),
        focus_event_fits(w.phase, e),
    ensures
        walk_wf(focus_step_spec(w, e).0),
        focus_step_spec(w, e).1 is LookUp ==> focus_step_spec(w, e).0.lookups == w.lookups + 1,
        !(focus_step_spec(w, e).1 is LookUp) ==> focus_step_spec(w, e).0.lookups == w.lookups,
        focus_step_spec(w, e).0.phase is LookingUp <==> focus_step_spec(w, e).1 is LookUp,
        focus_step_spec(w, e).0.phase is LookingUp ==> focus_step_spec(w, e).1
            == FocusActionView::LookUp(focus_step_spec(w, e).0.current),
        focus_step_spec(w, e).1 is Activate ==> w.phase is LookingUp && focus_step_spec(w, e).1
            == FocusActionView::Activate(w.current) && (e matches FocusEvent::App(policy)
            && policy != POLICY_PROHIBITED),
        focus_step_spec(w, e).0.phase is Done <==> (focus_step_spec(w, e).1 is Activate
            || focus_step_spec(w, e).1 is Finish),
        (w.phase is LookingUp && (e matches FocusEvent::App(policy) && policy != POLICY_PROHIBITED))
            ==> focus_step_spec(w, e).1 == FocusActionView::Activate(w.current)
            && focus_step_spec(w, e).0.phase is Done,
{
    reveal(focus_step_spec);
}

/// The walks and actions that a focus walk goes through from `w` when its
/// actions are answered with `events`, one per step, as long as they fit.
pub open spec fn focus_run(w: FocusWalk, events: Seq<FocusEvent>) -> Seq<(FocusWalk, FocusActionView)>
    decreases events.len(),
{
    if events.len() == 0 || !focus_event_fits(w.phase, events[0]) {
        seq![]
    } else {
        let next = focus_step_spec(w, events[0]);
        seq![next] + focus_run(next.0, events.drop_first())
    }
}

/// Every action of a walk from `pid`: the first lookup, then one for each
/// answered event (action `i + 1` answers `events[i]`).
pub open spec fn focus_actions(pid: u32, events: Seq<FocusEvent>) -> Seq<FocusActionView> {
    let start = focus_start_spec(pid);
    seq![start.1] + focus_run(start.0, events).map_values(|x: (FocusWalk, FocusActionView)| x.1)
}

/// How many lookups a sequence of actions asks for.
pub open spec fn lookup_count(acts: Seq<FocusActionView>) -> nat
    decreases acts.len(),
{
    if acts.len() == 0 {
        0
    } else {
        lookup_count(acts.drop_last()) + if acts.last() is LookUp {
            1nat
        } else {
            0nat
        }
    }
}

proof fn lemma_lookup_count_prepend(a: FocusActionView, acts: Seq<FocusActionView>)
    ensures
        lookup_count(seq![a] + acts) == lookup_count(acts) + if a is LookUp {
            1nat
        } else {
            0nat
        },
    decreases acts.len(),
{
    let whole = seq![a] + acts;
    if acts.len() > 0 {
        assert(whole.drop_last() =~= seq![a] + acts.drop_last());
        assert(whole.last() == acts.last());
        lemma_lookup_count_prepend(a, acts.drop_last());
    } else {
        assert(whole.drop_last() =~= Seq::<FocusActionView>::empty());
        assert(whole.last() == a);
        assert(lookup_count(Seq::<FocusActionView>::empty()) == 0);
        assert(lookup_count(acts) == 0);
    }
}

proof fn lemma_focus_run_lookups(w: FocusWalk, events: Seq<FocusEvent>)
    requires
        walk_wf(w),
    ensures
        lookup_count(focus_run(w, events).map_values(|x: (FocusWalk, FocusActionView)| x.1))
            + w.lookups <= MAX_LOOKUPS,
    decreases events.len(),
{
    let acts = focus_run(w, events).map_values(|x: (FocusWalk, FocusActionView)| x.1);
    if events.len() > 0 && focus_event_fits(w.phase, events[0]) {
        let next = focus_step_spec(w, events[0]);
        let rest = events.drop_first();
        lemma_focus_step_facts(w, events[0]);
        lemma_focus_run_lookups(next.0, rest);
        let tail = focus_run(next.0, rest).map_values(|x: (FocusWalk, FocusActionView)| x.1);
        assert(acts =~= seq![next.1] + tail);
        lemma_lookup_count_prepend(next.1, tail);
    } else {
        assert(acts =~= Seq::<FocusActionView>::empty());
    }
}

/// A walk looks up at most `MAX_LOOKUPS` pids, however the lookups go.
pub proof fn lemma_walk_looks_up_at_most_ten(pid: u32, events: Seq<FocusEvent>)
    ensures
        lookup_count(focus_actions(pid, events)) <= MAX_LOOKUPS,
{
    let start = focus_start_spec(pid);
    let tail = focus_run(start.0, events).map_values(|x: (FocusWalk, FocusActionView)| x.1);
    lemma_focus_run_lookups(start.0, events);
    lemma_lookup_count_prepend(start.1, tail);
}

proof fn lemma_focus_run_index(w: FocusWalk, events: Seq<FocusEvent>, j: int)
    requires
        0 <= j < focus_run(w, events).len(),
    ensures
        j < events.len(),
        j == 0 ==> focus_event_fits(w.phase, events[0]) && focus_run(w, events)[0]
            == focus_step_spec(w, events[0]),
        j > 0 ==> focus_event_fits(focus_run(w, events)[j - 1].0.phase, events[j]) && focus_run(
            w,
            events,
        )[j] == focus_step_spec(focus_run(w, events)[j - 1].0, events[j]),
    decreases j,
{
    let next = focus_step_spec(w, events[0]);
    let rest = events.drop_first();
    let run = focus_run(w, events);
    let tail = focus_run(next.0, rest);
    assert(run == seq![next] + tail);
    if j > 0 {
        lemma_focus_run_index(next.0, rest, j - 1);
        assert(run[j] == tail[j - 1]);
        assert(events[j] == rest[j - 1]);
        if j > 1 {
            assert(run[j - 1] == tail[j - 2]);
        }
    }
}

proof fn lemma_focus_run_wf(w: FocusWalk, events: Seq<FocusEvent>, j: int)
    requires
        walk_wf(w),
        0 <= j < focus_run(w, events).len(),
    ensures
        walk_wf(focus_run(w, events)[j].0),
    decreases j,
{
    lemma_focus_run_index(w, events, j);
    if j == 0 {
        lemma_focus_step_facts(w, events[0]);
    } else {
        lemma_focus_run_wf(w, events, j - 1);
        lemma_focus_step_facts(focus_run(w, events)[j - 1].0, events[j]);
    }
}

/// A walk activates only the app of a pid it has just looked up, and only
/// when that lookup found an app that is not a background daemon.
pub proof fn lemma_activation_follows_lookup(pid: u32, events: Seq<FocusEvent>)
    ensures
        forall|i: int|
            0 <= i < focus_actions(pid, events).len() && #[trigger] focus_actions(pid, events)[i] is Activate
                ==> i >= 1 && focus_actions(pid, events)[i - 1] == FocusActionView::LookUp(
                focus_actions(pid, events)[i]->Activate_0,
            ) && (events[i - 1] matches FocusEvent::App(policy) && policy != POLICY_PROHIBITED),
{
    let start = focus_start_spec(pid);
    let w0 = start.0;
    let run = focus_run(w0, events);
    let acts = focus_actions(pid, events);
    assert forall|i: int| 0 <= i < acts.len() && #[trigger] acts[i] is Activate implies i >= 1
        && acts[i - 1] == FocusActionView::LookUp(acts[i]->Activate_0) && (
    events[i - 1] matches FocusEvent::App(policy) && policy != POLICY_PROHIBITED) by {
        assert(i >= 1);
        assert(acts[i] == run[i - 1].1);
        lemma_focus_run_index(w0, events, i - 1);
        let before = if i == 1 { w0 } else { run[i - 2].0 };
        if i >= 2 {
            lemma_focus_run_wf(w0, events, i - 2);
            lemma_focus_run_index(w0, events, i - 2);
            assert(acts[i - 1] == run[i - 2].1);
            let earlier = if i == 2 { w0 } else { run[i - 3].0 };
            if i >= 3 {
                lemma_focus_run_wf(w0, events, i - 3);
            }
            lemma_focus_step_facts(earlier, events[i - 2]);
        }
        lemma_focus_step_facts(before, events[i - 1]);
    }
}

/// A run stops only where the next event does not fit.
proof fn lemma_focus_run_stops(w: FocusWalk, events: Seq<FocusEvent>)
    requires
        focus_run(w, events).len() < events.len(),
    ensures
        !focus_event_fits(
            if focus_run(w, events).len() == 0 {
                w
            } else {
                focus_run(w, events).last().0
            }.phase,
            events[focus_run(w, events).len() as int],
        ),
    decreases events.len(),
{
    let run = focus_run(w, events);
    if events.len() > 0 && focus_event_fits(w.phase, events[0]) {
        let next = focus_step_spec(w, events[0]);
        let rest = events.drop_first();
        let tail = focus_run(next.0, rest);
        assert(run == seq![next] + tail);
        lemma_focus_run_stops(next.0, rest);
        if tail.len() > 0 {
            assert(run.last() == tail.last());
        }
        assert(events[run.len() as int] == rest[run.len() - 1]);
    }
}

/// A pid whose lookup finds an app that is not a background daemon gets
/// that app activated: whatever the activation policy (regular, accessory,
/// anything but prohibited), the next action activates the looked-up pid
/// and it is the last action of the walk.
pub proof fn lemma_windowed_app_is_activated(pid: u32, events: Seq<FocusEvent>)
    ensures
        forall|i: int|
            0 <= i < focus_actions(pid, events).len() && i < events.len() && (
            #[trigger] focus_actions(pid, events)[i] is LookUp) && (events[i] matches FocusEvent::App(
                policy,
            ) && policy != POLICY_PROHIBITED) ==> focus_actions(pid, events).len() == i + 2
                && focus_actions(pid, events)[i + 1] == FocusActionView::Activate(
                focus_actions(pid, events)[i]->LookUp_0,
            ),
{
    let start = focus_start_spec(pid);
    let w0 = start.0;
    let run = focus_run(w0, events);
    let acts = focus_actions(pid, events);
    assert forall|i: int|
        0 <= i < acts.len() && i < events.len() && (#[trigger] acts[i] is LookUp) && (
        events[i] matches FocusEvent::App(policy) && policy != POLICY_PROHIBITED) implies acts.len()
        == i + 2 && acts[i + 1] == FocusActionView::Activate(acts[i]->LookUp_0) by {
        // the walk before step `i` is looking up the pid that action `i` names
        let before = if i == 0 { w0 } else { run[i - 1].0 };
        if i >= 1 {
            assert(acts[i] == run[i - 1].1);
            lemma_focus_run_index(w0, events, i - 1);
            lemma_focus_run_wf(w0, events, i - 1);
            let earlier = if i == 1 { w0 } else { run[i - 2].0 };
            if i >= 2 {
                lemma_focus_run_wf(w0, events, i - 2);
            }
            lemma_focus_step_facts(earlier, events[i - 1]);
        }
        assert(walk_wf(before));
        assert(before.phase is LookingUp);
        assert(acts[i] == FocusActionView::LookUp(before.current));
        // so step `i` is taken, and activates it
        if run.len() <= i {
            assert(run.len() == i);
            lemma_focus_run_stops(w0, events);
            assert(false);
        }
        lemma_focus_run_index(w0, events, i);
        lemma_focus_step_facts(before, events[i]);
        assert(acts[i + 1] == run[i].1);
        // and nothing follows it
        if run.len() > i + 1 {
            lemma_focus_run_index(w0, events, i + 1);
        }
    }
}

} // verus!
