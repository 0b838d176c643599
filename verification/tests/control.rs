use portkill::focus::{focus_start, focus_step, FocusAction, FocusEvent, FocusPhase, MAX_LOOKUPS};
use portkill::kill::{
    kill_on_port_start, kill_on_port_step, kill_pid_outcome, kill_pid_precheck, KillAction,
    KillEvent, KillPhase, Signal, GRACE_MS,
};
use portkill::panel::{
    hidden_within_guard, now_ms, recently_hidden, should_auto_hide, toggle_action, ToggleAction,
};

#[test]
fn kill_pid_zero_is_invalid() {
    assert_eq!(kill_pid_precheck(0), Err("invalid pid".to_string()));
    assert_eq!(kill_pid_precheck(1234), Ok(()));
}

#[test]
fn kill_pid_outcome_messages() {
    assert_eq!(kill_pid_outcome(42, true), Ok(()));
    assert_eq!(
        kill_pid_outcome(42, false),
        Err("kill failed for pid 42 (it may require higher privileges or already exited)".to_string())
    );
}

#[test]
fn kill_on_port_process_exits_after_sigterm() {
    let (m, a) = kill_on_port_start(500, 3000);
    assert_eq!(a, KillAction::Revalidate);
    let (m, a) = kill_on_port_step(m, KillEvent::Listening(true));
    assert_eq!(a, KillAction::Send(Signal::Term));
    let (m, a) = kill_on_port_step(m, KillEvent::Sent(true));
    assert_eq!(a, KillAction::Wait(GRACE_MS));
    assert_eq!(GRACE_MS, 500);
    let (m, a) = kill_on_port_step(m, KillEvent::Waited);
    assert_eq!(a, KillAction::CheckAlive);
    let (m, a) = kill_on_port_step(m, KillEvent::Alive(false));
    assert_eq!(a, KillAction::Finish(Ok(())));
    assert_eq!(m.phase, KillPhase::Done);
}

#[test]
fn kill_on_port_escalates_to_sigkill() {
    let (m, _) = kill_on_port_start(500, 3000);
    let (m, _) = kill_on_port_step(m, KillEvent::Listening(true));
    let (m, _) = kill_on_port_step(m, KillEvent::Sent(true));
    let (m, _) = kill_on_port_step(m, KillEvent::Waited);
    let (m, a) = kill_on_port_step(m, KillEvent::Alive(true));
    assert_eq!(a, KillAction::Revalidate);
    let (m, a) = kill_on_port_step(m, KillEvent::Listening(true));
    assert_eq!(a, KillAction::Send(Signal::Kill));
    let (m, a) = kill_on_port_step(m, KillEvent::Sent(true));
    assert_eq!(a, KillAction::Finish(Ok(())));
    assert_eq!(m.phase, KillPhase::Done);
}

#[test]
fn kill_on_port_refuses_when_pid_left_the_port() {
    let (m, _) = kill_on_port_start(500, 3000);
    let (m, a) = kill_on_port_step(m, KillEvent::Listening(false));
    assert_eq!(
        a,
        KillAction::Finish(Err("pid 500 is no longer listening on port 3000".to_string()))
    );
    assert_eq!(m.phase, KillPhase::Done);
}

#[test]
fn kill_on_port_no_sigkill_when_port_freed() {
    let (m, _) = kill_on_port_start(500, 3000);
    let (m, _) = kill_on_port_step(m, KillEvent::Listening(true));
    let (m, _) = kill_on_port_step(m, KillEvent::Sent(true));
    let (m, _) = kill_on_port_step(m, KillEvent::Waited);
    let (m, _) = kill_on_port_step(m, KillEvent::Alive(true));
    let (_, a) = kill_on_port_step(m, KillEvent::Listening(false));
    assert_eq!(a, KillAction::Finish(Ok(())));
}

#[test]
fn kill_on_port_signal_failures_report() {
    let (m, _) = kill_on_port_start(77, 80);
    let (_, a) = kill_on_port_step(m, KillEvent::Listening(true));
    assert_eq!(a, KillAction::Send(Signal::Term));
    let (m, _) = kill_on_port_start(77, 80);
    let (m, _) = kill_on_port_step(m, KillEvent::Listening(true));
    let (_, a) = kill_on_port_step(m, KillEvent::Sent(false));
    assert_eq!(
        a,
        KillAction::Finish(Err(
            "kill failed for pid 77 (it may require higher privileges or already exited)".to_string()
        ))
    );
}

#[test]
fn kill_on_port_pid_zero() {
    let (m, a) = kill_on_port_start(0, 80);
    assert_eq!(a, KillAction::Finish(Err("invalid pid".to_string())));
    assert_eq!(m.phase, KillPhase::Done);
}

#[test]
fn focus_activates_first_app_with_windows() {
    let (w, a) = focus_start(900);
    assert_eq!(a, FocusAction::LookUp(900));
    let (w, a) = focus_step(w, FocusEvent::NoApp);
    assert_eq!(a, FocusAction::FindParent(900));
    let (w, a) = focus_step(w, FocusEvent::Parent(Some(800)));
    assert_eq!(a, FocusAction::LookUp(800));
    let (w, a) = focus_step(w, FocusEvent::App(2));
    assert_eq!(a, FocusAction::FindParent(800));
    let (w, a) = focus_step(w, FocusEvent::Parent(Some(700)));
    assert_eq!(a, FocusAction::LookUp(700));
    let (w, a) = focus_step(w, FocusEvent::App(0));
    assert_eq!(a, FocusAction::Activate(700));
    assert_eq!(w.phase, FocusPhase::Done);
}

#[test]
fn focus_fails_when_chain_ends() {
    let (w, _) = focus_start(5);
    let (w, _) = focus_step(w, FocusEvent::NoApp);
    let (w, a) = focus_step(w, FocusEvent::Parent(None));
    assert_eq!(
        a,
        FocusAction::Finish(Err("no app with windows found for this process".to_string()))
    );
    assert_eq!(w.phase, FocusPhase::Done);
}

#[test]
fn focus_gives_up_after_ten_lookups() {
    let (mut w, mut a) = focus_start(1000);
    let mut lookups = 1;
    loop {
        match a {
            FocusAction::LookUp(_) => {
                let r = focus_step(w, FocusEvent::NoApp);
                w = r.0;
                a = r.1;
            }
            FocusAction::FindParent(p) => {
                let r = focus_step(w, FocusEvent::Parent(Some(p - 1)));
                w = r.0;
                a = r.1;
                if let FocusAction::LookUp(_) = a {
                    lookups += 1;
                }
            }
            _ => break,
        }
    }
    assert_eq!(lookups, MAX_LOOKUPS);
    assert_eq!(
        a,
        FocusAction::Finish(Err("no app with windows found for this process".to_string()))
    );
}

#[test]
fn reopen_guard() {
    assert!(hidden_within_guard(1000, 800));
    assert!(!hidden_within_guard(1000, 700));
    assert!(hidden_within_guard(1000, 701));
    assert!(hidden_within_guard(5, 10));
    assert!(!recently_hidden(0));
    assert!(recently_hidden(u64::MAX));
}

#[test]
fn clock_reads_after_2020() {
    assert!(now_ms() > 1_577_836_800_000);
}

#[test]
fn tray_click_toggles() {
    assert_eq!(toggle_action(true, false), ToggleAction::Hide);
    assert_eq!(toggle_action(true, true), ToggleAction::Hide);
    assert_eq!(toggle_action(false, false), ToggleAction::Show);
    assert_eq!(toggle_action(false, true), ToggleAction::Stay);
}

#[test]
fn auto_hide_rules() {
    assert!(should_auto_hide(10, 20, true));
    assert!(!should_auto_hide(20, 20, true));
    assert!(!should_auto_hide(10, 20, false));
}
