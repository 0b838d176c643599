//! The menu-bar panel: the guard against reopening it right after it hid
//! itself, and when a tray click or a focus change shows or hides it.
use std::time::Duration;
use std::time::SystemTime;
use std::time::SystemTimeError;
use vstd::prelude::*;

verus! {

#[verifier::external_type_specification]
#[verifier::external_body]
pub struct ExSystemTime(SystemTime);

#[verifier::external_type_specification]
#[verifier::external_body]
pub struct ExSystemTimeError(SystemTimeError);

/// `SystemTime::now`: the system clock's current reading. Nothing is
/// promised of it: it depends on the time.
#[verifier::external_body]
fn clock_now() -> SystemTime {
    SystemTime::now()
}

/// `SystemTime::duration_since` with `UNIX_EPOCH` as the earlier time: an
/// error when the clock reads before 1970. Nothing is stated of the
/// duration: it depends on the reading.
#[verifier::external_body]
fn since_unix_epoch(t: &SystemTime) -> Result<Duration, SystemTimeError> {
    t.duration_since(std::time::UNIX_EPOCH)
}

/// `Duration::as_millis`: the whole milliseconds of a duration. `Duration`
/// has no view here, so nothing is stated of the number.
#[verifier::external_body]
fn duration_millis(d: &Duration) -> u128 {
    d.as_millis()
}

/// Milliseconds since the Unix epoch (0 when the clock reads earlier),
/// truncated to 64 bits.
pub fn now_ms() -> u64 {
    let t = clock_now();
    match since_unix_epoch(&t) {
        Ok(d) => {
            let ms = duration_millis(&d);
            ms as u64
        },
        Err(_) => 0,
    }
}

/// How soon after an automatic hide a tray click is taken as the click that
/// caused the hide, not as a request to reopen.
pub const REOPEN_GUARD_MS: u64 = 300;

/// Whether `now_ms` lies within the guard after `last_hide_ms`; a clock that
/// went backwards counts as no time passed.
pub open spec fn within_guard(now_ms: u64, last_hide_ms: u64) -> bool {
    if now_ms <= last_hide_ms {
        true
    } else {
        now_ms - last_hide_ms < REOPEN_GUARD_MS
    }
}

pub fn hidden_within_guard(now_ms: u64, last_hide_ms: u64) -> (r: bool)
    ensures
        r == within_guard(now_ms, last_hide_ms),
{
    now_ms.saturating_sub(last_hide_ms) < REOPEN_GUARD_MS
}

/// Whether the panel hid itself less than the guard ago, by the clock now.
pub fn recently_hidden(last_hide_ms: u64) -> (r: bool)
    ensures
        exists|now: u64| r == within_guard(now, last_hide_ms),
{
    let now = now_ms();
    hidden_within_guard(now, last_hide_ms)
}

/// What a click on the tray icon does to the panel.
#[derive(Debug, PartialEq, Eq, Clone, Copy, Structural)]
pub enum ToggleAction {
    /// Hide the panel.
    Hide,
    /// Position the panel below the menu bar, announce it, and show it.
    Show,
    /// Leave it hidden: the click is the one that just hid it.
    Stay,
}

pub open spec fn toggle_spec(visible: bool, recently_hidden: bool) -> ToggleAction {
    if visible {
        ToggleAction::Hide
    } else if recently_hidden {
        ToggleAction::Stay
    } else {
        ToggleAction::Show
    }
}

pub fn toggle_action(visible: bool, recently_hidden: bool) -> (r: ToggleAction)
    ensures
        r == toggle_spec(visible, recently_hidden),
{
    if visible {
        ToggleAction::Hide
    } else if recently_hidden {
        ToggleAction::Stay
    } else {
        ToggleAction::Show
    }
}

/// Whether losing focus hides the panel: not when this app itself became
/// frontmost, and only when it is shown.
pub fn should_auto_hide(frontmost_pid: i32, own_pid: i32, visible: bool) -> (r: bool)
    ensures
        r == (frontmost_pid != own_pid && visible),
{
    frontmost_pid != own_pid && visible
}

} // verus!
