//! The settings switch for DPS reports.
use vstd::prelude::*;

verus! {

/// Whether DPS reports are sent (shared with the settings page by the
/// application, behind its own lock).
pub struct WebhookEnabled {
    enabled: bool,
}

impl WebhookEnabled {
    pub closed spec fn on(&self) -> bool {
        self.enabled
    }
}

/// The switch, initially `initial`.
pub fn create_webhook_enabled(initial: bool) -> (s: WebhookEnabled)
    ensures
        s.on() == initial,
{
    WebhookEnabled { enabled: initial }
}

/// Turns reports on or off.
pub fn set_webhook_enabled(state: &mut WebhookEnabled, enabled: bool)
    ensures
        final(state).on() == enabled,
{
    state.enabled = enabled;
}

/// Whether reports are on: the value last set (or the initial one).
pub fn is_webhook_enabled(state: &WebhookEnabled) -> (b: bool)
    ensures
        b == state.on(),
{
    state.enabled
}

} // verus!
