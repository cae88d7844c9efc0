//! What an application tells the library about its life cycle.

use vstd::prelude::*;

verus! {

/// When the application ends by itself.
#[derive(Clone, Copy, Debug, PartialEq, Eq)]
pub enum ApplicationQuitMode {
    OnLastWindowClose,
    OnMainWindowClose,
    OnManualQuit,
}

/// Receives the life-cycle events of the application `app`.
pub trait ApplicationDelegate {
    /// The application has finished launching.
    fn application_launched(&mut self, app: u64);

    /// The application is about to end.
    fn application_will_terminate(&mut self, app: u64);

    /// The user switched to the application.
    fn application_activated(&mut self, app: u64);

    /// The user switched away from the application.
    fn application_deactivated(&mut self, app: u64);
}

} // verus!
