//! The application's run flag, shared with whatever must stop when the application does.

use vstd::prelude::*;
use std::sync::Arc;
use std::sync::atomic::AtomicBool;

verus! {

/// The application shell's state: a flag that stays set while the application runs.
pub struct MacOSApp {
    running: Arc<AtomicBool>,
}

impl MacOSApp {
    /// The run flag this application holds.
    pub closed spec fn run_flag(self) -> Arc<AtomicBool> {
        self.running
    }

    /// A running application.
    pub fn new() -> (r: MacOSApp) {
        MacOSApp { running: Arc::new(AtomicBool::new(true)) }
    }

    /// A handle on the run flag, shared with this application.
    pub fn get_running_handle(&self) -> (r: Arc<AtomicBool>)
        ensures
            r == self.run_flag(),
    {
        Arc::clone(&self.running)
    }
}

} // verus!
