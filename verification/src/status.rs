//! One observation of the WSL2 virtual machine.
use vstd::prelude::*;

use crate::double::{zero, Double};

verus! {

/// One observation of the VM, as shown by the UI.
#[derive(Clone, Copy, Debug)]
pub struct Status {
    /// The VM process exists.
    pub running: bool,
    /// Process id of the VM (0 when not running). A changed pid means the VM was restarted, which
    /// resets the CPU baseline.
    pub pid: usize,
    /// Percent of all host logical cores; `None` = not measured yet.
    pub cpu: Option<Double>,
    /// Working set of the VM process, bytes.
    pub mem: u64,
    /// `mem` as a percentage of the host's physical RAM.
    pub mem_pct: Double,
    /// Local wall-clock time of the last sample (hh, mm, ss), if any.
    pub updated: Option<(u16, u16, u16)>,
}

impl Status {
    pub open spec fn wf(self) -> bool {
        self.mem_pct.wf() && (self.cpu matches Some(c) ==> c.wf())
    }

    /// The numbers are not too large to be shown, as no measured ones are.
    pub open spec fn can_be_shown(self) -> bool {
        self.mem_pct.can_be_shown() && (self.cpu matches Some(c) ==> c.can_be_shown())
    }

    /// A VM that is not running, seen at `updated`.
    pub open spec fn stopped(updated: Option<(u16, u16, u16)>) -> Status {
        Status {
            running: false,
            pid: 0,
            cpu: None,
            mem: 0,
            mem_pct: zero(),
            updated,
        }
    }
}

impl Default for Status {
    fn default() -> (s: Status)
        ensures
            s == Status::stopped(None),
            s.can_be_shown(),
    {
        Status {
            running: false,
            pid: 0,
            cpu: None,
            mem: 0,
            mem_pct: Double::nothing(),
            updated: None,
        }
    }
}

} // verus!
