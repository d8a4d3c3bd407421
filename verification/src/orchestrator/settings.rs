//! The settings of a testbed that the cloud clients read.

use vstd::prelude::*;

verus! {

/// The settings of a testbed.
pub struct Settings {
    /// Identifies the testbed; instances and firewall rules are tagged with it.
    pub testbed_id: String,
    /// Directory on the instances in which the nodes work.
    pub working_dir: String,
    /// The regions in which instances are deployed.
    pub regions: Vec<String>,
    /// The machine type of the instances.
    pub specs: String,
    /// Whether the working directory lies on the first NVMe drive.
    pub nvme: bool,
}

} // verus!
