//! roomba -- sweep up after Bazel. Nothing it removes is precious; it all rebuilds.

pub mod cas;
pub mod cas_laws;
pub mod census_laws;
pub mod disk;
pub mod failure_laws;
pub mod file_laws;
pub mod layout;
pub mod layout_laws;
pub mod liveness;
pub mod order;
pub mod path_laws;
pub mod paths;
pub mod plan_laws;
pub mod policy;
pub mod policy_laws;
pub mod reaper;
pub mod reaper_laws;
pub mod report;
pub mod report_laws;
pub mod sweep;
pub mod sweep_laws;
pub mod text;
pub mod text_laws;
pub mod time_laws;
pub mod tree_laws;
pub mod util;
