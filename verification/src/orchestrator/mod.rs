//! What the testbed tooling decides and computes: command-line options, the
//! benchmark plan they select, and the commands sent to the cloud provider.

pub mod cli;
pub mod error;
pub mod gcp;
pub mod settings;
pub mod text;
