//! Core of a Byzantine-fault-tolerant consensus protocol over a DAG of blocks.
//!
//! A fixed committee of authorities produces blocks in rounds. Each block names
//! earlier blocks as its parents and carries transaction statements. The
//! modules below store the DAG, gate round advancement on quorums, decide which
//! leader blocks are committed, linearise what each committed leader finalises,
//! and certify individual transactions once a quorum has echoed them.
//!
//! - [`types`], [`committee`]: blocks, references, statements; the committee
//!   and its thresholds.
//! - [`block_store`]: the stored DAG and its queries.
//! - [`threshold_clock`]: the round a replica may produce a block for.
//! - [`committer`], [`agreement`]: the commit rule, and why replicas agree.
//! - [`commit_interpreter`], [`commit_handler`]: from committed leaders to
//!   committed sub-DAGs, and what is observed of them.
//! - [`aggregator`], [`codec`], [`log`]: certification of transactions, the
//!   byte form of its state, and the log of echoes.
//! - [`block_handler`]: what a replica does with a batch of blocks.
//! - [`stat`], [`latency`]: histograms and the times they are fed with.
//! - [`orchestrator`]: what the testbed tooling computes.

pub mod aggregator;
pub mod agreement;
pub mod block_handler;
pub mod block_store;
pub mod codec;
pub mod commit_handler;
pub mod commit_interpreter;
pub mod committee;
pub mod committer;
pub mod latency;
pub mod log;
pub mod orchestrator;
pub mod stat;
pub mod threshold_clock;
pub mod types;
