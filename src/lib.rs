//! Transparent User-Agent rewriting proxy: the decision logic.
//!
//! The logic here is verified: the firewall decision engine, the decision
//! cache, the rewrite policy, the per-request decision, flow classification
//! and the reading of the configuration. Calls into `lru`, `regex` and a few
//! std functions sit behind small trusted wrappers whose documentation names
//! what they rely on. The socket plumbing, the HTTP framing, the firewall
//! tool invocations and the argument parser live in the program around this
//! library, which hands it plain values.

pub mod config;
pub mod firewall;
pub mod handler;
pub mod logger;
pub mod lru;
pub mod policy;
pub mod sniff;
pub mod text;
