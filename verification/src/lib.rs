//! The rule reconciliation engine of a host firewall.
//!
//! A policy names the networks to block, as addresses and CIDR blocks of
//! both families. Each cycle the engine normalises every entry into a
//! canonical network, compares the result with what it applied last, and
//! hands out the operations that bring the packet filter in line: unbans
//! first, bans after. Nothing is applied again that has not changed.
//!
//! The engine decides and never waits. Fetching the policy, calling the
//! packet filter and keeping time are left to the caller, who feeds the
//! outcomes back:
//!
//! - `network` normalises a raw entry; `ipv4`, `ipv6` and `ipv6_text` read
//!   and write addresses, on top of `text` and `render`;
//! - `ruleset` holds the networks of one family, `policy` flattens a policy
//!   into one rule set per family, `diff` compares two rule sets;
//! - `apply` steps through the operations of a diff, `state` keeps what was
//!   applied last, and `scheduler` says when a cycle is due and when to stop.

pub mod apply;
pub mod diff;
pub mod ipv4;
pub mod ipv6;
pub mod ipv6_text;
pub mod network;
pub mod policy;
pub mod render;
pub mod ruleset;
pub mod scheduler;
pub mod state;
pub mod text;
