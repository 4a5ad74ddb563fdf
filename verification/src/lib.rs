//! Which peers get TCP Brutal rules, and what becomes of the rules.
//!
//! Text comes in from the kernel, from tools and from the environment; what goes out are decisions
//! about peers. The program around this library reads, writes and waits.

pub mod addr;
pub mod addr_laws;
pub mod addr_set;
pub mod addr_text;
pub mod addr_text_laws;
pub mod clock;
pub mod config;
pub mod conntrack;
pub mod engine;
pub mod event_laws;
pub mod history;
pub mod host_laws;
pub mod list_laws;
pub mod local;
pub mod number;
pub mod number_laws;
pub mod paths;
pub mod prefix;
pub mod proc;
pub mod proc_laws;
pub mod ranges;
pub mod report;
pub mod roundtrip;
pub mod rules;
pub mod settings_laws;
pub mod text;
pub mod text_laws;
pub mod trace;
pub mod whitelist;
