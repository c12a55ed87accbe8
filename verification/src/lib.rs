//! Network logic of a camera console: who is on the wire, which subnets the
//! host has joined, and when to leave them again.

pub mod adapter_refresh;
pub mod adopt_run;
pub mod adopt_task;
pub mod adoptions;
pub mod arp;
pub mod auto_adopt;
pub mod bytes;
pub mod cache_probe;
pub mod capture;
pub mod command;
pub mod config;
pub mod device_registry;
pub mod discovery;
pub mod dwell;
pub mod error;
pub mod firewall;
pub mod ghost;
pub mod interface;
pub mod ip_config;
pub mod json;
pub mod lifecycle;
pub mod neighbors;
pub mod net;
pub mod ping_dot;
pub mod pktmon;
pub mod probe_pass;
pub mod reaper;
pub mod scanner;
pub mod session;
pub mod sightings;
pub mod text;
pub mod textmap;
pub mod time;
pub mod wall;
pub mod watcher;
