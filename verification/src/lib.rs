//! The logic of a system sampler: what it makes of the text that procfs,
//! sysfs and a few command-line tools hand it.

pub mod text;
pub mod reading;
pub mod rank;
pub mod table;
pub mod drm;
pub mod names;
pub mod stat;
pub mod files;
pub mod cluster;
pub mod groups;
pub mod report;
pub mod sockets;
pub mod listing;
pub mod traffic;
pub mod networking;
pub mod clients;
pub mod sharing;
pub mod gpu_use;
pub mod procs;
pub mod accounting;
pub mod gpu;
pub mod hwmon;
pub mod devices;
pub mod cards;
pub mod naming;
pub mod output;
pub mod control;
pub mod pacing;
pub mod ordering;
pub mod models;
