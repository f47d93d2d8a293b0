//! The logic of a top-like program for bcachefs filesystems.
//!
//! Texts that the kernel and the bcachefs tools show become snapshots
//! ([`collect`]); two snapshots become rates ([`metrics`]); a run of snapshots
//! becomes findings with their evidence ([`diagnostics`]) and a hint
//! ([`advisor`]). [`app`] holds what the program shows, [`tick`] takes samples in
//! and [`keys`] takes key presses. [`rows`], [`formats`] and [`details`] put the
//! state into words.
//!
//! Nothing here reads a file, asks for the time or draws. Times are nanoseconds
//! since the program started. Fractions are [`double::Double`], IEEE doubles
//! computed in integers, so that what is said of them can be proved.

pub mod advisor;
pub mod analysis;
pub mod app;
pub mod busiest;
pub mod collect;
pub mod commands;
pub mod details;
pub mod diagnostics;
pub mod digits;
pub mod disks;
pub mod display;
pub mod double;
pub mod evidence;
pub mod formats;
pub mod groups;
pub mod histories;
pub mod incidents;
pub mod interval;
pub mod json;
pub mod keys;
pub mod measures;
pub mod member;
pub mod metrics;
pub mod natural;
pub mod numeral;
pub mod order;
pub mod parse;
pub mod peers;
pub mod persistence;
pub mod placement;
pub mod readings;
pub mod rows;
pub mod samples;
pub mod schedule;
pub mod snapshots;
pub mod soundness;
pub mod sources;
pub mod spelling;
pub mod stats;
pub mod status;
pub mod strmap;
pub mod sysfs;
pub mod targets;
pub mod text;
pub mod theme;
pub mod tick;
pub mod topology;
pub mod trends;
pub mod tuning;
pub mod window;
