//! What a daemon for the front panel of the AtomMan X7 Ti decides and computes: the frames
//! of the serial line, the packets of each cycle, what the panel's touches ask for, and the
//! steps of the loop. All I/O is left to the caller.
pub mod backend;
pub mod binary64;
pub mod close;
pub mod daemon;
pub mod date;
pub mod decimal;
pub mod disk;
pub mod dump;
pub mod ec;
pub mod frames;
pub mod gpu;
pub mod host;
pub mod numbers;
pub mod packets;
pub mod panel;
pub mod percent;
pub mod procfs;
pub mod rates;
pub mod sensors;
pub mod serial;
pub mod text;
pub mod volume;

pub use binary64::Binary64;
