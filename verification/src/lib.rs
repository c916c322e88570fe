//! Block-device mirroring: the rules that keep a destination disk in step with
//! a source disk while a guest keeps writing.
//!
//! Guest writes go to both disks while a background worker copies existing data
//! from source to destination. Once both sides are in sync the mirror can be
//! completed, switching the device to the destination.

pub mod phase;
pub mod queue;
pub mod ranges;
pub mod reasons;
pub mod state;
pub mod sync;
pub mod worker;
