//! Decoding of raw HID input reports into logical button and axis events.
//!
//! A device mapping says where each logical button and axis lives inside a
//! 256-byte report. The decoder compares two successive reports against such a
//! mapping and yields the changes; the registry tracks which devices are
//! connected and keeps the last report of each.

pub mod assets;
pub mod bindings;
pub mod buffers;
pub mod device;
pub mod events;
pub mod input;
pub mod resources;
pub mod systems;
pub mod validation;
