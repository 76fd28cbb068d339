//! The verified core of a rosbag2 storage plugin that records bags as Rerun `.rrd` files.

pub mod blobs;
pub mod cdr;
pub mod chunks;
pub mod columns;
pub mod config;
pub mod counting;
pub mod definitions;
pub mod error;
pub mod index;
pub mod laws;
pub mod lenses;
pub mod logging;
pub mod opening;
pub mod pipeline;
pub mod playback;
pub mod reader;
pub mod record;
pub mod reencoding;
pub mod replay;
pub mod roundtrip;
pub mod scan;
pub mod statics;
pub mod structs;
pub mod text;
pub mod wire;
pub mod writer;
