//! Verified core of the mmWave sensor pipeline: the binary frame format of the
//! TI AWR radars, frame synchronisation on the data port, device selection,
//! message tags and subjects, and point-cloud bookkeeping.

pub mod error;
pub mod message;
pub mod frame_reader;
pub mod ids;
pub mod ports;
pub mod pointcloud;
pub mod buffer;
pub mod accumulator;
pub mod devices;
pub mod recording;
pub mod radar;
pub mod awr;
pub mod playback;
pub mod discovery;
pub mod config_update;
