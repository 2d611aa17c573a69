//! Streaming MP4 demultiplexing, H.264 bitstream conversion, terminal
//! graphics encoding and playback pacing for a terminal video player.

pub mod bytes;
pub mod boxes;
pub mod browse;
pub mod moov;
pub mod sample_map;
pub mod annexb;
pub mod demux;
pub mod encoder;
pub mod playback;
pub mod ring_buffer;
