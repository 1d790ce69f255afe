//! Decode pipeline core of a cloud-gaming stream client.
//!
//! - `bitreader`: bit cursor with fixed-width and Exp-Golomb reads.
//! - `nal`: Annex-B scanning into NAL units, emulation-prevention removal.
//! - `hevc`: HEVC parameter-set store and slice-header prefix.
//! - `h264`: H.264 units, parameter sets and slice POC bits for the hardware
//!   decode path.
//! - `dpb`: decoded picture buffer slots and picture order counts.
//! - `session`: per-access-unit decisions of a hardware decode session.
//! - `frame`: output frame layout, upload sizing and session parameters.
//! - `capability`: which devices and codecs can decode in hardware.
//! - `text`, `sdp`: session-description rewriting.

pub mod bitreader;
pub mod capability;
pub mod dpb;
pub mod frame;
pub mod h264;
pub mod hevc;
pub mod nal;
pub mod sdp;
pub mod session;
pub mod text;
