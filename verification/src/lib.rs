//! Stereo-camera measurement: frame handling, block-matching disparity,
//! corner search and the small text formats of the capture tooling.
pub mod raster;
pub mod stereo;
pub mod text;
pub mod camera;
pub mod display;
pub mod reconstruct;
pub mod calibration;
pub mod files;
