//! Turn captured frames into structured, confidence-scored visual
//! observations: the verified pixel-level core.

pub mod frame;

pub mod draw;
pub mod detection;
pub mod capture;
pub mod geometry;
pub mod quality;
pub mod motion;
pub mod ocr;
pub mod properties;
