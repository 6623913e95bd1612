//! The logic of a disk imager: what dd gets told, how drives, images and smart images are
//! laid out, and what the window says about them.

pub mod desktop;
pub mod drives;
pub mod engine;
pub mod error;
pub mod fmt;
pub mod job;
pub mod plan;
pub mod properties;
pub mod smart;
pub mod text;
pub mod values;
pub mod window;
