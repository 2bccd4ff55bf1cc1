//! Colour resolution and scanning logic for a Rubik's-cube-solving robot.

pub mod balance;
pub mod calibration;
pub mod color_resolver;
pub mod presence;
pub mod scan;
