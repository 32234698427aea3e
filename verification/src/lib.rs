//! Vendored robotics components and the bookkeeping of the `olivaw` tool.
use vstd::prelude::*;

pub mod bench;
pub mod checksum;
pub mod drift;
pub mod hal;
pub mod hcsr04;
pub mod install;
pub mod listing;
pub mod led;
pub mod mpu6050;
pub mod plan;
pub mod project;
pub mod registry;
pub mod resolve;
pub mod rplidar;
pub mod slam;
pub mod suggest;
pub mod templates;
pub mod text;
pub mod ui;

verus! {

} // verus!
