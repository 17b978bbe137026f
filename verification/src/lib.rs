//! Cyclic-executive scheduling of periodic tasks: hyperperiod, frame-size
//! search and greedy first-fit packing of jobs into frames.

pub mod numbers;
pub mod task;
pub mod frames;
pub mod order;
pub mod packer;
pub mod analysis;
pub mod demand;
pub mod response;
