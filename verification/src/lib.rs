//! Verified core of a controller for a six-channel toy robot arm: joint
//! limits and poses, the servo-controller move frame, the integer part of the
//! visual-servo step, and the command-line frame builder.

pub mod arm;
pub mod cli;
pub mod control;
pub mod pose_laws;
pub mod text;
pub mod transport;
