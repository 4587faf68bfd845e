//! Verified core of a rigid-block kinematics toolkit: the selector grammar
//! that names a block's state channels, and the assembly of the selected
//! channels into one line of text.

pub mod formatter;
pub mod selector;
