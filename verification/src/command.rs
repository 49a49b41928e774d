//! Decision logic of the command layer.  The commands' I/O (prompts,
//! network, file writes) lives with the binary.

pub mod add;
