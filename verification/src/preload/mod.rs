//! What the library that is loaded into each profiled process decides when the process is
//! about to execute another program.

pub mod fixed;
pub mod buffers;
pub mod shebang;
pub mod redirect;
pub mod warn;
pub mod sys;
