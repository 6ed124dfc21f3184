//! Verified core of a blocking log tailer.
//!
//! A [`LogTail`] follows a growing text file and hands out complete lines,
//! starting from the file's end at the moment it is first used.  The machine
//! itself never touches a file: a small driver performs the [`Action`] the
//! machine asks for (open, read one byte, read up to the next newline) and
//! reports the outcome back.  Everything the machine decides — where tailing
//! starts, when a line is complete, how the read position advances — is
//! verified here.

pub mod lines;
pub mod tail;

pub use crate::tail::Action;
pub use crate::tail::LogTail;
pub use crate::tail::Phase;
