//! Parsing of the Linux kernel's per-process mount table
//! (`/proc/<pid>/mountinfo`) into typed records, with the kernel's octal
//! escapes decoded and mount options mapped to a flag mask; and the
//! description of a bind mount.

pub mod bind;
pub mod escape;
pub mod fields;
pub mod flags;
pub mod mountinfo;
