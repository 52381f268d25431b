//! Conversion of tar archives into Nix archives (NAR), with a verified model of
//! the in-memory filesystem tree and of the NAR wire format, and the decisions
//! of a lockfile manager that pins repository snapshots by their NAR hash.
pub mod bytes;
pub mod hash;
pub mod laws;
pub mod lock;
pub mod nar;
pub mod path;
pub mod tar;
pub mod text;
pub mod vfs;

pub use crate::nar::ByteStream;
pub use crate::path::FileName;
pub use crate::tar::Tar2NarError;
pub use crate::vfs::{dir_entry, ConstByteStream, Directory, Executable, FsObject};
