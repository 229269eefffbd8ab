//! Password-protected folder containers.
//!
//! A folder is packed into one compressed archive, the archive is sealed with
//! a key stretched from a passphrase, and the result is framed as a single
//! self-describing container. Every function here works on values in memory;
//! reading the folder and writing the container is left to the caller.

pub mod error;
pub mod container;
pub mod text;
pub mod kdf;
pub mod cipher;
pub mod crypto;
pub mod path;
pub mod archive;
pub mod pipeline;
