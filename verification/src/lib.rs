//! Bulk file encryption with a keyed stream cipher.
//!
//! Files are processed as a sequence of fixed-size chunks.  Each chunk is
//! transformed independently by the cipher provider ([`xrc::Xrc`]), and a
//! 32-byte keyed signature precedes the ciphertext of every encrypted file so
//! that a wrong key or a foreign file is detected before anything destructive
//! happens.  The modules here hold the verified core: chunk layout, the
//! ordered writer that reassembles out-of-order chunk completions, the
//! per-file pipeline, and the invocation rules.  Everything that touches the
//! file system, the terminal or threads lives outside this crate's verified
//! surface and drives these functions with plain values.

pub mod cli;
pub mod err;
pub mod file_handler;
pub mod job;
pub mod writer;
pub mod xrc;
