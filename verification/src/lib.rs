//! Remote content synchronization engine for a static-site publishing
//! pipeline administered over a secure-shell transport.
//!
//! The engine reasons about a remote content tree that lives in two physical
//! locations (a public content root and a hidden staging root) presented as
//! one logical namespace.  All decision logic — path resolution, tree
//! construction and merging, multi-step mutations with compensation, and
//! image-reference integrity — is verified here against an explicit model of
//! the remote filesystem; the thin transport shell performs the actual
//! network calls and replays the verified plans.

pub mod config;
pub mod configstore;
pub mod crypto;
pub mod fs;
pub mod images;
pub mod mutate;
pub mod plugins;
pub mod pty;
pub mod search;
pub mod session;
pub mod setup;
pub mod strutil;
pub mod tree;
pub mod trust;

use vstd::prelude::*;

verus! {

/// Errors surfaced by the engine, mirroring the failure taxonomy of the
/// remote operations: connection-level failures, operations attempted with
/// no live session, remote filesystem failures, and a compensation that
/// itself failed during a multi-step mutation.
#[derive(Clone, Copy, Debug, PartialEq, Eq, Structural)]
pub enum CmsError {
    /// Connect, handshake or authentication failed.
    ConnectionError,
    /// An operation was attempted with no live session.
    NotConnected,
    /// A remote stat/read/write/rename/remove failed.
    RemoteIo,
    /// The moved or removed entry was not found at any physical location.
    NotFound,
    /// The destination of a move or rename already exists.
    AlreadyExists,
    /// A compensating action of a multi-step mutation failed; the remote
    /// tree may be in an intermediate state requiring manual inspection.
    RollbackFailure,
}

impl CmsError {
    /// A short human-readable description of the error.
    pub fn describe(&self) -> &'static str {
        match self {
            CmsError::ConnectionError => "connection, handshake or authentication failed",
            CmsError::NotConnected => "no live session",
            CmsError::RemoteIo => "remote file operation failed",
            CmsError::NotFound => "entry not found at any physical location",
            CmsError::AlreadyExists => "destination already exists",
            CmsError::RollbackFailure => "rollback failed; manual inspection required",
        }
    }
}

} // verus!
