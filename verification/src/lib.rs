//! Persistent collection manager for a note-taking and todo-tracking
//! application.
//!
//! Two stores share one directory of files: a note store (one text file per
//! note, named by title) and a todo store (one snapshot file holding the
//! whole serialized list). The directory is modelled by [`dir::Dir`], a
//! verified map from file names to contents; an unverified shell mirrors
//! every operation onto the real filesystem.

use vstd::prelude::*;

pub mod codec;
pub mod dir;
pub mod notes;
pub mod session;
pub mod todos;

verus! {

/// Failure taxonomy shared by both stores.
///
/// `NotFound` is returned when a read names a note with no backing file;
/// `IOError` stands for filesystem failures, which only the unverified
/// shell can observe; `SerializationError` means the todo snapshot could
/// not be decoded.
#[derive(Debug, Clone, Copy, PartialEq, Eq, Structural)]
pub enum StoreError {
    NotFound,
    IOError,
    SerializationError,
}

} // verus!
