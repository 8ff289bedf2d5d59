//! The kind of a collaborative object.
//!
//! Every stored or streamed update carries the kind of its object as an
//! integer code. The mapping between kinds and codes is fixed; a code that
//! names no kind reads as [`CollabType::Unknown`], so that records written
//! by a newer peer can still be routed.

use vstd::prelude::*;
use vstd::std_specs::convert::FromSpecImpl;

verus! {

/// What structural schema an object's state follows.
#[derive(Clone, Copy, Debug, PartialEq, Eq, Structural, Hash)]
pub enum CollabType {
    Document,
    Database,
    WorkspaceDatabase,
    Folder,
    UserAwareness,
    Unknown,
}

/// The kind that an integer code names.
pub open spec fn collab_type_of(code: int) -> CollabType {
    if code == 0 {
        CollabType::Document
    } else if code == 1 {
        CollabType::Database
    } else if code == 2 {
        CollabType::WorkspaceDatabase
    } else if code == 3 {
        CollabType::Folder
    } else if code == 5 {
        CollabType::UserAwareness
    } else {
        CollabType::Unknown
    }
}

/// The integer code of a kind.
pub open spec fn collab_type_code(kind: CollabType) -> int {
    match kind {
        CollabType::Document => 0,
        CollabType::Database => 1,
        CollabType::WorkspaceDatabase => 2,
        CollabType::Folder => 3,
        CollabType::UserAwareness => 5,
        CollabType::Unknown => 6,
    }
}

impl CollabType {
    /// The integer code under which the kind is stored and streamed.
    pub fn value(&self) -> (code: i32)
        ensures
            code == collab_type_code(*self),
    {
        match self {
            CollabType::Document => 0,
            CollabType::Database => 1,
            CollabType::WorkspaceDatabase => 2,
            CollabType::Folder => 3,
            CollabType::UserAwareness => 5,
            CollabType::Unknown => 6,
        }
    }
}

impl From<i32> for CollabType {
    fn from(code: i32) -> (kind: CollabType) {
        if code == 0 {
            CollabType::Document
        } else if code == 1 {
            CollabType::Database
        } else if code == 2 {
            CollabType::WorkspaceDatabase
        } else if code == 3 {
            CollabType::Folder
        } else if code == 5 {
            CollabType::UserAwareness
        } else {
            CollabType::Unknown
        }
    }
}

impl FromSpecImpl<i32> for CollabType {
    open spec fn obeys_from_spec() -> bool {
        true
    }

    open spec fn from_spec(code: i32) -> CollabType {
        collab_type_of(code as int)
    }
}

/// The partition under which an object of this kind is stored: the kind's
/// integer code.
pub fn partition_key_from_collab_type(collab_type: &CollabType) -> (key: i32)
    ensures
        key == collab_type_code(*collab_type),
{
    collab_type.value()
}

/// Every kind is the kind that its own code names.
pub proof fn lemma_collab_type_roundtrip(kind: CollabType)
    ensures
        collab_type_of(collab_type_code(kind)) == kind,
        i32::MIN <= collab_type_code(kind) <= i32::MAX,
{
}

} // verus!
