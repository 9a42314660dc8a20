use vstd::prelude::*;

verus! {

/// The two ways a tree operation can fail.
///
/// `NotFound`: the addressed path, or a required intermediate segment, does
/// not exist in the tree. `IsNull`: the addressed node exists but is purely
/// structural, holding no value.
#[derive(Debug, Clone, PartialEq, Eq, Structural)]
pub enum NodeError {
    NotFound,
    IsNull,
}

impl NodeError {
    /// A human-readable description of the failure.
    pub fn message(&self) -> (s: String)
        ensures
            *self is NotFound ==> s@ == "entity not found"@,
            *self is IsNull ==> s@ == "entity is null"@,
    {
        match self {
            NodeError::NotFound => "entity not found".to_owned(),
            NodeError::IsNull => "entity is null".to_owned(),
        }
    }
}

} // verus!
