use vstd::prelude::*;

verus! {

/// How the naming collaborator produces fragment file names. The generation
/// itself draws random words, so it lives with the callers that do I/O; the
/// library only carries the chosen scheme around.
#[derive(Debug, Default, Copy, Clone, Eq, PartialEq, Hash)]
pub enum NameType {
    #[default]
    Buzzword,
    Lorem,
    Hash,
}

} // verus!
