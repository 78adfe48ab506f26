use vstd::prelude::*;

verus! {

/// Why a scene file could not be loaded; each variant holds the file's path.
#[derive(Debug, Clone, PartialEq)]
pub enum FileError {
    NotFound(String),
    CouldNotRead(String),
    CouldNotParse(String),
}

} // verus!
