use vstd::prelude::*;

verus! {

/// The failures that loading and writing can report.
#[derive(Debug, Clone, Copy, PartialEq, Eq, Structural)]
pub enum ToqlError {
    /// An expression for a statement could not be built.
    QueryError,
    /// The connection or driver failed.
    ConnectionError,
    /// A type is not registered, a relation is missing or the mapping is inconsistent.
    MappingError,
    /// A single-entity load found no row.
    NotFound,
    /// A single-entity load found more than one row.
    NotUnique,
    /// An entity lacks the identity values needed to build a predicate.
    KeyMissing,
    /// A registration lock could not be taken.
    LockError,
}

/// Picks the only entity of a single-entity load.
///
/// No entity is `NotFound`, more than one is `NotUnique`.
pub fn single_entity<T>(entities: Vec<T>) -> (r: Result<T, ToqlError>)
    ensures
        entities@.len() == 0 ==> r == Err::<T, ToqlError>(ToqlError::NotFound),
        entities@.len() == 1 ==> r == Ok::<T, ToqlError>(entities@[0]),
        entities@.len() > 1 ==> r == Err::<T, ToqlError>(ToqlError::NotUnique),
{
    let mut entities = entities;
    if entities.len() == 0 {
        Err(ToqlError::NotFound)
    } else if entities.len() == 1 {
        match entities.pop() {
            Some(e) => Ok(e),
            None => Err(ToqlError::NotFound),
        }
    } else {
        Err(ToqlError::NotUnique)
    }
}

} // verus!
