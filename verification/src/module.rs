//! Module metadata: the named groupings that concepts belong to.

use vstd::prelude::*;
use crate::error::ApiError;

verus! {

/// One module: a named grouping of concepts forming an independent
/// ontology tree.
#[derive(Debug)]
pub struct Module {
    pub id: u128,
    pub name: String,
    pub fdpg_cds_code: String,
    pub fdpg_cds_system: String,
    pub fdpg_cds_version: String,
    pub version: String,
}

/// What the single-module endpoint answers, given what storage found:
/// the module when there is one, otherwise the not-found error carrying
/// the requested identifier.
pub fn lookup_module(id: u128, fetched: Option<Module>) -> (r: Result<Module, ApiError>)
    ensures
        r == (match fetched {
            Some(m) => Ok::<Module, ApiError>(m),
            None => Err::<Module, ApiError>(ApiError::ModuleNotFound(id)),
        }),
{
    match fetched {
        Some(m) => Ok(m),
        None => Err(ApiError::ModuleNotFound(id)),
    }
}

} // verus!
