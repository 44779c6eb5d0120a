//! Decisions of the lookup/search service: request validation, lookup
//! outcomes, and the shape of a search response.  Storage itself is an
//! outside collaborator; it hands these functions plain records.

use vstd::prelude::*;
use vstd::string::StrSliceExecFns;
use crate::assemble::to_tree;
use crate::concept::{Concept, recs_view};
use crate::error::ApiError;
use crate::forest::{assemble_reorder, leaves};
use crate::tree::{ConceptTree, forest_view, lemma_forest_view_push};

verus! {

/// How a search response should be shaped.
#[derive(Debug)]
pub enum SearchResult {
    /// Return the matches assembled as trees (reorder mode).
    Tree,
}

/// A search request: the module to search, the term, and the optional
/// response shape.
#[derive(Debug)]
pub struct Search {
    pub module_id: u128,
    pub search_term: String,
    pub display: Option<SearchResult>,
}

/// A search term is usable only with at least two characters; shorter
/// terms are rejected before storage is asked anything.
pub fn validate_search_term(term: &String) -> (r: Result<(), ApiError>)
    ensures
        r == (if term@.len() < 2 {
            Err::<(), ApiError>(ApiError::Validation)
        } else {
            Ok::<(), ApiError>(())
        }),
{
    if term.as_str().unicode_len() < 2 {
        Err(ApiError::Validation)
    } else {
        Ok(())
    }
}

/// The body of a search response: the matches as flat, childless trees,
/// or — when tree display was requested — the reorder-mode forest.
pub fn search_response(display: &Option<SearchResult>, results: Vec<Concept>) -> (r: Vec<
    ConceptTree,
>)
    ensures
        display is Some ==> forest_view(r@) == assemble_reorder(recs_view(results@)),
        display is None ==> forest_view(r@) == leaves(recs_view(results@)),
{
    match display {
        Some(_) => to_tree(results),
        None => {
            let ghost rs = recs_view(results@);
            let mut flat: Vec<ConceptTree> = Vec::new();
            proof {
                assert(rs.take(0) =~= Seq::<crate::concept::ConceptView>::empty());
                assert(forest_view(flat@) =~= leaves(rs.take(0)));
            }
            for i in 0..results.len()
                invariant
                    rs == recs_view(results@),
                    rs.len() == results@.len(),
                    forest_view(flat@) == leaves(rs.take(i as int)),
            {
                proof {
                    assert(rs[i as int] == results@[i as int]@);
                }
                let node = ConceptTree::from_ref(&results[i]);
                proof {
                    lemma_forest_view_push(flat@, node);
                }
                flat.push(node);
                proof {
                    assert(forest_view(flat@) =~= leaves(rs.take(i + 1)));
                }
            }
            proof {
                assert(rs.take(rs.len() as int) =~= rs);
            }
            flat
        },
    }
}

/// What the single-concept endpoint answers, given what storage found:
/// the record when there is one, otherwise the not-found error carrying
/// the requested identifier.
pub fn lookup_concept(id: u128, fetched: Option<Concept>) -> (r: Result<Concept, ApiError>)
    ensures
        r == (match fetched {
            Some(c) => Ok::<Concept, ApiError>(c),
            None => Err::<Concept, ApiError>(ApiError::ConceptNotFound(id)),
        }),
{
    match fetched {
        Some(c) => Ok(c),
        None => Err(ApiError::ConceptNotFound(id)),
    }
}

} // verus!
