//! Search validation, response shaping, lookups, and error rendering.

use mdr_ontology::concept::Concept;
use mdr_ontology::error::{uuid_string, ApiError};
use mdr_ontology::module::{lookup_module, Module};
use mdr_ontology::service::{
    lookup_concept, search_response, validate_search_term, SearchResult,
};

fn concept(id: u128, parent_id: Option<u128>, display: &str) -> Concept {
    Concept {
        id,
        display: String::from(display),
        parent_id,
        module_id: 7,
        term_codes: None,
        leaf: true,
        time_restriction_allowed: None,
        filter_type: None,
        selectable: true,
        filter_options: None,
        version: String::from("1.0"),
    }
}

#[test]
fn short_search_term_is_rejected() {
    let r = validate_search_term(&String::from("x"));
    let e = r.unwrap_err();
    assert!(matches!(e, ApiError::Validation));
    assert_eq!(e.status_code(), 400);
    assert_eq!(
        e.message(),
        "Search term must consist of at least 2 characters"
    );
}

#[test]
fn empty_search_term_is_rejected() {
    assert!(validate_search_term(&String::new()).is_err());
}

#[test]
fn two_character_search_term_passes() {
    assert!(validate_search_term(&String::from("xy")).is_ok());
    assert!(validate_search_term(&String::from("VORI")).is_ok());
}

#[test]
fn term_length_counts_characters_not_bytes() {
    // one character, two bytes
    assert!(validate_search_term(&String::from("\u{e9}")).is_err());
    // two characters, four bytes
    assert!(validate_search_term(&String::from("\u{e9}\u{e9}")).is_ok());
}

#[test]
fn search_response_flat_keeps_order_and_fields() {
    let results = vec![concept(4, Some(2), "D"), concept(1, None, "A")];
    let flat = search_response(&None, results);
    assert_eq!(flat.len(), 2);
    assert_eq!(flat[0].id, 4);
    assert_eq!(flat[0].display, "D");
    assert_eq!(flat[0].parent_id, Some(2));
    assert!(flat[0].children.is_empty());
    assert_eq!(flat[1].id, 1);
    assert!(flat[1].children.is_empty());
}

#[test]
fn search_response_tree_assembles_reorder_mode() {
    let results = vec![concept(2, Some(1), "B"), concept(1, None, "A")];
    let forest = search_response(&Some(SearchResult::Tree), results);
    assert_eq!(forest.len(), 1);
    assert_eq!(forest[0].id, 1);
    assert_eq!(forest[0].children.len(), 1);
    assert_eq!(forest[0].children[0].id, 2);
}

#[test]
fn concept_lookup_found() {
    let c = concept(0xa52b18659011fe8adeb112ce01327a2d, None, "Vancomycin");
    let r = lookup_concept(c.id, Some(c));
    let got = r.unwrap();
    assert_eq!(got.id, 0xa52b18659011fe8adeb112ce01327a2d);
    assert_eq!(got.display, "Vancomycin");
}

#[test]
fn concept_lookup_missing_reports_not_found() {
    let id: u128 = 0xa52b18659011fe8adeb112ce01327a2d;
    let e = lookup_concept(id, None).unwrap_err();
    assert!(matches!(e, ApiError::ConceptNotFound(x) if x == id));
    assert_eq!(e.status_code(), 404);
    assert_eq!(
        e.message(),
        "No concept found with id: a52b1865-9011-fe8a-deb1-12ce01327a2d"
    );
}

#[test]
fn module_lookup_found() {
    let m = Module {
        id: 0x0b6e62ccf4e328ceef0e653f4dc8c088,
        name: String::from("Person"),
        fdpg_cds_code: String::from("Patient"),
        fdpg_cds_system: String::from("fdpg.mii.cds"),
        fdpg_cds_version: String::from("1.0.0"),
        version: String::from("2.2.0"),
    };
    let got = lookup_module(m.id, Some(m)).unwrap();
    assert_eq!(got.name, "Person");
    assert_eq!(got.fdpg_cds_code, "Patient");
}

#[test]
fn module_lookup_missing_reports_not_found() {
    let id: u128 = 0x0b6e62ccf4e328ceef0e653f4dc8c088;
    let e = lookup_module(id, None).unwrap_err();
    assert!(matches!(e, ApiError::ModuleNotFound(x) if x == id));
    assert_eq!(e.status_code(), 404);
    assert_eq!(
        e.message(),
        "No module found with id: 0b6e62cc-f4e3-28ce-ef0e-653f4dc8c088"
    );
}

#[test]
fn internal_error_message_and_status() {
    let e = ApiError::Internal(String::from("connection reset"));
    assert_eq!(e.status_code(), 500);
    assert_eq!(e.message(), "Something went wrong: connection reset");
}

#[test]
fn uuid_rendering_is_canonical() {
    assert_eq!(uuid_string(0), "00000000-0000-0000-0000-000000000000");
    assert_eq!(uuid_string(u128::MAX), "ffffffff-ffff-ffff-ffff-ffffffffffff");
    assert_eq!(
        uuid_string(0x4bfd4e2ecaf5f7ae3ef8400ab0858ec7),
        "4bfd4e2e-caf5-f7ae-3ef8-400ab0858ec7"
    );
    assert_eq!(
        uuid_string(0x123),
        "00000000-0000-0000-0000-000000000123"
    );
}
