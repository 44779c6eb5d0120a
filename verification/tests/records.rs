//! Record-level behaviour: defaults, cloning, conversion to tree nodes,
//! and configuration assembly.

use mdr_ontology::concept::{Coding, Concept};
use mdr_ontology::config::{App, AppConfig, Database};
use mdr_ontology::tree::ConceptTree;

#[test]
fn default_concept_is_blank() {
    let c = Concept::default();
    assert_eq!(c.id, 0);
    assert_eq!(c.display, "");
    assert!(c.parent_id.is_none());
    assert_eq!(c.module_id, 0);
    assert!(c.term_codes.is_none());
    assert!(!c.leaf);
    assert!(c.time_restriction_allowed.is_none());
    assert!(c.filter_type.is_none());
    assert!(!c.selectable);
    assert!(c.filter_options.is_none());
    assert_eq!(c.version, "");
}

#[test]
fn clone_copies_every_field() {
    let c = Concept {
        id: 11,
        display: String::from("Vancomycin"),
        parent_id: Some(10),
        module_id: 3,
        term_codes: Some(vec![Coding {
            code: String::from("VANC"),
            system: String::from("https://fhir.diz.uni-marburg.de/CodeSystem/swisslab-code"),
            display: String::from("Vancomycin"),
            version: None,
        }]),
        leaf: true,
        time_restriction_allowed: Some(true),
        filter_type: None,
        selectable: true,
        filter_options: None,
        version: String::from("2.2.0"),
    };
    let d = c.clone();
    assert_eq!(d.id, 11);
    assert_eq!(d.display, "Vancomycin");
    assert_eq!(d.parent_id, Some(10));
    assert_eq!(d.module_id, 3);
    let codes = d.term_codes.as_ref().unwrap();
    assert_eq!(codes.len(), 1);
    assert_eq!(codes[0].code, "VANC");
    assert_eq!(
        codes[0].system,
        "https://fhir.diz.uni-marburg.de/CodeSystem/swisslab-code"
    );
    assert!(codes[0].version.is_none());
    assert!(d.leaf);
    assert_eq!(d.time_restriction_allowed, Some(true));
    assert!(d.selectable);
    assert_eq!(d.version, "2.2.0");
}

#[test]
fn tree_node_from_record_copies_fields_and_starts_childless() {
    let c = Concept {
        id: 21,
        display: String::from("Medikamente"),
        parent_id: None,
        module_id: 4,
        leaf: false,
        selectable: false,
        version: String::from("2.2.0"),
        ..Concept::default()
    };
    let t = ConceptTree::from(c);
    assert_eq!(t.id, 21);
    assert_eq!(t.display, "Medikamente");
    assert!(t.parent_id.is_none());
    assert_eq!(t.module_id, 4);
    assert!(!t.leaf);
    assert!(!t.selectable);
    assert_eq!(t.version, "2.2.0");
    assert!(t.children.is_empty());
}

#[test]
fn config_assembles_from_sections() {
    let cfg = AppConfig::new(
        App {
            log_level: String::from("debug"),
        },
        Database {
            url: String::from("postgres://localhost/mdr"),
            max_connections: Some(8),
            timeout: Some(30),
        },
    );
    assert_eq!(cfg.app.log_level, "debug");
    assert_eq!(cfg.database.url, "postgres://localhost/mdr");
    assert_eq!(cfg.database.max_connections, Some(8));
    assert_eq!(cfg.database.timeout, Some(30));
}
