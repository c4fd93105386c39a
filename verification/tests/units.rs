use mdmodels::frontmatter::{
    default_id_field, default_prefix, default_repo, resolve_front_matter, FrontMatter,
    RawFrontMatter,
};
use mdmodels::model::{Enumeration, Object};
use mdmodels::parser::process_option;
use mdmodels::primitives::PrimitiveTypes;
use mdmodels::strutil::{find_term, first_token_str, sans_quotes_str, strip_html, trim_str};
use mdmodels::xmltype::{XMLType, XMLWire};

#[test]
fn xmltype_attribute_round_trip() {
    let parsed = XMLType::from_str("@id").unwrap();
    assert_eq!(
        parsed,
        XMLType::Attribute { is_attr: true, name: "id".to_string() }
    );
    let wire = parsed.to_wire();
    assert_eq!(wire, XMLWire { is_attr: true, name: "id".to_string() });
    let back = XMLType::from_wire(wire);
    assert_eq!(back, parsed);
}

#[test]
fn xmltype_element_round_trip() {
    let parsed = XMLType::from_str("name").unwrap();
    assert_eq!(
        parsed,
        XMLType::Element { is_attr: false, name: "name".to_string() }
    );
    let wire = parsed.to_wire();
    assert_eq!(wire, XMLWire { is_attr: false, name: "name".to_string() });
    assert_eq!(XMLType::from_wire(wire), parsed);
}

#[test]
fn primitive_conversion() {
    let prims = PrimitiveTypes::new();
    assert_eq!(prims.dtype_to_json(&"bool".to_string()), "boolean");
    assert_eq!(prims.dtype_to_json(&"float".to_string()), "number");
    assert_eq!(prims.dtype_to_json(&"string".to_string()), "string");
    assert_eq!(prims.dtype_to_json(&"integer".to_string()), "integer");
    assert_eq!(prims.dtype_to_json(&"null".to_string()), "null");
}

#[test]
fn primitive_classification() {
    let prims = PrimitiveTypes::new();
    assert!(prims.is_primitive("boolean"));
    assert!(!prims.is_primitive("Thing"));
    let names = vec!["string".to_string(), "Thing".to_string()];
    assert_eq!(prims.filter_non_primitives(&names), vec!["Thing".to_string()]);
    assert_eq!(prims.filter_primitive(&names), vec!["string".to_string()]);
}

#[test]
fn config_defaults_when_all_fields_omitted() {
    let fm = resolve_front_matter(RawFrontMatter {
        id_field: None,
        prefixes: None,
        nsmap: None,
        repo: None,
        prefix: None,
    });
    assert!(fm.id_field);
    assert_eq!(fm.repo, "http://mdmodel.net/");
    assert_eq!(fm.prefix, "md");
    assert!(fm.prefixes.is_none());
    assert!(fm.nsmap.is_none());
    assert_eq!(fm, FrontMatter::default());
}

#[test]
fn config_defaults_preserved_beside_explicit_repo() {
    let fm = resolve_front_matter(RawFrontMatter {
        id_field: None,
        prefixes: None,
        nsmap: None,
        repo: Some("x".to_string()),
        prefix: None,
    });
    assert!(fm.id_field);
    assert_eq!(fm.repo, "x");
    assert_eq!(fm.prefix, "md");
}

#[test]
fn front_matter_accessors() {
    let fm = FrontMatter {
        id_field: false,
        prefixes: Some(vec![("schema".to_string(), "http://schema.org/".to_string())]),
        nsmap: Some(vec![("tst".to_string(), "http://example.com/test/".to_string())]),
        repo: default_repo(),
        prefix: default_prefix(),
    };
    assert!(!fm.id_field());
    let prefixes = fm.prefixes().unwrap();
    assert_eq!(prefixes.len(), 1);
    assert_eq!(prefixes[0].0, "schema");
    assert_eq!(prefixes[0].1, "http://schema.org/");
    let nsmap = fm.nsmap().as_ref().unwrap();
    assert_eq!(nsmap[0].1, "http://example.com/test/");
    assert!(default_id_field());
}

#[test]
fn process_option_splits_on_first_colon() {
    let (k, v) = process_option(&"type: float".to_string());
    assert_eq!(k, "type");
    assert_eq!(v, "float");
    let (k2, v2) = process_option(&" pattern :  a:b:c ".to_string());
    assert_eq!(k2, "pattern");
    assert_eq!(v2, "a:b:c");
}

#[test]
fn enumeration_insert_sorts_and_replaces() {
    let mut e = Enumeration::new("E".to_string());
    e.insert("B".to_string(), "2".to_string());
    e.insert("A".to_string(), "1".to_string());
    e.insert("B".to_string(), "3".to_string());
    assert_eq!(
        e.mappings,
        vec![("A".to_string(), "1".to_string()), ("B".to_string(), "3".to_string())]
    );
    assert!(e.has_values());
}

#[test]
fn object_mutators() {
    let mut o = Object::new("O".to_string(), None);
    assert!(!o.has_attributes());
    o.create_new_attribute("a".to_string(), true);
    assert!(o.has_attributes());
    assert_eq!(o.attributes[0].name, "a");
    assert!(o.attributes[0].required);
}

#[test]
fn string_helpers() {
    assert_eq!(trim_str("  a b \t"), "a b");
    assert_eq!(trim_str("   "), "");
    assert_eq!(first_token_str("  Foo (bar)"), Some("Foo".to_string()));
    assert_eq!(first_token_str(" \t "), None);
    assert_eq!(find_term("Foo (bar) (baz)"), Some("bar".to_string()));
    assert_eq!(find_term("Foo ()(x)"), Some("x".to_string()));
    assert_eq!(find_term("Foo"), None);
    assert_eq!(sans_quotes_str("\"a\"b\""), "ab");
    assert_eq!(strip_html("a<b>c</b>d"), "acd");
    assert_eq!(strip_html("no tags"), "no tags");
    assert_eq!(strip_html("a<b"), "a<b");
    assert_eq!(strip_html("<a href=\"x\">link</a>"), "link");
}

#[test]
fn stripping_tags_is_idempotent() {
    let once = strip_html("a<b>c</b>d<unclosed");
    let twice = strip_html(&once);
    assert_eq!(once, twice);
    assert_eq!(once, "acd<unclosed");
}
