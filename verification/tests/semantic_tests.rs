use schema_semantic::codec::EntityId;
use schema_semantic::err::SemanticError;
use schema_semantic::item::{ItemKind, ItemPath};
use schema_semantic::prim::{ConcreteKind, PrimitiveKind};
use schema_semantic::project::{all_defined_components, build_type_map};
use schema_semantic::semantic::{
    DocAttribute, DocComponent, DocConcept, DocMessage, DocScope, DocType, DocTypeInner, Semantic,
};

fn empty_scope() -> DocScope {
    DocScope {
        components: vec![],
        concepts: vec![],
        messages: vec![],
        types: vec![],
        attributes: vec![],
        scopes: vec![],
    }
}

fn prim_type(name: &str, prim: &str) -> DocType {
    DocType {
        name: name.to_string(),
        description: None,
        inner: DocTypeInner::Primitive(prim.to_string()),
    }
}

fn component(name: &str, type_path: &[&str]) -> DocComponent {
    DocComponent {
        name: name.to_string(),
        description: None,
        type_path: type_path.iter().map(|s| s.to_string()).collect(),
        attribute_paths: vec![],
        default_value: None,
    }
}

fn path(segments: &[&str]) -> ItemPath {
    ItemPath::new(segments.iter().map(|s| s.to_string()).collect())
}

#[test]
fn primitive_map_covers_vec_and_option_forms() {
    let mut sem = Semantic::new();
    let mut doc = empty_scope();
    doc.types.push(prim_type("Vec3f", "Vec3"));
    doc.types.push(prim_type("BoolT", "Bool"));
    assert!(sem.add_document(&doc).is_ok());
    assert!(sem.resolve().is_ok());
    let root = sem.root_scope();
    let tid = sem
        .items
        .lookup_path(root, &path(&["Vec3f"]), ItemKind::Type)
        .unwrap();
    let m = build_type_map(&mut sem).unwrap();
    assert_eq!(m.get(tid), Some(ConcreteKind::Scalar(PrimitiveKind::Vec3)));
    let vid = sem.items.get_vec_id(tid);
    let oid = sem.items.get_option_id(tid);
    assert_eq!(m.get(vid), Some(ConcreteKind::VecOf(PrimitiveKind::Vec3)));
    assert_eq!(m.get(oid), Some(ConcreteKind::OptionOf(PrimitiveKind::Vec3)));
}

#[test]
fn vec_and_option_synthesis_is_memoized() {
    let mut sem = Semantic::new();
    let mut doc = empty_scope();
    doc.types.push(prim_type("F32T", "F32"));
    assert!(sem.add_document(&doc).is_ok());
    let root = sem.root_scope();
    let tid = sem
        .items
        .lookup_path(root, &path(&["F32T"]), ItemKind::Type)
        .unwrap();
    let v1 = sem.items.get_vec_id(tid);
    let v2 = sem.items.get_vec_id(tid);
    assert_eq!(v1, v2);
    let o1 = sem.items.get_option_id(tid);
    let o2 = sem.items.get_option_id(tid);
    assert_eq!(o1, o2);
    assert_ne!(v1, o1);
}

#[test]
fn enum_maps_to_u32_at_any_depth() {
    let mut sem = Semantic::new();
    let mut inner = empty_scope();
    inner.types.push(DocType {
        name: "state".to_string(),
        description: None,
        inner: DocTypeInner::Enumeration(vec![
            ("Idle".to_string(), String::new()),
            ("Running".to_string(), String::new()),
        ]),
    });
    let mut mid = empty_scope();
    mid.scopes.push(("inner".to_string(), inner));
    let mut doc = empty_scope();
    doc.scopes.push(("outer".to_string(), mid));
    assert!(sem.add_document(&doc).is_ok());
    let root = sem.root_scope();
    let tid = sem
        .items
        .lookup_path(root, &path(&["outer", "inner", "state"]), ItemKind::Type)
        .unwrap();
    let m = build_type_map(&mut sem).unwrap();
    assert_eq!(m.get(tid), Some(ConcreteKind::Scalar(PrimitiveKind::U32)));
}

#[test]
fn resolve_twice_is_idempotent() {
    let mut sem = Semantic::new();
    let mut doc = empty_scope();
    doc.types.push(prim_type("U32T", "U32"));
    doc.components.push(component("count", &["U32T"]));
    assert!(sem.add_document(&doc).is_ok());
    assert!(sem.resolve().is_ok());
    assert!(sem.resolve().is_ok());
    let descs = all_defined_components(&mut sem).unwrap();
    assert_eq!(descs.len(), 1);
    assert_eq!(descs[0].path, "count");
}

#[test]
fn forward_reference_across_documents_resolves() {
    let mut sem = Semantic::new();
    let mut first = empty_scope();
    first.components.push(component("velocity", &["Vec3f"]));
    let mut second = empty_scope();
    second.types.push(prim_type("Vec3f", "Vec3"));
    assert!(sem.add_document(&first).is_ok());
    assert!(sem.add_document(&second).is_ok());
    assert!(sem.resolve().is_ok());
}

#[test]
fn unknown_path_reports_the_exact_path() {
    let mut sem = Semantic::new();
    let mut doc = empty_scope();
    doc.components.push(component("velocity", &["NoSuchType"]));
    assert!(sem.add_document(&doc).is_ok());
    let errs = sem.resolve().unwrap_err();
    assert_eq!(errs.len(), 1);
    match &errs[0] {
        SemanticError::UnknownPath { path, origin } => {
            assert_eq!(path, "NoSuchType");
            assert_eq!(origin, "velocity");
        }
        other => panic!("expected UnknownPath, got {:?}", other),
    }
}

#[test]
fn display_path_two_scopes_deep() {
    let mut sem = Semantic::new();
    let mut inner = empty_scope();
    inner.types.push(prim_type("BoolT", "Bool"));
    inner.components.push(component("item_name", &["BoolT"]));
    let mut outer = empty_scope();
    outer.scopes.push(("inner".to_string(), inner));
    let mut doc = empty_scope();
    doc.scopes.push(("outer".to_string(), outer));
    assert!(sem.add_document(&doc).is_ok());
    let root = sem.root_scope();
    let cid = sem
        .items
        .lookup_path(
            root,
            &path(&["outer", "inner", "item_name"]),
            ItemKind::Component,
        )
        .unwrap();
    let p = sem.items.fully_qualified_display_path(cid).unwrap();
    assert_eq!(p, "outer.inner.item_name");
}

#[test]
fn projection_orders_descriptors_by_declaration() {
    let mut sem = Semantic::new();
    let mut debug = empty_scope();
    debug.components.push(component("velocityTrace", &["Vec3f"]));
    let mut physics = empty_scope();
    physics.components.push(component("velocity", &["Vec3f"]));
    physics.scopes.push(("debug".to_string(), debug));
    let mut doc = empty_scope();
    doc.types.push(prim_type("Vec3f", "Vec3"));
    doc.scopes.push(("physics".to_string(), physics));
    assert!(sem.add_document(&doc).is_ok());
    assert!(sem.resolve().is_ok());
    let descs = all_defined_components(&mut sem).unwrap();
    assert_eq!(descs.len(), 2);
    assert_eq!(descs[0].path, "physics.velocity");
    assert_eq!(descs[1].path, "physics.debug.velocityTrace");
    assert_eq!(descs[0].kind, ConcreteKind::Scalar(PrimitiveKind::Vec3));
    assert_eq!(descs[1].kind, ConcreteKind::Scalar(PrimitiveKind::Vec3));
}

#[test]
fn enum_component_projects_to_u32_and_serializes_ordinal() {
    let mut sem = Semantic::new();
    let mut doc = empty_scope();
    doc.types.push(DocType {
        name: "state".to_string(),
        description: None,
        inner: DocTypeInner::Enumeration(vec![
            ("Idle".to_string(), String::new()),
            ("Running".to_string(), String::new()),
            ("Stopped".to_string(), String::new()),
        ]),
    });
    doc.components.push(component("currentState", &["state"]));
    assert!(sem.add_document(&doc).is_ok());
    assert!(sem.resolve().is_ok());
    let descs = all_defined_components(&mut sem).unwrap();
    assert_eq!(descs.len(), 1);
    assert_eq!(descs[0].name, "currentState");
    assert_eq!(descs[0].kind, ConcreteKind::Scalar(PrimitiveKind::U32));

    let members = vec![
        ("Idle".to_string(), String::new()),
        ("Running".to_string(), String::new()),
        ("Stopped".to_string(), String::new()),
    ];
    let mut out: Vec<u8> = Vec::new();
    schema_semantic::codec::serialize_enum_value(&members, &"Running".to_string(), &mut out)
        .unwrap();
    assert_eq!(out, vec![0u8, 0, 0, 1]);
}

#[test]
fn attributes_project_to_upper_camel_case() {
    let mut sem = Semantic::new();
    let mut doc = empty_scope();
    doc.types.push(prim_type("BoolT", "Bool"));
    doc.attributes.push(DocAttribute {
        name: "networked".to_string(),
        description: None,
    });
    doc.attributes.push(DocAttribute {
        name: "debug_only".to_string(),
        description: None,
    });
    doc.components.push(DocComponent {
        name: "visible".to_string(),
        description: Some("whether drawn".to_string()),
        type_path: vec!["BoolT".to_string()],
        attribute_paths: vec![vec!["networked".to_string()], vec!["debug_only".to_string()]],
        default_value: None,
    });
    assert!(sem.add_document(&doc).is_ok());
    assert!(sem.resolve().is_ok());
    let descs = all_defined_components(&mut sem).unwrap();
    assert_eq!(descs.len(), 1);
    assert_eq!(descs[0].attributes, vec!["Networked".to_string(), "DebugOnly".to_string()]);
    assert_eq!(descs[0].description, Some("whether drawn".to_string()));
}

#[test]
fn duplicate_name_is_rejected_at_parse_time() {
    let mut sem = Semantic::new();
    let mut doc = empty_scope();
    doc.types.push(prim_type("BoolT", "Bool"));
    doc.components.push(component("visible", &["BoolT"]));
    doc.components.push(component("visible", &["BoolT"]));
    match sem.add_document(&doc) {
        Err(SemanticError::DuplicateName { name }) => assert_eq!(name, "visible"),
        other => panic!("expected DuplicateName, got {:?}", other),
    }
}

#[test]
fn unrecognized_primitive_is_a_fatal_configuration_error() {
    let mut sem = Semantic::new();
    let mut doc = empty_scope();
    doc.types.push(prim_type("Weird", "Complex128"));
    assert!(sem.add_document(&doc).is_ok());
    assert!(sem.resolve().is_ok());
    match build_type_map(&mut sem) {
        Err(SemanticError::UnrecognizedPrimitive { name }) => assert_eq!(name, "Complex128"),
        other => panic!("expected UnrecognizedPrimitive, got {:?}", other.err()),
    }
}

#[test]
fn nearest_enclosing_scope_wins() {
    let mut sem = Semantic::new();
    let mut inner = empty_scope();
    inner.types.push(DocType {
        name: "T".to_string(),
        description: None,
        inner: DocTypeInner::Enumeration(vec![("On".to_string(), String::new())]),
    });
    inner.components.push(component("shadowed", &["T"]));
    let mut doc = empty_scope();
    doc.types.push(prim_type("T", "Bool"));
    doc.scopes.push(("inner".to_string(), inner));
    assert!(sem.add_document(&doc).is_ok());
    assert!(sem.resolve().is_ok());
    let descs = all_defined_components(&mut sem).unwrap();
    assert_eq!(descs.len(), 1);
    // The component's own scope declares T as an enumeration; the root's
    // Bool-typed T is shadowed, so the projected kind is the enum's U32.
    assert_eq!(descs[0].kind, ConcreteKind::Scalar(PrimitiveKind::U32));
}

#[test]
fn non_root_primitive_is_an_internal_consistency_fault() {
    let mut sem = Semantic::new();
    let mut inner = empty_scope();
    inner.types.push(prim_type("T", "U32"));
    inner.components.push(component("orphan", &["T"]));
    let mut doc = empty_scope();
    doc.scopes.push(("inner".to_string(), inner));
    assert!(sem.add_document(&doc).is_ok());
    assert!(sem.resolve().is_ok());
    // Pass one classifies only root-scope primitives, so this component's
    // type is never classified and projection must fail loudly.
    assert!(matches!(
        all_defined_components(&mut sem),
        Err(SemanticError::UnclassifiedType { .. })
    ));
}

#[test]
fn entity_id_round_trips_through_its_wire_form() {
    let id = EntityId { id0: 0x0123456789abcdef, id1: 0xfedcba9876543210 };
    let mut out: Vec<u8> = Vec::new();
    id.serialize_message_part(&mut out);
    assert_eq!(out.len(), 16);
    assert_eq!(out[0], 0x01);
    assert_eq!(out[15], 0x10);
    let (back, end) = EntityId::deserialize_message_part(&out, 0).unwrap();
    assert_eq!(back, id);
    assert_eq!(end, 16);
    assert!(EntityId::deserialize_message_part(&out, 1).is_err());
}

#[test]
fn concept_extends_and_defaults_resolve() {
    let mut sem = Semantic::new();
    let mut doc = empty_scope();
    doc.types.push(prim_type("F32T", "F32"));
    doc.components.push(component("mass", &["F32T"]));
    doc.concepts.push(DocConcept {
        name: "body".to_string(),
        description: None,
        extends: vec![],
        defaults: vec![(vec!["mass".to_string()], "1.0".to_string())],
    });
    doc.concepts.push(DocConcept {
        name: "heavy_body".to_string(),
        description: None,
        extends: vec![vec!["body".to_string()]],
        defaults: vec![(vec!["mass".to_string()], "100.0".to_string())],
    });
    assert!(sem.add_document(&doc).is_ok());
    assert!(sem.resolve().is_ok());
}

#[test]
fn message_field_types_resolve() {
    let mut sem = Semantic::new();
    let mut doc = empty_scope();
    doc.types.push(prim_type("StringT", "String"));
    doc.messages.push(DocMessage {
        name: "chat".to_string(),
        description: Some("a chat line".to_string()),
        fields: vec![("text".to_string(), vec!["StringT".to_string()])],
    });
    assert!(sem.add_document(&doc).is_ok());
    assert!(sem.resolve().is_ok());
}

#[test]
fn concept_with_unknown_parent_fails_resolution() {
    let mut sem = Semantic::new();
    let mut doc = empty_scope();
    doc.concepts.push(DocConcept {
        name: "orphan_concept".to_string(),
        description: None,
        extends: vec![vec!["missing".to_string(), "parent".to_string()]],
        defaults: vec![],
    });
    assert!(sem.add_document(&doc).is_ok());
    let errs = sem.resolve().unwrap_err();
    assert_eq!(errs.len(), 1);
    match &errs[0] {
        SemanticError::UnknownPath { path, origin } => {
            assert_eq!(path, "missing.parent");
            assert_eq!(origin, "orphan_concept");
        }
        other => panic!("expected UnknownPath, got {:?}", other),
    }
}

#[test]
fn scopes_merge_across_documents() {
    let mut sem = Semantic::new();
    let mut physics_a = empty_scope();
    physics_a.components.push(component("velocity", &["Vec3f"]));
    let mut doc_a = empty_scope();
    doc_a.types.push(prim_type("Vec3f", "Vec3"));
    doc_a.scopes.push(("physics".to_string(), physics_a));
    let mut physics_b = empty_scope();
    physics_b.components.push(component("angular_velocity", &["Vec3f"]));
    let mut doc_b = empty_scope();
    doc_b.scopes.push(("physics".to_string(), physics_b));
    assert!(sem.add_document(&doc_a).is_ok());
    assert!(sem.add_document(&doc_b).is_ok());
    assert!(sem.resolve().is_ok());
    let descs = all_defined_components(&mut sem).unwrap();
    assert_eq!(descs.len(), 2);
    assert_eq!(descs[0].path, "physics.velocity");
    assert_eq!(descs[1].path, "physics.angular_velocity");
}

#[test]
fn projection_of_an_unresolved_graph_fails_loudly() {
    let mut sem = Semantic::new();
    let mut doc = empty_scope();
    doc.types.push(prim_type("BoolT", "Bool"));
    doc.components.push(component("visible", &["BoolT"]));
    assert!(sem.add_document(&doc).is_ok());
    // Resolution was never run: the component's type cell is still a raw
    // path, which projection must report, never silently default.
    assert!(matches!(
        all_defined_components(&mut sem),
        Err(SemanticError::UnclassifiedType { .. })
    ));
}

#[test]
fn resolve_reports_one_error_per_unresolved_cell() {
    let mut sem = Semantic::new();
    let mut doc = empty_scope();
    doc.components.push(component("velocity", &["NoSuchType"]));
    doc.components.push(component("spin", &["AlsoMissing"]));
    assert!(sem.add_document(&doc).is_ok());
    let errs = sem.resolve().unwrap_err();
    assert_eq!(errs.len(), 2);
    match (&errs[0], &errs[1]) {
        (
            SemanticError::UnknownPath { path: p0, origin: o0 },
            SemanticError::UnknownPath { path: p1, origin: o1 },
        ) => {
            assert_eq!(p0, "NoSuchType");
            assert_eq!(o0, "velocity");
            assert_eq!(p1, "AlsoMissing");
            assert_eq!(o1, "spin");
        }
        other => panic!("expected two UnknownPath errors, got {:?}", other),
    }
}

#[test]
fn projection_fails_on_unrecognized_root_primitive_even_after_resolve() {
    let mut sem = Semantic::new();
    let mut doc = empty_scope();
    doc.types.push(prim_type("Weird", "Complex128"));
    doc.components.push(component("w", &["Weird"]));
    assert!(sem.add_document(&doc).is_ok());
    assert!(sem.resolve().is_ok());
    assert!(matches!(
        all_defined_components(&mut sem),
        Err(SemanticError::UnrecognizedPrimitive { .. })
    ));
}
