use graphql_registry::errors::RegistryError;
use graphql_registry::meta::CacheControl;
use graphql_registry::meta::Deprecation;
use graphql_registry::meta::MetaField;
use graphql_registry::meta::MetaType;
use graphql_registry::registry::Registry;
use graphql_registry::union_composer::UnionMember;
use graphql_registry::union_composer::compose_union;
use graphql_registry::union_composer::dispatch_concrete_name;

fn field(name: &str, ty: &str) -> MetaField {
    MetaField {
        name: name.to_string(),
        description: None,
        args: Vec::new(),
        ty: ty.to_string(),
        deprecation: Deprecation::NoDeprecated,
        cache_control: CacheControl { public: true, max_age: 0 },
        external: false,
        requires_set: None,
        provides: None,
        visible: None,
        shareable: false,
        inaccessible: false,
        tags: Vec::new(),
        override_from: None,
        compute_complexity: None,
    }
}

fn object(name: &str, fields: Vec<MetaField>, keys: Option<Vec<String>>) -> MetaType {
    MetaType::Object {
        name: name.to_string(),
        description: None,
        fields,
        cache_control: CacheControl { public: true, max_age: 0 },
        extends: false,
        shareable: false,
        keys,
        visible: None,
        inaccessible: false,
        tags: Vec::new(),
        is_subscription: false,
        rust_typename: format!("app::{}", name),
    }
}

fn union_ty(name: &str, possible: &[&str]) -> MetaType {
    let mut set = indexmap::IndexSet::new();
    for p in possible {
        set.insert(p.to_string());
    }
    MetaType::Union {
        name: name.to_string(),
        description: None,
        possible_types: set,
        visible: None,
        inaccessible: false,
        tags: Vec::new(),
        rust_typename: format!("app::{}", name),
    }
}

fn base_registry() -> Registry {
    let mut reg = Registry::new();
    reg.query_type = "Query".to_string();
    reg.finish_create("A", object("A", vec![], None));
    reg.finish_create("C", object("C", vec![], None));
    reg.finish_create("D", object("D", vec![], None));
    reg.finish_create("B", union_ty("B", &["C", "D"]));
    reg
}

#[test]
fn flattening_merges_member_unions() {
    // Union{A, Flatten(B)} with B = Union{C, D} composes to {A, C, D}
    let reg = base_registry();
    let members = vec![
        UnionMember::Direct("A".to_string()),
        UnionMember::Flattened("B".to_string()),
    ];
    let ps = compose_union(&reg, &members).expect("composes");
    let got: Vec<&str> = ps.iter().map(|s| s.as_str()).collect();
    assert_eq!(got, vec!["A", "C", "D"]);
}

#[test]
fn duplicate_member_is_fatal() {
    let reg = base_registry();
    let members = vec![
        UnionMember::Direct("A".to_string()),
        UnionMember::Direct("A".to_string()),
    ];
    match compose_union(&reg, &members) {
        Err(RegistryError::DuplicateMember { name }) => assert_eq!(name, "A"),
        _ => panic!("expected a duplicate-member error"),
    }
    // Direct and Flattened share one identity space
    let members = vec![
        UnionMember::Direct("B".to_string()),
        UnionMember::Flattened("B".to_string()),
    ];
    assert!(matches!(
        compose_union(&reg, &members),
        Err(RegistryError::DuplicateMember { .. })
    ));
}

#[test]
fn empty_union_is_fatal() {
    let reg = base_registry();
    let members: Vec<UnionMember> = Vec::new();
    assert!(matches!(compose_union(&reg, &members), Err(RegistryError::EmptyUnion)));
}

#[test]
fn invalid_members_are_fatal() {
    let reg = base_registry();
    // a Direct member must expose Object capability
    let members = vec![UnionMember::Direct("B".to_string())];
    match compose_union(&reg, &members) {
        Err(RegistryError::InvalidMember { name }) => assert_eq!(name, "B"),
        _ => panic!("expected an invalid-member error"),
    }
    // a Flattened member must itself resolve to a set of possible types
    let members = vec![UnionMember::Flattened("A".to_string())];
    assert!(matches!(
        compose_union(&reg, &members),
        Err(RegistryError::InvalidMember { .. })
    ));
    let members = vec![UnionMember::Direct("Missing".to_string())];
    assert!(matches!(
        compose_union(&reg, &members),
        Err(RegistryError::InvalidMember { .. })
    ));
}

#[test]
fn dispatch_follows_the_active_tag() {
    let members = vec![
        UnionMember::Direct("A".to_string()),
        UnionMember::Flattened("B".to_string()),
    ];
    assert_eq!(dispatch_concrete_name(&members, 0, None), Some("A".to_string()));
    assert_eq!(
        dispatch_concrete_name(&members, 1, Some("C".to_string())),
        Some("C".to_string())
    );
    assert_eq!(dispatch_concrete_name(&members, 1, None), None);
    assert_eq!(dispatch_concrete_name(&members, 2, Some("C".to_string())), None);
}

#[test]
fn federation_synthesis_with_keyed_types() {
    let mut reg = Registry::new();
    reg.query_type = "Query".to_string();
    reg.finish_create("Query", object("Query", vec![field("p", "Product")], None));
    reg.finish_create("Product", object("Product", vec![], Some(vec!["id".to_string()])));
    reg.finish_create("Review", object("Review", vec![], Some(vec!["id".to_string()])));
    assert!(reg.has_entities());
    reg.create_federation_types();

    match reg.concrete_type_by_name("_Entity").expect("_Entity injected") {
        MetaType::Union { possible_types, .. } => {
            let mut got: Vec<&str> = possible_types.iter().map(|s| s.as_str()).collect();
            got.sort();
            assert_eq!(got, vec!["Product", "Review"]);
        }
        _ => panic!("_Entity must be a Union"),
    }
    match reg.concrete_type_by_name("_Service").expect("_Service injected") {
        MetaType::Object { fields, .. } => {
            assert_eq!(fields.len(), 1);
            assert_eq!(fields[0].name, "sdl");
            assert_eq!(fields[0].ty, "String");
        }
        _ => panic!("_Service must be an Object"),
    }
    assert!(reg.concrete_type_by_name("_Any").is_some());
    let query = reg.concrete_type_by_name("Query").expect("query root kept");
    let service = query.field_by_name("_service").expect("_service added");
    assert_eq!(service.ty, "_Service!");
    let entities = query.field_by_name("_entities").expect("_entities added");
    assert_eq!(entities.ty, "[_Entity]!");
    assert_eq!(entities.args.len(), 1);
    assert_eq!(entities.args[0].name, "representations");
    assert_eq!(entities.args[0].ty, "[_Any!]!");

    // the synthesized names count as extra pruning roots
    reg.remove_unused_types();
    let names: Vec<String> = reg.types.iter().map(|p| p.0.clone()).collect();
    assert!(names.contains(&"_Entity".to_string()));
    assert!(names.contains(&"Product".to_string()));
    assert!(names.contains(&"Review".to_string()));
}

#[test]
fn federation_synthesis_without_keyed_types() {
    let mut reg = Registry::new();
    reg.query_type = "Query".to_string();
    reg.finish_create("Query", object("Query", vec![], None));
    assert!(!reg.has_entities());
    reg.create_federation_types();
    assert!(reg.concrete_type_by_name("_Entity").is_none());
    assert!(reg.concrete_type_by_name("_Service").is_none());
    let query = reg.concrete_type_by_name("Query").unwrap();
    assert!(query.field_by_name("_service").is_none());
    assert!(query.field_by_name("_entities").is_none());
}
