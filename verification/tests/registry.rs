use graphql_registry::errors::RegistryError;
use graphql_registry::meta::CacheControl;
use graphql_registry::meta::Deprecation;
use graphql_registry::meta::MetaField;
use graphql_registry::meta::MetaType;
use graphql_registry::meta::MetaTypeId;
use graphql_registry::meta::ViewerContext;
use graphql_registry::meta::is_system_type;
use graphql_registry::registry::Registry;
use graphql_registry::registry::TypeSlot;
use graphql_registry::registry::ParsedBaseType;
use graphql_registry::registry::ParsedTypeRef;

fn field(name: &str, ty: &str) -> MetaField {
    MetaField {
        name: name.to_string(),
        description: None,
        args: Vec::new(),
        ty: ty.to_string(),
        deprecation: Deprecation::NoDeprecated,
        cache_control: CacheControl { public: true, max_age: 0 },
        external: false,
        requires_set: None,
        provides: None,
        visible: None,
        shareable: false,
        inaccessible: false,
        tags: Vec::new(),
        override_from: None,
        compute_complexity: None,
    }
}

fn object(name: &str, fields: Vec<MetaField>) -> MetaType {
    object_with(name, fields, None, None)
}

fn object_with(
    name: &str,
    fields: Vec<MetaField>,
    keys: Option<Vec<String>>,
    visible: Option<u64>,
) -> MetaType {
    MetaType::Object {
        name: name.to_string(),
        description: None,
        fields,
        cache_control: CacheControl { public: true, max_age: 0 },
        extends: false,
        shareable: false,
        keys,
        visible,
        inaccessible: false,
        tags: Vec::new(),
        is_subscription: false,
        rust_typename: format!("app::{}", name),
    }
}

fn scalar(name: &str) -> MetaType {
    MetaType::Scalar {
        name: name.to_string(),
        description: None,
        is_valid: 0,
        visible: None,
        inaccessible: false,
        tags: Vec::new(),
        specified_by_url: None,
    }
}

fn interface(name: &str, possible: &[&str], visible: Option<u64>) -> MetaType {
    let mut set = indexmap::IndexSet::new();
    for p in possible {
        set.insert(p.to_string());
    }
    MetaType::Interface {
        name: name.to_string(),
        description: None,
        fields: Vec::new(),
        possible_types: set,
        extends: false,
        keys: None,
        visible,
        inaccessible: false,
        tags: Vec::new(),
        rust_typename: format!("app::{}", name),
    }
}

fn union(name: &str, possible: &[&str]) -> MetaType {
    let mut set = indexmap::IndexSet::new();
    for p in possible {
        set.insert(p.to_string());
    }
    MetaType::Union {
        name: name.to_string(),
        description: None,
        possible_types: set,
        visible: None,
        inaccessible: false,
        tags: Vec::new(),
        rust_typename: format!("app::{}", name),
    }
}

fn names_of(reg: &Registry) -> Vec<String> {
    let mut v: Vec<String> = reg.types.iter().map(|p| p.0.clone()).collect();
    v.sort();
    v
}

fn query_root_registry() -> Registry {
    let mut reg = Registry::new();
    reg.query_type = "Query".to_string();
    reg
}

#[test]
fn reregistering_same_identity_is_a_noop() {
    let reg = query_root_registry();
    let build = |r: Registry| (r, object("Thing", vec![]));
    let (reg, res) = reg.create_type(build, "Thing", "app::Thing", MetaTypeId::Object);
    assert!(res.is_ok());
    let (reg, res) = reg.create_type(build, "Thing", "app::Thing", MetaTypeId::Object);
    assert!(res.is_ok());
    let count = reg.types.iter().filter(|p| p.0 == "Thing").count();
    assert_eq!(count, 1);
}

fn build_node(r: Registry) -> (Registry, MetaType) {
    // a self-referential type registers the type it refers to, which
    // is itself: the sentinel cuts the recursion off
    let (r, res) = r.create_type(build_node, "Node", "app::Node", MetaTypeId::Object);
    assert!(res.is_ok());
    (r, object("Node", vec![field("next", "Node")]))
}

#[test]
fn self_referential_type_registers_and_resolves() {
    let reg = query_root_registry();
    let (reg, res) = reg.create_type(build_node, "Node", "app::Node", MetaTypeId::Object);
    assert!(res.is_ok());
    let node = reg.concrete_type_by_name("Node").expect("Node registered");
    let next = node.field_by_name("next").expect("field kept");
    let target = reg.concrete_type_by_name(&next.ty).expect("field type resolves");
    assert_eq!(target.name(), "Node");
}

#[test]
fn identity_conflict_is_fatal() {
    let reg = query_root_registry();
    let (reg, res) =
        reg.create_type(|r| (r, object("Thing", vec![])), "Thing", "app::Thing", MetaTypeId::Object);
    assert!(res.is_ok());
    let (_, res) = reg.create_type(
        |r| (r, object("Thing", vec![])),
        "Thing",
        "other::Thing",
        MetaTypeId::Object,
    );
    match res {
        Err(RegistryError::NameIdentityMismatch { name, existing, requested }) => {
            assert_eq!(name, "Thing");
            assert_eq!(existing, "app::Thing");
            assert_eq!(requested, "other::Thing");
        }
        _ => panic!("expected an identity conflict"),
    }
}

#[test]
fn whitelisted_identity_merge_is_allowed() {
    let mut reg = query_root_registry();
    reg.ignore_name_conflicts.push("Thing".to_string());
    let (reg, res) =
        reg.create_type(|r| (r, object("Thing", vec![])), "Thing", "app::Thing", MetaTypeId::Object);
    assert!(res.is_ok());
    let (_, res) = reg.create_type(
        |r| (r, object("Thing", vec![])),
        "Thing",
        "other::Thing",
        MetaTypeId::Object,
    );
    assert!(res.is_ok());
}

#[test]
fn kind_conflict_is_fatal() {
    let reg = query_root_registry();
    let (reg, res) =
        reg.create_type(|r| (r, object("Thing", vec![])), "Thing", "app::Thing", MetaTypeId::Object);
    assert!(res.is_ok());
    let (_, res) = reg.create_type(
        |r| (r, object("Thing", vec![])),
        "Thing",
        "app::Thing",
        MetaTypeId::Enum,
    );
    match res {
        Err(RegistryError::NameKindMismatch { name, existing, requested }) => {
            assert_eq!(name, "Thing");
            assert_eq!(existing, MetaTypeId::Object);
            assert_eq!(requested, MetaTypeId::Enum);
        }
        _ => panic!("expected a kind conflict"),
    }
}

fn register_abc(order: [&str; 3]) -> Registry {
    let mut reg = query_root_registry();
    for name in order {
        let ty = match name {
            "A" => object("A", vec![field("b", "B")]),
            "B" => object("B", vec![]),
            _ => scalar("C"),
        };
        reg.finish_create(name, ty);
    }
    reg.finish_create("Query", object("Query", vec![field("a", "A")]));
    reg
}

#[test]
fn pruning_is_order_independent() {
    // every permutation yields an identical post-pruning descriptor set
    let mut expected: Option<Vec<String>> = None;
    for order in [
        ["A", "B", "C"],
        ["A", "C", "B"],
        ["B", "A", "C"],
        ["B", "C", "A"],
        ["C", "A", "B"],
        ["C", "B", "A"],
    ] {
        let mut reg = register_abc(order);
        reg.remove_unused_types();
        let got = names_of(&reg);
        match &expected {
            None => expected = Some(got),
            Some(e) => assert_eq!(&got, e),
        }
    }
    // and the unreferenced scalar C is gone while A and B survive
    let e = expected.unwrap();
    assert_eq!(e, vec!["A".to_string(), "B".to_string(), "Query".to_string()]);
}

#[test]
fn unused_scalar_removed_keyed_type_survives() {
    let mut reg = query_root_registry();
    reg.finish_create("Query", object("Query", vec![]));
    reg.finish_create("Lonely", scalar("Lonely"));
    reg.finish_create(
        "Product",
        object_with("Product", vec![], Some(vec!["id".to_string()]), None),
    );
    reg.remove_unused_types();
    let names = names_of(&reg);
    assert!(!names.contains(&"Lonely".to_string()));
    // a type reachable only through its federation key list survives
    assert!(names.contains(&"Product".to_string()));
    assert!(names.contains(&"Query".to_string()));
}

#[test]
fn builtin_scalar_survives_pruning() {
    let mut reg = query_root_registry();
    reg.finish_create("Query", object("Query", vec![]));
    reg.finish_create("Int", scalar("Int"));
    reg.remove_unused_types();
    assert!(names_of(&reg).contains(&"Int".to_string()));
}

#[test]
fn overlap_of_interface_and_members() {
    let i = interface("I", &["A", "B"], None);
    let a = object("A", vec![]);
    let b = object("B", vec![]);
    assert!(i.type_overlap(&a));
    assert!(a.type_overlap(&i));
    assert!(!a.type_overlap(&b));
    assert!(i.type_overlap(&i));
}

#[test]
fn overlap_of_two_abstract_types() {
    let i = interface("I", &["A", "B"], None);
    let u = union("U", &["B", "C"]);
    let v = union("V", &["C"]);
    assert!(i.type_overlap(&u));
    assert!(!i.type_overlap(&v));
}

#[test]
fn invisible_interface_repair_pass() {
    // the interface is unreachable by traversal, itself visible, and
    // one of its possible types is visible: the repair pass keeps it
    let mut reg = query_root_registry();
    reg.finish_create("Query", object("Query", vec![field("a", "A")]));
    reg.finish_create("A", object("A", vec![]));
    reg.finish_create("I", interface("I", &["A", "B"], None));
    let ctx = ViewerContext { hidden: Vec::new() };
    let visible = reg.find_visible_types(&ctx);
    assert!(visible.contains(&"I".to_string()));
    assert!(visible.contains(&"A".to_string()));
    assert!(visible.contains(&"Query".to_string()));
}

#[test]
fn hidden_predicate_blocks_traversal() {
    // predicate handle 7 returns false for this viewer: the type it
    // guards, and everything only reachable through it, disappears
    let mut reg = query_root_registry();
    reg.finish_create("Query", object("Query", vec![field("s", "Secret")]));
    reg.finish_create("Secret", object_with("Secret", vec![field("l", "Leaf")], None, Some(7)));
    reg.finish_create("Leaf", scalar("Leaf"));
    let all = reg.find_visible_types(&ViewerContext { hidden: Vec::new() });
    assert!(all.contains(&"Secret".to_string()));
    assert!(all.contains(&"Leaf".to_string()));
    let restricted = reg.find_visible_types(&ViewerContext { hidden: vec![7] });
    assert!(!restricted.contains(&"Secret".to_string()));
    assert!(!restricted.contains(&"Leaf".to_string()));
    assert!(restricted.contains(&"Query".to_string()));
}

#[test]
fn add_implements_is_idempotent() {
    let mut reg = query_root_registry();
    reg.add_implements("A", "I");
    reg.add_implements("A", "I");
    reg.add_implements("A", "J");
    let entry = reg.implements.iter().find(|p| p.0 == "A").expect("edge recorded");
    assert_eq!(entry.1, vec!["I".to_string(), "J".to_string()]);
}

#[test]
fn add_keys_appends_and_ignores_other_kinds() {
    let mut reg = query_root_registry();
    reg.finish_create("Product", object("Product", vec![]));
    reg.finish_create("Kind", scalar("Kind"));
    reg.add_keys("Product", "id");
    reg.add_keys("Product", "sku");
    reg.add_keys("Kind", "id");
    match reg.concrete_type_by_name("Product").unwrap() {
        MetaType::Object { keys, .. } => {
            assert_eq!(keys.as_ref().unwrap(), &vec!["id".to_string(), "sku".to_string()]);
        }
        _ => panic!("Product must stay an Object"),
    }
    match reg.concrete_type_by_name("Kind").unwrap() {
        MetaType::Scalar { .. } => {}
        _ => panic!("Kind must stay a Scalar"),
    }
}

#[test]
fn set_description_updates_one_type() {
    let mut reg = query_root_registry();
    reg.finish_create("Thing", object("Thing", vec![]));
    reg.set_description("Thing", "a thing");
    reg.set_description("Missing", "nothing");
    match reg.concrete_type_by_name("Thing").unwrap() {
        MetaType::Object { description, .. } => {
            assert_eq!(description.as_deref(), Some("a thing"));
        }
        _ => panic!("Thing must stay an Object"),
    }
}

#[test]
fn lookup_resolves_wrapped_references() {
    let mut reg = query_root_registry();
    reg.finish_create("Product", object("Product", vec![]));
    assert!(reg.concrete_type_by_name("[Product!]!").is_some());
    assert!(reg.concrete_type_by_name("Missing").is_none());
    let parsed = ParsedTypeRef {
        base: ParsedBaseType::List(Box::new(ParsedTypeRef {
            base: ParsedBaseType::Named("Product".to_string()),
            nullable: false,
        })),
        nullable: true,
    };
    let found = reg.concrete_type_by_parsed_type(&parsed).expect("nested list resolves");
    assert_eq!(found.name(), "Product");
}

#[test]
fn sentinel_slot_is_not_served() {
    let mut reg = query_root_registry();
    let r = reg.begin_create("Pending", "app::Pending", MetaTypeId::Object);
    assert_eq!(r, Ok(true));
    assert!(reg.concrete_type_by_name("Pending").is_none());
    assert!(matches!(reg.types.iter().find(|p| p.0 == "Pending").unwrap().1, TypeSlot::InProgress));
    // the recursion guard: a second request for the same name is a no-op
    let r = reg.begin_create("Pending", "app::Pending", MetaTypeId::Object);
    assert_eq!(r, Ok(false));
}

#[test]
fn system_names() {
    assert!(is_system_type("__Schema"));
    assert!(is_system_type("Boolean"));
    assert!(is_system_type("Int"));
    assert!(is_system_type("Float"));
    assert!(is_system_type("String"));
    assert!(is_system_type("ID"));
    assert!(!is_system_type("Product"));
    assert!(!is_system_type("_Entity"));
}

#[test]
fn deprecation_states() {
    let d = Deprecation::NoDeprecated;
    assert!(!d.is_deprecated());
    assert_eq!(d.reason(), None);
    let d = Deprecation::Deprecated { reason: Some("use v2".to_string()) };
    assert!(d.is_deprecated());
    assert_eq!(d.reason(), Some("use v2"));
    let d = Deprecation::Deprecated { reason: None };
    assert!(d.is_deprecated());
    assert_eq!(d.reason(), None);
}

#[test]
fn names_are_collected_once_each() {
    let mut reg = query_root_registry();
    reg.finish_create(
        "Query",
        object("Query", vec![field("a", "A"), field("a", "A")]),
    );
    reg.finish_create("A", object("A", vec![field("id", "ID")]));
    let mut got = reg.names();
    got.sort();
    assert_eq!(
        got,
        vec![
            "A".to_string(),
            "Query".to_string(),
            "a".to_string(),
            "id".to_string()
        ]
    );
}
