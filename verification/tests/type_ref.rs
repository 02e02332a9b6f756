use graphql_registry::type_ref::MetaTypeName;
use graphql_registry::type_ref::strip_brackets;

fn named(s: &str) -> MetaTypeName {
    MetaTypeName::Named(s.to_string())
}

#[test]
fn parse_and_render_round_trip() {
    // parsing a type reference and re-rendering it yields the text back
    let parsed = MetaTypeName::create("[Int!]!");
    assert_eq!(parsed.render(), "[Int!]!");
    assert!(matches!(parsed, MetaTypeName::NonNull(ref inner) if inner == "[Int!]"));

    let list = MetaTypeName::create("[Int]");
    assert_eq!(list.render(), "[Int]");
    assert!(matches!(list, MetaTypeName::List(ref inner) if inner == "Int"));

    let bare = MetaTypeName::create("Int");
    assert_eq!(bare.render(), "Int");
    assert_eq!(bare, named("Int"));
}

#[test]
fn concrete_name_unwraps_all_layers() {
    assert_eq!(MetaTypeName::concrete_typename("[[Int!]!]"), "Int");
    assert_eq!(MetaTypeName::concrete_typename("String!"), "String");
    assert_eq!(MetaTypeName::concrete_typename("Product"), "Product");
}

#[test]
fn non_null_layers() {
    let nn = MetaTypeName::create("Int!");
    assert!(nn.is_non_null());
    assert_eq!(nn.unwrap_non_null(), named("Int"));
    let bare = named("Int");
    assert!(!bare.is_non_null());
    assert_eq!(bare.unwrap_non_null(), named("Int"));
}

#[test]
fn subtype_rules() {
    // non-null may stand where nullable is expected, not the reverse
    assert!(named("Int").is_subtype(&MetaTypeName::create("Int!")));
    assert!(!MetaTypeName::create("Int!").is_subtype(&named("Int")));
    assert!(MetaTypeName::create("[Int]").is_subtype(&MetaTypeName::create("[Int]")));
    assert!(MetaTypeName::create("[Int]").is_subtype(&MetaTypeName::create("[Int!]")));
    assert!(!named("Int").is_subtype(&named("Float")));
}

#[test]
fn list_detection() {
    assert!(MetaTypeName::create("[Int]").is_list());
    assert!(MetaTypeName::create("[Int]!").is_list());
    assert!(!MetaTypeName::create("Int!").is_list());
    assert!(!named("Int").is_list());
}

#[test]
fn strip_brackets_behaviour() {
    assert_eq!(strip_brackets("[Int]"), Some("Int"));
    assert_eq!(strip_brackets("Int"), None);
    assert_eq!(strip_brackets(""), None);
}
