//! The descriptor data model: one tagged variant per GraphQL type kind,
//! each carrying a name, optional description, an optional visibility
//! predicate handle, an inaccessibility flag, a tag list, and
//! kind-specific payload. Every descriptor has a ghost view, and every
//! contract in the library speaks over these views.
//!
//! Visibility predicates and scalar validity predicates are
//! request-scoped callbacks supplied by the application; the library
//! stores them as opaque numeric handles. A viewer context carries the
//! verdicts of those predicates for one request: the handles whose
//! predicate returned false.

use vstd::prelude::*;
use vstd::string::*;
use crate::iset::iset_elems;
use crate::iset::iset_contains;
use crate::iset::iset_len;
use crate::iset::iset_get_index;
use crate::type_ref::string_eq;

verus! {

/// Compares two string slices by their characters.
pub fn str_eq(a: &str, b: &str) -> (r: bool)
    ensures
        r == (a@ == b@),
{
    let x = a.to_owned();
    let y = b.to_owned();
    string_eq(&x, &y)
}

/// The request-scoped viewer context as this library sees it: the set
/// of visibility-predicate handles whose predicate returned false for
/// the current viewer. A handle absent from `hidden` counts as visible.
pub struct ViewerContext {
    pub hidden: Vec<u64>,
}

impl View for ViewerContext {
    type V = Seq<u64>;

    open spec fn view(&self) -> Seq<u64> {
        self.hidden@
    }
}

fn contains_handle(v: &Vec<u64>, x: u64) -> (r: bool)
    ensures
        r == v@.contains(x),
{
    let mut i: usize = 0;
    while i < v.len()
        invariant
            0 <= i <= v@.len(),
            forall|j: int| 0 <= j < i ==> v@[j] != x,
        decreases v@.len() - i,
    {
        if v[i] == x {
            return true;
        }
        i += 1;
    }
    false
}

/// Whether an element guarded by predicate handle `h` is visible to a
/// viewer whose false predicates are `hidden`. No handle means always
/// visible.
pub open spec fn pred_visible(h: Option<u64>, hidden: Seq<u64>) -> bool {
    match h {
        None => true,
        Some(id) => !hidden.contains(id),
    }
}

/// Evaluates an optional visibility predicate against a viewer context.
pub fn is_visible(ctx: &ViewerContext, visible: &Option<u64>) -> (r: bool)
    ensures
        r == pred_visible(*visible, ctx@),
{
    match visible {
        None => true,
        Some(id) => !contains_handle(&ctx.hidden, *id),
    }
}

/// Cache-control metadata attached to objects and fields.
#[derive(Clone, Copy, Debug, PartialEq, Eq, Structural)]
pub struct CacheControl {
    pub public: bool,
    pub max_age: usize,
}

impl Default for CacheControl {
    fn default() -> (r: Self)
        ensures
            r.public == true && r.max_age == 0,
    {
        CacheControl { public: true, max_age: 0 }
    }
}

/// A per-field complexity rule: a constant, or a handle to an
/// application-supplied callback.
#[derive(Clone, Copy, Debug, PartialEq, Eq, Structural)]
pub enum ComplexityType {
    Const(usize),
    Fn(u64),
}

/// Deprecation state of a field or enum value.
#[derive(Debug, Clone)]
pub enum Deprecation {
    NoDeprecated,
    Deprecated { reason: Option<String> },
}

/// Ghost mirror of `Deprecation`.
pub ghost enum DeprecationView {
    NoDeprecated,
    Deprecated { reason: Option<Seq<char>> },
}

impl View for Deprecation {
    type V = DeprecationView;

    open spec fn view(&self) -> DeprecationView {
        match self {
            Deprecation::NoDeprecated => DeprecationView::NoDeprecated,
            Deprecation::Deprecated { reason } => DeprecationView::Deprecated {
                reason: reason.deep_view(),
            },
        }
    }
}

impl Default for Deprecation {
    fn default() -> (r: Self)
        ensures
            r@ is NoDeprecated,
    {
        Deprecation::NoDeprecated
    }
}

impl Deprecation {
    /// Whether this state marks the element deprecated.
    pub fn is_deprecated(&self) -> (r: bool)
        ensures
            r == (self@ is Deprecated),
    {
        match self {
            Deprecation::NoDeprecated => false,
            Deprecation::Deprecated { .. } => true,
        }
    }

    /// The deprecation reason, when deprecated and a reason was given.
    pub fn reason(&self) -> (r: Option<&str>)
        ensures
            match self@ {
                DeprecationView::NoDeprecated => r is None,
                DeprecationView::Deprecated { reason } => match (r, reason) {
                    (Some(a), Some(b)) => a@ == b,
                    (None, None) => true,
                    _ => false,
                },
            },
    {
        match self {
            Deprecation::NoDeprecated => None,
            Deprecation::Deprecated { reason } => match reason {
                Some(s) => Some(s.as_str()),
                None => None,
            },
        }
    }
}

/// An argument or input-object field descriptor.
pub struct MetaInputValue {
    pub name: String,
    pub description: Option<String>,
    pub ty: String,
    pub default_value: Option<String>,
    pub visible: Option<u64>,
    pub inaccessible: bool,
    pub tags: Vec<String>,
    pub is_secret: bool,
}

/// Ghost mirror of `MetaInputValue`.
pub ghost struct InputValueView {
    pub name: Seq<char>,
    pub description: Option<Seq<char>>,
    pub ty: Seq<char>,
    pub default_value: Option<Seq<char>>,
    pub visible: Option<u64>,
    pub inaccessible: bool,
    pub tags: Seq<Seq<char>>,
    pub is_secret: bool,
}

impl View for MetaInputValue {
    type V = InputValueView;

    open spec fn view(&self) -> InputValueView {
        InputValueView {
            name: self.name@,
            description: self.description.deep_view(),
            ty: self.ty@,
            default_value: self.default_value.deep_view(),
            visible: self.visible,
            inaccessible: self.inaccessible,
            tags: self.tags.deep_view(),
            is_secret: self.is_secret,
        }
    }
}

impl DeepView for MetaInputValue {
    type V = InputValueView;

    open spec fn deep_view(&self) -> InputValueView {
        self.view()
    }
}

/// An output-field descriptor.
pub struct MetaField {
    pub name: String,
    pub description: Option<String>,
    pub args: Vec<MetaInputValue>,
    pub ty: String,
    pub deprecation: Deprecation,
    pub cache_control: CacheControl,
    pub external: bool,
    pub requires_set: Option<String>,
    pub provides: Option<String>,
    pub visible: Option<u64>,
    pub shareable: bool,
    pub inaccessible: bool,
    pub tags: Vec<String>,
    pub override_from: Option<String>,
    pub compute_complexity: Option<ComplexityType>,
}

/// Ghost mirror of `MetaField`.
pub ghost struct FieldView {
    pub name: Seq<char>,
    pub description: Option<Seq<char>>,
    pub args: Seq<InputValueView>,
    pub ty: Seq<char>,
    pub deprecation: DeprecationView,
    pub cache_control: CacheControl,
    pub external: bool,
    pub requires_set: Option<Seq<char>>,
    pub provides: Option<Seq<char>>,
    pub visible: Option<u64>,
    pub shareable: bool,
    pub inaccessible: bool,
    pub tags: Seq<Seq<char>>,
    pub override_from: Option<Seq<char>>,
    pub compute_complexity: Option<ComplexityType>,
}

impl View for MetaField {
    type V = FieldView;

    open spec fn view(&self) -> FieldView {
        FieldView {
            name: self.name@,
            description: self.description.deep_view(),
            args: self.args.deep_view(),
            ty: self.ty@,
            deprecation: self.deprecation@,
            cache_control: self.cache_control,
            external: self.external,
            requires_set: self.requires_set.deep_view(),
            provides: self.provides.deep_view(),
            visible: self.visible,
            shareable: self.shareable,
            inaccessible: self.inaccessible,
            tags: self.tags.deep_view(),
            override_from: self.override_from.deep_view(),
            compute_complexity: self.compute_complexity,
        }
    }
}

impl DeepView for MetaField {
    type V = FieldView;

    open spec fn deep_view(&self) -> FieldView {
        self.view()
    }
}

/// An enum-value descriptor.
pub struct MetaEnumValue {
    pub name: String,
    pub description: Option<String>,
    pub deprecation: Deprecation,
    pub visible: Option<u64>,
    pub inaccessible: bool,
    pub tags: Vec<String>,
}

/// Ghost mirror of `MetaEnumValue`.
pub ghost struct EnumValueView {
    pub name: Seq<char>,
    pub description: Option<Seq<char>>,
    pub deprecation: DeprecationView,
    pub visible: Option<u64>,
    pub inaccessible: bool,
    pub tags: Seq<Seq<char>>,
}

impl View for MetaEnumValue {
    type V = EnumValueView;

    open spec fn view(&self) -> EnumValueView {
        EnumValueView {
            name: self.name@,
            description: self.description.deep_view(),
            deprecation: self.deprecation@,
            visible: self.visible,
            inaccessible: self.inaccessible,
            tags: self.tags.deep_view(),
        }
    }
}

impl DeepView for MetaEnumValue {
    type V = EnumValueView;

    open spec fn deep_view(&self) -> EnumValueView {
        self.view()
    }
}

/// The kind of a registered type.
#[derive(Clone, Copy, Debug, PartialEq, Eq, Structural)]
pub enum MetaTypeId {
    Scalar,
    Object,
    Interface,
    Union,
    Enum,
    InputObject,
}

/// A registered type descriptor: one case per GraphQL type kind.
pub enum MetaType {
    Scalar {
        name: String,
        description: Option<String>,
        is_valid: u64,
        visible: Option<u64>,
        inaccessible: bool,
        tags: Vec<String>,
        specified_by_url: Option<String>,
    },
    Object {
        name: String,
        description: Option<String>,
        fields: Vec<MetaField>,
        cache_control: CacheControl,
        extends: bool,
        shareable: bool,
        keys: Option<Vec<String>>,
        visible: Option<u64>,
        inaccessible: bool,
        tags: Vec<String>,
        is_subscription: bool,
        rust_typename: String,
    },
    Interface {
        name: String,
        description: Option<String>,
        fields: Vec<MetaField>,
        possible_types: indexmap::IndexSet<String>,
        extends: bool,
        keys: Option<Vec<String>>,
        visible: Option<u64>,
        inaccessible: bool,
        tags: Vec<String>,
        rust_typename: String,
    },
    Union {
        name: String,
        description: Option<String>,
        possible_types: indexmap::IndexSet<String>,
        visible: Option<u64>,
        inaccessible: bool,
        tags: Vec<String>,
        rust_typename: String,
    },
    Enum {
        name: String,
        description: Option<String>,
        enum_values: Vec<MetaEnumValue>,
        visible: Option<u64>,
        inaccessible: bool,
        tags: Vec<String>,
        rust_typename: String,
    },
    InputObject {
        name: String,
        description: Option<String>,
        input_fields: Vec<MetaInputValue>,
        visible: Option<u64>,
        inaccessible: bool,
        tags: Vec<String>,
        rust_typename: String,
        oneof: bool,
    },
}

/// Ghost mirror of `MetaType`. Possible-type sets appear as their
/// element sequences in insertion order.
pub ghost enum TypeView {
    Scalar {
        name: Seq<char>,
        description: Option<Seq<char>>,
        is_valid: u64,
        visible: Option<u64>,
        inaccessible: bool,
        tags: Seq<Seq<char>>,
        specified_by_url: Option<Seq<char>>,
    },
    Object {
        name: Seq<char>,
        description: Option<Seq<char>>,
        fields: Seq<FieldView>,
        cache_control: CacheControl,
        extends: bool,
        shareable: bool,
        keys: Option<Seq<Seq<char>>>,
        visible: Option<u64>,
        inaccessible: bool,
        tags: Seq<Seq<char>>,
        is_subscription: bool,
        rust_typename: Seq<char>,
    },
    Interface {
        name: Seq<char>,
        description: Option<Seq<char>>,
        fields: Seq<FieldView>,
        possible_types: Seq<Seq<char>>,
        extends: bool,
        keys: Option<Seq<Seq<char>>>,
        visible: Option<u64>,
        inaccessible: bool,
        tags: Seq<Seq<char>>,
        rust_typename: Seq<char>,
    },
    Union {
        name: Seq<char>,
        description: Option<Seq<char>>,
        possible_types: Seq<Seq<char>>,
        visible: Option<u64>,
        inaccessible: bool,
        tags: Seq<Seq<char>>,
        rust_typename: Seq<char>,
    },
    Enum {
        name: Seq<char>,
        description: Option<Seq<char>>,
        enum_values: Seq<EnumValueView>,
        visible: Option<u64>,
        inaccessible: bool,
        tags: Seq<Seq<char>>,
        rust_typename: Seq<char>,
    },
    InputObject {
        name: Seq<char>,
        description: Option<Seq<char>>,
        input_fields: Seq<InputValueView>,
        visible: Option<u64>,
        inaccessible: bool,
        tags: Seq<Seq<char>>,
        rust_typename: Seq<char>,
        oneof: bool,
    },
}

impl View for MetaType {
    type V = TypeView;

    open spec fn view(&self) -> TypeView {
        match self {
            MetaType::Scalar { name, description, is_valid, visible, inaccessible, tags, specified_by_url } => TypeView::Scalar {
                name: name@,
                description: description.deep_view(),
                is_valid: *is_valid,
                visible: *visible,
                inaccessible: *inaccessible,
                tags: tags.deep_view(),
                specified_by_url: specified_by_url.deep_view(),
            },
            MetaType::Object { name, description, fields, cache_control, extends, shareable, keys, visible, inaccessible, tags, is_subscription, rust_typename } => TypeView::Object {
                name: name@,
                description: description.deep_view(),
                fields: fields.deep_view(),
                cache_control: *cache_control,
                extends: *extends,
                shareable: *shareable,
                keys: keys.deep_view(),
                visible: *visible,
                inaccessible: *inaccessible,
                tags: tags.deep_view(),
                is_subscription: *is_subscription,
                rust_typename: rust_typename@,
            },
            MetaType::Interface { name, description, fields, possible_types, extends, keys, visible, inaccessible, tags, rust_typename } => TypeView::Interface {
                name: name@,
                description: description.deep_view(),
                fields: fields.deep_view(),
                possible_types: iset_elems(*possible_types),
                extends: *extends,
                keys: keys.deep_view(),
                visible: *visible,
                inaccessible: *inaccessible,
                tags: tags.deep_view(),
                rust_typename: rust_typename@,
            },
            MetaType::Union { name, description, possible_types, visible, inaccessible, tags, rust_typename } => TypeView::Union {
                name: name@,
                description: description.deep_view(),
                possible_types: iset_elems(*possible_types),
                visible: *visible,
                inaccessible: *inaccessible,
                tags: tags.deep_view(),
                rust_typename: rust_typename@,
            },
            MetaType::Enum { name, description, enum_values, visible, inaccessible, tags, rust_typename } => TypeView::Enum {
                name: name@,
                description: description.deep_view(),
                enum_values: enum_values.deep_view(),
                visible: *visible,
                inaccessible: *inaccessible,
                tags: tags.deep_view(),
                rust_typename: rust_typename@,
            },
            MetaType::InputObject { name, description, input_fields, visible, inaccessible, tags, rust_typename, oneof } => TypeView::InputObject {
                name: name@,
                description: description.deep_view(),
                input_fields: input_fields.deep_view(),
                visible: *visible,
                inaccessible: *inaccessible,
                tags: tags.deep_view(),
                rust_typename: rust_typename@,
                oneof: *oneof,
            },
        }
    }
}

impl TypeView {
    /// The GraphQL name.
    pub open spec fn gql_name(self) -> Seq<char> {
        match self {
            TypeView::Scalar { name, .. } => name,
            TypeView::Object { name, .. } => name,
            TypeView::Interface { name, .. } => name,
            TypeView::Union { name, .. } => name,
            TypeView::Enum { name, .. } => name,
            TypeView::InputObject { name, .. } => name,
        }
    }

    /// The kind tag.
    pub open spec fn kind(self) -> MetaTypeId {
        match self {
            TypeView::Scalar { .. } => MetaTypeId::Scalar,
            TypeView::Object { .. } => MetaTypeId::Object,
            TypeView::Interface { .. } => MetaTypeId::Interface,
            TypeView::Union { .. } => MetaTypeId::Union,
            TypeView::Enum { .. } => MetaTypeId::Enum,
            TypeView::InputObject { .. } => MetaTypeId::InputObject,
        }
    }

    /// The description, if any.
    pub open spec fn desc(self) -> Option<Seq<char>> {
        match self {
            TypeView::Scalar { description, .. } => description,
            TypeView::Object { description, .. } => description,
            TypeView::Interface { description, .. } => description,
            TypeView::Union { description, .. } => description,
            TypeView::Enum { description, .. } => description,
            TypeView::InputObject { description, .. } => description,
        }
    }

    /// The visibility predicate handle, if any.
    pub open spec fn visible_handle(self) -> Option<u64> {
        match self {
            TypeView::Scalar { visible, .. } => visible,
            TypeView::Object { visible, .. } => visible,
            TypeView::Interface { visible, .. } => visible,
            TypeView::Union { visible, .. } => visible,
            TypeView::Enum { visible, .. } => visible,
            TypeView::InputObject { visible, .. } => visible,
        }
    }

    /// The output fields, for kinds that own fields.
    pub open spec fn out_fields(self) -> Option<Seq<FieldView>> {
        match self {
            TypeView::Object { fields, .. } => Some(fields),
            TypeView::Interface { fields, .. } => Some(fields),
            _ => None,
        }
    }

    /// The possible concrete type names, for abstract kinds.
    pub open spec fn possible(self) -> Option<Seq<Seq<char>>> {
        match self {
            TypeView::Interface { possible_types, .. } => Some(possible_types),
            TypeView::Union { possible_types, .. } => Some(possible_types),
            _ => None,
        }
    }

    /// The federation key literals, for kinds that can carry keys.
    pub open spec fn key_list(self) -> Option<Seq<Seq<char>>> {
        match self {
            TypeView::Object { keys, .. } => keys,
            TypeView::Interface { keys, .. } => keys,
            _ => None,
        }
    }

    /// The origin identity, absent for scalars.
    pub open spec fn origin(self) -> Option<Seq<char>> {
        match self {
            TypeView::Scalar { .. } => None,
            TypeView::Object { rust_typename, .. } => Some(rust_typename),
            TypeView::Interface { rust_typename, .. } => Some(rust_typename),
            TypeView::Union { rust_typename, .. } => Some(rust_typename),
            TypeView::Enum { rust_typename, .. } => Some(rust_typename),
            TypeView::InputObject { rust_typename, .. } => Some(rust_typename),
        }
    }

    /// Object, Interface and Union are composite.
    pub open spec fn is_composite(self) -> bool {
        self is Object || self is Interface || self is Union
    }

    /// Interface and Union are abstract.
    pub open spec fn is_abstract(self) -> bool {
        self is Interface || self is Union
    }

    /// Enum and Scalar are leaves.
    pub open spec fn is_leaf(self) -> bool {
        self is Enum || self is Scalar
    }

    /// Enum, Scalar and InputObject may appear in input position.
    pub open spec fn is_input(self) -> bool {
        self is Enum || self is Scalar || self is InputObject
    }

    /// Whether `n` is a possible concrete type of this descriptor.
    pub open spec fn has_possible(self, n: Seq<char>) -> bool {
        match self {
            TypeView::Interface { possible_types, .. } => possible_types.contains(n),
            TypeView::Union { possible_types, .. } => possible_types.contains(n),
            TypeView::Object { name, .. } => name == n,
            _ => false,
        }
    }

    /// Whether this descriptor carries a non-empty federation key list.
    pub open spec fn is_keyed(self) -> bool {
        match self.key_list() {
            Some(ks) => ks.len() > 0,
            None => false,
        }
    }
}

/// The same descriptor with its key list replaced; identity for kinds
/// that carry no keys.
pub open spec fn with_key_list(t: TypeView, ks: Option<Seq<Seq<char>>>) -> TypeView {
    match t {
        TypeView::Object {
            name,
            description,
            fields,
            cache_control,
            extends,
            shareable,
            keys,
            visible,
            inaccessible,
            tags,
            is_subscription,
            rust_typename,
        } => TypeView::Object {
            name,
            description,
            fields,
            cache_control,
            extends,
            shareable,
            keys: ks,
            visible,
            inaccessible,
            tags,
            is_subscription,
            rust_typename,
        },
        TypeView::Interface {
            name,
            description,
            fields,
            possible_types,
            extends,
            keys,
            visible,
            inaccessible,
            tags,
            rust_typename,
        } => TypeView::Interface {
            name,
            description,
            fields,
            possible_types,
            extends,
            keys: ks,
            visible,
            inaccessible,
            tags,
            rust_typename,
        },
        _ => t,
    }
}

/// A key literal appended to a descriptor's key list, creating the
/// list on first use.
pub open spec fn appended_keys(t: TypeView, k: Seq<char>) -> Seq<Seq<char>> {
    match t.key_list() {
        None => seq![k],
        Some(ks) => ks.push(k),
    }
}

/// The same descriptor with its description replaced.
pub open spec fn with_desc(t: TypeView, d: Option<Seq<char>>) -> TypeView {
    match t {
        TypeView::Scalar { name, description, is_valid, visible, inaccessible, tags, specified_by_url } => TypeView::Scalar {
            name,
            description: d,
            is_valid,
            visible,
            inaccessible,
            tags,
            specified_by_url,
        },
        TypeView::Object {
            name,
            description,
            fields,
            cache_control,
            extends,
            shareable,
            keys,
            visible,
            inaccessible,
            tags,
            is_subscription,
            rust_typename,
        } => TypeView::Object {
            name,
            description: d,
            fields,
            cache_control,
            extends,
            shareable,
            keys,
            visible,
            inaccessible,
            tags,
            is_subscription,
            rust_typename,
        },
        TypeView::Interface {
            name,
            description,
            fields,
            possible_types,
            extends,
            keys,
            visible,
            inaccessible,
            tags,
            rust_typename,
        } => TypeView::Interface {
            name,
            description: d,
            fields,
            possible_types,
            extends,
            keys,
            visible,
            inaccessible,
            tags,
            rust_typename,
        },
        TypeView::Union { name, description, possible_types, visible, inaccessible, tags, rust_typename } => TypeView::Union {
            name,
            description: d,
            possible_types,
            visible,
            inaccessible,
            tags,
            rust_typename,
        },
        TypeView::Enum { name, description, enum_values, visible, inaccessible, tags, rust_typename } => TypeView::Enum {
            name,
            description: d,
            enum_values,
            visible,
            inaccessible,
            tags,
            rust_typename,
        },
        TypeView::InputObject {
            name,
            description,
            input_fields,
            visible,
            inaccessible,
            tags,
            rust_typename,
            oneof,
        } => TypeView::InputObject {
            name,
            description: d,
            input_fields,
            visible,
            inaccessible,
            tags,
            rust_typename,
            oneof,
        },
    }
}

/// The first field named `n`, scanning in declaration order.
pub open spec fn find_field(fs: Seq<FieldView>, n: Seq<char>) -> Option<FieldView>
    decreases fs.len(),
{
    if fs.len() == 0 {
        None
    } else if fs[0].name == n {
        Some(fs[0])
    } else {
        find_field(fs.drop_first(), n)
    }
}

/// Whether two kind tags are the same.
pub fn kind_eq(a: MetaTypeId, b: MetaTypeId) -> (r: bool)
    ensures
        r == (a == b),
{
    match (a, b) {
        (MetaTypeId::Scalar, MetaTypeId::Scalar) => true,
        (MetaTypeId::Object, MetaTypeId::Object) => true,
        (MetaTypeId::Interface, MetaTypeId::Interface) => true,
        (MetaTypeId::Union, MetaTypeId::Union) => true,
        (MetaTypeId::Enum, MetaTypeId::Enum) => true,
        (MetaTypeId::InputObject, MetaTypeId::InputObject) => true,
        _ => false,
    }
}

/// Whether two descriptors can overlap at runtime: they are the same
/// descriptor (same name and kind), or both are abstract with
/// intersecting possible-type sets, or exactly one is abstract and the
/// concrete one's name is among the abstract one's possible types.
pub open spec fn spec_overlap(a: TypeView, b: TypeView) -> bool {
    ||| (a.gql_name() == b.gql_name() && a.kind() == b.kind())
    ||| (a.is_abstract() && b.is_abstract() && exists|i: int|
        0 <= i < a.possible().unwrap().len() && b.has_possible(a.possible().unwrap()[i]))
    ||| (a.is_abstract() && !b.is_abstract() && a.has_possible(b.gql_name()))
    ||| (!a.is_abstract() && b.is_abstract() && b.has_possible(a.gql_name()))
}

impl MetaType {
    /// The kind tag of this descriptor.
    pub fn type_id(&self) -> (r: MetaTypeId)
        ensures
            r == self@.kind(),
    {
        match self {
            MetaType::Scalar { .. } => MetaTypeId::Scalar,
            MetaType::Object { .. } => MetaTypeId::Object,
            MetaType::Interface { .. } => MetaTypeId::Interface,
            MetaType::Union { .. } => MetaTypeId::Union,
            MetaType::Enum { .. } => MetaTypeId::Enum,
            MetaType::InputObject { .. } => MetaTypeId::InputObject,
        }
    }

    /// The GraphQL name of this descriptor.
    pub fn name(&self) -> (r: &str)
        ensures
            r@ == self@.gql_name(),
    {
        match self {
            MetaType::Scalar { name, .. } => name.as_str(),
            MetaType::Object { name, .. } => name.as_str(),
            MetaType::Interface { name, .. } => name.as_str(),
            MetaType::Union { name, .. } => name.as_str(),
            MetaType::Enum { name, .. } => name.as_str(),
            MetaType::InputObject { name, .. } => name.as_str(),
        }
    }

    /// The fields of an Object or Interface.
    pub fn fields(&self) -> (r: Option<&Vec<MetaField>>)
        ensures
            match r {
                Some(fs) => self@.out_fields() == Some(fs.deep_view()),
                None => self@.out_fields() is None,
            },
    {
        match self {
            MetaType::Object { fields, .. } => Some(fields),
            MetaType::Interface { fields, .. } => Some(fields),
            _ => None,
        }
    }

    /// The first field of this descriptor named `name`, if the
    /// descriptor owns fields and one matches.
    pub fn field_by_name(&self, name: &str) -> (r: Option<&MetaField>)
        ensures
            match r {
                Some(f) => self@.out_fields() is Some && find_field(
                    self@.out_fields().unwrap(),
                    name@,
                ) == Some(f@),
                None => self@.out_fields() is None || find_field(
                    self@.out_fields().unwrap(),
                    name@,
                ) is None,
            },
    {
        match self.fields() {
            None => None,
            Some(fs) => {
                proof {
                    assert(fs.deep_view().skip(0) =~= fs.deep_view());
                }
                field_scan(fs, 0, name)
            },
        }
    }

    /// The visibility of this descriptor for one viewer.
    pub fn is_visible(&self, ctx: &ViewerContext) -> (r: bool)
        ensures
            r == pred_visible(self@.visible_handle(), ctx@),
    {
        let visible = match self {
            MetaType::Scalar { visible, .. } => visible,
            MetaType::Object { visible, .. } => visible,
            MetaType::Interface { visible, .. } => visible,
            MetaType::Union { visible, .. } => visible,
            MetaType::Enum { visible, .. } => visible,
            MetaType::InputObject { visible, .. } => visible,
        };
        is_visible(ctx, visible)
    }

    /// Whether this descriptor is composite (Object, Interface, Union).
    pub fn is_composite(&self) -> (r: bool)
        ensures
            r == self@.is_composite(),
    {
        match self {
            MetaType::Object { .. } => true,
            MetaType::Interface { .. } => true,
            MetaType::Union { .. } => true,
            _ => false,
        }
    }

    /// Whether this descriptor is abstract (Interface, Union).
    pub fn is_abstract(&self) -> (r: bool)
        ensures
            r == self@.is_abstract(),
    {
        match self {
            MetaType::Interface { .. } => true,
            MetaType::Union { .. } => true,
            _ => false,
        }
    }

    /// Whether this descriptor is a leaf (Enum, Scalar).
    pub fn is_leaf(&self) -> (r: bool)
        ensures
            r == self@.is_leaf(),
    {
        match self {
            MetaType::Enum { .. } => true,
            MetaType::Scalar { .. } => true,
            _ => false,
        }
    }

    /// Whether this descriptor may appear in input position.
    pub fn is_input(&self) -> (r: bool)
        ensures
            r == self@.is_input(),
    {
        match self {
            MetaType::Enum { .. } => true,
            MetaType::Scalar { .. } => true,
            MetaType::InputObject { .. } => true,
            _ => false,
        }
    }

    /// Whether `tname` is a possible concrete type of this descriptor.
    pub fn is_possible_type(&self, tname: &str) -> (r: bool)
        ensures
            r == self@.has_possible(tname@),
    {
        match self {
            MetaType::Interface { possible_types, .. } => iset_contains(possible_types, tname),
            MetaType::Union { possible_types, .. } => iset_contains(possible_types, tname),
            MetaType::Object { name, .. } => str_eq(name.as_str(), tname),
            _ => false,
        }
    }

    /// The possible concrete types of an abstract descriptor.
    pub fn possible_types(&self) -> (r: Option<&indexmap::IndexSet<String>>)
        ensures
            match r {
                Some(s) => self@.possible() == Some(iset_elems(*s)),
                None => self@.possible() is None,
            },
    {
        match self {
            MetaType::Interface { possible_types, .. } => Some(possible_types),
            MetaType::Union { possible_types, .. } => Some(possible_types),
            _ => None,
        }
    }

    /// Whether this descriptor and `ty` can overlap at runtime.
    pub fn type_overlap(&self, ty: &MetaType) -> (r: bool)
        ensures
            r == spec_overlap(self@, ty@),
    {
        if str_eq(self.name(), ty.name()) && kind_eq(self.type_id(), ty.type_id()) {
            proof {
                assert(self@.gql_name() == ty@.gql_name());
                assert(self@.kind() == ty@.kind());
                assert(spec_overlap(self@, ty@));
            }
            return true;
        }
        if self.is_abstract() {
            if ty.is_abstract() {
                let ps = self.possible_types().unwrap();
                let n = iset_len(ps);
                let mut i: usize = 0;
                while i < n
                    invariant
                        n == iset_elems(*ps).len(),
                        0 <= i <= n,
                        self@.possible() == Some(iset_elems(*ps)),
                        forall|j: int| 0 <= j < i ==> !ty@.has_possible(iset_elems(*ps)[j]),
                    decreases n - i,
                {
                    let e = iset_get_index(ps, i).unwrap();
                    if ty.is_possible_type(e.as_str()) {
                        proof {
                            assert(0 <= i < self@.possible().unwrap().len() && ty@.has_possible(
                                self@.possible().unwrap()[i as int],
                            ));
                        }
                        return true;
                    }
                    i += 1;
                }
                false
            } else {
                self.is_possible_type(ty.name())
            }
        } else {
            if ty.is_abstract() {
                ty.is_possible_type(self.name())
            } else {
                false
            }
        }
    }

    /// Whether this descriptor carries a non-empty federation key list.
    pub fn is_keyed(&self) -> (r: bool)
        ensures
            r == self@.is_keyed(),
    {
        match self {
            MetaType::Object { keys, .. } => match keys {
                Some(ks) => ks.len() > 0,
                None => false,
            },
            MetaType::Interface { keys, .. } => match keys {
                Some(ks) => ks.len() > 0,
                None => false,
            },
            _ => false,
        }
    }

    /// The origin identity of this descriptor; scalars carry none.
    pub fn rust_typename(&self) -> (r: Option<&str>)
        ensures
            match r {
                Some(s) => self@.origin() == Some(s@),
                None => self@.origin() is None,
            },
    {
        match self {
            MetaType::Scalar { .. } => None,
            MetaType::Object { rust_typename, .. } => Some(rust_typename.as_str()),
            MetaType::Interface { rust_typename, .. } => Some(rust_typename.as_str()),
            MetaType::Union { rust_typename, .. } => Some(rust_typename.as_str()),
            MetaType::Enum { rust_typename, .. } => Some(rust_typename.as_str()),
            MetaType::InputObject { rust_typename, .. } => Some(rust_typename.as_str()),
        }
    }
}

fn field_scan<'a>(fs: &'a Vec<MetaField>, i: usize, name: &str) -> (r: Option<&'a MetaField>)
    requires
        0 <= i <= fs@.len(),
    ensures
        match r {
            Some(f) => find_field(fs.deep_view().skip(i as int), name@) == Some(f@),
            None => find_field(fs.deep_view().skip(i as int), name@) is None,
        },
    decreases fs@.len() - i,
{
    proof {
        assert(fs.deep_view().len() == fs@.len());
    }
    if i == fs.len() {
        proof {
            assert(fs.deep_view().skip(i as int) =~= Seq::<FieldView>::empty());
        }
        None
    } else {
        proof {
            assert(fs.deep_view().skip(i as int)[0] == fs.deep_view()[i as int]);
            assert(fs.deep_view().skip(i as int).drop_first() =~= fs.deep_view().skip(
                i as int + 1,
            ));
        }
        if str_eq(fs[i].name.as_str(), name) {
            Some(&fs[i])
        } else {
            field_scan(fs, i + 1, name)
        }
    }
}

/// A directive definition. Its arguments' types count as pruning and
/// visibility roots.
pub struct MetaDirective {
    pub name: String,
    pub description: Option<String>,
    pub args: Vec<MetaInputValue>,
    pub is_repeatable: bool,
    pub visible: Option<u64>,
}

/// Ghost mirror of `MetaDirective`.
pub ghost struct DirectiveView {
    pub name: Seq<char>,
    pub description: Option<Seq<char>>,
    pub args: Seq<InputValueView>,
    pub is_repeatable: bool,
    pub visible: Option<u64>,
}

impl View for MetaDirective {
    type V = DirectiveView;

    open spec fn view(&self) -> DirectiveView {
        DirectiveView {
            name: self.name@,
            description: self.description.deep_view(),
            args: self.args.deep_view(),
            is_repeatable: self.is_repeatable,
            visible: self.visible,
        }
    }
}

impl DeepView for MetaDirective {
    type V = DirectiveView;

    open spec fn deep_view(&self) -> DirectiveView {
        self.view()
    }
}

/// Whether a name is built in: the introspection `__` prefix or one of
/// the five built-in scalars. Such names are never pruned and are
/// always visible.
pub open spec fn spec_is_system(n: Seq<char>) -> bool {
    ||| (n.len() >= 2 && n[0] == '_' && n[1] == '_')
    ||| n == "Boolean"@
    ||| n == "Int"@
    ||| n == "Float"@
    ||| n == "String"@
    ||| n == "ID"@
}

/// Whether a name is built in (introspection prefix or built-in scalar).
pub fn is_system_type(name: &str) -> (r: bool)
    ensures
        r == spec_is_system(name@),
{
    let n = name.unicode_len();
    if n >= 2 && name.get_char(0) == '_' && name.get_char(1) == '_' {
        return true;
    }
    str_eq(name, "Boolean") || str_eq(name, "Int") || str_eq(name, "Float") || str_eq(
        name,
        "String",
    ) || str_eq(name, "ID")
}

} // verus!
