//! Federation entity synthesis: a one-shot post-pass over a fully
//! registered schema. When any type carries a non-empty federation key
//! list it injects the `_Any` scalar, the `_Service` object with its
//! `sdl: String` field, the `_Entity` union of every keyed type, and
//! the `_service: _Service!` and
//! `_entities(representations: [_Any!]!): [_Entity]!` fields on the
//! query root; with no keyed type it does nothing.

use vstd::prelude::*;
use vstd::string::*;
use crate::meta::MetaType;
use crate::meta::MetaField;
use crate::meta::MetaInputValue;
use crate::meta::TypeView;
use crate::meta::FieldView;
use crate::meta::InputValueView;
use crate::meta::DeprecationView;
use crate::meta::Deprecation;
use crate::meta::CacheControl;
use crate::registry::Registry;
use crate::registry::RegistryView;
use crate::registry::TypeSlot;
use crate::registry::SlotView;
use crate::registry::assoc_find;
use crate::registry::reg_same_except_types;
use crate::iset::iset_elems;
use crate::iset::iset_new;
use crate::iset::iset_insert;

verus! {

/// A slot that carries a non-empty federation key list.
pub open spec fn keyed_slot(sl: SlotView) -> bool {
    match sl {
        SlotView::Finished(t) => t.is_keyed(),
        SlotView::InProgress => false,
    }
}

/// Whether any registered type carries a non-empty key list.
pub open spec fn spec_has_entities(rv: RegistryView) -> bool {
    exists|i: int| 0 <= i < rv.types.len() && #[trigger] keyed_slot(rv.types[i].1)
}

/// The name `n` belongs to some keyed descriptor of the store.
pub open spec fn keyed_name(rv: RegistryView, n: Seq<char>) -> bool {
    exists|i: int| 0 <= i < rv.types.len() && #[trigger] crate::prune::keyed_root(rv.types[i].1, n)
}

/// The `sdl: String` field of `_Service`.
pub open spec fn service_field_view() -> FieldView {
    FieldView {
        name: "sdl"@,
        description: None,
        args: Seq::empty(),
        ty: "String"@,
        deprecation: DeprecationView::NoDeprecated,
        cache_control: CacheControl { public: true, max_age: 0 },
        external: false,
        requires_set: None,
        provides: None,
        visible: None,
        shareable: false,
        inaccessible: false,
        tags: Seq::empty(),
        override_from: None,
        compute_complexity: None,
    }
}

/// The `_Service` object.
pub open spec fn service_type_view() -> TypeView {
    TypeView::Object {
        name: "_Service"@,
        description: None,
        fields: seq![service_field_view()],
        cache_control: CacheControl { public: true, max_age: 0 },
        extends: false,
        shareable: false,
        keys: None,
        visible: None,
        inaccessible: false,
        tags: Seq::empty(),
        is_subscription: false,
        rust_typename: "federation::Service"@,
    }
}

/// The `_Any` scalar.
pub open spec fn any_scalar_view() -> TypeView {
    TypeView::Scalar {
        name: "_Any"@,
        description: None,
        is_valid: 0,
        visible: None,
        inaccessible: false,
        tags: Seq::empty(),
        specified_by_url: None,
    }
}

/// The `_Entity` union over the given possible types.
pub open spec fn entity_union_view(ps: Seq<Seq<char>>) -> TypeView {
    TypeView::Union {
        name: "_Entity"@,
        description: None,
        possible_types: ps,
        visible: None,
        inaccessible: false,
        tags: Seq::empty(),
        rust_typename: "federation::Entity"@,
    }
}

/// The `_service: _Service!` field on the query root.
pub open spec fn service_root_field_view() -> FieldView {
    FieldView {
        name: "_service"@,
        description: None,
        args: Seq::empty(),
        ty: "_Service!"@,
        deprecation: DeprecationView::NoDeprecated,
        cache_control: CacheControl { public: true, max_age: 0 },
        external: false,
        requires_set: None,
        provides: None,
        visible: None,
        shareable: false,
        inaccessible: false,
        tags: Seq::empty(),
        override_from: None,
        compute_complexity: None,
    }
}

/// The `representations: [_Any!]!` argument.
pub open spec fn representations_arg_view() -> InputValueView {
    InputValueView {
        name: "representations"@,
        description: None,
        ty: "[_Any!]!"@,
        default_value: None,
        visible: None,
        inaccessible: false,
        tags: Seq::empty(),
        is_secret: false,
    }
}

/// The `_entities(representations: [_Any!]!): [_Entity]!` field.
pub open spec fn entities_root_field_view() -> FieldView {
    FieldView {
        name: "_entities"@,
        description: None,
        args: seq![representations_arg_view()],
        ty: "[_Entity]!"@,
        deprecation: DeprecationView::NoDeprecated,
        cache_control: CacheControl { public: true, max_age: 0 },
        external: false,
        requires_set: None,
        provides: None,
        visible: None,
        shareable: false,
        inaccessible: false,
        tags: Seq::empty(),
        override_from: None,
        compute_complexity: None,
    }
}

/// An Object with its field list replaced; identity for other kinds.
pub open spec fn object_with_fields(t: TypeView, fs: Seq<FieldView>) -> TypeView {
    match t {
        TypeView::Object {
            name,
            description,
            fields,
            cache_control,
            extends,
            shareable,
            keys,
            visible,
            inaccessible,
            tags,
            is_subscription,
            rust_typename,
        } => TypeView::Object {
            name,
            description,
            fields: fs,
            cache_control,
            extends,
            shareable,
            keys,
            visible,
            inaccessible,
            tags,
            is_subscription,
            rust_typename,
        },
        _ => t,
    }
}

fn mk_root_field(name: &str, ty: &str) -> (r: MetaField)
    ensures
        r@ == (FieldView {
            name: name@,
            description: None,
            args: Seq::empty(),
            ty: ty@,
            deprecation: DeprecationView::NoDeprecated,
            cache_control: CacheControl { public: true, max_age: 0 },
            external: false,
            requires_set: None,
            provides: None,
            visible: None,
            shareable: false,
            inaccessible: false,
            tags: Seq::empty(),
            override_from: None,
            compute_complexity: None,
        }),
{
    let r = MetaField {
        name: name.to_owned(),
        description: None,
        args: Vec::new(),
        ty: ty.to_owned(),
        deprecation: Deprecation::NoDeprecated,
        cache_control: CacheControl { public: true, max_age: 0 },
        external: false,
        requires_set: None,
        provides: None,
        visible: None,
        shareable: false,
        inaccessible: false,
        tags: Vec::new(),
        override_from: None,
        compute_complexity: None,
    };
    proof {
        assert(r@.args =~= Seq::<InputValueView>::empty());
        assert(r@.tags =~= Seq::<Seq<char>>::empty());
    }
    r
}

impl Registry {
    /// Whether any registered type carries a non-empty key list.
    pub fn has_entities(&self) -> (r: bool)
        ensures
            r == spec_has_entities(self@),
    {
        let mut i: usize = 0;
        while i < self.types.len()
            invariant
                0 <= i <= self.types@.len(),
                forall|j: int| 0 <= j < i ==> !keyed_slot((#[trigger] self@.types[j]).1),
            decreases self.types@.len() - i,
        {
            let keyed = match &self.types[i].1 {
                TypeSlot::Finished(t) => t.is_keyed(),
                TypeSlot::InProgress => false,
            };
            if keyed {
                proof {
                    assert(keyed_slot(self@.types[i as int].1));
                }
                return true;
            }
            i += 1;
        }
        false
    }

    /// Runs federation synthesis once: with no keyed type, nothing
    /// changes; otherwise `_Any`, `_Service` and `_Entity` go into the
    /// store (`_Any` only when absent) and the query root, when it is
    /// a registered Object, gains the `_service` and `_entities`
    /// fields.
    pub fn create_federation_types(&mut self)
        requires
            old(self).wf(),
        ensures
            final(self).wf(),
            reg_same_except_types(final(self)@, old(self)@),
            !spec_has_entities(old(self)@) ==> final(self)@ == old(self)@,
            spec_has_entities(old(self)@) ==> {
                &&& forall|m: Seq<char>|
                    m != "_Any"@ && m != "_Service"@ && m != "_Entity"@ && m != old(
                        self,
                    )@.query_type ==> assoc_find(final(self)@.types, m) == assoc_find(
                        old(self)@.types,
                        m,
                    )
                &&& ("_Service"@ != old(self)@.query_type ==> assoc_find(
                    final(self)@.types,
                    "_Service"@,
                ) == Some(SlotView::Finished(service_type_view())))
                &&& ("_Any"@ != old(self)@.query_type && assoc_find(old(self)@.types, "_Any"@)
                    is None ==> assoc_find(final(self)@.types, "_Any"@) == Some(
                    SlotView::Finished(any_scalar_view()),
                ))
                &&& ("_Entity"@ != old(self)@.query_type ==> exists|ps: Seq<Seq<char>>|
                    assoc_find(final(self)@.types, "_Entity"@) == Some(
                        SlotView::Finished(entity_union_view(ps)),
                    ) && (forall|n: Seq<char>|
                        #[trigger] ps.contains(n) <==> keyed_name(old(self)@, n)))
                &&& (old(self)@.query_type != "_Any"@ && old(self)@.query_type != "_Service"@
                    && old(self)@.query_type != "_Entity"@) ==> match assoc_find(
                    old(self)@.types,
                    old(self)@.query_type,
                ) {
                    Some(SlotView::Finished(t)) => if t is Object {
                        assoc_find(final(self)@.types, old(self)@.query_type) == Some(
                            SlotView::Finished(
                                object_with_fields(
                                    t,
                                    t.out_fields().unwrap().push(service_root_field_view()).push(
                                        entities_root_field_view(),
                                    ),
                                ),
                            ),
                        )
                    } else {
                        assoc_find(final(self)@.types, old(self)@.query_type) == Some(
                            SlotView::Finished(t),
                        )
                    },
                    other => assoc_find(final(self)@.types, old(self)@.query_type) == other,
                }
            },
    {
        let ghost rv = old(self)@;
        if !self.has_entities() {
            return ;
        }
        // the possible types of `_Entity`: every keyed type, in store
        // order, each once
        let mut possible: indexmap::IndexSet<String> = iset_new();
        let mut i: usize = 0;
        while i < self.types.len()
            invariant
                *self == *old(self),
                rv == old(self)@,
                0 <= i <= self.types@.len(),
                forall|n: Seq<char>|
                    #[trigger] iset_elems(possible).contains(n) <==> exists|j: int|
                        0 <= j < i && crate::prune::keyed_root((#[trigger] rv.types[j]).1, n),
            decreases self.types@.len() - i,
        {
            let ghost pre = iset_elems(possible);
            let keyed = match &self.types[i].1 {
                TypeSlot::Finished(t) => t.is_keyed(),
                TypeSlot::InProgress => false,
            };
            if keyed {
                match &self.types[i].1 {
                    TypeSlot::Finished(t) => {
                        let nm = t.name().to_owned();
                        proof {
                            assert(crate::prune::keyed_root(rv.types[i as int].1, nm@));
                        }
                        iset_insert(&mut possible, nm);
                    },
                    TypeSlot::InProgress => {},
                }
            }
            proof {
                assert forall|n: Seq<char>| #[trigger] iset_elems(possible).contains(n)
                    implies exists|j: int|
                    0 <= j < i + 1 && crate::prune::keyed_root((#[trigger] rv.types[j]).1, n) by {
                    if pre.contains(n) {
                        let j = choose|j: int|
                            0 <= j < i && crate::prune::keyed_root((#[trigger] rv.types[j]).1, n);
                        assert(crate::prune::keyed_root(rv.types[j].1, n));
                    } else {
                        assert(crate::prune::keyed_root(rv.types[i as int].1, n));
                    }
                }
                assert forall|n: Seq<char>|
                    (exists|j: int|
                        0 <= j < i + 1 && crate::prune::keyed_root(
                            (#[trigger] rv.types[j]).1,
                            n,
                        )) implies iset_elems(possible).contains(n) by {
                    let j = choose|j: int|
                        0 <= j < i + 1 && crate::prune::keyed_root((#[trigger] rv.types[j]).1, n);
                    if j < i as int {
                        assert(pre.contains(n));
                        let w = choose|w: int| 0 <= w < pre.len() && pre[w] == n;
                        assert(iset_elems(possible)[w] == n);
                    } else {
                        if pre.contains(n) {
                            let w = choose|w: int| 0 <= w < pre.len() && pre[w] == n;
                            assert(iset_elems(possible)[w] == n);
                        } else {
                            assert(iset_elems(possible) == pre.push(n));
                            assert(iset_elems(possible).last() == n);
                        }
                    }
                }
            }
            i += 1;
        }
        let ghost ps = iset_elems(possible);
        // `_Any`, only when absent
        let ghost m0 = self@;
        match self.slot_index("_Any") {
            Some(_) => {},
            None => {
                let empty_tags: Vec<String> = Vec::new();
                proof {
                    assert(empty_tags.deep_view() =~= Seq::<Seq<char>>::empty());
                }
                let any_scalar = MetaType::Scalar {
                    name: String::from_str("_Any"),
                    description: None,
                    is_valid: 0,
                    visible: None,
                    inaccessible: false,
                    tags: empty_tags,
                    specified_by_url: None,
                };
                proof {
                    assert(any_scalar@ == any_scalar_view());
                }
                self.finish_create("_Any", any_scalar);
            },
        }
        let ghost m1 = self@;
        // `_Service`
        let sdl_field = mk_root_field("sdl", "String");
        let mut service_fields: Vec<MetaField> = Vec::new();
        service_fields.push(sdl_field);
        let empty_tags2: Vec<String> = Vec::new();
        proof {
            assert(empty_tags2.deep_view() =~= Seq::<Seq<char>>::empty());
            assert(service_fields.deep_view() =~= seq![service_field_view()]);
        }
        let service_ty = MetaType::Object {
            name: String::from_str("_Service"),
            description: None,
            fields: service_fields,
            cache_control: CacheControl { public: true, max_age: 0 },
            extends: false,
            shareable: false,
            keys: None,
            visible: None,
            inaccessible: false,
            tags: empty_tags2,
            is_subscription: false,
            rust_typename: String::from_str("federation::Service"),
        };
        proof {
            assert(service_ty@ == service_type_view());
        }
        self.finish_create("_Service", service_ty);
        let ghost m2 = self@;
        // `_Entity`
        let empty_tags3: Vec<String> = Vec::new();
        proof {
            assert(empty_tags3.deep_view() =~= Seq::<Seq<char>>::empty());
        }
        let entity_ty = MetaType::Union {
            name: String::from_str("_Entity"),
            description: None,
            possible_types: possible,
            visible: None,
            inaccessible: false,
            tags: empty_tags3,
            rust_typename: String::from_str("federation::Entity"),
        };
        proof {
            assert(entity_ty@ == entity_union_view(ps));
        }
        self.finish_create("_Entity", entity_ty);
        let ghost m3 = self@;
        // the two root fields on the query root
        let q = self.query_type.clone();
        match self.slot_index(q.as_str()) {
            None => {},
            Some(k) => {
                let ghost old_pair = self@.types[k as int];
                let mut tmp: (String, TypeSlot) = (String::new(), TypeSlot::InProgress);
                core::mem::swap(&mut self.types[k], &mut tmp);
                let (key_name, slot) = tmp;
                let new_slot = match slot {
                    TypeSlot::Finished(
                        MetaType::Object {
                            name,
                            description,
                            fields,
                            cache_control,
                            extends,
                            shareable,
                            keys,
                            visible,
                            inaccessible,
                            tags,
                            is_subscription,
                            rust_typename,
                        },
                    ) => {
                        let mut fields = fields;
                        let ghost oldf = fields.deep_view();
                        fields.push(mk_root_field("_service", "_Service!"));
                        proof {
                            assert(fields.deep_view() =~= oldf.push(service_root_field_view()));
                        }
                        let mut entities = mk_root_field("_entities", "[_Entity]!");
                        let empty_tags4: Vec<String> = Vec::new();
                        proof {
                            assert(empty_tags4.deep_view() =~= Seq::<Seq<char>>::empty());
                        }
                        let arg = MetaInputValue {
                            name: String::from_str("representations"),
                            description: None,
                            ty: String::from_str("[_Any!]!"),
                            default_value: None,
                            visible: None,
                            inaccessible: false,
                            tags: empty_tags4,
                            is_secret: false,
                        };
                        proof {
                            assert(arg@ == representations_arg_view());
                        }
                        entities.args.push(arg);
                        proof {
                            assert(entities.args.deep_view() =~= seq![
                                representations_arg_view(),
                            ]);
                            assert(entities@ == entities_root_field_view());
                        }
                        fields.push(entities);
                        proof {
                            assert(fields.deep_view() =~= oldf.push(
                                service_root_field_view(),
                            ).push(entities_root_field_view()));
                        }
                        TypeSlot::Finished(
                            MetaType::Object {
                                name,
                                description,
                                fields,
                                cache_control,
                                extends,
                                shareable,
                                keys,
                                visible,
                                inaccessible,
                                tags,
                                is_subscription,
                                rust_typename,
                            },
                        )
                    },
                    other => other,
                };
                proof {
                    assert(new_slot@ == match old_pair.1 {
                        SlotView::Finished(t) => if t is Object {
                            SlotView::Finished(
                                object_with_fields(
                                    t,
                                    t.out_fields().unwrap().push(service_root_field_view()).push(
                                        entities_root_field_view(),
                                    ),
                                ),
                            )
                        } else {
                            old_pair.1
                        },
                        s => s,
                    });
                }
                self.types[k] = (key_name, new_slot);
                proof {
                    assert(self@.types =~= m3.types.update(
                        k as int,
                        (old_pair.0, new_slot@),
                    ));
                    assert forall|m: Seq<char>| true implies assoc_find(self@.types, m) == if m
                        == rv.query_type {
                        Some(new_slot@)
                    } else {
                        assoc_find(m3.types, m)
                    } by {
                        crate::registry::lemma_assoc_find_update(
                            m3.types,
                            k as int,
                            new_slot@,
                            m,
                        );
                    }
                }
            },
        }
        proof {
            reveal_strlit("_Any");
            reveal_strlit("_Service");
            reveal_strlit("_Entity");
            assert("_Any"@.len() == 4 && "_Service"@.len() == 8 && "_Entity"@.len() == 7);
            assert("_Any"@ != "_Service"@ && "_Any"@ != "_Entity"@ && "_Service"@
                != "_Entity"@);
            assert(m0 == rv);
            assert forall|m: Seq<char>|
                m != "_Any"@ && m != "_Service"@ && m != "_Entity"@ && m != rv.query_type
                implies assoc_find(self@.types, m) == assoc_find(rv.types, m) by {}
            if "_Service"@ != rv.query_type {
                assert(assoc_find(self@.types, "_Service"@) == assoc_find(m3.types, "_Service"@));
            }
            if "_Any"@ != rv.query_type && assoc_find(rv.types, "_Any"@) is None {
                assert(assoc_find(m1.types, "_Any"@) == Some(
                    SlotView::Finished(any_scalar_view()),
                ));
                assert(assoc_find(self@.types, "_Any"@) == Some(
                    SlotView::Finished(any_scalar_view()),
                ));
            }
            if "_Entity"@ != rv.query_type {
                assert(assoc_find(self@.types, "_Entity"@) == Some(
                    SlotView::Finished(entity_union_view(ps)),
                ));
                assert(forall|n: Seq<char>| #[trigger] ps.contains(n) <==> keyed_name(rv, n));
            }
        }
    }
}

} // verus!
