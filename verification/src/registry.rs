//! The type registry: the canonical name-to-descriptor store. It
//! drives recursive, cycle-safe registration through a sentinel
//! protocol (a slot is `InProgress` while its builder runs, `Finished`
//! afterwards), detects name and kind conflicts, and tracks
//! interface-implements edges and federation keys.

use vstd::prelude::*;
use vstd::string::*;
use crate::meta::MetaType;
use crate::meta::MetaTypeId;
use crate::meta::TypeView;
use crate::meta::DirectiveView;
use crate::meta::MetaDirective;
use crate::meta::str_eq;
use crate::meta::with_key_list;
use crate::meta::appended_keys;
use crate::meta::with_desc;
use crate::meta::kind_eq;
use crate::errors::RegistryError;
use crate::errors::RegistryErrorView;
use crate::type_ref::MetaTypeName;
use crate::type_ref::concrete_of;
use crate::type_ref::string_eq;

verus! {

/// One slot of the store: a registration in progress (the sentinel
/// that makes self-referential registration terminate), or a finished
/// descriptor.
pub enum TypeSlot {
    InProgress,
    Finished(MetaType),
}

/// Ghost mirror of `TypeSlot`.
pub ghost enum SlotView {
    InProgress,
    Finished(TypeView),
}

impl View for TypeSlot {
    type V = SlotView;

    open spec fn view(&self) -> SlotView {
        match self {
            TypeSlot::InProgress => SlotView::InProgress,
            TypeSlot::Finished(t) => SlotView::Finished(t@),
        }
    }
}

/// The first value bound to key `n` in an association sequence.
pub open spec fn assoc_find<V>(s: Seq<(Seq<char>, V)>, n: Seq<char>) -> Option<V>
    decreases s.len(),
{
    if s.len() == 0 {
        None
    } else if s[0].0 == n {
        Some(s[0].1)
    } else {
        assoc_find(s.drop_first(), n)
    }
}

/// Pairwise-distinct keys.
pub open spec fn distinct_keys<V>(s: Seq<(Seq<char>, V)>) -> bool {
    forall|i: int, j: int| 0 <= i < j < s.len() ==> s[i].0 != s[j].0
}

pub proof fn lemma_assoc_find_first<V>(s: Seq<(Seq<char>, V)>, n: Seq<char>, k: int)
    requires
        0 <= k < s.len(),
        s[k].0 == n,
        forall|j: int| 0 <= j < k ==> s[j].0 != n,
    ensures
        assoc_find(s, n) == Some(s[k].1),
    decreases k,
{
    if k == 0 {
    } else {
        assert(s.drop_first()[k - 1] == s[k]);
        assert(forall|j: int| 0 <= j < k - 1 ==> s.drop_first()[j] == s[j + 1]);
        lemma_assoc_find_first(s.drop_first(), n, k - 1);
    }
}

pub proof fn lemma_assoc_find_none<V>(s: Seq<(Seq<char>, V)>, n: Seq<char>)
    requires
        forall|j: int| 0 <= j < s.len() ==> s[j].0 != n,
    ensures
        assoc_find(s, n) is None,
    decreases s.len(),
{
    if s.len() > 0 {
        assert(forall|j: int| 0 <= j < s.len() - 1 ==> s.drop_first()[j] == s[j + 1]);
        lemma_assoc_find_none(s.drop_first(), n);
    }
}

pub proof fn lemma_assoc_find_update<V>(s: Seq<(Seq<char>, V)>, k: int, v: V, m: Seq<char>)
    requires
        0 <= k < s.len(),
        forall|j: int| 0 <= j < k ==> s[j].0 != s[k].0,
    ensures
        assoc_find(s.update(k, (s[k].0, v)), m) == if m == s[k].0 {
            Some(v)
        } else {
            assoc_find(s, m)
        },
    decreases k,
{
    let s2 = s.update(k, (s[k].0, v));
    if k == 0 {
        assert(s2.drop_first() =~= s.drop_first());
    } else {
        assert(s2[0] == s[0]);
        assert(s2.drop_first() =~= s.drop_first().update(k - 1, (s.drop_first()[k - 1].0, v)));
        assert(forall|j: int| 0 <= j < k - 1 ==> s.drop_first()[j] == s[j + 1]);
        lemma_assoc_find_update(s.drop_first(), k - 1, v, m);
    }
}

pub proof fn lemma_assoc_find_push<V>(s: Seq<(Seq<char>, V)>, p: (Seq<char>, V), m: Seq<char>)
    ensures
        assoc_find(s.push(p), m) == match assoc_find(s, m) {
            Some(v) => Some(v),
            None => if p.0 == m {
                Some(p.1)
            } else {
                None
            },
        },
    decreases s.len(),
{
    if s.len() == 0 {
        assert(s.push(p)[0] == p);
        assert(s.push(p).drop_first() =~= Seq::<(Seq<char>, V)>::empty());
        assert(assoc_find(Seq::<(Seq<char>, V)>::empty(), m) is None);
        assert(assoc_find(s, m) is None);
        if p.0 == m {
            assert(assoc_find(s.push(p), m) == Some(p.1));
        } else {
            assert(assoc_find(s.push(p), m) == assoc_find(
                Seq::<(Seq<char>, V)>::empty(),
                m,
            ));
        }
    } else {
        assert(s.push(p)[0] == s[0]);
        assert(s.push(p).drop_first() =~= s.drop_first().push(p));
        lemma_assoc_find_push(s.drop_first(), p, m);
        if s[0].0 == m {
            assert(assoc_find(s.push(p), m) == Some(s[0].1));
            assert(assoc_find(s, m) == Some(s[0].1));
        } else {
            assert(assoc_find(s.push(p), m) == assoc_find(s.drop_first().push(p), m));
            assert(assoc_find(s, m) == assoc_find(s.drop_first(), m));
        }
    }
}

/// The store as every traversal and contract sees it.
pub open spec fn types_view(ts: Seq<(String, TypeSlot)>) -> Seq<(Seq<char>, SlotView)> {
    ts.map_values(|p: (String, TypeSlot)| (p.0@, p.1@))
}

/// Ghost mirror of `Registry`.
#[verifier::ext_equal]
pub ghost struct RegistryView {
    pub types: Seq<(Seq<char>, SlotView)>,
    pub directives: Seq<DirectiveView>,
    pub implements: Seq<(Seq<char>, Seq<Seq<char>>)>,
    pub query_type: Seq<char>,
    pub mutation_type: Option<Seq<char>>,
    pub subscription_type: Option<Seq<char>>,
    pub ignore_name_conflicts: Seq<Seq<char>>,
}

/// All fields equal but the type store.
pub open spec fn reg_same_except_types(a: RegistryView, b: RegistryView) -> bool {
    &&& a.directives == b.directives
    &&& a.implements == b.implements
    &&& a.query_type == b.query_type
    &&& a.mutation_type == b.mutation_type
    &&& a.subscription_type == b.subscription_type
    &&& a.ignore_name_conflicts == b.ignore_name_conflicts
}

/// All fields equal but the implements edges.
pub open spec fn reg_same_except_implements(a: RegistryView, b: RegistryView) -> bool {
    &&& a.types == b.types
    &&& a.directives == b.directives
    &&& a.query_type == b.query_type
    &&& a.mutation_type == b.mutation_type
    &&& a.subscription_type == b.subscription_type
    &&& a.ignore_name_conflicts == b.ignore_name_conflicts
}

/// All fields equal but the directives.
pub open spec fn reg_same_except_directives(a: RegistryView, b: RegistryView) -> bool {
    &&& a.types == b.types
    &&& a.implements == b.implements
    &&& a.query_type == b.query_type
    &&& a.mutation_type == b.mutation_type
    &&& a.subscription_type == b.subscription_type
    &&& a.ignore_name_conflicts == b.ignore_name_conflicts
}

/// The canonical name-to-descriptor store and its registration state.
/// Built once per schema construction, then read-only while serving.
pub struct Registry {
    pub types: Vec<(String, TypeSlot)>,
    pub directives: Vec<MetaDirective>,
    pub implements: Vec<(String, Vec<String>)>,
    pub query_type: String,
    pub mutation_type: Option<String>,
    pub subscription_type: Option<String>,
    pub ignore_name_conflicts: Vec<String>,
}

impl View for Registry {
    type V = RegistryView;

    open spec fn view(&self) -> RegistryView {
        RegistryView {
            types: types_view(self.types@),
            directives: self.directives.deep_view(),
            implements: self.implements@.map_values(
                |p: (String, Vec<String>)| (p.0@, p.1.deep_view()),
            ),
            query_type: self.query_type@,
            mutation_type: self.mutation_type.deep_view(),
            subscription_type: self.subscription_type.deep_view(),
            ignore_name_conflicts: self.ignore_name_conflicts.deep_view(),
        }
    }
}

/// What a registration request finds in the store.
pub ghost enum RegisterOutcome {
    /// The name is unknown: a sentinel goes in and the builder runs.
    Fresh,
    /// The name is known compatibly, or its own registration is still
    /// running: nothing happens.
    Noop,
    /// The name is bound to a differing origin identity and is not
    /// whitelisted; the payload is the existing origin.
    IdentityConflict(Seq<char>),
    /// The name is bound to a differing kind; the payload is the
    /// existing kind.
    KindConflict(MetaTypeId),
}

/// The decision the sentinel protocol takes for one registration
/// request, from the store alone.
pub open spec fn register_outcome(
    rv: RegistryView,
    n: Seq<char>,
    origin: Seq<char>,
    kind: MetaTypeId,
) -> RegisterOutcome {
    match assoc_find(rv.types, n) {
        None => RegisterOutcome::Fresh,
        Some(SlotView::InProgress) => RegisterOutcome::Noop,
        Some(SlotView::Finished(t)) => match t.origin() {
            None => RegisterOutcome::Noop,
            Some(prev) => if prev != origin && !rv.ignore_name_conflicts.contains(n) {
                RegisterOutcome::IdentityConflict(prev)
            } else if t.kind() != kind {
                RegisterOutcome::KindConflict(t.kind())
            } else {
                RegisterOutcome::Noop
            },
        },
    }
}

/// The full contract of one registration request: what is returned and
/// how the store changes, per outcome.
pub open spec fn register_post(
    pre: RegistryView,
    post: RegistryView,
    n: Seq<char>,
    origin: Seq<char>,
    kind: MetaTypeId,
    r: Result<bool, RegistryError>,
) -> bool {
    match register_outcome(pre, n, origin, kind) {
        RegisterOutcome::Fresh => {
            &&& r == Ok::<bool, RegistryError>(true)
            &&& post.types == pre.types.push((n, SlotView::InProgress))
            &&& reg_same_except_types(post, pre)
        },
        RegisterOutcome::Noop => r == Ok::<bool, RegistryError>(false) && post == pre,
        RegisterOutcome::IdentityConflict(prev) => post == pre && match r {
            Err(e) => e@ == (RegistryErrorView::NameIdentityMismatch {
                name: n,
                existing: prev,
                requested: origin,
            }),
            _ => false,
        },
        RegisterOutcome::KindConflict(k) => post == pre && match r {
            Err(e) => e@ == (RegistryErrorView::NameKindMismatch {
                name: n,
                existing: k,
                requested: kind,
            }),
            _ => false,
        },
    }
}

fn vec_contains_str(v: &Vec<String>, s: &str) -> (r: bool)
    ensures
        r == v.deep_view().contains(s@),
{
    let mut i: usize = 0;
    while i < v.len()
        invariant
            0 <= i <= v@.len(),
            forall|j: int| 0 <= j < i ==> v.deep_view()[j] != s@,
        decreases v@.len() - i,
    {
        if str_eq(v[i].as_str(), s) {
            proof {
                assert(v.deep_view()[i as int] == s@);
            }
            return true;
        }
        i += 1;
    }
    false
}

impl Registry {
    /// Distinct store keys, distinct implements keys, distinct
    /// directive names.
    pub open spec fn wf(self) -> bool {
        distinct_keys(self@.types)
    }

    /// An empty registry.
    pub fn new() -> (r: Self)
        ensures
            r.wf(),
            r@.types == Seq::<(Seq<char>, SlotView)>::empty(),
            r@.directives == Seq::<DirectiveView>::empty(),
            r@.implements == Seq::<(Seq<char>, Seq<Seq<char>>)>::empty(),
            r@.query_type == Seq::<char>::empty(),
            r@.mutation_type is None,
            r@.subscription_type is None,
            r@.ignore_name_conflicts == Seq::<Seq<char>>::empty(),
    {
        let r = Registry {
            types: Vec::new(),
            directives: Vec::new(),
            implements: Vec::new(),
            query_type: String::new(),
            mutation_type: None,
            subscription_type: None,
            ignore_name_conflicts: Vec::new(),
        };
        proof {
            assert(r@.types =~= Seq::<(Seq<char>, SlotView)>::empty());
            assert(r@.directives =~= Seq::<DirectiveView>::empty());
            assert(r@.implements =~= Seq::<(Seq<char>, Seq<Seq<char>>)>::empty());
            assert(r@.ignore_name_conflicts =~= Seq::<Seq<char>>::empty());
        }
        r
    }

    /// The position of a name in the store, scanning in store order.
    pub fn slot_index(&self, name: &str) -> (r: Option<usize>)
        ensures
            match r {
                Some(k) => {
                    &&& 0 <= k < self@.types.len()
                    &&& self@.types[k as int].0 == name@
                    &&& forall|j: int| 0 <= j < k ==> self@.types[j].0 != name@
                    &&& assoc_find(self@.types, name@) == Some(self@.types[k as int].1)
                },
                None => {
                    &&& assoc_find(self@.types, name@) is None
                    &&& forall|j: int| 0 <= j < self@.types.len() ==> self@.types[j].0 != name@
                },
            },
    {
        let n = self.types.len();
        let mut i: usize = 0;
        while i < n
            invariant
                n == self.types@.len(),
                0 <= i <= n,
                forall|j: int| 0 <= j < i ==> self@.types[j].0 != name@,
            decreases n - i,
    {
            if str_eq(self.types[i].0.as_str(), name) {
                proof {
                    lemma_assoc_find_first(self@.types, name@, i as int);
                }
                return Some(i);
            }
            i += 1;
        }
        proof {
            lemma_assoc_find_none(self@.types, name@);
        }
        None
    }

    /// Opens a registration for `name`: inserts the sentinel and
    /// reports `Ok(true)` when the name is fresh (the caller builds the
    /// descriptor and hands it to `finish_create`); reports `Ok(false)`
    /// without any change when the name is already registered
    /// compatibly, still being registered (the recursion guard), or
    /// bound to an origin-free descriptor; fails on an identity or
    /// kind conflict, changing nothing.
    pub fn begin_create(&mut self, name: &str, rust_typename: &str, type_id: MetaTypeId) -> (r:
        Result<bool, RegistryError>)
        requires
            old(self).wf(),
        ensures
            final(self).wf(),
            register_post(old(self)@, final(self)@, name@, rust_typename@, type_id, r),
    {
        match self.slot_index(name) {
            None => {
                self.types.push((name.to_owned(), TypeSlot::InProgress));
                proof {
                    assert(self@.types =~= old(self)@.types.push(
                        (name@, SlotView::InProgress),
                    ));
                }
                Ok(true)
            },
            Some(k) => {
                match &self.types[k].1 {
                    TypeSlot::InProgress => Ok(false),
                    TypeSlot::Finished(t) => {
                        match t.rust_typename() {
                            None => Ok(false),
                            Some(prev) => {
                                if !str_eq(prev, rust_typename) && !vec_contains_str(
                                    &self.ignore_name_conflicts,
                                    name,
                                ) {
                                    Err(RegistryError::NameIdentityMismatch {
                                        name: name.to_owned(),
                                        existing: prev.to_owned(),
                                        requested: rust_typename.to_owned(),
                                    })
                                } else if !kind_eq(t.type_id(), type_id) {
                                    Err(RegistryError::NameKindMismatch {
                                        name: name.to_owned(),
                                        existing: t.type_id(),
                                        requested: type_id,
                                    })
                                } else {
                                    Ok(false)
                                }
                            },
                        }
                    },
                }
            },
        }
    }

    /// Closes a registration: binds `name` to the finished descriptor,
    /// overwriting its sentinel (or an earlier binding), or appending
    /// when the name is not in the store at all.
    pub fn finish_create(&mut self, name: &str, ty: MetaType)
        requires
            old(self).wf(),
        ensures
            final(self).wf(),
            reg_same_except_types(final(self)@, old(self)@),
            assoc_find(final(self)@.types, name@) == Some(SlotView::Finished(ty@)),
            forall|m: Seq<char>|
                m != name@ ==> assoc_find(final(self)@.types, m) == assoc_find(old(self)@.types, m),
            assoc_find(old(self)@.types, name@) is Some ==> {
                &&& final(self)@.types.len() == old(self)@.types.len()
                &&& forall|i: int|
                    0 <= i < final(self)@.types.len() ==> final(self)@.types[i].0 == old(self)@.types[i].0
            },
            assoc_find(old(self)@.types, name@) is None ==> final(self)@.types == old(
                self,
            )@.types.push((name@, SlotView::Finished(ty@))),
    {
        match self.slot_index(name) {
            Some(k) => {
                self.types[k] = (name.to_owned(), TypeSlot::Finished(ty));
                proof {
                    assert(self@.types =~= old(self)@.types.update(
                        k as int,
                        (old(self)@.types[k as int].0, SlotView::Finished(ty@)),
                    ));
                    lemma_assoc_find_update(
                        old(self)@.types,
                        k as int,
                        SlotView::Finished(ty@),
                        name@,
                    );
                    assert forall|m: Seq<char>| m != name@ implies assoc_find(self@.types, m)
                        == assoc_find(old(self)@.types, m) by {
                        lemma_assoc_find_update(
                            old(self)@.types,
                            k as int,
                            SlotView::Finished(ty@),
                            m,
                        );
                    }
                }
            },
            None => {
                self.types.push((name.to_owned(), TypeSlot::Finished(ty)));
                proof {
                    assert(self@.types =~= old(self)@.types.push(
                        (name@, SlotView::Finished(ty@)),
                    ));
                    lemma_assoc_find_push(
                        old(self)@.types,
                        (name@, SlotView::Finished(ty@)),
                        name@,
                    );
                    assert forall|m: Seq<char>| m != name@ implies assoc_find(self@.types, m)
                        == assoc_find(old(self)@.types, m) by {
                        lemma_assoc_find_push(
                            old(self)@.types,
                            (name@, SlotView::Finished(ty@)),
                            m,
                        );
                        lemma_assoc_find_none(old(self)@.types, name@);
                    }
                }
            },
        }
    }

    /// Registers one type under the sentinel protocol. If `name` is
    /// unknown, a sentinel goes in first, the builder `f` runs on the
    /// registry (it may register further types, and a re-entrant
    /// registration of `name` itself finds the sentinel and returns at
    /// once), and the builder's descriptor then replaces the sentinel.
    /// If `name` is known compatibly, or its own registration is still
    /// running, the call is a no-op. A differing origin identity fails
    /// unless `name` is whitelisted in `ignore_name_conflicts`; a
    /// differing kind fails. The registry passes through by value so
    /// that the builder can register types recursively.
    pub fn create_type<F: Fn(Registry) -> (Registry, MetaType)>(
        self,
        f: F,
        name: &str,
        rust_typename: &str,
        type_id: MetaTypeId,
    ) -> (r: (Registry, Result<(), RegistryError>))
        requires
            self.wf(),
            forall|rin: Registry| rin.wf() ==> #[trigger] call_requires(f, (rin,)),
            forall|rin: Registry, out: (Registry, MetaType)|
                rin.wf() && #[trigger] call_ensures(f, (rin,), out) ==> out.0.wf(),
        ensures
            r.0.wf(),
            match register_outcome(self@, name@, rust_typename@, type_id) {
                RegisterOutcome::Fresh => r.1 == Ok::<(), RegistryError>(())
                    && exists|rin: Registry, mid: Registry, built: MetaType|
                    {
                        &&& rin@.types == self@.types.push((name@, SlotView::InProgress))
                        &&& reg_same_except_types(rin@, self@)
                        &&& #[trigger] call_ensures(f, (rin,), (mid, built))
                        &&& reg_same_except_types(r.0@, mid@)
                        &&& assoc_find(r.0@.types, name@) == Some(SlotView::Finished(built@))
                        &&& forall|m: Seq<char>|
                            m != name@ ==> assoc_find(r.0@.types, m) == assoc_find(
                                mid@.types,
                                m,
                            )
                    },
                RegisterOutcome::Noop => r.1 == Ok::<(), RegistryError>(()) && r.0@ == self@,
                RegisterOutcome::IdentityConflict(prev) => r.0@ == self@ && match r.1 {
                    Err(e) => e@ == (RegistryErrorView::NameIdentityMismatch {
                        name: name@,
                        existing: prev,
                        requested: rust_typename@,
                    }),
                    _ => false,
                },
                RegisterOutcome::KindConflict(k) => r.0@ == self@ && match r.1 {
                    Err(e) => e@ == (RegistryErrorView::NameKindMismatch {
                        name: name@,
                        existing: k,
                        requested: type_id,
                    }),
                    _ => false,
                },
            },
    {
        let mut this = self;
        let res = this.begin_create(name, rust_typename, type_id);
        match res {
            Err(e) => (this, Err(e)),
            Ok(false) => (this, Ok(())),
            Ok(true) => {
                let ghost rin_g = this;
                let (mid, built) = f(this);
                let mut mid = mid;
                let ghost mid_g = mid;
                let ghost built_g = built;
                mid.finish_create(name, built);
                proof {
                    assert(call_ensures(f, (rin_g,), (mid_g, built_g)));
                }
                (mid, Ok(()))
            },
        }
    }

    /// Looks a descriptor up by a type-reference string, resolving the
    /// reference to its concrete named type first. An unknown name, or
    /// one whose registration never finished, yields absence.
    pub fn concrete_type_by_name(&self, tname: &str) -> (r: Option<&MetaType>)
        ensures
            match r {
                Some(t) => assoc_find(self@.types, concrete_of(tname@)) == Some(
                    SlotView::Finished(t@),
                ),
                None => !(assoc_find(self@.types, concrete_of(tname@)) matches Some(
                    SlotView::Finished(_),
                )),
            },
    {
        let c = MetaTypeName::concrete_typename(tname);
        match self.slot_index(c) {
            None => None,
            Some(k) => match &self.types[k].1 {
                TypeSlot::Finished(t) => Some(t),
                TypeSlot::InProgress => None,
            },
        }
    }

    /// Records a many-to-many implements edge; adding the same edge
    /// twice leaves the store as after the first time.
    pub fn add_implements(&mut self, ty: &str, interface: &str)
        requires
            old(self).wf(),
        ensures
            final(self).wf(),
            reg_same_except_implements(final(self)@, old(self)@),
            forall|m: Seq<char>|
                m != ty@ ==> assoc_find(final(self)@.implements, m) == assoc_find(
                    old(self)@.implements,
                    m,
                ),
            assoc_find(final(self)@.implements, ty@) == Some(
                match assoc_find(old(self)@.implements, ty@) {
                    None => seq![interface@],
                    Some(s) => if s.contains(interface@) {
                        s
                    } else {
                        s.push(interface@)
                    },
                },
            ),
    {
        let n = self.implements.len();
        let mut i: usize = 0;
        while i < n
            invariant
                n == self.implements@.len(),
                0 <= i <= n,
                forall|j: int| 0 <= j < i ==> self@.implements[j].0 != ty@,
                *self == *old(self),
                old(self).wf(),
            decreases n - i,
        {
            if str_eq(self.implements[i].0.as_str(), ty) {
                proof {
                    lemma_assoc_find_first(self@.implements, ty@, i as int);
                }
                let mut tmp: (String, Vec<String>) = (String::new(), Vec::new());
                core::mem::swap(&mut self.implements[i], &mut tmp);
                let (key, mut set) = tmp;
                let ghost old_set = set.deep_view();
                if !vec_contains_str(&set, interface) {
                    set.push(interface.to_owned());
                    proof {
                        assert(set.deep_view() =~= old_set.push(interface@));
                    }
                }
                self.implements[i] = (key, set);
                proof {
                    assert(self@.implements =~= old(self)@.implements.update(
                        i as int,
                        (old(self)@.implements[i as int].0, set.deep_view()),
                    ));
                    assert forall|m: Seq<char>| true implies assoc_find(self@.implements, m)
                        == if m == ty@ {
                        Some(set.deep_view())
                    } else {
                        assoc_find(old(self)@.implements, m)
                    } by {
                        lemma_assoc_find_update(
                            old(self)@.implements,
                            i as int,
                            set.deep_view(),
                            m,
                        );
                    }
                    assert(self@.types =~= old(self)@.types);
                }
                return ;
            }
            i += 1;
        }
        proof {
            lemma_assoc_find_none(self@.implements, ty@);
        }
        let mut fresh: Vec<String> = Vec::new();
        fresh.push(interface.to_owned());
        proof {
            assert(fresh.deep_view() =~= seq![interface@]);
        }
        self.implements.push((ty.to_owned(), fresh));
        proof {
            assert(self@.implements =~= old(self)@.implements.push((ty@, seq![interface@])));
            assert forall|m: Seq<char>| true implies assoc_find(self@.implements, m) == if m
                == ty@ {
                Some(seq![interface@])
            } else {
                assoc_find(old(self)@.implements, m)
            } by {
                lemma_assoc_find_push(
                    old(self)@.implements,
                    (ty@, seq![interface@]),
                    m,
                );
                lemma_assoc_find_none(old(self)@.implements, ty@);
            }
        }
    }
}


/// A structured type reference, as the query parser hands it over: a
/// named base or a nested list, with a nullability flag.
pub enum ParsedBaseType {
    Named(String),
    List(Box<ParsedTypeRef>),
}

/// A structured type reference with its nullability.
pub struct ParsedTypeRef {
    pub base: ParsedBaseType,
    pub nullable: bool,
}

/// The innermost named base of a structured type reference.
pub open spec fn parsed_base_name(t: ParsedTypeRef) -> Seq<char>
    decreases t,
{
    match t.base {
        ParsedBaseType::Named(n) => n@,
        ParsedBaseType::List(inner) => parsed_base_name(*inner),
    }
}

impl Registry {
    /// Looks a descriptor up by a structured type reference, resolving
    /// nested lists to the named base type.
    pub fn concrete_type_by_parsed_type(&self, query_type: &ParsedTypeRef) -> (r: Option<
        &MetaType,
    >)
        ensures
            match r {
                Some(t) => assoc_find(self@.types, parsed_base_name(*query_type)) == Some(
                    SlotView::Finished(t@),
                ),
                None => !(assoc_find(self@.types, parsed_base_name(*query_type)) matches Some(
                    SlotView::Finished(_),
                )),
            },
        decreases *query_type,
    {
        match &query_type.base {
            ParsedBaseType::Named(name) => {
                match self.slot_index(name.as_str()) {
                    None => None,
                    Some(k) => match &self.types[k].1 {
                        TypeSlot::Finished(t) => Some(t),
                        TypeSlot::InProgress => None,
                    },
                }
            },
            ParsedBaseType::List(inner) => self.concrete_type_by_parsed_type(inner),
        }
    }

    /// Appends a federation key literal to an Object or Interface key
    /// list, creating the list on first use; a no-op for any other
    /// kind, for a sentinel, and for an unknown name.
    pub fn add_keys(&mut self, ty: &str, keys: &str)
        requires
            old(self).wf(),
        ensures
            final(self).wf(),
            reg_same_except_types(final(self)@, old(self)@),
            final(self)@.types.len() == old(self)@.types.len(),
            forall|i: int|
                0 <= i < final(self)@.types.len() ==> final(self)@.types[i].0 == old(
                    self,
                )@.types[i].0,
            forall|m: Seq<char>|
                m != ty@ ==> assoc_find(final(self)@.types, m) == assoc_find(
                    old(self)@.types,
                    m,
                ),
            match assoc_find(old(self)@.types, ty@) {
                Some(SlotView::Finished(t)) => if t is Object || t is Interface {
                    assoc_find(final(self)@.types, ty@) == Some(
                        SlotView::Finished(with_key_list(t, Some(appended_keys(t, keys@)))),
                    )
                } else {
                    final(self)@ == old(self)@
                },
                _ => final(self)@ == old(self)@,
            },
    {
        let idx = self.slot_index(ty);
        match idx {
            None => {},
            Some(k) => {
                let ghost old_pair = self@.types[k as int];
                let mut tmp: (String, TypeSlot) = (String::new(), TypeSlot::InProgress);
                core::mem::swap(&mut self.types[k], &mut tmp);
                let (key_name, slot) = tmp;
                let new_slot = match slot {
                    TypeSlot::Finished(
                        MetaType::Object {
                            name,
                            description,
                            fields,
                            cache_control,
                            extends,
                            shareable,
                            keys: old_keys,
                            visible,
                            inaccessible,
                            tags,
                            is_subscription,
                            rust_typename,
                        },
                    ) => {
                        let new_keys = match old_keys {
                            Some(mut ks) => {
                                let ghost oldk = ks.deep_view();
                                ks.push(keys.to_owned());
                                proof {
                                    assert(ks.deep_view() =~= oldk.push(keys@));
                                }
                                Some(ks)
                            },
                            None => {
                                let mut ks: Vec<String> = Vec::new();
                                ks.push(keys.to_owned());
                                proof {
                                    assert(ks.deep_view() =~= seq![keys@]);
                                }
                                Some(ks)
                            },
                        };
                        TypeSlot::Finished(
                            MetaType::Object {
                                name,
                                description,
                                fields,
                                cache_control,
                                extends,
                                shareable,
                                keys: new_keys,
                                visible,
                                inaccessible,
                                tags,
                                is_subscription,
                                rust_typename,
                            },
                        )
                    },
                    TypeSlot::Finished(
                        MetaType::Interface {
                            name,
                            description,
                            fields,
                            possible_types,
                            extends,
                            keys: old_keys,
                            visible,
                            inaccessible,
                            tags,
                            rust_typename,
                        },
                    ) => {
                        let new_keys = match old_keys {
                            Some(mut ks) => {
                                let ghost oldk = ks.deep_view();
                                ks.push(keys.to_owned());
                                proof {
                                    assert(ks.deep_view() =~= oldk.push(keys@));
                                }
                                Some(ks)
                            },
                            None => {
                                let mut ks: Vec<String> = Vec::new();
                                ks.push(keys.to_owned());
                                proof {
                                    assert(ks.deep_view() =~= seq![keys@]);
                                }
                                Some(ks)
                            },
                        };
                        TypeSlot::Finished(
                            MetaType::Interface {
                                name,
                                description,
                                fields,
                                possible_types,
                                extends,
                                keys: new_keys,
                                visible,
                                inaccessible,
                                tags,
                                rust_typename,
                            },
                        )
                    },
                    other => other,
                };
                proof {
                    assert(new_slot@ == match old_pair.1 {
                        SlotView::Finished(t) => if t is Object || t is Interface {
                            SlotView::Finished(with_key_list(t, Some(appended_keys(t, keys@))))
                        } else {
                            old_pair.1
                        },
                        s => s,
                    });
                }
                self.types[k] = (key_name, new_slot);
                proof {
                    assert(self@.types =~= old(self)@.types.update(
                        k as int,
                        (old_pair.0, new_slot@),
                    ));
                    assert forall|m: Seq<char>| true implies assoc_find(self@.types, m) == if m
                        == ty@ {
                        Some(new_slot@)
                    } else {
                        assoc_find(old(self)@.types, m)
                    } by {
                        lemma_assoc_find_update(old(self)@.types, k as int, new_slot@, m);
                    }
                    if !(old_pair.1 matches SlotView::Finished(t) && (t is Object
                        || t is Interface)) {
                        assert(self@.types =~= old(self)@.types);
                        assert(self@ =~= old(self)@);
                    }
                }
            },
        }
    }

    /// Replaces the description of a finished descriptor; a no-op for
    /// a sentinel and for an unknown name.
    pub fn set_description(&mut self, name: &str, desc: &str)
        requires
            old(self).wf(),
        ensures
            final(self).wf(),
            reg_same_except_types(final(self)@, old(self)@),
            final(self)@.types.len() == old(self)@.types.len(),
            forall|i: int|
                0 <= i < final(self)@.types.len() ==> final(self)@.types[i].0 == old(
                    self,
                )@.types[i].0,
            forall|m: Seq<char>|
                m != name@ ==> assoc_find(final(self)@.types, m) == assoc_find(
                    old(self)@.types,
                    m,
                ),
            match assoc_find(old(self)@.types, name@) {
                Some(SlotView::Finished(t)) => assoc_find(final(self)@.types, name@) == Some(
                    SlotView::Finished(with_desc(t, Some(desc@))),
                ),
                _ => final(self)@ == old(self)@,
            },
    {
        let idx = self.slot_index(name);
        match idx {
            None => {},
            Some(k) => {
                let ghost old_pair = self@.types[k as int];
                let mut tmp: (String, TypeSlot) = (String::new(), TypeSlot::InProgress);
                core::mem::swap(&mut self.types[k], &mut tmp);
                let (key_name, slot) = tmp;
                let new_slot = match slot {
                    TypeSlot::Finished(t) => TypeSlot::Finished(set_desc_exec(t, desc)),
                    other => other,
                };
                proof {
                    assert(new_slot@ == match old_pair.1 {
                        SlotView::Finished(t) => SlotView::Finished(with_desc(t, Some(desc@))),
                        s => s,
                    });
                }
                self.types[k] = (key_name, new_slot);
                proof {
                    assert(self@.types =~= old(self)@.types.update(
                        k as int,
                        (old_pair.0, new_slot@),
                    ));
                    assert forall|m: Seq<char>| true implies assoc_find(self@.types, m) == if m
                        == name@ {
                        Some(new_slot@)
                    } else {
                        assoc_find(old(self)@.types, m)
                    } by {
                        lemma_assoc_find_update(old(self)@.types, k as int, new_slot@, m);
                    }
                    if old_pair.1 is InProgress {
                        assert(self@.types =~= old(self)@.types);
                        assert(self@ =~= old(self)@);
                    }
                }
            },
        }
    }

    /// Adds a directive definition, replacing an earlier one of the
    /// same name.
    pub fn add_directive(&mut self, directive: MetaDirective)
        requires
            old(self).wf(),
        ensures
            final(self).wf(),
            reg_same_except_directives(final(self)@, old(self)@),
            (forall|j: int|
                0 <= j < old(self)@.directives.len() ==> old(self)@.directives[j].name
                    != directive@.name) ==> final(self)@.directives == old(
                self,
            )@.directives.push(directive@),
            forall|k: int|
                (0 <= k < old(self)@.directives.len() && old(self)@.directives[k].name
                    == directive@.name && (forall|j: int|
                    0 <= j < k ==> old(self)@.directives[j].name != directive@.name))
                    ==> final(self)@.directives == old(self)@.directives.update(k, directive@),
    {
        let n = self.directives.len();
        let mut i: usize = 0;
        while i < n
            invariant
                n == self.directives@.len(),
                0 <= i <= n,
                forall|j: int| 0 <= j < i ==> self@.directives[j].name != directive@.name,
                *self == *old(self),
                old(self).wf(),
            decreases n - i,
        {
            if str_eq(self.directives[i].name.as_str(), directive.name.as_str()) {
                let ghost dv = directive@;
                self.directives[i] = directive;
                proof {
                    assert(self@.directives =~= old(self)@.directives.update(i as int, dv));
                    assert(old(self)@.directives[i as int].name == dv.name);
                    assert forall|k: int|
                        (0 <= k < old(self)@.directives.len() && old(self)@.directives[k].name
                            == dv.name && (forall|j: int|
                            0 <= j < k ==> old(self)@.directives[j].name != dv.name)) implies self@.directives
                        == old(self)@.directives.update(k, dv) by {
                        if k < i as int {
                            assert(old(self)@.directives[k].name != dv.name);
                        } else if k > i as int {
                            assert(old(self)@.directives[i as int].name == dv.name);
                            assert(!(forall|j: int|
                                0 <= j < k ==> old(self)@.directives[j].name != dv.name));
                        }
                    }
                }
                return ;
            }
            i += 1;
        }
        let ghost dv = directive@;
        self.directives.push(directive);
        proof {
            assert(self@.directives =~= old(self)@.directives.push(dv));
        }
    }
}

fn set_desc_exec(t: MetaType, desc: &str) -> (r: MetaType)
    ensures
        r@ == with_desc(t@, Some(desc@)),
{
    match t {
        MetaType::Scalar { name, description, is_valid, visible, inaccessible, tags, specified_by_url } => MetaType::Scalar {
            name,
            description: Some(desc.to_owned()),
            is_valid,
            visible,
            inaccessible,
            tags,
            specified_by_url,
        },
        MetaType::Object {
            name,
            description,
            fields,
            cache_control,
            extends,
            shareable,
            keys,
            visible,
            inaccessible,
            tags,
            is_subscription,
            rust_typename,
        } => MetaType::Object {
            name,
            description: Some(desc.to_owned()),
            fields,
            cache_control,
            extends,
            shareable,
            keys,
            visible,
            inaccessible,
            tags,
            is_subscription,
            rust_typename,
        },
        MetaType::Interface {
            name,
            description,
            fields,
            possible_types,
            extends,
            keys,
            visible,
            inaccessible,
            tags,
            rust_typename,
        } => MetaType::Interface {
            name,
            description: Some(desc.to_owned()),
            fields,
            possible_types,
            extends,
            keys,
            visible,
            inaccessible,
            tags,
            rust_typename,
        },
        MetaType::Union { name, description, possible_types, visible, inaccessible, tags, rust_typename } => MetaType::Union {
            name,
            description: Some(desc.to_owned()),
            possible_types,
            visible,
            inaccessible,
            tags,
            rust_typename,
        },
        MetaType::Enum { name, description, enum_values, visible, inaccessible, tags, rust_typename } => MetaType::Enum {
            name,
            description: Some(desc.to_owned()),
            enum_values,
            visible,
            inaccessible,
            tags,
            rust_typename,
        },
        MetaType::InputObject {
            name,
            description,
            input_fields,
            visible,
            inaccessible,
            tags,
            rust_typename,
            oneof,
        } => MetaType::InputObject {
            name,
            description: Some(desc.to_owned()),
            input_fields,
            visible,
            inaccessible,
            tags,
            rust_typename,
            oneof,
        },
    }
}

} // verus!
