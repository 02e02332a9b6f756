//! Union composition: validates an ordered list of member
//! declarations and builds the possible-type set and dispatch rule of
//! a Union. A member is Direct (it must be a registered Object) or
//! Flattened (it must be a registered Union, whose possible types are
//! merged in wholesale). Duplicate member identities, invalid members
//! and an empty composition are fatal construction errors.

use vstd::prelude::*;
use vstd::string::*;
use crate::meta::MetaType;
use crate::meta::TypeView;
use crate::meta::str_eq;
use crate::registry::Registry;
use crate::registry::RegistryView;
use crate::registry::TypeSlot;
use crate::registry::SlotView;
use crate::registry::assoc_find;
use crate::errors::RegistryError;
use crate::errors::RegistryErrorView;
use crate::iset::iset_elems;
use crate::iset::iset_new;
use crate::iset::iset_insert;
use crate::iset::iset_len;
use crate::iset::iset_get_index;

verus! {

/// One declared member of a Union.
pub enum UnionMember {
    /// A concrete Object member, under its type name.
    Direct(String),
    /// A member whose own possible types are merged in wholesale.
    Flattened(String),
}

/// Ghost mirror of `UnionMember`.
pub ghost enum UnionMemberView {
    Direct(Seq<char>),
    Flattened(Seq<char>),
}

impl View for UnionMember {
    type V = UnionMemberView;

    open spec fn view(&self) -> UnionMemberView {
        match self {
            UnionMember::Direct(n) => UnionMemberView::Direct(n@),
            UnionMember::Flattened(n) => UnionMemberView::Flattened(n@),
        }
    }
}

impl DeepView for UnionMember {
    type V = UnionMemberView;

    open spec fn deep_view(&self) -> UnionMemberView {
        self.view()
    }
}

/// The type identity a member declaration names.
pub fn member_name(m: &UnionMember) -> (r: &String)
    ensures
        r@ == member_id(m@),
{
    match m {
        UnionMember::Direct(n) => n,
        UnionMember::Flattened(n) => n,
    }
}

/// The type identity a member declaration names, as a ghost value.
pub open spec fn member_id(m: UnionMemberView) -> Seq<char> {
    match m {
        UnionMemberView::Direct(n) => n,
        UnionMemberView::Flattened(n) => n,
    }
}

/// A Direct member must be a registered Object; a Flattened member
/// must be a registered Union.
pub open spec fn member_valid(rv: RegistryView, m: UnionMemberView) -> bool {
    match m {
        UnionMemberView::Direct(n) => match assoc_find(rv.types, n) {
            Some(SlotView::Finished(t)) => t is Object,
            _ => false,
        },
        UnionMemberView::Flattened(n) => match assoc_find(rv.types, n) {
            Some(SlotView::Finished(t)) => t is Union,
            _ => false,
        },
    }
}

/// `x` is among the possible types a member contributes: a Direct
/// member contributes its own name, a Flattened member every possible
/// type of the union it names.
pub open spec fn member_contributes(rv: RegistryView, m: UnionMemberView, x: Seq<char>) -> bool {
    match m {
        UnionMemberView::Direct(n) => x == n,
        UnionMemberView::Flattened(n) => match assoc_find(rv.types, n) {
            Some(SlotView::Finished(t)) => t is Union && t.possible().unwrap().contains(x),
            _ => false,
        },
    }
}

/// `x` is in the composed possible-type set of the member list.
pub open spec fn composed_contains(
    rv: RegistryView,
    members: Seq<UnionMemberView>,
    x: Seq<char>,
) -> bool {
    exists|i: int| 0 <= i < members.len() && #[trigger] member_contributes(rv, members[i], x)
}

/// Pairwise-distinct member identities.
pub open spec fn distinct_members(members: Seq<UnionMemberView>) -> bool {
    forall|i: int, j: int|
        0 <= i < j < members.len() ==> member_id(members[i]) != member_id(members[j])
}

/// Composes a Union's possible-type set from its member declarations.
/// Succeeds exactly on a duplicate-free list of valid members whose
/// composition is non-empty, and the set holds exactly the
/// contributed names. It fails with `DuplicateMember` on a repeated
/// identity, with `InvalidMember` on a member that is not what its
/// declaration requires, and with `EmptyUnion` on a duplicate-free
/// list of valid members that composes to no possible type.
pub fn compose_union(reg: &Registry, members: &Vec<UnionMember>) -> (r: Result<
    indexmap::IndexSet<String>,
    RegistryError,
>)
    ensures
        match r {
            Ok(ps) => {
                &&& distinct_members(members.deep_view())
                &&& forall|i: int|
                    0 <= i < members.deep_view().len() ==> member_valid(
                        reg@,
                        #[trigger] members.deep_view()[i],
                    )
                &&& iset_elems(ps).len() > 0
                &&& forall|x: Seq<char>|
                    #[trigger] iset_elems(ps).contains(x) <==> composed_contains(
                        reg@,
                        members.deep_view(),
                        x,
                    )
            },
            Err(e) => match e@ {
                RegistryErrorView::DuplicateMember { name } => exists|i: int, j: int|
                    0 <= i < j < members.deep_view().len() && member_id(
                        #[trigger] members.deep_view()[i],
                    ) == member_id(#[trigger] members.deep_view()[j]) && name == member_id(
                        members.deep_view()[j],
                    ),
                RegistryErrorView::InvalidMember { name } => exists|i: int|
                    0 <= i < members.deep_view().len() && !member_valid(
                        reg@,
                        #[trigger] members.deep_view()[i],
                    ) && name == member_id(members.deep_view()[i]),
                RegistryErrorView::EmptyUnion => {
                    &&& distinct_members(members.deep_view())
                    &&& forall|i: int|
                        0 <= i < members.deep_view().len() ==> member_valid(
                            reg@,
                            #[trigger] members.deep_view()[i],
                        )
                    &&& forall|x: Seq<char>| !composed_contains(reg@, members.deep_view(), x)
                },
                _ => false,
            },
        },
{
    let ghost rv = reg@;
    let ghost mv = members.deep_view();
    // pass one: member identities must be pairwise distinct
    let mut i: usize = 0;
    while i < members.len()
        invariant
            mv == members.deep_view(),
            0 <= i <= members@.len(),
            forall|a: int, b: int|
                0 <= a < b < i ==> member_id(mv[a]) != member_id(mv[b]),
        decreases members@.len() - i,
    {
        let id = member_name(&members[i]);
        let mut a: usize = 0;
        while a < i
            invariant
                mv == members.deep_view(),
                0 <= a <= i < members@.len(),
                id@ == member_id(mv[i as int]),
                forall|b: int| 0 <= b < a ==> member_id(mv[b]) != id@,
            decreases i - a,
        {
            let prev = member_name(&members[a]);
            if str_eq(prev.as_str(), id.as_str()) {
                proof {
                    assert(member_id(mv[a as int]) == prev@);
                    assert(0 <= a < i < members.deep_view().len() && member_id(
                        members.deep_view()[a as int],
                    ) == member_id(members.deep_view()[i as int]) && id@ == member_id(
                        members.deep_view()[i as int],
                    ));
                }
                return Err(RegistryError::DuplicateMember { name: id.clone() });
            }
            a += 1;
        }
        i += 1;
    }
    // pass two: validate each member and merge its possible types
    let mut ps: indexmap::IndexSet<String> = iset_new();
    let mut i: usize = 0;
    while i < members.len()
        invariant
            rv == reg@,
            mv == members.deep_view(),
            0 <= i <= members@.len(),
            distinct_members(mv),
            forall|a: int| 0 <= a < i ==> member_valid(rv, #[trigger] mv[a]),
            forall|x: Seq<char>|
                #[trigger] iset_elems(ps).contains(x) <==> exists|a: int|
                    0 <= a < i && member_contributes(rv, mv[a], x),
        decreases members@.len() - i,
    {
        let ghost pre = iset_elems(ps);
        match &members[i] {
            UnionMember::Direct(n) => {
                // must expose Object capability
                let ok = match reg.slot_index(n.as_str()) {
                    Some(k) => match &reg.types[k].1 {
                        TypeSlot::Finished(t) => match t {
                            MetaType::Object { .. } => true,
                            _ => false,
                        },
                        TypeSlot::InProgress => false,
                    },
                    None => false,
                };
                if !ok {
                    proof {
                        assert(!member_valid(rv, members.deep_view()[i as int]));
                        assert(member_id(members.deep_view()[i as int]) == n@);
                    }
                    return Err(RegistryError::InvalidMember { name: n.as_str().to_owned() });
                }
                iset_insert(&mut ps, n.as_str().to_owned());
                proof {
                    assert(member_contributes(rv, mv[i as int], n@));
                    assert forall|x: Seq<char>| #[trigger] iset_elems(ps).contains(x)
                        implies exists|b: int|
                        0 <= b < i + 1 && member_contributes(rv, mv[b], x) by {
                        if pre.contains(x) {
                            let b = choose|b: int|
                                0 <= b < i && member_contributes(rv, #[trigger] mv[b], x);
                            assert(member_contributes(rv, mv[b], x));
                        } else {
                            assert(iset_elems(ps) == pre.push(x) || x == n@);
                            assert(member_contributes(rv, mv[i as int], x));
                        }
                    }
                    assert forall|x: Seq<char>|
                        (exists|b: int| 0 <= b < i + 1 && member_contributes(rv, mv[b], x))
                        implies iset_elems(ps).contains(x) by {
                        let b = choose|b: int|
                            0 <= b < i + 1 && member_contributes(rv, #[trigger] mv[b], x);
                        if b < i as int {
                            assert(pre.contains(x));
                            let w = choose|w: int| 0 <= w < pre.len() && pre[w] == x;
                            assert(iset_elems(ps)[w] == x);
                        } else {
                            assert(x == n@);
                            if pre.contains(x) {
                                let w = choose|w: int| 0 <= w < pre.len() && pre[w] == x;
                                assert(iset_elems(ps)[w] == x);
                            } else {
                                assert(iset_elems(ps).last() == x);
                            }
                        }
                    }
                }
            },
            UnionMember::Flattened(n) => {
                // must itself resolve to a set of possible types
                match reg.slot_index(n.as_str()) {
                    Some(k) => match &reg.types[k].1 {
                        TypeSlot::Finished(t) => match t {
                            MetaType::Union { possible_types, .. } => {
                                let ghost sub = iset_elems(*possible_types);
                                let cnt = iset_len(possible_types);
                                let mut pj: usize = 0;
                                while pj < cnt
                                    invariant
                                        rv == reg@,
                                        mv == members.deep_view(),
                                        0 <= i < members@.len(),
                                        cnt == sub.len(),
                                        0 <= pj <= cnt,
                                        sub == iset_elems(*possible_types),
                                        assoc_find(rv.types, n@) == Some(
                                            SlotView::Finished(t@),
                                        ),
                                        t@ is Union,
                                        t@.possible() == Some(sub),
                                        n@ == member_id(mv[i as int]),
                                        mv[i as int] is Flattened,
                                        forall|x: Seq<char>|
                                            #[trigger] iset_elems(ps).contains(x) <==> (
                                            pre.contains(x) || exists|w: int|
                                                0 <= w < pj && sub[w] == x),
                                        forall|x: Seq<char>|
                                            pre.contains(x) ==> (exists|a2: int|
                                                0 <= a2 < i && member_contributes(
                                                    rv,
                                                    #[trigger] mv[a2],
                                                    x,
                                                )),
                                    decreases cnt - pj,
                                {
                                    let ghost pre2 = iset_elems(ps);
                                    let e = iset_get_index(possible_types, pj).unwrap();
                                    iset_insert(&mut ps, e.clone());
                                    proof {
                                        assert forall|x: Seq<char>|
                                            #[trigger] iset_elems(ps).contains(x) implies (
                                        pre.contains(x) || exists|w: int|
                                            0 <= w < pj + 1 && sub[w] == x) by {
                                            if pre2.contains(x) {
                                            } else {
                                                assert(x == sub[pj as int]);
                                            }
                                        }
                                        assert forall|x: Seq<char>|
                                            (pre.contains(x) || exists|w: int|
                                                0 <= w < pj + 1 && sub[w] == x) implies
                                            iset_elems(ps).contains(x) by {
                                            if pre2.contains(x) || x == sub[pj as int] {
                                                if pre2.contains(x) {
                                                    let w2 = choose|w2: int|
                                                        0 <= w2 < pre2.len() && pre2[w2] == x;
                                                    assert(iset_elems(ps)[w2] == x);
                                                } else {
                                                    assert(iset_elems(ps).last() == x);
                                                }
                                            } else {
                                                assert(pre2.contains(x));
                                            }
                                        }
                                    }
                                    pj += 1;
                                }
                                proof {
                                    assert forall|x: Seq<char>|
                                        #[trigger] iset_elems(ps).contains(x) implies exists|
                                        b: int,
                                    |
                                        0 <= b < i + 1 && member_contributes(rv, mv[b], x) by {
                                        if pre.contains(x) {
                                            let b = choose|b: int|
                                                0 <= b < i && member_contributes(
                                                    rv,
                                                    #[trigger] mv[b],
                                                    x,
                                                );
                                            assert(member_contributes(rv, mv[b], x));
                                        } else {
                                            let w = choose|w: int|
                                                0 <= w < sub.len() && sub[w] == x;
                                            assert(sub.contains(x));
                                            assert(member_contributes(rv, mv[i as int], x));
                                        }
                                    }
                                    assert forall|x: Seq<char>|
                                        (exists|b: int|
                                            0 <= b < i + 1 && member_contributes(
                                                rv,
                                                mv[b],
                                                x,
                                            )) implies iset_elems(ps).contains(x) by {
                                        let b = choose|b: int|
                                            0 <= b < i + 1 && member_contributes(
                                                rv,
                                                #[trigger] mv[b],
                                                x,
                                            );
                                        if b < i as int {
                                            assert(pre.contains(x));
                                        } else {
                                            assert(sub.contains(x));
                                            let w = choose|w: int|
                                                0 <= w < sub.len() && sub[w] == x;
                                        }
                                    }
                                }
                            },
                            _ => {
                                proof {
                                    assert(!member_valid(rv, members.deep_view()[i as int]));
                                    assert(member_id(members.deep_view()[i as int]) == n@);
                                }
                                return Err(
                                    RegistryError::InvalidMember { name: n.as_str().to_owned() },
                                );
                            },
                        },
                        TypeSlot::InProgress => {
                            proof {
                                assert(!member_valid(rv, members.deep_view()[i as int]));
                                assert(member_id(members.deep_view()[i as int]) == n@);
                            }
                            return Err(
                                RegistryError::InvalidMember { name: n.as_str().to_owned() },
                            );
                        },
                    },
                    None => {
                        proof {
                            assert(!member_valid(rv, members.deep_view()[i as int]));
                            assert(member_id(members.deep_view()[i as int]) == n@);
                        }
                        return Err(
                            RegistryError::InvalidMember { name: n.as_str().to_owned() },
                        );
                    },
                }
            },
        }
        i += 1;
    }
    // a union must compose to at least one possible type
    if iset_len(&ps) == 0 {
        proof {
            assert forall|x: Seq<char>| !composed_contains(rv, mv, x) by {
                if composed_contains(rv, mv, x) {
                    assert(iset_elems(ps).contains(x));
                }
            }
        }
        return Err(RegistryError::EmptyUnion);
    }
    proof {
        assert(iset_elems(ps).len() > 0);
    }
    Ok(ps)
}

/// The concrete type name a union value dispatches to: a Direct tag
/// answers with the member's own type name; a Flattened tag delegates
/// to the member's own dispatch, whose answer the caller supplies.
pub fn dispatch_concrete_name(members: &Vec<UnionMember>, tag: usize, delegated: Option<String>)
    -> (r: Option<String>)
    ensures
        match r {
            Some(n) => tag < members.deep_view().len() && match members.deep_view()[tag as int] {
                UnionMemberView::Direct(m) => n@ == m,
                UnionMemberView::Flattened(_) => delegated.deep_view() == Some(n@),
            },
            None => tag >= members.deep_view().len() || (members.deep_view()[tag as int]
                is Flattened && delegated is None),
        },
{
    if tag >= members.len() {
        return None;
    }
    match &members[tag] {
        UnionMember::Direct(n) => Some(n.clone()),
        UnionMember::Flattened(_) => delegated,
    }
}

} // verus!
