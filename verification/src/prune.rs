//! Reachable-type pruning and viewer-scoped visibility: depth-first
//! reachability from the schema roots (the query, mutation and
//! subscription roots, every keyed type, and every directive
//! argument's type), unfiltered for pruning and filtered by visibility
//! predicates for `find_visible_types`, which also runs a repair pass
//! so that a visible interface with a visible possible type stays
//! introspectable.

use vstd::prelude::*;
use vstd::string::*;
use crate::meta::MetaType;
use crate::meta::ViewerContext;
use crate::meta::TypeView;
use crate::meta::spec_is_system;
use crate::meta::is_system_type;
use crate::registry::Registry;
use crate::registry::RegistryView;
use crate::registry::TypeSlot;
use crate::registry::SlotView;
use crate::registry::types_view;
use crate::registry::assoc_find;
use crate::registry::distinct_keys;
use crate::registry::reg_same_except_types;
use crate::registry::lemma_assoc_find_first;
use crate::reach::gate_ok;
use crate::reach::gate_view;
use crate::reach::any_input_edge;
use crate::reach::is_walk;
use crate::reach::reachable;
use crate::reach::node_live;
use crate::reach::has_name;
use crate::reach::all_live;
use crate::reach::closed_under_edges;
use crate::reach::distinct_names;
use crate::reach::traverse_into;
use crate::reach::vec_contains_string;
use crate::reach::lemma_reachable_in_closed;
use crate::iset::iset_elems;
use crate::iset::iset_len;
use crate::iset::iset_get_index;

verus! {

/// A keyed descriptor gives its own name as a root.
pub open spec fn keyed_root(sl: SlotView, n: Seq<char>) -> bool {
    match sl {
        SlotView::Finished(t) => t.is_keyed() && n == t.gql_name(),
        SlotView::InProgress => false,
    }
}

/// The roots of a traversal: the query root, the mutation and
/// subscription roots when set, every keyed type, and every (filtered)
/// directive argument's concrete type under a (filtered) directive.
pub open spec fn is_root(rv: RegistryView, g: Option<Seq<u64>>, n: Seq<char>) -> bool {
    ||| n == rv.query_type
    ||| rv.mutation_type == Some(n)
    ||| rv.subscription_type == Some(n)
    ||| exists|i: int|
        0 <= i < rv.directives.len() && gate_ok((#[trigger] rv.directives[i]).visible, g)
            && any_input_edge(rv.directives[i].args, g, n)
    ||| exists|i: int| 0 <= i < rv.types.len() && #[trigger] keyed_root(rv.types[i].1, n)
}

/// A name is reachable when a filtered walk leads to it from some root.
pub open spec fn root_reachable(rv: RegistryView, g: Option<Seq<u64>>, n: Seq<char>) -> bool {
    exists|p: Seq<Seq<char>>|
        is_walk(rv.types, g, p) && p.len() >= 1 && is_root(rv, g, p[0]) && p.last() == n
}

/// What pruning keeps: built-in names and root-reachable names.
pub open spec fn keep_type(rv: RegistryView, n: Seq<char>) -> bool {
    spec_is_system(n) || root_reachable(rv, None, n)
}

/// The store entries whose key pruning keeps, in store order.
pub open spec fn pruned_types(s: Seq<(Seq<char>, SlotView)>, rv: RegistryView) -> Seq<
    (Seq<char>, SlotView),
>
    decreases s.len(),
{
    if s.len() == 0 {
        s
    } else {
        let rest = pruned_types(s.drop_last(), rv);
        if keep_type(rv, s.last().0) {
            rest.push(s.last())
        } else {
            rest
        }
    }
}

fn collect_roots(reg: &Registry, gate: Option<&ViewerContext>) -> (r: Vec<String>)
    ensures
        forall|k: int| 0 <= k < r@.len() ==> is_root(reg@, gate_view(gate), (#[trigger] r@[k])@),
        forall|n: Seq<char>| is_root(reg@, gate_view(gate), n) ==> has_name(r@, n),
{
    let ghost g = gate_view(gate);
    let ghost rv = reg@;
    let mut out: Vec<String> = Vec::new();
    let mut i: usize = 0;
    while i < reg.directives.len()
        invariant
            g == gate_view(gate),
            rv == reg@,
            0 <= i <= reg.directives@.len(),
            forall|k: int| 0 <= k < out@.len() ==> is_root(rv, g, (#[trigger] out@[k])@),
            forall|ii: int, n: Seq<char>|
                0 <= ii < i && gate_ok(rv.directives[ii].visible, g) && #[trigger] any_input_edge(
                    rv.directives[ii].args,
                    g,
                    n,
                ) ==> has_name(out@, n),
        decreases reg.directives@.len() - i,
    {
        let ghost pre = out@;
        let allowed = match gate {
            None => true,
            Some(c) => crate::meta::is_visible(c, &reg.directives[i].visible),
        };
        if allowed {
            crate::reach::collect_input_edges(&reg.directives[i].args, gate, &mut out);
            proof {
                assert(reg.directives[i as int].args.deep_view() == rv.directives[i as int].args);
                assert forall|k: int| 0 <= k < out@.len() implies is_root(
                    rv,
                    g,
                    (#[trigger] out@[k])@,
                ) by {
                    if k >= pre.len() {
                        assert(any_input_edge(rv.directives[i as int].args, g, out@[k]@));
                        assert(gate_ok(rv.directives[i as int].visible, g));
                    } else {
                        assert(out@[k] == pre[k]);
                    }
                }
            }
        }
        proof {
            crate::reach::lemma_has_name_mono(pre, out@);
            assert forall|ii: int, n: Seq<char>|
                0 <= ii < i + 1 && gate_ok(rv.directives[ii].visible, g)
                    && #[trigger] any_input_edge(rv.directives[ii].args, g, n) implies has_name(
                out@,
                n,
            ) by {
                if ii == i as int {
                    assert(allowed);
                } else {
                    assert(has_name(pre, n));
                }
            }
        }
        i += 1;
    }
    let ghost pre_q = out@;
    out.push(reg.query_type.clone());
    let ghost s1 = out@;
    proof {
        assert(s1[s1.len() - 1]@ == rv.query_type);
        assert(has_name(s1, rv.query_type));
    }
    match &reg.mutation_type {
        Some(m) => {
            out.push(m.clone());
            proof {
                assert(out@[out@.len() - 1]@ == m@);
                assert(has_name(out@, m@));
            }
        },
        None => {},
    }
    let ghost s2 = out@;
    proof {
        crate::reach::lemma_has_name_mono(s1, s2);
        assert(has_name(s2, rv.query_type));
        assert(match rv.mutation_type {
            Some(x) => has_name(s2, x),
            None => true,
        });
    }
    match &reg.subscription_type {
        Some(m) => {
            out.push(m.clone());
            proof {
                assert(out@[out@.len() - 1]@ == m@);
                assert(has_name(out@, m@));
            }
        },
        None => {},
    }
    let ghost pre_keys = out@;
    proof {
        crate::reach::lemma_has_name_mono(pre_q, s1);
        crate::reach::lemma_has_name_mono(s2, pre_keys);
        assert forall|ii: int, n: Seq<char>|
            0 <= ii < rv.directives.len() && gate_ok(rv.directives[ii].visible, g)
                && #[trigger] any_input_edge(rv.directives[ii].args, g, n) implies has_name(
            pre_keys,
            n,
        ) by {
            assert(has_name(pre_q, n));
            assert(has_name(s1, n));
            assert(has_name(s2, n));
        }
        assert(has_name(pre_keys, rv.query_type));
        assert(match rv.mutation_type {
            Some(x) => has_name(pre_keys, x),
            None => true,
        });
        assert(match rv.subscription_type {
            Some(x) => has_name(pre_keys, x),
            None => true,
        });
        assert forall|k: int| pre_q.len() <= k < out@.len() implies is_root(
            rv,
            g,
            (#[trigger] out@[k])@,
        ) by {}
    }
    let mut t: usize = 0;
    while t < reg.types.len()
        invariant
            g == gate_view(gate),
            rv == reg@,
            0 <= t <= reg.types@.len(),
            forall|k: int| 0 <= k < out@.len() ==> is_root(rv, g, (#[trigger] out@[k])@),
            forall|n: Seq<char>| has_name(pre_keys, n) ==> has_name(out@, n),
            has_name(pre_keys, rv.query_type),
            forall|ii: int, n: Seq<char>|
                0 <= ii < rv.directives.len() && gate_ok(rv.directives[ii].visible, g)
                    && #[trigger] any_input_edge(rv.directives[ii].args, g, n) ==> has_name(
                    pre_keys,
                    n,
                ),
            match rv.mutation_type {
                Some(x) => has_name(pre_keys, x),
                None => true,
            },
            match rv.subscription_type {
                Some(x) => has_name(pre_keys, x),
                None => true,
            },
            out@.len() >= pre_keys.len(),
            forall|k: int| 0 <= k < pre_keys.len() ==> (#[trigger] out@[k]) == pre_keys[k],
            forall|tt: int, n: Seq<char>|
                0 <= tt < t && #[trigger] keyed_root(rv.types[tt].1, n) ==> has_name(out@, n),
        decreases reg.types@.len() - t,
    {
        let ghost pre = out@;
        let keyed = match &reg.types[t].1 {
            TypeSlot::Finished(ty) => ty.is_keyed(),
            TypeSlot::InProgress => false,
        };
        if keyed {
            match &reg.types[t].1 {
                TypeSlot::Finished(ty) => {
                    let nm = ty.name().to_owned();
                    proof {
                        assert(rv.types[t as int].1 == reg.types@[t as int].1@);
                        assert(keyed_root(rv.types[t as int].1, nm@));
                    }
                    out.push(nm);
                },
                TypeSlot::InProgress => {},
            }
        }
        proof {
            crate::reach::lemma_has_name_mono(pre, out@);
            assert forall|tt: int, n: Seq<char>|
                0 <= tt < t + 1 && #[trigger] keyed_root(rv.types[tt].1, n) implies has_name(
                out@,
                n,
            ) by {
                if tt == t as int {
                    assert(keyed);
                    assert(out@[out@.len() - 1]@ == n);
                } else {
                    assert(has_name(pre, n));
                }
            }
        }
        t += 1;
    }
    proof {
        assert forall|n: Seq<char>| is_root(rv, g, n) implies has_name(out@, n) by {
            if n == rv.query_type {
                assert(has_name(pre_keys, n));
            } else if rv.mutation_type == Some(n) || rv.subscription_type == Some(n) {
                assert(has_name(pre_keys, n));
            } else if exists|i: int|
                0 <= i < rv.directives.len() && gate_ok((#[trigger] rv.directives[i]).visible, g)
                    && any_input_edge(rv.directives[i].args, g, n) {
                assert(has_name(pre_keys, n));
            }
        }
    }
    out
}

/// The repair-pass promise for one name: it is bound to a visible
/// interface named like its key, one of whose possible types is
/// root-reachable for this viewer.
pub open spec fn repair_claim(rv: RegistryView, g: Option<Seq<u64>>, n: Seq<char>) -> bool {
    match assoc_find(rv.types, n) {
        Some(SlotView::Finished(t)) => t is Interface && t.gql_name() == n && gate_ok(
            t.visible_handle(),
            g,
        ) && exists|j: int|
            0 <= j < t.possible().unwrap().len() && root_reachable(
                rv,
                g,
                #[trigger] t.possible().unwrap()[j],
            ),
        _ => false,
    }
}

/// A slot holding a visible interface named `n` with a live possible
/// type: the repair pass may traverse from such a name.
pub open spec fn eligible_interface(
    tsv: Seq<(Seq<char>, SlotView)>,
    g: Option<Seq<u64>>,
    sl: SlotView,
    n: Seq<char>,
) -> bool {
    match sl {
        SlotView::Finished(t) => t is Interface && t.gql_name() == n && gate_ok(
            t.visible_handle(),
            g,
        ) && exists|j: int|
            0 <= j < t.possible().unwrap().len() && node_live(
                tsv,
                g,
                #[trigger] t.possible().unwrap()[j],
            ),
        SlotView::InProgress => false,
    }
}

/// Some store entry is a visible interface named `n` with a live
/// possible type.
pub open spec fn repair_root(rv: RegistryView, g: Option<Seq<u64>>, n: Seq<char>) -> bool {
    exists|i: int|
        0 <= i < rv.types.len() && #[trigger] eligible_interface(rv.types, g, rv.types[i].1, n)
}

/// Reachable under the viewer filter from a root or from a
/// repair-eligible interface.
pub open spec fn visible_reach(rv: RegistryView, g: Option<Seq<u64>>, n: Seq<char>) -> bool {
    exists|p: Seq<Seq<char>>|
        is_walk(rv.types, g, p) && p.len() >= 1 && (is_root(rv, g, p[0]) || repair_root(
            rv,
            g,
            p[0],
        )) && p.last() == n
}

/// A walk appended to a witness of `visible_reach` stays one.
proof fn lemma_visible_reach_concat(
    rv: RegistryView,
    g: Option<Seq<u64>>,
    u: Seq<char>,
    p2: Seq<Seq<char>>,
)
    requires
        visible_reach(rv, g, u),
        is_walk(rv.types, g, p2),
        p2.len() >= 1,
        p2[0] == u,
    ensures
        visible_reach(rv, g, p2.last()),
{
    let p1 = choose|p: Seq<Seq<char>>|
        is_walk(rv.types, g, p) && p.len() >= 1 && (is_root(rv, g, p[0]) || repair_root(
            rv,
            g,
            p[0],
        )) && p.last() == u;
    let p3 = p1 + p2.drop_first();
    assert(p3[0] == p1[0]);
    assert(p3.last() == if p2.len() == 1 {
        p1.last()
    } else {
        p2.last()
    });
    assert forall|i: int| 0 <= i < p3.len() implies node_live(rv.types, g, #[trigger] p3[i]) by {
        if i < p1.len() {
            assert(p3[i] == p1[i]);
        } else {
            assert(p3[i] == p2[i - p1.len() + 1]);
        }
    }
    assert forall|i: int| 0 <= i < p3.len() - 1 implies crate::reach::edge_from(
        rv.types,
        g,
        p3[i],
        #[trigger] p3[i + 1],
    ) by {
        if i < p1.len() - 1 {
            assert(p3[i] == p1[i] && p3[i + 1] == p1[i + 1]);
        } else if i == p1.len() - 1 {
            assert(p3[i] == p1.last());
            if p2.len() >= 2 {
                assert(p3[i + 1] == p2[1]);
                assert(crate::reach::edge_from(rv.types, g, p2[0], p2[1]));
            }
        } else {
            assert(p3[i] == p2[i - p1.len() + 1]);
            assert(p3[i + 1] == p2[i - p1.len() + 2]);
            assert(crate::reach::edge_from(
                rv.types,
                g,
                p2[i - p1.len() + 1],
                p2[i - p1.len() + 2],
            ));
        }
    }
    assert(is_walk(rv.types, g, p3) && p3.len() >= 1 && (is_root(rv, g, p3[0]) || repair_root(
        rv,
        g,
        p3[0],
    )) && p3.last() == p2.last());
}

impl Registry {
    /// Removes every registered, non-built-in type that no walk from a
    /// root reaches, keeping the survivors in store order. The result
    /// depends only on what the store maps each name to and on the
    /// roots, never on registration order.
    pub fn remove_unused_types(&mut self)
        requires
            old(self).wf(),
        ensures
            final(self).wf(),
            reg_same_except_types(final(self)@, old(self)@),
            final(self)@.types == pruned_types(old(self)@.types, old(self)@),
    {
        let ghost rv = self@;
        let roots = collect_roots(self, None);
        let mut used: Vec<String> = Vec::new();
        proof {
            assert(used.deep_view() =~= Seq::<Seq<char>>::empty());
        }
        traverse_into(&self.types, None, &mut used, &roots);
        proof {
            assert forall|n: Seq<char>| #[trigger] used.deep_view().contains(n) implies
                root_reachable(rv, None, n) by {
                let k = choose|k: int|
                    0 <= k < used.deep_view().len() && used.deep_view()[k] == n;
                assert(reachable(
                    rv.types,
                    None,
                    roots.deep_view() + Seq::<Seq<char>>::empty(),
                    n,
                ));
                let p = choose|p: Seq<Seq<char>>|
                    is_walk(rv.types, None, p) && p.len() >= 1 && (roots.deep_view()
                        + Seq::<Seq<char>>::empty()).contains(p[0]) && p.last() == n;
                let w = choose|w: int|
                    0 <= w < (roots.deep_view() + Seq::<Seq<char>>::empty()).len() && (
                    roots.deep_view() + Seq::<Seq<char>>::empty())[w] == p[0];
                assert(roots.deep_view()[w] == p[0]);
                assert(roots@[w]@ == p[0]);
                assert(is_root(rv, None, p[0]));
            }
            assert forall|n: Seq<char>| root_reachable(rv, None, n) implies
                used.deep_view().contains(n) by {
                let p = choose|p: Seq<Seq<char>>|
                    is_walk(rv.types, None, p) && p.len() >= 1 && is_root(rv, None, p[0])
                        && p.last() == n;
                assert(has_name(roots@, p[0]));
                let w = choose|w: int| 0 <= w < roots@.len() && (#[trigger] roots@[w])@ == p[0];
                assert(roots.deep_view()[w] == p[0]);
                assert(roots.deep_view().contains(p[0]));
                assert(reachable(rv.types, None, roots.deep_view(), p.last()));
                lemma_reachable_in_closed(rv.types, None, roots.deep_view(), used.deep_view(), n);
            }
        }
        let mut i: usize = 0;
        let ghost mut j: int = 0;
        proof {
            assert(rv.types.subrange(0, 0) =~= Seq::<(Seq<char>, SlotView)>::empty());
            assert(rv.types.subrange(0, rv.types.len() as int) =~= rv.types);
            assert(self@.types =~= pruned_types(rv.types.subrange(0, 0), rv) + rv.types.subrange(
                0,
                rv.types.len() as int,
            ));
        }
        while i < self.types.len()
            invariant
                rv == old(self)@,
                distinct_keys(rv.types),
                0 <= i <= self.types@.len(),
                0 <= j <= rv.types.len(),
                i as int == pruned_types(rv.types.subrange(0, j), rv).len(),
                self@.types == pruned_types(rv.types.subrange(0, j), rv) + rv.types.subrange(
                    j,
                    rv.types.len() as int,
                ),
                reg_same_except_types(self@, rv),
                forall|n: Seq<char>|
                    #[trigger] used.deep_view().contains(n) <==> root_reachable(rv, None, n),
            decreases self.types@.len() - i,
        {
            let ghost pre_types = self@.types;
            let ghost entry = rv.types[j];
            proof {
                assert(self@.types[i as int] == rv.types.subrange(j, rv.types.len() as int)[0]);
                assert(self@.types[i as int] == entry);
                assert(rv.types.subrange(0, j + 1).drop_last() =~= rv.types.subrange(0, j));
                assert(rv.types.subrange(0, j + 1).last() == entry);
            }
            let keep = is_system_type(self.types[i].0.as_str()) || vec_contains_string(
                &used,
                self.types[i].0.as_str(),
            );
            proof {
                assert(keep == keep_type(rv, entry.0));
            }
            if keep {
                i += 1;
            } else {
                self.types.remove(i);
                proof {
                    assert(self@.types =~= pre_types.remove(i as int));
                    assert(self@.types =~= pruned_types(rv.types.subrange(0, j), rv)
                        + rv.types.subrange(j + 1, rv.types.len() as int));
                }
            }
            proof {
                j = j + 1;
                if keep_type(rv, entry.0) {
                    assert(pruned_types(rv.types.subrange(0, j), rv) == pruned_types(
                        rv.types.subrange(0, j - 1),
                        rv,
                    ).push(entry));
                    assert(self@.types =~= pruned_types(rv.types.subrange(0, j), rv)
                        + rv.types.subrange(j, rv.types.len() as int));
                } else {
                    assert(pruned_types(rv.types.subrange(0, j), rv) == pruned_types(
                        rv.types.subrange(0, j - 1),
                        rv,
                    ));
                    assert(self@.types =~= pruned_types(rv.types.subrange(0, j), rv)
                        + rv.types.subrange(j, rv.types.len() as int));
                }
            }
        }
        proof {
            assert(j == rv.types.len());
            assert(rv.types.subrange(j, rv.types.len() as int) =~= Seq::<
                (Seq<char>, SlotView),
            >::empty());
            assert(self@.types =~= pruned_types(rv.types, rv));
            assert(rv.types.subrange(0, j) =~= rv.types);
            lemma_pruned_types_distinct(rv.types, rv);
        }
    }

    /// The names a viewer may see: every built-in name, everything
    /// reachable under the viewer filter from the roots, and (the repair pass) every
    /// visible interface one of whose possible types is visible, with
    /// its own filtered reach. Nothing that is neither built in nor
    /// visible comes back, and the registry itself never changes.
    pub fn find_visible_types(&self, ctx: &ViewerContext) -> (r: Vec<String>)
        requires
            self.wf(),
        ensures
            forall|k: int|
                0 <= k < r@.len() ==> assoc_find(self@.types, (#[trigger] r@[k])@) is Some,
            forall|k: int|
                0 <= k < r@.len() ==> spec_is_system((#[trigger] r@[k])@) || node_live(
                    self@.types,
                    Some(ctx@),
                    r@[k]@,
                ),
            forall|k: int|
                0 <= k < r@.len() ==> spec_is_system((#[trigger] r@[k])@) || visible_reach(
                    self@,
                    Some(ctx@),
                    r@[k]@,
                ),
            forall|n: Seq<char>|
                spec_is_system(n) && assoc_find(self@.types, n) is Some ==> has_name(r@, n),
            forall|n: Seq<char>| root_reachable(self@, Some(ctx@), n) ==> has_name(r@, n),
            forall|n: Seq<char>| #[trigger] repair_claim(self@, Some(ctx@), n) ==> has_name(
                r@,
                n,
            ),
    {
        let ghost rv = self@;
        let ghost g = gate_view(Some(ctx));
        let roots = collect_roots(self, Some(ctx));
        let mut used: Vec<String> = Vec::new();
        proof {
            assert(used.deep_view() =~= Seq::<Seq<char>>::empty());
        }
        traverse_into(&self.types, Some(ctx), &mut used, &roots);
        proof {
            assert forall|w: int| 0 <= w < used.deep_view().len() implies visible_reach(
                rv,
                g,
                #[trigger] used.deep_view()[w],
            ) by {
                assert(reachable(
                    rv.types,
                    g,
                    roots.deep_view() + Seq::<Seq<char>>::empty(),
                    used.deep_view()[w],
                ));
                let p = choose|p: Seq<Seq<char>>|
                    is_walk(rv.types, g, p) && p.len() >= 1 && (roots.deep_view() + Seq::<
                        Seq<char>,
                    >::empty()).contains(p[0]) && p.last() == used.deep_view()[w];
                let w2 = choose|w2: int|
                    0 <= w2 < (roots.deep_view() + Seq::<Seq<char>>::empty()).len() && (
                    roots.deep_view() + Seq::<Seq<char>>::empty())[w2] == p[0];
                assert(roots@[w2]@ == p[0]);
                assert(is_root(rv, g, p[0]));
            }
            assert forall|n: Seq<char>| root_reachable(rv, g, n) implies
                used.deep_view().contains(n) by {
                let p = choose|p: Seq<Seq<char>>|
                    is_walk(rv.types, g, p) && p.len() >= 1 && is_root(rv, g, p[0]) && p.last()
                        == n;
                assert(has_name(roots@, p[0]));
                let w = choose|w: int| 0 <= w < roots@.len() && (#[trigger] roots@[w])@ == p[0];
                assert(roots.deep_view()[w] == p[0]);
                assert(roots.deep_view().contains(p[0]));
                assert(reachable(rv.types, g, roots.deep_view(), p.last()));
                lemma_reachable_in_closed(rv.types, g, roots.deep_view(), used.deep_view(), n);
            }
        }
        // repair pass: a visible interface with an already-visible
        // possible type is traversed from its own name
        let mut idx: usize = 0;
        while idx < self.types.len()
            invariant
                rv == self@,
                g == gate_view(Some(ctx)),
                self.wf(),
                0 <= idx <= self.types@.len(),
                distinct_names(used.deep_view()),
                all_live(rv.types, g, used.deep_view()),
                closed_under_edges(rv.types, g, used.deep_view()),
                forall|n: Seq<char>|
                    root_reachable(rv, g, n) ==> #[trigger] used.deep_view().contains(n),
                forall|w: int|
                    0 <= w < used.deep_view().len() ==> visible_reach(rv, g, #[trigger]
                    used.deep_view()[w]),
                forall|ii: int|
                    0 <= ii < idx ==> repair_done(rv, g, #[trigger] rv.types[ii],
                        used.deep_view()),
            decreases self.types@.len() - idx,
        {
            let ghost pre_used = used.deep_view();
            let eligible = match &self.types[idx].1 {
                TypeSlot::Finished(t) => match t {
                    MetaType::Interface { possible_types, .. } => {
                        if t.is_visible(ctx) {
                            let mut found = false;
                            let n = iset_len(possible_types);
                            let mut pi: usize = 0;
                            while pi < n && !found
                                invariant
                                    n == iset_elems(*possible_types).len(),
                                    0 <= pi <= n,
                                    found ==> exists|jj: int|
                                        0 <= jj < iset_elems(*possible_types).len()
                                            && used.deep_view().contains(
                                            #[trigger] iset_elems(*possible_types)[jj],
                                        ),
                                    !found ==> forall|jj: int|
                                        0 <= jj < pi ==> !used.deep_view().contains(
                                            #[trigger] iset_elems(*possible_types)[jj],
                                        ),
                                decreases n - pi,
                            {
                                let e = iset_get_index(possible_types, pi).unwrap();
                                if vec_contains_string(&used, e.as_str()) {
                                    found = true;
                                }
                                pi += 1;
                            }
                            found
                        } else {
                            false
                        }
                    },
                    _ => false,
                },
                TypeSlot::InProgress => false,
            };
            if eligible {
                match &self.types[idx].1 {
                    TypeSlot::Finished(t) => {
                        let mut one_root: Vec<String> = Vec::new();
                        one_root.push(t.name().to_owned());
                        traverse_into(&self.types, Some(ctx), &mut used, &one_root);
                        proof {
                            assert(one_root.deep_view()[0] == t@.gql_name());
                            assert(one_root.deep_view().contains(t@.gql_name()));
                            assert(eligible_interface(
                                rv.types,
                                g,
                                rv.types[idx as int].1,
                                t@.gql_name(),
                            )) by {
                                assert(rv.types[idx as int].1 == self.types@[idx as int].1@);
                                let jj = choose|jj: int|
                                    0 <= jj < t@.possible().unwrap().len() && pre_used.contains(
                                        #[trigger] t@.possible().unwrap()[jj],
                                    );
                                assert(node_live(rv.types, g, t@.possible().unwrap()[jj]));
                            }
                            assert(repair_root(rv, g, t@.gql_name()));
                            assert forall|w: int|
                                0 <= w < used.deep_view().len() implies visible_reach(
                                rv,
                                g,
                                #[trigger] used.deep_view()[w],
                            ) by {
                                if w < pre_used.len() {
                                    assert(used.deep_view()[w] == pre_used[w]);
                                } else {
                                    assert(reachable(
                                        rv.types,
                                        g,
                                        one_root.deep_view() + pre_used,
                                        used.deep_view()[w],
                                    ));
                                    let p = choose|p: Seq<Seq<char>>|
                                        is_walk(rv.types, g, p) && p.len() >= 1 && (
                                        one_root.deep_view() + pre_used).contains(p[0])
                                            && p.last() == used.deep_view()[w];
                                    let w2 = choose|w2: int|
                                        0 <= w2 < (one_root.deep_view() + pre_used).len() && (
                                        one_root.deep_view() + pre_used)[w2] == p[0];
                                    if w2 == 0 {
                                        assert(p[0] == t@.gql_name());
                                        assert(repair_root(rv, g, p[0]));
                                    } else {
                                        assert(p[0] == pre_used[w2 - 1]);
                                        assert(visible_reach(rv, g, p[0]));
                                        lemma_visible_reach_concat(rv, g, p[0], p);
                                    }
                                }
                            }
                            assert forall|n: Seq<char>| root_reachable(rv, g, n) implies
                                #[trigger] used.deep_view().contains(n) by {
                                assert(pre_used.contains(n));
                                let w = choose|w: int|
                                    0 <= w < pre_used.len() && pre_used[w] == n;
                                assert(used.deep_view()[w] == n);
                            }
                        }
                    },
                    TypeSlot::InProgress => {},
                }
            }
            proof {
                assert forall|n: Seq<char>| #[trigger] pre_used.contains(n) implies
                    used.deep_view().contains(n) by {
                    let w = choose|w: int| 0 <= w < pre_used.len() && pre_used[w] == n;
                    assert(used.deep_view()[w] == n);
                }
                assert forall|ii: int| 0 <= ii < idx + 1 implies repair_done(
                    rv,
                    g,
                    #[trigger] rv.types[ii],
                    used.deep_view(),
                ) by {
                    if ii == idx as int {
                        assert(rv.types[ii].1 == self.types@[ii as int].1@);
                        match rv.types[ii].1 {
                            SlotView::Finished(t) => {
                                if t is Interface && rv.types[ii].0 == t.gql_name()
                                    && gate_ok(t.visible_handle(), g) && (exists|j: int|
                                    0 <= j < t.possible().unwrap().len() && root_reachable(
                                        rv,
                                        g,
                                        t.possible().unwrap()[j],
                                    )) {
                                    let j0 = choose|j0: int|
                                        0 <= j0 < t.possible().unwrap().len() && root_reachable(
                                            rv,
                                            g,
                                            t.possible().unwrap()[j0],
                                        );
                                    assert(pre_used.contains(t.possible().unwrap()[j0]));
                                    assert(eligible);
                                    assert forall|jj: int| 0 <= jj < ii implies
                                        #[trigger] rv.types[jj].0 != rv.types[ii].0 by {}
                                    lemma_assoc_find_first(rv.types, rv.types[ii].0, ii);
                                    assert(node_live(rv.types, g, t.gql_name()));
                                    assert(used.deep_view().contains(t.gql_name()));
                                }
                            },
                            SlotView::InProgress => {},
                        }
                    } else {
                        assert(repair_done(rv, g, rv.types[ii], pre_used));
                    }
                }
            }
            idx += 1;
        }
        // collect: every built-in name in the store plus every mark
        let mut out: Vec<String> = Vec::new();
        let mut ci: usize = 0;
        while ci < self.types.len()
            invariant
                rv == self@,
                g == gate_view(Some(ctx)),
                self.wf(),
                0 <= ci <= self.types@.len(),
                distinct_names(used.deep_view()),
                all_live(rv.types, g, used.deep_view()),
                forall|n: Seq<char>|
                    root_reachable(rv, g, n) ==> #[trigger] used.deep_view().contains(n),
                forall|ii: int|
                    0 <= ii < rv.types.len() ==> repair_done(rv, g, #[trigger] rv.types[ii],
                        used.deep_view()),
                forall|k: int|
                    0 <= k < out@.len() ==> assoc_find(rv.types, (#[trigger] out@[k])@) is Some,
                forall|w: int|
                    0 <= w < used.deep_view().len() ==> visible_reach(rv, g, #[trigger]
                    used.deep_view()[w]),
                forall|k: int|
                    0 <= k < out@.len() ==> spec_is_system((#[trigger] out@[k])@) || node_live(
                        rv.types,
                        g,
                        out@[k]@,
                    ),
                forall|k: int|
                    0 <= k < out@.len() ==> spec_is_system((#[trigger] out@[k])@)
                        || visible_reach(rv, g, out@[k]@),
                forall|ii: int|
                    0 <= ii < ci && (spec_is_system((#[trigger] rv.types[ii]).0)
                        || used.deep_view().contains(rv.types[ii].0)) ==> has_name(
                        out@,
                        rv.types[ii].0,
                    ),
            decreases self.types@.len() - ci,
        {
            let ghost pre = out@;
            let take = is_system_type(self.types[ci].0.as_str()) || vec_contains_string(
                &used,
                self.types[ci].0.as_str(),
            );
            if take {
                out.push(self.types[ci].0.clone());
                proof {
                    assert forall|jj: int| 0 <= jj < ci implies #[trigger] rv.types[jj].0
                        != rv.types[ci as int].0 by {}
                    lemma_assoc_find_first(rv.types, rv.types[ci as int].0, ci as int);
                    if !spec_is_system(rv.types[ci as int].0) {
                        assert(used.deep_view().contains(rv.types[ci as int].0));
                        let w = choose|w: int|
                            0 <= w < used.deep_view().len() && used.deep_view()[w]
                                == rv.types[ci as int].0;
                        assert(node_live(rv.types, g, rv.types[ci as int].0));
                        assert(visible_reach(rv, g, rv.types[ci as int].0));
                    }
                }
            }
            proof {
                crate::reach::lemma_has_name_mono(pre, out@);
                assert forall|ii: int|
                    0 <= ii < ci + 1 && (spec_is_system((#[trigger] rv.types[ii]).0)
                        || used.deep_view().contains(rv.types[ii].0)) implies has_name(
                    out@,
                    rv.types[ii].0,
                ) by {
                    if ii == ci as int {
                        assert(take);
                        assert(out@[out@.len() - 1]@ == rv.types[ii].0);
                    } else {
                        assert(has_name(pre, rv.types[ii].0));
                    }
                }
            }
            ci += 1;
        }
        proof {
            assert forall|n: Seq<char>|
                spec_is_system(n) && assoc_find(rv.types, n) is Some implies has_name(
                out@,
                n,
            ) by {
                crate::reach::lemma_assoc_find_exists(rv.types, n);
                let w = choose|w: int| 0 <= w < rv.types.len() && #[trigger] rv.types[w].0 == n;
            }
            assert forall|n: Seq<char>| root_reachable(rv, g, n) implies has_name(out@, n) by {
                assert(used.deep_view().contains(n));
                assert(node_live(rv.types, g, n)) by {
                    let w = choose|w: int|
                        0 <= w < used.deep_view().len() && used.deep_view()[w] == n;
                }
                crate::reach::lemma_assoc_find_exists(rv.types, n);
                let w = choose|w: int| 0 <= w < rv.types.len() && #[trigger] rv.types[w].0 == n;
            }
            assert forall|n: Seq<char>| #[trigger] repair_claim(rv, g, n) implies has_name(
                out@,
                n,
            ) by {
                crate::reach::lemma_assoc_find_exists(rv.types, n);
                let w = choose|w: int| 0 <= w < rv.types.len() && #[trigger] rv.types[w].0 == n;
                assert forall|jj: int| 0 <= jj < w implies #[trigger] rv.types[jj].0 != n by {}
                lemma_assoc_find_first(rv.types, n, w);
                assert(repair_done(rv, g, rv.types[w], used.deep_view()));
                assert(used.deep_view().contains(n));
            }
        }
        out
    }
}

/// After the repair pass has handled a store entry: if it is a
/// visible interface, named like its key, with a root-reachable
/// possible type, then its name is marked.
pub open spec fn repair_done(
    rv: RegistryView,
    g: Option<Seq<u64>>,
    entry: (Seq<char>, SlotView),
    used: Seq<Seq<char>>,
) -> bool {
    match entry.1 {
        SlotView::Finished(t) => (t is Interface && entry.0 == t.gql_name() && gate_ok(
            t.visible_handle(),
            g,
        ) && (exists|j: int|
            0 <= j < t.possible().unwrap().len() && root_reachable(
                rv,
                g,
                #[trigger] t.possible().unwrap()[j],
            ))) ==> used.contains(t.gql_name()),
        SlotView::InProgress => true,
    }
}

proof fn lemma_pruned_types_distinct(s: Seq<(Seq<char>, SlotView)>, rv: RegistryView)
    requires
        distinct_keys(s),
    ensures
        distinct_keys(pruned_types(s, rv)),
        forall|k: int|
            0 <= k < pruned_types(s, rv).len() ==> exists|i: int|
                0 <= i < s.len() && #[trigger] pruned_types(s, rv)[k] == s[i],
    decreases s.len(),
{
    if s.len() > 0 {
        assert(forall|i: int, j: int|
            0 <= i < j < s.drop_last().len() ==> s.drop_last()[i].0 != s.drop_last()[j].0);
        lemma_pruned_types_distinct(s.drop_last(), rv);
        let rest = pruned_types(s.drop_last(), rv);
        if keep_type(rv, s.last().0) {
            assert forall|k: int| 0 <= k < pruned_types(s, rv).len() implies exists|i: int|
                0 <= i < s.len() && #[trigger] pruned_types(s, rv)[k] == s[i] by {
                if k < rest.len() {
                    let i = choose|i: int|
                        0 <= i < s.drop_last().len() && #[trigger] rest[k] == s.drop_last()[i];
                    assert(pruned_types(s, rv)[k] == s[i]);
                } else {
                    assert(pruned_types(s, rv)[k] == s[s.len() - 1]);
                }
            }
            assert forall|a: int, b: int|
                0 <= a < b < pruned_types(s, rv).len() implies pruned_types(s, rv)[a].0
                != pruned_types(s, rv)[b].0 by {
                if b == pruned_types(s, rv).len() - 1 {
                    let i = choose|i: int|
                        0 <= i < s.drop_last().len() && #[trigger] rest[a] == s.drop_last()[i];
                    assert(pruned_types(s, rv)[a] == s[i]);
                    assert(pruned_types(s, rv)[b] == s.last());
                }
            }
        }
    }
}

/// Law: what pruning keeps does not depend on registration order.
/// Two registries whose stores bind every name to the same slot and
/// whose roots agree (same query, mutation and subscription roots and
/// the same directives) keep exactly the same names, however their
/// entries are ordered.
pub proof fn lemma_prune_order_independent(a: RegistryView, b: RegistryView, n: Seq<char>)
    requires
        distinct_keys(a.types),
        distinct_keys(b.types),
        forall|m: Seq<char>| #[trigger] assoc_find(a.types, m) == assoc_find(b.types, m),
        a.directives == b.directives,
        a.query_type == b.query_type,
        a.mutation_type == b.mutation_type,
        a.subscription_type == b.subscription_type,
    ensures
        keep_type(a, n) == keep_type(b, n),
{
    lemma_root_reachable_congruent(a, b, n);
    lemma_root_reachable_congruent(b, a, n);
}

proof fn lemma_keyed_congruent(a: RegistryView, b: RegistryView, m: Seq<char>)
    requires
        distinct_keys(a.types),
        distinct_keys(b.types),
        forall|x: Seq<char>| #[trigger] assoc_find(a.types, x) == assoc_find(b.types, x),
        exists|i: int| 0 <= i < a.types.len() && #[trigger] keyed_root(a.types[i].1, m),
    ensures
        exists|i: int| 0 <= i < b.types.len() && #[trigger] keyed_root(b.types[i].1, m),
{
    let i = choose|i: int| 0 <= i < a.types.len() && #[trigger] keyed_root(a.types[i].1, m);
    let k = a.types[i].0;
    assert forall|j: int| 0 <= j < i implies #[trigger] a.types[j].0 != k by {}
    lemma_assoc_find_first(a.types, k, i);
    assert(assoc_find(b.types, k) == Some(a.types[i].1));
    crate::reach::lemma_assoc_find_exists(b.types, k);
    let w = choose|w: int| 0 <= w < b.types.len() && #[trigger] b.types[w].0 == k;
    assert forall|j: int| 0 <= j < w implies #[trigger] b.types[j].0 != k by {}
    lemma_assoc_find_first(b.types, k, w);
    assert(b.types[w].1 == a.types[i].1);
    assert(keyed_root(b.types[w].1, m));
}

proof fn lemma_root_reachable_congruent(a: RegistryView, b: RegistryView, n: Seq<char>)
    requires
        distinct_keys(a.types),
        distinct_keys(b.types),
        forall|m: Seq<char>| #[trigger] assoc_find(a.types, m) == assoc_find(b.types, m),
        a.directives == b.directives,
        a.query_type == b.query_type,
        a.mutation_type == b.mutation_type,
        a.subscription_type == b.subscription_type,
    ensures
        root_reachable(a, None, n) ==> root_reachable(b, None, n),
{
    if root_reachable(a, None, n) {
        let p = choose|p: Seq<Seq<char>>|
            is_walk(a.types, None, p) && p.len() >= 1 && is_root(a, None, p[0]) && p.last()
                == n;
        assert forall|i: int| 0 <= i < p.len() implies node_live(b.types, None, #[trigger] p[i])
            by {
            assert(node_live(a.types, None, p[i]));
        }
        assert forall|i: int| 0 <= i < p.len() - 1 implies crate::reach::edge_from(
            b.types,
            None,
            p[i],
            #[trigger] p[i + 1],
        ) by {
            assert(crate::reach::edge_from(a.types, None, p[i], p[i + 1]));
        }
        assert(is_walk(b.types, None, p));
        assert(is_root(b, None, p[0])) by {
            if exists|i: int| 0 <= i < a.types.len() && #[trigger] keyed_root(a.types[i].1, p[0]) {
                lemma_keyed_congruent(a, b, p[0]);
            }
        }
    }
}

} // verus!
