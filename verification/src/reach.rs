//! Reachability over the store: the one traversal engine behind both
//! reachable-type pruning and viewer-scoped visibility. Edges follow
//! object and interface field return and argument types, interface and
//! union possible-type members, and input-object field types. In filtered
//! mode every node and every field or argument must pass its
//! visibility predicate; an invisible node blocks traversal through
//! it.

use vstd::prelude::*;
use vstd::string::*;
use crate::meta::MetaType;
use crate::meta::MetaField;
use crate::meta::MetaInputValue;
use crate::meta::ViewerContext;
use crate::meta::TypeView;
use crate::meta::FieldView;
use crate::meta::InputValueView;
use crate::meta::pred_visible;
use crate::meta::is_visible;
use crate::registry::TypeSlot;
use crate::registry::types_view;
use crate::registry::SlotView;
use crate::registry::assoc_find;
use crate::registry::distinct_keys;
use crate::registry::lemma_assoc_find_first;
use crate::registry::lemma_assoc_find_none;
use crate::iset::iset_elems;
use crate::iset::iset_len;
use crate::iset::iset_get_index;
use crate::type_ref::MetaTypeName;
use crate::type_ref::concrete_of;
use crate::meta::str_eq;

verus! {

/// The filter of a traversal: `None` follows every edge (pruning);
/// `Some(hidden)` follows only elements whose visibility predicate
/// holds for the viewer.
pub open spec fn gate_ok(h: Option<u64>, g: Option<Seq<u64>>) -> bool {
    match g {
        None => true,
        Some(hidden) => pred_visible(h, hidden),
    }
}

/// The ghost filter of an optional viewer context.
pub open spec fn gate_view(gate: Option<&ViewerContext>) -> Option<Seq<u64>> {
    match gate {
        None => None,
        Some(c) => Some(c@),
    }
}

/// Whether a node of the store may be entered.
pub open spec fn slot_visible(sl: SlotView, g: Option<Seq<u64>>) -> bool {
    match sl {
        SlotView::InProgress => true,
        SlotView::Finished(t) => gate_ok(t.visible_handle(), g),
    }
}

/// An argument or input field contributes its concrete type when it
/// passes the viewer filter.
pub open spec fn input_edge(iv: InputValueView, g: Option<Seq<u64>>, n: Seq<char>) -> bool {
    gate_ok(iv.visible, g) && n == concrete_of(iv.ty)
}

/// A field that passes the viewer filter contributes its own concrete return
/// type and its filtered arguments' types.
pub open spec fn field_edge(fv: FieldView, g: Option<Seq<u64>>, n: Seq<char>) -> bool {
    gate_ok(fv.visible, g) && (n == concrete_of(fv.ty) || exists|j: int|
        0 <= j < fv.args.len() && #[trigger] input_edge(fv.args[j], g, n))
}

/// Some argument or input field of the list contributes `n`.
pub open spec fn any_input_edge(avs: Seq<InputValueView>, g: Option<Seq<u64>>, n: Seq<char>) -> bool {
    exists|i: int| 0 <= i < avs.len() && #[trigger] input_edge(avs[i], g, n)
}

/// Some field of the list contributes `n`.
pub open spec fn any_field_edge(fvs: Seq<FieldView>, g: Option<Seq<u64>>, n: Seq<char>) -> bool {
    exists|i: int| 0 <= i < fvs.len() && #[trigger] field_edge(fvs[i], g, n)
}

/// The out-edges of a descriptor.
pub open spec fn type_edge(t: TypeView, g: Option<Seq<u64>>, n: Seq<char>) -> bool {
    match t {
        TypeView::Object { fields, .. } => any_field_edge(fields, g, n),
        TypeView::Interface { fields, possible_types, .. } => any_field_edge(fields, g, n)
            || possible_types.contains(n),
        TypeView::Union { possible_types, .. } => possible_types.contains(n),
        TypeView::InputObject { input_fields, .. } => any_input_edge(input_fields, g, n),
        _ => false,
    }
}

/// The out-edges of a slot; a sentinel has none.
pub open spec fn slot_edge(sl: SlotView, g: Option<Seq<u64>>, n: Seq<char>) -> bool {
    match sl {
        SlotView::InProgress => false,
        SlotView::Finished(t) => type_edge(t, g, n),
    }
}

/// A node is live when it is in the store and passes the viewer filter.
pub open spec fn node_live(
    tsv: Seq<(Seq<char>, SlotView)>,
    g: Option<Seq<u64>>,
    n: Seq<char>,
) -> bool {
    match assoc_find(tsv, n) {
        Some(sl) => slot_visible(sl, g),
        None => false,
    }
}

/// There is a filtered edge from node `a` to name `b`.
pub open spec fn edge_from(
    tsv: Seq<(Seq<char>, SlotView)>,
    g: Option<Seq<u64>>,
    a: Seq<char>,
    b: Seq<char>,
) -> bool {
    match assoc_find(tsv, a) {
        Some(sl) => slot_edge(sl, g, b),
        None => false,
    }
}

/// A walk: every node live, consecutive nodes joined by filtered edges.
pub open spec fn is_walk(
    tsv: Seq<(Seq<char>, SlotView)>,
    g: Option<Seq<u64>>,
    p: Seq<Seq<char>>,
) -> bool {
    &&& forall|i: int| 0 <= i < p.len() ==> node_live(tsv, g, #[trigger] p[i])
    &&& forall|i: int| 0 <= i < p.len() - 1 ==> edge_from(tsv, g, p[i], #[trigger] p[i + 1])
}

/// A name is reachable when some walk leads to it from a root.
pub open spec fn reachable(
    tsv: Seq<(Seq<char>, SlotView)>,
    g: Option<Seq<u64>>,
    roots: Seq<Seq<char>>,
    n: Seq<char>,
) -> bool {
    exists|p: Seq<Seq<char>>|
        is_walk(tsv, g, p) && p.len() >= 1 && roots.contains(p[0]) && p.last() == n
}

/// A live root is reachable.
pub proof fn lemma_reach_root(
    tsv: Seq<(Seq<char>, SlotView)>,
    g: Option<Seq<u64>>,
    roots: Seq<Seq<char>>,
    r: Seq<char>,
)
    requires
        roots.contains(r),
        node_live(tsv, g, r),
    ensures
        reachable(tsv, g, roots, r),
{
    let p = seq![r];
    assert(p[0] == r && p.last() == r);
    assert(is_walk(tsv, g, p));
}

/// Reachability is closed under filtered edges to live nodes.
pub proof fn lemma_reach_step(
    tsv: Seq<(Seq<char>, SlotView)>,
    g: Option<Seq<u64>>,
    roots: Seq<Seq<char>>,
    a: Seq<char>,
    b: Seq<char>,
)
    requires
        reachable(tsv, g, roots, a),
        edge_from(tsv, g, a, b),
        node_live(tsv, g, b),
    ensures
        reachable(tsv, g, roots, b),
{
    let p = choose|p: Seq<Seq<char>>|
        is_walk(tsv, g, p) && p.len() >= 1 && roots.contains(p[0]) && p.last() == a;
    let p2 = p.push(b);
    assert forall|i: int| 0 <= i < p2.len() - 1 implies edge_from(tsv, g, p2[i], #[trigger] p2[i
        + 1]) by {
        if i < p.len() - 1 {
            assert(p2[i] == p[i] && p2[i + 1] == p[i + 1]);
        } else {
            assert(p2[i] == p.last() && p2[i + 1] == b);
        }
    }
    assert(is_walk(tsv, g, p2));
    assert(p2[0] == p[0] && p2.last() == b);
}

/// Pairwise-distinct names.
pub open spec fn distinct_names(s: Seq<Seq<char>>) -> bool {
    forall|i: int, j: int| 0 <= i < j < s.len() ==> s[i] != s[j]
}

/// Every listed name is live.
pub open spec fn all_live(
    tsv: Seq<(Seq<char>, SlotView)>,
    g: Option<Seq<u64>>,
    used: Seq<Seq<char>>,
) -> bool {
    forall|i: int| 0 <= i < used.len() ==> node_live(tsv, g, #[trigger] used[i])
}

/// The listed names are closed under filtered edges to live nodes.
pub open spec fn closed_under_edges(
    tsv: Seq<(Seq<char>, SlotView)>,
    g: Option<Seq<u64>>,
    used: Seq<Seq<char>>,
) -> bool {
    forall|i: int, m: Seq<char>|
        0 <= i < used.len() && #[trigger] edge_from(tsv, g, used[i], m) && node_live(tsv, g, m)
            ==> used.contains(m)
}

/// Along a walk that starts inside a closed set, every node stays
/// inside it.
proof fn lemma_walk_stays(
    tsv: Seq<(Seq<char>, SlotView)>,
    g: Option<Seq<u64>>,
    used: Seq<Seq<char>>,
    p: Seq<Seq<char>>,
)
    requires
        is_walk(tsv, g, p),
        p.len() >= 1,
        used.contains(p[0]),
        closed_under_edges(tsv, g, used),
    ensures
        used.contains(p.last()),
    decreases p.len(),
{
    if p.len() > 1 {
        let q = p.drop_last();
        assert forall|i: int| 0 <= i < q.len() implies node_live(tsv, g, #[trigger] q[i]) by {
            assert(q[i] == p[i]);
        }
        assert forall|i: int| 0 <= i < q.len() - 1 implies edge_from(tsv, g, q[i], #[trigger] q[i
            + 1]) by {
            assert(q[i] == p[i] && q[i + 1] == p[i + 1]);
        }
        assert(q[0] == p[0]);
        lemma_walk_stays(tsv, g, used, q);
        let k = choose|k: int| 0 <= k < used.len() && used[k] == q.last();
        let e = p.len() - 2;
        assert(edge_from(tsv, g, p[e], p[e + 1]));
        assert(p[e + 1] == p.last());
        assert(edge_from(tsv, g, used[k], p.last()));
        assert(node_live(tsv, g, p.last()));
    }
}

/// Everything reachable from roots lies in any closed set that holds
/// the live roots.
pub proof fn lemma_reachable_in_closed(
    tsv: Seq<(Seq<char>, SlotView)>,
    g: Option<Seq<u64>>,
    roots: Seq<Seq<char>>,
    used: Seq<Seq<char>>,
    n: Seq<char>,
)
    requires
        closed_under_edges(tsv, g, used),
        forall|r: Seq<char>|
            #[trigger] roots.contains(r) && node_live(tsv, g, r) ==> used.contains(r),
        reachable(tsv, g, roots, n),
    ensures
        used.contains(n),
{
    let p = choose|p: Seq<Seq<char>>|
        is_walk(tsv, g, p) && p.len() >= 1 && roots.contains(p[0]) && p.last() == n;
    assert(node_live(tsv, g, p[0]));
    lemma_walk_stays(tsv, g, used, p);
}

pub proof fn lemma_assoc_find_exists<V>(s: Seq<(Seq<char>, V)>, n: Seq<char>)
    requires
        assoc_find(s, n) is Some,
    ensures
        exists|k: int| 0 <= k < s.len() && #[trigger] s[k].0 == n,
    decreases s.len(),
{
    if s.len() > 0 && s[0].0 != n {
        lemma_assoc_find_exists(s.drop_first(), n);
        let k = choose|k: int| 0 <= k < s.drop_first().len() && #[trigger] s.drop_first()[k].0
            == n;
        assert(s[k + 1].0 == n);
    }
}

/// At most as many distinct live names as store entries.
proof fn lemma_used_bound(tsv: Seq<(Seq<char>, SlotView)>, used: Seq<Seq<char>>)
    requires
        distinct_names(used),
        forall|k: int| 0 <= k < used.len() ==> assoc_find(tsv, #[trigger] used[k]) is Some,
    ensures
        used.len() <= tsv.len(),
{
    broadcast use vstd::seq_lib::seq_to_set_is_finite;
    broadcast use vstd::set::group_set_axioms;

    let keys = tsv.map_values(|p: (Seq<char>, SlotView)| p.0);
    assert forall|k: int| 0 <= k < used.len() implies keys.to_set().contains(
        #[trigger] used[k],
    ) by {
        lemma_assoc_find_exists(tsv, used[k]);
        let i = choose|i: int| 0 <= i < tsv.len() && #[trigger] tsv[i].0 == used[k];
        assert(keys[i] == used[k]);
        assert(keys.contains(used[k]));
    }
    assert(used.no_duplicates());
    used.unique_seq_to_set();
    assert forall|a: Seq<char>| used.to_set().contains(a) implies keys.to_set().contains(a) by {
        assert(used.contains(a));
        let k = choose|k: int| 0 <= k < used.len() && used[k] == a;
        assert(keys.to_set().contains(used[k]));
    }
    assert(used.to_set().subset_of(keys.to_set()));
    keys.lemma_cardinality_of_set();
    vstd::set_lib::lemma_len_subset(used.to_set(), keys.to_set());
}

/// There is a string with the given view among the listed names.
pub open spec fn has_name(s: Seq<String>, n: Seq<char>) -> bool {
    exists|k: int| 0 <= k < s.len() && #[trigger] s[k]@ == n
}

/// Evaluates the viewer filter for one optional predicate handle.
fn gate_allows(gate: Option<&ViewerContext>, h: &Option<u64>) -> (r: bool)
    ensures
        r == gate_ok(*h, gate_view(gate)),
{
    match gate {
        None => true,
        Some(c) => is_visible(c, h),
    }
}

pub proof fn lemma_has_name_mono(s1: Seq<String>, s2: Seq<String>)
    requires
        s1.len() <= s2.len(),
        forall|k: int| 0 <= k < s1.len() ==> (#[trigger] s2[k]) == s1[k],
    ensures
        forall|n: Seq<char>| #[trigger] has_name(s1, n) ==> has_name(s2, n),
{
    assert forall|n: Seq<char>| #[trigger] has_name(s1, n) implies has_name(s2, n) by {
        let k = choose|k: int| 0 <= k < s1.len() && #[trigger] s1[k]@ == n;
        assert(s2[k]@ == n);
    }
}

pub fn collect_input_edges(args: &Vec<MetaInputValue>, gate: Option<&ViewerContext>, out: &mut Vec<
    String,
>)
    ensures
        final(out)@.len() >= old(out)@.len(),
        forall|k: int| 0 <= k < old(out)@.len() ==> (#[trigger] final(out)@[k]) == old(out)@[k],
        forall|k: int|
            old(out)@.len() <= k < final(out)@.len() ==> any_input_edge(
                args.deep_view(),
                gate_view(gate),
                (#[trigger] final(out)@[k])@,
            ),
        forall|n: Seq<char>|
            #[trigger] any_input_edge(args.deep_view(), gate_view(gate), n) ==> has_name(
                final(out)@,
                n,
            ),
{
    let ghost g = gate_view(gate);
    let mut i: usize = 0;
    while i < args.len()
        invariant
            g == gate_view(gate),
            0 <= i <= args@.len(),
            out@.len() >= old(out)@.len(),
            forall|k: int| 0 <= k < old(out)@.len() ==> (#[trigger] out@[k]) == old(out)@[k],
            forall|k: int|
                old(out)@.len() <= k < out@.len() ==> any_input_edge(
                    args.deep_view(),
                    g,
                    (#[trigger] out@[k])@,
                ),
            forall|ii: int, n: Seq<char>|
                0 <= ii < i && #[trigger] input_edge(args.deep_view()[ii], g, n) ==> has_name(
                    out@,
                    n,
                ),
        decreases args@.len() - i,
    {
        let ghost pre = out@;
        let allowed = gate_allows(gate, &args[i].visible);
        if allowed {
            let c = MetaTypeName::concrete_typename(args[i].ty.as_str()).to_owned();
            proof {
                assert(c@ == concrete_of(args.deep_view()[i as int].ty));
                assert(input_edge(args.deep_view()[i as int], g, c@));
                assert(any_input_edge(args.deep_view(), g, c@));
            }
            out.push(c);
        }
        proof {
            lemma_has_name_mono(pre, out@);
            assert forall|ii: int, n: Seq<char>|
                0 <= ii < i + 1 && #[trigger] input_edge(args.deep_view()[ii], g, n) implies
                has_name(out@, n) by {
                if ii == i as int {
                    assert(gate_ok(args.deep_view()[ii].visible, g));
                    assert(n == concrete_of(args.deep_view()[ii].ty));
                    assert(out@[out@.len() - 1]@ == n);
                } else {
                    assert(has_name(pre, n));
                }
            }
        }
        i += 1;
    }
}

fn collect_field_edges(fields: &Vec<MetaField>, gate: Option<&ViewerContext>, out: &mut Vec<
    String,
>)
    ensures
        final(out)@.len() >= old(out)@.len(),
        forall|k: int| 0 <= k < old(out)@.len() ==> (#[trigger] final(out)@[k]) == old(out)@[k],
        forall|k: int|
            old(out)@.len() <= k < final(out)@.len() ==> any_field_edge(
                fields.deep_view(),
                gate_view(gate),
                (#[trigger] final(out)@[k])@,
            ),
        forall|n: Seq<char>|
            #[trigger] any_field_edge(fields.deep_view(), gate_view(gate), n) ==> has_name(
                final(out)@,
                n,
            ),
{
    let ghost g = gate_view(gate);
    let mut i: usize = 0;
    while i < fields.len()
        invariant
            g == gate_view(gate),
            0 <= i <= fields@.len(),
            out@.len() >= old(out)@.len(),
            forall|k: int| 0 <= k < old(out)@.len() ==> (#[trigger] out@[k]) == old(out)@[k],
            forall|k: int|
                old(out)@.len() <= k < out@.len() ==> any_field_edge(
                    fields.deep_view(),
                    g,
                    (#[trigger] out@[k])@,
                ),
            forall|ii: int, n: Seq<char>|
                0 <= ii < i && #[trigger] field_edge(fields.deep_view()[ii], g, n) ==> has_name(
                    out@,
                    n,
                ),
        decreases fields@.len() - i,
    {
        let ghost fv = fields.deep_view()[i as int];
        let allowed = gate_allows(gate, &fields[i].visible);
        if allowed {
            let c = MetaTypeName::concrete_typename(fields[i].ty.as_str()).to_owned();
            proof {
                assert(c@ == concrete_of(fv.ty));
                assert(field_edge(fv, g, c@));
                assert(any_field_edge(fields.deep_view(), g, c@));
            }
            let ghost pre0 = out@;
            out.push(c);
            proof {
                lemma_has_name_mono(pre0, out@);
            }
            let ghost mark = out@.len();
            let args = &fields[i].args;
            let mut j: usize = 0;
            while j < args.len()
                invariant
                    0 <= j <= args@.len(),
                    args.deep_view() == fv.args,
                    gate_ok(fv.visible, g),
                    out@.len() >= mark >= old(out)@.len() + 1,
                    out@[mark - 1]@ == concrete_of(fv.ty),
                    fv == fields.deep_view()[i as int],
                    0 <= i < fields@.len(),
                    g == gate_view(gate),
                    forall|k: int| 0 <= k < old(out)@.len() ==> (#[trigger] out@[k]) == old(out)@[k],
                    forall|k: int|
                        old(out)@.len() <= k < out@.len() ==> any_field_edge(
                            fields.deep_view(),
                            g,
                            (#[trigger] out@[k])@,
                        ),
                    forall|ii: int, n: Seq<char>|
                        0 <= ii < i && #[trigger] field_edge(fields.deep_view()[ii], g, n)
                            ==> has_name(out@, n),
                    forall|jj: int, n: Seq<char>|
                        0 <= jj < j && #[trigger] input_edge(fv.args[jj], g, n) ==> has_name(
                            out@,
                            n,
                        ),
                decreases args@.len() - j,
            {
                let ghost pre2 = out@;
                let allowed2 = gate_allows(gate, &args[j].visible);
                if allowed2 {
                    let c2 = MetaTypeName::concrete_typename(args[j].ty.as_str()).to_owned();
                    proof {
                        assert(c2@ == concrete_of(fv.args[j as int].ty));
                        assert(input_edge(fv.args[j as int], g, c2@));
                        assert(field_edge(fv, g, c2@));
                        assert(any_field_edge(fields.deep_view(), g, c2@));
                    }
                    out.push(c2);
                }
                proof {
                    lemma_has_name_mono(pre2, out@);
                    assert forall|jj: int, n: Seq<char>|
                        0 <= jj < j + 1 && #[trigger] input_edge(fv.args[jj], g, n) implies
                        has_name(out@, n) by {
                        if jj == j as int {
                            assert(gate_ok(fv.args[jj].visible, g));
                            assert(n == concrete_of(fv.args[jj].ty));
                            assert(out@[out@.len() - 1]@ == n);
                        } else {
                            assert(has_name(pre2, n));
                        }
                    }
                }
                j += 1;
            }
            proof {
                assert forall|ii: int, n: Seq<char>|
                    0 <= ii < i + 1 && #[trigger] field_edge(fields.deep_view()[ii], g, n)
                    implies has_name(out@, n) by {
                    if ii == i as int {
                        if n == concrete_of(fv.ty) {
                            assert(out@[mark - 1]@ == n);
                        } else {
                            let jj = choose|jj: int|
                                0 <= jj < fv.args.len() && #[trigger] input_edge(
                                    fv.args[jj],
                                    g,
                                    n,
                                );
                            assert(has_name(out@, n));
                        }
                    }
                }
            }
        } else {
            proof {
                assert forall|ii: int, n: Seq<char>|
                    0 <= ii < i + 1 && #[trigger] field_edge(fields.deep_view()[ii], g, n)
                    implies has_name(out@, n) by {
                    if ii == i as int {
                        assert(!gate_ok(fv.visible, g));
                    }
                }
            }
        }
        i += 1;
    }
}

fn collect_possible(ps: &indexmap::IndexSet<String>, out: &mut Vec<String>)
    ensures
        final(out)@.len() >= old(out)@.len(),
        forall|k: int| 0 <= k < old(out)@.len() ==> (#[trigger] final(out)@[k]) == old(out)@[k],
        forall|k: int|
            old(out)@.len() <= k < final(out)@.len() ==> iset_elems(*ps).contains(
                final(out)@[k]@,
            ),
        forall|n: Seq<char>| iset_elems(*ps).contains(n) ==> has_name(final(out)@, n),
{
    let n = iset_len(ps);
    let mut i: usize = 0;
    while i < n
        invariant
            n == iset_elems(*ps).len(),
            0 <= i <= n,
            out@.len() >= old(out)@.len(),
            forall|k: int| 0 <= k < old(out)@.len() ==> (#[trigger] out@[k]) == old(out)@[k],
            forall|k: int|
                old(out)@.len() <= k < out@.len() ==> iset_elems(*ps).contains(out@[k]@),
            forall|j: int| 0 <= j < i ==> has_name(out@, iset_elems(*ps)[j]),
        decreases n - i,
    {
        let ghost pre = out@;
        let e = iset_get_index(ps, i).unwrap();
        out.push(e.clone());
        proof {
            lemma_has_name_mono(pre, out@);
            assert(out@[out@.len() - 1]@ == iset_elems(*ps)[i as int]);
            assert(iset_elems(*ps).contains(iset_elems(*ps)[i as int]));
            assert forall|j: int| 0 <= j < i + 1 implies has_name(
                out@,
                iset_elems(*ps)[j],
            ) by {
                if j < i as int {
                    assert(has_name(pre, iset_elems(*ps)[j]));
                } else {
                    assert(out@[out@.len() - 1]@ == iset_elems(*ps)[j]);
                }
            }
        }
        i += 1;
    }
    proof {
        assert forall|m: Seq<char>| iset_elems(*ps).contains(m) implies has_name(out@, m) by {
            let j = choose|j: int| 0 <= j < iset_elems(*ps).len() && iset_elems(*ps)[j] == m;
        }
    }
}

/// The filtered out-edge targets of a descriptor, exactly.
fn edge_targets(t: &MetaType, gate: Option<&ViewerContext>) -> (r: Vec<String>)
    ensures
        forall|k: int| 0 <= k < r@.len() ==> type_edge(t@, gate_view(gate), #[trigger] r@[k]@),
        forall|n: Seq<char>| type_edge(t@, gate_view(gate), n) ==> has_name(r@, n),
{
    let ghost g = gate_view(gate);
    let mut out: Vec<String> = Vec::new();
    match t {
        MetaType::Object { fields, .. } => {
            collect_field_edges(fields, gate, &mut out);
        },
        MetaType::Interface { fields, possible_types, .. } => {
            collect_field_edges(fields, gate, &mut out);
            let ghost mid = out@;
            collect_possible(possible_types, &mut out);
            proof {
                lemma_has_name_mono(mid, out@);
                assert forall|k: int| 0 <= k < out@.len() implies type_edge(
                    t@,
                    g,
                    (#[trigger] out@[k])@,
                ) by {
                    if k < mid.len() {
                        assert(out@[k] == mid[k]);
                        assert(any_field_edge(fields.deep_view(), g, mid[k]@));
                    } else {
                        assert(iset_elems(*possible_types).contains(out@[k]@));
                    }
                }
            }
        },
        MetaType::Union { possible_types, .. } => {
            collect_possible(possible_types, &mut out);
        },
        MetaType::InputObject { input_fields, .. } => {
            collect_input_edges(input_fields, gate, &mut out);
        },
        _ => {},
    }
    out
}

fn store_index(ts: &Vec<(String, TypeSlot)>, name: &str) -> (r: Option<usize>)
    ensures
        match r {
            Some(k) => {
                &&& 0 <= k < types_view(ts@).len()
                &&& types_view(ts@)[k as int].0 == name@
                &&& assoc_find(types_view(ts@), name@) == Some(types_view(ts@)[k as int].1)
            },
            None => assoc_find(types_view(ts@), name@) is None,
        },
{
    let n = ts.len();
    let mut i: usize = 0;
    while i < n
        invariant
            n == ts@.len(),
            0 <= i <= n,
            forall|j: int| 0 <= j < i ==> types_view(ts@)[j].0 != name@,
        decreases n - i,
    {
        if str_eq(ts[i].0.as_str(), name) {
            proof {
                lemma_assoc_find_first(types_view(ts@), name@, i as int);
            }
            return Some(i);
        }
        i += 1;
    }
    proof {
        lemma_assoc_find_none(types_view(ts@), name@);
    }
    None
}

/// Marks into `used` every name reachable under the viewer filter from `roots`, keeping
/// what was already marked; afterwards the marks are closed under
/// filtered edges, and nothing was marked that is not live and reachable
/// from the roots or from the earlier marks.
pub fn traverse_into(
    ts: &Vec<(String, TypeSlot)>,
    gate: Option<&ViewerContext>,
    used: &mut Vec<String>,
    roots: &Vec<String>,
)
    requires
        distinct_keys(types_view(ts@)),
        distinct_names(old(used).deep_view()),
        all_live(types_view(ts@), gate_view(gate), old(used).deep_view()),
        closed_under_edges(types_view(ts@), gate_view(gate), old(used).deep_view()),
    ensures
        distinct_names(final(used).deep_view()),
        final(used)@.len() >= old(used)@.len(),
        forall|k: int|
            0 <= k < old(used)@.len() ==> (#[trigger] final(used).deep_view()[k]) == old(
                used,
            ).deep_view()[k],
        all_live(types_view(ts@), gate_view(gate), final(used).deep_view()),
        closed_under_edges(types_view(ts@), gate_view(gate), final(used).deep_view()),
        forall|r: Seq<char>|
            #[trigger] roots.deep_view().contains(r) && node_live(
                types_view(ts@),
                gate_view(gate),
                r,
            ) ==> final(used).deep_view().contains(r),
        forall|k: int|
            old(used)@.len() <= k < final(used)@.len() ==> reachable(
                types_view(ts@),
                gate_view(gate),
                roots.deep_view() + old(used).deep_view(),
                #[trigger] final(used).deep_view()[k],
            ),
{
    let ghost tsv = types_view(ts@);
    let ghost g = gate_view(gate);
    let ghost base = old(used).deep_view();
    let ghost rbase = roots.deep_view() + old(used).deep_view();
    let mut stack: Vec<String> = Vec::new();
    let mut ri: usize = 0;
    while ri < roots.len()
        invariant
            0 <= ri <= roots@.len(),
            stack@.len() == ri,
            forall|k: int| 0 <= k < ri ==> (#[trigger] stack.deep_view()[k]) == roots.deep_view()[k],
        decreases roots@.len() - ri,
    {
        let ghost pre = stack.deep_view();
        stack.push(roots[ri].clone());
        proof {
            assert forall|k: int| 0 <= k < ri + 1 implies (#[trigger] stack.deep_view()[k])
                == roots.deep_view()[k] by {
                if k < ri as int {
                    assert(stack.deep_view()[k] == pre[k]);
                }
            }
        }
        ri += 1;
    }
    proof {
        assert(stack.deep_view() =~= roots.deep_view());
        assert forall|k: int| 0 <= k < stack@.len() implies roots.deep_view().contains(
            #[trigger] stack.deep_view()[k],
        ) by {
            assert(roots.deep_view()[k] == stack.deep_view()[k]);
        }
        assert forall|k: int| 0 <= k < base.len() implies assoc_find(
            tsv,
            #[trigger] base[k],
        ) is Some by {
            assert(node_live(tsv, g, base[k]));
        }
        lemma_used_bound(tsv, base);
    }
    while stack.len() > 0
        invariant
            distinct_keys(tsv),
            tsv == types_view(ts@),
            g == gate_view(gate),
            base == old(used).deep_view(),
            rbase == roots.deep_view() + old(used).deep_view(),
            distinct_names(used.deep_view()),
            used@.len() >= base.len(),
            forall|k: int| 0 <= k < base.len() ==> (#[trigger] used.deep_view()[k]) == base[k],
            all_live(tsv, g, used.deep_view()),
            used@.len() <= ts@.len(),
            // every stack entry is a root or a successor of a mark
            forall|k: int|
                0 <= k < stack@.len() ==> roots.deep_view().contains(
                    #[trigger] stack.deep_view()[k],
                ) || exists|i: int|
                    0 <= i < used@.len() && edge_from(
                        tsv,
                        g,
                        used.deep_view()[i],
                        stack.deep_view()[k],
                    ),
            // frontier coverage
            forall|i: int, m: Seq<char>|
                0 <= i < used@.len() && #[trigger] edge_from(tsv, g, used.deep_view()[i], m)
                    && node_live(tsv, g, m) ==> used.deep_view().contains(m)
                    || stack.deep_view().contains(m),
            // live roots stay covered
            forall|r: Seq<char>|
                #[trigger] roots.deep_view().contains(r) && node_live(tsv, g, r)
                    ==> used.deep_view().contains(r) || stack.deep_view().contains(r),
            forall|k: int|
                base.len() <= k < used@.len() ==> reachable(
                    tsv,
                    g,
                    rbase,
                    #[trigger] used.deep_view()[k],
                ),
        decreases ts@.len() - used@.len(), stack@.len(),
    {
        let ghost old_stack = stack.deep_view();
        let ghost old_used = used.deep_view();
        let nm = stack.pop().unwrap();
        proof {
            assert(nm@ == old_stack.last());
            assert(stack.deep_view() =~= old_stack.drop_last());
        }
        let already = vec_contains_string(used, nm.as_str());
        let mut marked = false;
        if !already {
            match store_index(ts, nm.as_str()) {
                None => {},
                Some(k) => {
                    let viz = match &ts[k].1 {
                        TypeSlot::InProgress => true,
                        TypeSlot::Finished(t) => match gate {
                            None => true,
                            Some(c) => t.is_visible(c),
                        },
                    };
                    proof {
                        assert(tsv[k as int] == (ts@[k as int].0@, ts@[k as int].1@));
                        assert(viz == slot_visible(tsv[k as int].1, g));
                        assert(viz == node_live(tsv, g, nm@));
                    }
                    if viz {
                        marked = true;
                        let edges = match &ts[k].1 {
                            TypeSlot::InProgress => Vec::new(),
                            TypeSlot::Finished(t) => edge_targets(t, gate),
                        };
                        let ghost added = edges.deep_view();
                        proof {
                            assert(assoc_find(tsv, nm@) == Some(tsv[k as int].1));
                            assert forall|m: Seq<char>| #[trigger] edge_from(tsv, g, nm@, m)
                                implies exists|w: int|
                                0 <= w < added.len() && added[w] == m by {
                                assert(slot_edge(tsv[k as int].1, g, m));
                                assert(has_name(edges@, m));
                                let w = choose|w: int|
                                    0 <= w < edges@.len() && (#[trigger] edges@[w])@ == m;
                                assert(added[w] == m);
                            }
                            assert forall|kk: int| 0 <= kk < added.len() implies edge_from(
                                tsv,
                                g,
                                nm@,
                                #[trigger] added[kk],
                            ) by {
                                assert(added[kk] == edges@[kk]@);
                            }
                            // the new mark is reachable from the base roots
                            if roots.deep_view().contains(nm@) {
                                let rk = choose|rk: int|
                                    0 <= rk < roots.deep_view().len() && roots.deep_view()[rk]
                                        == nm@;
                                assert(rbase[rk] == nm@);
                                assert(rbase.contains(nm@));
                                lemma_reach_root(tsv, g, rbase, nm@);
                            } else {
                                let i = choose|i: int|
                                    0 <= i < old_used.len() && edge_from(
                                        tsv,
                                        g,
                                        old_used[i],
                                        nm@,
                                    );
                                if i < base.len() {
                                    assert(old_used[i] == base[i]);
                                    assert(rbase[roots.deep_view().len() + i] == base[i]);
                                    assert(rbase.contains(old_used[i]));
                                    lemma_reach_root(tsv, g, rbase, old_used[i]);
                                } else {
                                    assert(reachable(tsv, g, rbase, old_used[i]));
                                }
                                lemma_reach_step(tsv, g, rbase, old_used[i], nm@);
                            }
                            assert forall|kk: int| 0 <= kk < old_used.push(nm@).len() implies
                                assoc_find(tsv, #[trigger] old_used.push(nm@)[kk]) is Some by {
                                if kk < old_used.len() {
                                    assert(node_live(tsv, g, old_used[kk]));
                                } else {
                                    assert(node_live(tsv, g, nm@));
                                }
                            }
                            assert(distinct_names(old_used.push(nm@))) by {
                                assert(!old_used.contains(nm@));
                                assert forall|a: int, b: int|
                                    0 <= a < b < old_used.push(nm@).len() implies old_used.push(
                                    nm@,
                                )[a] != old_used.push(nm@)[b] by {
                                    if b < old_used.len() {
                                    } else {
                                        assert(old_used.push(nm@)[a] == old_used[a]);
                                        if old_used[a] == nm@ {
                                            assert(old_used.contains(nm@));
                                        }
                                    }
                                }
                            }
                            lemma_used_bound(tsv, old_used.push(nm@));
                        }
                        used.push(nm);
                        let mut edges = edges;
                        let ghost pre_stack = stack.deep_view();
                        proof {
                            assert(edges.deep_view() == added);
                        }
                        stack.append(&mut edges);
                        proof {
                            assert(used.deep_view() =~= old_used.push(nm@));
                            assert(stack.deep_view() =~= pre_stack + added);
                            let usedv = used.deep_view();
                            let stackv = stack.deep_view();
                            assert(usedv[usedv.len() - 1] == nm@);
                            // stack entries stay roots-or-successors
                            assert forall|k2: int|
                                0 <= k2 < stackv.len() implies roots.deep_view().contains(
                                #[trigger] stackv[k2],
                            ) || exists|i: int|
                                0 <= i < usedv.len() && edge_from(tsv, g, usedv[i], stackv[k2])
                                by {
                                if k2 < pre_stack.len() {
                                    assert(stackv[k2] == old_stack[k2]);
                                    if !roots.deep_view().contains(old_stack[k2]) {
                                        let i = choose|i: int|
                                            0 <= i < old_used.len() && edge_from(
                                                tsv,
                                                g,
                                                old_used[i],
                                                old_stack[k2],
                                            );
                                        assert(usedv[i] == old_used[i]);
                                        assert(edge_from(tsv, g, usedv[i], stackv[k2]));
                                    }
                                } else {
                                    let e = stackv[k2];
                                    assert(e == added[k2 - pre_stack.len()]);
                                    assert(edge_from(tsv, g, nm@, e));
                                    assert(edge_from(tsv, g, usedv[usedv.len() - 1], e));
                                }
                            }
                            // frontier coverage
                            assert forall|i: int, m: Seq<char>|
                                0 <= i < usedv.len() && #[trigger] edge_from(
                                    tsv,
                                    g,
                                    usedv[i],
                                    m,
                                ) && node_live(tsv, g, m) implies usedv.contains(m)
                                || stackv.contains(m) by {
                                if i < old_used.len() {
                                    assert(usedv[i] == old_used[i]);
                                    assert(edge_from(tsv, g, old_used[i], m));
                                    if old_used.contains(m) {
                                        let w = choose|w: int|
                                            0 <= w < old_used.len() && old_used[w] == m;
                                        assert(usedv[w] == m);
                                    } else {
                                        let k2 = choose|k2: int|
                                            0 <= k2 < old_stack.len() && old_stack[k2] == m;
                                        if k2 < old_stack.len() - 1 {
                                            assert(stackv[k2] == m);
                                        } else {
                                            assert(m == nm@);
                                            assert(usedv[usedv.len() - 1] == m);
                                        }
                                    }
                                } else {
                                    assert(usedv[i] == nm@);
                                    assert(edge_from(tsv, g, nm@, m));
                                    let w = choose|w: int|
                                        0 <= w < added.len() && added[w] == m;
                                    assert(stackv[pre_stack.len() + w] == m);
                                }
                            }
                            // live roots stay covered
                            assert forall|r: Seq<char>|
                                #[trigger] roots.deep_view().contains(r) && node_live(
                                    tsv,
                                    g,
                                    r,
                                ) implies usedv.contains(r) || stackv.contains(r) by {
                                if old_used.contains(r) {
                                    let w = choose|w: int|
                                        0 <= w < old_used.len() && old_used[w] == r;
                                    assert(usedv[w] == r);
                                } else {
                                    let k2 = choose|k2: int|
                                        0 <= k2 < old_stack.len() && old_stack[k2] == r;
                                    if k2 < old_stack.len() - 1 {
                                        assert(stackv[k2] == r);
                                    } else {
                                        assert(r == nm@);
                                        assert(usedv[usedv.len() - 1] == r);
                                    }
                                }
                            }
                        }
                    }
                },
            }
        }
        proof {
            if !marked {
                let usedv = used.deep_view();
                let stackv = stack.deep_view();
                assert(usedv == old_used);
                assert(stackv == old_stack.drop_last());
                assert(already ==> usedv.contains(nm@));
                assert(!already && !marked ==> !node_live(tsv, g, nm@));
                assert forall|i: int, m: Seq<char>|
                    0 <= i < usedv.len() && #[trigger] edge_from(tsv, g, usedv[i], m)
                        && node_live(tsv, g, m) implies usedv.contains(m) || stackv.contains(
                    m,
                ) by {
                    if !usedv.contains(m) {
                        let k2 = choose|k2: int|
                            0 <= k2 < old_stack.len() && old_stack[k2] == m;
                        if k2 < old_stack.len() - 1 {
                            assert(stackv[k2] == m);
                        } else {
                            assert(m == nm@);
                            assert(usedv.contains(nm@));
                        }
                    }
                }
                assert forall|r: Seq<char>|
                    #[trigger] roots.deep_view().contains(r) && node_live(tsv, g, r) implies
                    usedv.contains(r) || stackv.contains(r) by {
                    if !usedv.contains(r) {
                        let k2 = choose|k2: int|
                            0 <= k2 < old_stack.len() && old_stack[k2] == r;
                        if k2 < old_stack.len() - 1 {
                            assert(stackv[k2] == r);
                        } else {
                            assert(r == nm@);
                            assert(usedv.contains(nm@));
                        }
                    }
                }
            }
        }
    }
    proof {
        assert forall|i: int, m: Seq<char>|
            0 <= i < used@.len() && #[trigger] edge_from(tsv, g, used.deep_view()[i], m)
                && node_live(tsv, g, m) implies used.deep_view().contains(m) by {
            assert(stack.deep_view().len() == 0);
        }
        assert forall|r: Seq<char>|
            #[trigger] roots.deep_view().contains(r) && node_live(tsv, g, r) implies
            used.deep_view().contains(r) by {
            assert(stack.deep_view().len() == 0);
        }
    }
}

/// Whether a string with this view is among the names.
pub fn vec_contains_string(v: &Vec<String>, s: &str) -> (r: bool)
    ensures
        r == v.deep_view().contains(s@),
{
    let mut i: usize = 0;
    while i < v.len()
        invariant
            0 <= i <= v@.len(),
            forall|j: int| 0 <= j < i ==> v.deep_view()[j] != s@,
        decreases v@.len() - i,
    {
        if str_eq(v[i].as_str(), s) {
            proof {
                assert(v.deep_view()[i as int] == s@);
            }
            return true;
        }
        i += 1;
    }
    false
}

} // verus!
