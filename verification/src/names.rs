//! The set of names a schema declares: every directive name, every
//! directive argument name, every registered type's name, and the
//! field, argument, enum-value and input-field names under it. Used
//! by schema validation to detect name clashes.

use vstd::prelude::*;
use vstd::string::*;
use crate::meta::MetaType;
use crate::meta::MetaField;
use crate::meta::MetaInputValue;
use crate::meta::MetaEnumValue;
use crate::meta::TypeView;
use crate::meta::FieldView;
use crate::meta::InputValueView;
use crate::meta::EnumValueView;
use crate::meta::DirectiveView;
use crate::registry::Registry;
use crate::registry::RegistryView;
use crate::registry::TypeSlot;
use crate::registry::SlotView;
use crate::reach::has_name;
use crate::reach::distinct_names;
use crate::reach::vec_contains_string;

verus! {

/// Some argument or input field of the list is named `x`.
pub open spec fn input_named(avs: Seq<InputValueView>, x: Seq<char>) -> bool {
    exists|j: int| 0 <= j < avs.len() && (#[trigger] avs[j]).name == x
}

/// Some enum value of the list is named `x`.
pub open spec fn enum_value_named(evs: Seq<EnumValueView>, x: Seq<char>) -> bool {
    exists|j: int| 0 <= j < evs.len() && (#[trigger] evs[j]).name == x
}

/// The field, or one of its arguments, is named `x`.
pub open spec fn field_declares(fv: FieldView, x: Seq<char>) -> bool {
    fv.name == x || input_named(fv.args, x)
}

/// Some field of the list declares `x`.
pub open spec fn fields_declare(fs: Seq<FieldView>, x: Seq<char>) -> bool {
    exists|i: int| 0 <= i < fs.len() && #[trigger] field_declares(fs[i], x)
}

/// The descriptor declares `x`: its own name or a field, argument,
/// enum-value or input-field name under it.
pub open spec fn type_declares(t: TypeView, x: Seq<char>) -> bool {
    match t {
        TypeView::Scalar { name, .. } => name == x,
        TypeView::Union { name, .. } => name == x,
        TypeView::Object { name, fields, .. } => name == x || fields_declare(fields, x),
        TypeView::Interface { name, fields, .. } => name == x || fields_declare(fields, x),
        TypeView::Enum { name, enum_values, .. } => name == x || enum_value_named(enum_values, x),
        TypeView::InputObject { name, input_fields, .. } => name == x || input_named(
            input_fields,
            x,
        ),
    }
}

/// The slot declares `x`; a sentinel declares nothing.
pub open spec fn slot_declares(sl: SlotView, x: Seq<char>) -> bool {
    match sl {
        SlotView::Finished(t) => type_declares(t, x),
        SlotView::InProgress => false,
    }
}

/// The directive, or one of its arguments, is named `x`.
pub open spec fn directive_declares(d: DirectiveView, x: Seq<char>) -> bool {
    d.name == x || input_named(d.args, x)
}

/// The schema declares `x` somewhere.
pub open spec fn schema_name(rv: RegistryView, x: Seq<char>) -> bool {
    ||| exists|i: int|
        0 <= i < rv.directives.len() && #[trigger] directive_declares(rv.directives[i], x)
    ||| exists|i: int|
        0 <= i < rv.types.len() && #[trigger] slot_declares(rv.types[i].1, x)
}

fn push_unique(out: &mut Vec<String>, s: String)
    requires
        distinct_names(old(out).deep_view()),
    ensures
        distinct_names(final(out).deep_view()),
        forall|x: Seq<char>|
            #[trigger] has_name(final(out)@, x) <==> (has_name(old(out)@, x) || x == s@),
{
    let ghost pre = out@;
    let ghost prev = out.deep_view();
    let found = vec_contains_string(out, s.as_str());
    let ghost sv = s@;
    if !found {
        out.push(s);
        proof {
            assert(out.deep_view() =~= prev.push(sv));
            assert forall|a: int, b: int|
                0 <= a < b < out.deep_view().len() implies out.deep_view()[a]
                != out.deep_view()[b] by {
                if b == out.deep_view().len() - 1 {
                    assert(out.deep_view()[a] == prev[a]);
                    if prev[a] == sv {
                        assert(prev.contains(sv));
                    }
                }
            }
            assert forall|x: Seq<char>| #[trigger] has_name(out@, x) implies (has_name(pre, x)
                || x == sv) by {
                let k = choose|k: int| 0 <= k < out@.len() && (#[trigger] out@[k])@ == x;
                if k < pre.len() {
                    assert(pre[k]@ == x);
                }
            }
            assert forall|x: Seq<char>| (has_name(pre, x) || x == sv) implies has_name(
                out@,
                x,
            ) by {
                if has_name(pre, x) {
                    let k = choose|k: int| 0 <= k < pre.len() && (#[trigger] pre[k])@ == x;
                    assert(out@[k]@ == x);
                } else {
                    assert(out@[out@.len() - 1]@ == x);
                }
            }
        }
    } else {
        proof {
            assert(prev.contains(sv));
            let k = choose|k: int| 0 <= k < prev.len() && prev[k] == sv;
            assert(out@[k]@ == sv);
            assert(has_name(out@, sv));
        }
    }
}

fn collect_input_names(avs: &Vec<MetaInputValue>, out: &mut Vec<String>)
    requires
        distinct_names(old(out).deep_view()),
    ensures
        distinct_names(final(out).deep_view()),
        forall|x: Seq<char>|
            #[trigger] has_name(final(out)@, x) <==> (has_name(old(out)@, x) || input_named(
                avs.deep_view(),
                x,
            )),
{
    let mut j: usize = 0;
    while j < avs.len()
        invariant
            0 <= j <= avs@.len(),
            distinct_names(out.deep_view()),
            forall|x: Seq<char>|
                #[trigger] has_name(out@, x) <==> (has_name(old(out)@, x) || input_named(
                    avs.deep_view().subrange(0, j as int),
                    x,
                )),
        decreases avs@.len() - j,
    {
        let ghost before = out@;
        push_unique(out, avs[j].name.clone());
        proof {
            let sub1 = avs.deep_view().subrange(0, j as int + 1);
            let sub0 = avs.deep_view().subrange(0, j as int);
            assert forall|x: Seq<char>| #[trigger] has_name(out@, x) implies (has_name(
                old(out)@,
                x,
            ) || input_named(sub1, x)) by {
                if !has_name(old(out)@, x) {
                    if has_name(before, x) {
                        let w = choose|w: int| 0 <= w < sub0.len() && (#[trigger] sub0[w]).name
                            == x;
                        assert(sub1[w].name == x);
                    } else {
                        assert(x == avs.deep_view()[j as int].name);
                        assert(sub1[j as int].name == x);
                    }
                }
            }
            assert forall|x: Seq<char>| (has_name(old(out)@, x) || input_named(sub1, x))
                implies has_name(out@, x) by {
                if input_named(sub1, x) && !has_name(old(out)@, x) {
                    let w = choose|w: int| 0 <= w < sub1.len() && (#[trigger] sub1[w]).name == x;
                    if w < j as int {
                        assert(sub0[w].name == x);
                        assert(has_name(before, x));
                    } else {
                        assert(x == avs.deep_view()[j as int].name);
                    }
                }
            }
        }
        j += 1;
    }
    proof {
        assert(avs.deep_view().subrange(0, avs.deep_view().len() as int) =~= avs.deep_view());
    }
}

fn collect_enum_names(evs: &Vec<MetaEnumValue>, out: &mut Vec<String>)
    requires
        distinct_names(old(out).deep_view()),
    ensures
        distinct_names(final(out).deep_view()),
        forall|x: Seq<char>|
            #[trigger] has_name(final(out)@, x) <==> (has_name(old(out)@, x) || enum_value_named(
                evs.deep_view(),
                x,
            )),
{
    let mut j: usize = 0;
    while j < evs.len()
        invariant
            0 <= j <= evs@.len(),
            distinct_names(out.deep_view()),
            forall|x: Seq<char>|
                #[trigger] has_name(out@, x) <==> (has_name(old(out)@, x) || enum_value_named(
                    evs.deep_view().subrange(0, j as int),
                    x,
                )),
        decreases evs@.len() - j,
    {
        let ghost before = out@;
        push_unique(out, evs[j].name.clone());
        proof {
            let sub1 = evs.deep_view().subrange(0, j as int + 1);
            let sub0 = evs.deep_view().subrange(0, j as int);
            assert forall|x: Seq<char>| #[trigger] has_name(out@, x) implies (has_name(
                old(out)@,
                x,
            ) || enum_value_named(sub1, x)) by {
                if !has_name(old(out)@, x) {
                    if has_name(before, x) {
                        let w = choose|w: int| 0 <= w < sub0.len() && (#[trigger] sub0[w]).name
                            == x;
                        assert(sub1[w].name == x);
                    } else {
                        assert(sub1[j as int].name == x);
                    }
                }
            }
            assert forall|x: Seq<char>| (has_name(old(out)@, x) || enum_value_named(sub1, x))
                implies has_name(out@, x) by {
                if enum_value_named(sub1, x) && !has_name(old(out)@, x) {
                    let w = choose|w: int| 0 <= w < sub1.len() && (#[trigger] sub1[w]).name == x;
                    if w < j as int {
                        assert(sub0[w].name == x);
                        assert(has_name(before, x));
                    }
                }
            }
        }
        j += 1;
    }
    proof {
        assert(evs.deep_view().subrange(0, evs.deep_view().len() as int) =~= evs.deep_view());
    }
}

fn collect_field_names(fs: &Vec<MetaField>, out: &mut Vec<String>)
    requires
        distinct_names(old(out).deep_view()),
    ensures
        distinct_names(final(out).deep_view()),
        forall|x: Seq<char>|
            #[trigger] has_name(final(out)@, x) <==> (has_name(old(out)@, x) || fields_declare(
                fs.deep_view(),
                x,
            )),
{
    let mut j: usize = 0;
    while j < fs.len()
        invariant
            0 <= j <= fs@.len(),
            distinct_names(out.deep_view()),
            forall|x: Seq<char>|
                #[trigger] has_name(out@, x) <==> (has_name(old(out)@, x) || fields_declare(
                    fs.deep_view().subrange(0, j as int),
                    x,
                )),
        decreases fs@.len() - j,
    {
        let ghost before = out@;
        push_unique(out, fs[j].name.clone());
        collect_input_names(&fs[j].args, out);
        proof {
            let sub1 = fs.deep_view().subrange(0, j as int + 1);
            let sub0 = fs.deep_view().subrange(0, j as int);
            let fv = fs.deep_view()[j as int];
            assert(sub1[j as int] == fv);
            assert forall|x: Seq<char>| #[trigger] has_name(out@, x) implies (has_name(
                old(out)@,
                x,
            ) || fields_declare(sub1, x)) by {
                if !has_name(old(out)@, x) {
                    if has_name(before, x) {
                        let w = choose|w: int| 0 <= w < sub0.len() && #[trigger] field_declares(
                            sub0[w],
                            x,
                        );
                        assert(sub1[w] == sub0[w]);
                        assert(field_declares(sub1[w], x));
                    } else {
                        assert(field_declares(fv, x));
                    }
                }
            }
            assert forall|x: Seq<char>| (has_name(old(out)@, x) || fields_declare(sub1, x))
                implies has_name(out@, x) by {
                if fields_declare(sub1, x) && !has_name(old(out)@, x) {
                    let w = choose|w: int| 0 <= w < sub1.len() && #[trigger] field_declares(
                        sub1[w],
                        x,
                    );
                    if w < j as int {
                        assert(sub0[w] == sub1[w]);
                        assert(has_name(before, x));
                    } else {
                        assert(field_declares(fv, x));
                    }
                }
            }
        }
        j += 1;
    }
    proof {
        assert(fs.deep_view().subrange(0, fs.deep_view().len() as int) =~= fs.deep_view());
    }
}

impl Registry {
    /// Every name the schema declares, each once, in declaration
    /// order: directive and directive-argument names first, then each
    /// registered type's name with its field, argument, enum-value
    /// and input-field names.
    pub fn names(&self) -> (r: Vec<String>)
        ensures
            distinct_names(r.deep_view()),
            forall|x: Seq<char>| #[trigger] has_name(r@, x) <==> schema_name(self@, x),
    {
        let ghost rv = self@;
        let mut out: Vec<String> = Vec::new();
        proof {
            assert(out.deep_view() =~= Seq::<Seq<char>>::empty());
        }
        let mut i: usize = 0;
        while i < self.directives.len()
            invariant
                rv == self@,
                0 <= i <= self.directives@.len(),
                distinct_names(out.deep_view()),
                forall|x: Seq<char>|
                    #[trigger] has_name(out@, x) <==> exists|a: int|
                        0 <= a < i && #[trigger] directive_declares(rv.directives[a], x),
            decreases self.directives@.len() - i,
        {
            let ghost before = out@;
            push_unique(&mut out, self.directives[i].name.clone());
            collect_input_names(&self.directives[i].args, &mut out);
            proof {
                let dv = rv.directives[i as int];
                assert(self.directives@[i as int]@ == dv);
                assert forall|x: Seq<char>| #[trigger] has_name(out@, x) implies exists|a: int|
                    0 <= a < i + 1 && #[trigger] directive_declares(rv.directives[a], x) by {
                    if has_name(before, x) {
                        let a = choose|a: int|
                            0 <= a < i && #[trigger] directive_declares(rv.directives[a], x);
                        assert(directive_declares(rv.directives[a], x));
                    } else {
                        assert(directive_declares(dv, x));
                    }
                }
                assert forall|x: Seq<char>|
                    (exists|a: int|
                        0 <= a < i + 1 && #[trigger] directive_declares(
                            rv.directives[a],
                            x,
                        )) implies has_name(out@, x) by {
                    let a = choose|a: int|
                        0 <= a < i + 1 && #[trigger] directive_declares(rv.directives[a], x);
                    if a < i as int {
                        assert(has_name(before, x));
                    }
                }
            }
            i += 1;
        }
        let mut t: usize = 0;
        while t < self.types.len()
            invariant
                rv == self@,
                0 <= t <= self.types@.len(),
                distinct_names(out.deep_view()),
                forall|x: Seq<char>|
                    #[trigger] has_name(out@, x) <==> (exists|a: int|
                        0 <= a < rv.directives.len() && #[trigger] directive_declares(
                            rv.directives[a],
                            x,
                        )) || (exists|a: int|
                        0 <= a < t && #[trigger] slot_declares(rv.types[a].1, x)),
            decreases self.types@.len() - t,
        {
            let ghost before = out@;
            match &self.types[t].1 {
                TypeSlot::InProgress => {},
                TypeSlot::Finished(ty) => {
                    push_unique(&mut out, ty.name().to_owned());
                    match ty {
                        MetaType::Object { fields, .. } => {
                            collect_field_names(fields, &mut out);
                        },
                        MetaType::Interface { fields, .. } => {
                            collect_field_names(fields, &mut out);
                        },
                        MetaType::Enum { enum_values, .. } => {
                            collect_enum_names(enum_values, &mut out);
                        },
                        MetaType::InputObject { input_fields, .. } => {
                            collect_input_names(input_fields, &mut out);
                        },
                        _ => {},
                    }
                },
            }
            proof {
                let sl = rv.types[t as int].1;
                assert(sl == self.types@[t as int].1@);
                assert forall|x: Seq<char>| #[trigger] has_name(out@, x) implies ((exists|a: int|
                    0 <= a < rv.directives.len() && #[trigger] directive_declares(
                        rv.directives[a],
                        x,
                    )) || (exists|a: int|
                    0 <= a < t + 1 && #[trigger] slot_declares(rv.types[a].1, x))) by {
                    if has_name(before, x) {
                        if exists|a: int|
                            0 <= a < t && #[trigger] slot_declares(rv.types[a].1, x) {
                            let a = choose|a: int|
                                0 <= a < t && #[trigger] slot_declares(rv.types[a].1, x);
                            assert(slot_declares(rv.types[a].1, x));
                        }
                    } else {
                        assert(slot_declares(sl, x));
                    }
                }
                assert forall|x: Seq<char>|
                    ((exists|a: int|
                        0 <= a < rv.directives.len() && #[trigger] directive_declares(
                            rv.directives[a],
                            x,
                        )) || (exists|a: int|
                        0 <= a < t + 1 && #[trigger] slot_declares(rv.types[a].1, x))) implies
                    has_name(out@, x) by {
                    if exists|a: int|
                        0 <= a < t + 1 && #[trigger] slot_declares(rv.types[a].1, x) {
                        let a = choose|a: int|
                            0 <= a < t + 1 && #[trigger] slot_declares(rv.types[a].1, x);
                        if a < t as int {
                            assert(has_name(before, x));
                        } else {
                            assert(slot_declares(sl, x));
                        }
                    } else {
                        assert(has_name(before, x));
                    }
                }
            }
            t += 1;
        }
        out
    }
}

} // verus!
