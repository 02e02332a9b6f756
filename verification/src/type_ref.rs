//! The type-reference string grammar: a bare name is a nullable named
//! type, wrapping in `[...]` denotes a list of the inner type, and a
//! trailing `!` denotes non-null. These compose, e.g. `[[Int!]!]` is a
//! nullable list of non-null lists of non-null `Int`.

use vstd::prelude::*;
use vstd::string::*;

verus! {

/// One peeled layer of a type-reference string.
pub ghost enum TypeRefShape {
    List(Seq<char>),
    NonNull(Seq<char>),
    Named(Seq<char>),
}

/// Peels the outermost layer of a type-reference string: a trailing `!`
/// wins over a leading `[`; anything else is a bare name.
pub open spec fn parse_type_ref(s: Seq<char>) -> TypeRefShape {
    if s.len() >= 1 && s.last() == '!' {
        TypeRefShape::NonNull(s.drop_last())
    } else if s.len() >= 2 && s[0] == '[' {
        TypeRefShape::List(s.subrange(1, s.len() - 1))
    } else {
        TypeRefShape::Named(s)
    }
}

/// Renders one layer back to text.
pub open spec fn render_shape(t: TypeRefShape) -> Seq<char> {
    match t {
        TypeRefShape::Named(n) => n,
        TypeRefShape::NonNull(n) => n.push('!'),
        TypeRefShape::List(n) => seq!['['] + n + seq![']'],
    }
}

/// A measure that shrinks whenever a contained string is re-parsed,
/// used for termination of the mutually nested walks below.
pub open spec fn shape_measure(t: TypeRefShape) -> nat {
    match t {
        TypeRefShape::Named(s) => 2 * s.len(),
        TypeRefShape::NonNull(s) => 2 * s.len() + 1,
        TypeRefShape::List(s) => 2 * s.len() + 2,
    }
}

proof fn lemma_parse_measure(s: Seq<char>)
    ensures
        shape_measure(parse_type_ref(s)) <= 2 * s.len(),
{
}

/// The concrete (innermost named) type of a type-reference string.
pub open spec fn concrete_of(s: Seq<char>) -> Seq<char>
    decreases s.len(),
{
    match parse_type_ref(s) {
        TypeRefShape::NonNull(t) => concrete_of(t),
        TypeRefShape::List(t) => concrete_of(t),
        TypeRefShape::Named(t) => t,
    }
}

/// Whether a value of shape `b` may stand where shape `a` is expected:
/// non-null may stand for nullable, lists match componentwise, names
/// must agree exactly.
pub open spec fn spec_subtype(a: TypeRefShape, b: TypeRefShape) -> bool
    decreases shape_measure(a) + shape_measure(b),
{
    match (a, b) {
        (TypeRefShape::NonNull(sa), TypeRefShape::NonNull(sb)) => {
            spec_subtype(parse_type_ref(sa), parse_type_ref(sb))
        },
        (TypeRefShape::Named(sa), TypeRefShape::NonNull(sb)) => {
            spec_subtype(parse_type_ref(sa), parse_type_ref(sb))
        },
        (TypeRefShape::Named(sa), TypeRefShape::Named(sb)) => sa == sb,
        (TypeRefShape::List(sa), TypeRefShape::List(sb)) => {
            spec_subtype(parse_type_ref(sa), parse_type_ref(sb))
        },
        _ => false,
    }
}

/// Whether a shape is a list once fully unwrapped of non-null layers.
pub open spec fn spec_is_list(t: TypeRefShape) -> bool
    decreases shape_measure(t),
{
    match t {
        TypeRefShape::List(_) => true,
        TypeRefShape::NonNull(s) => spec_is_list(parse_type_ref(s)),
        TypeRefShape::Named(s) => s.len() >= 1 && s.last() == ']',
    }
}

/// Compares two strings by value.
pub fn string_eq(a: &String, b: &String) -> (r: bool)
    ensures
        r == (a@ == b@),
{
    *a == *b
}

/// Strips a leading `[` together with the final character, yielding the
/// inner text of a list reference; `None` when the text does not start
/// with `[` or is too short to hold both delimiters.
pub fn strip_brackets<'a>(text: &'a str) -> (r: Option<&'a str>)
    ensures
        match r {
            Some(inner) => {
                &&& text@.len() >= 2
                &&& text@[0] == '['
                &&& inner@ == text@.subrange(1, text@.len() - 1)
            },
            None => !(text@.len() >= 2 && text@[0] == '['),
        },
{
    let n = text.unicode_len();
    if n >= 2 && text.get_char(0) == '[' {
        Some(text.substring_char(1, n - 1))
    } else {
        None
    }
}

/// A type-reference string with its outermost layer peeled.
#[derive(Debug)]
pub enum MetaTypeName {
    List(String),
    NonNull(String),
    Named(String),
}

impl View for MetaTypeName {
    type V = TypeRefShape;

    open spec fn view(&self) -> TypeRefShape {
        match self {
            MetaTypeName::List(s) => TypeRefShape::List(s@),
            MetaTypeName::NonNull(s) => TypeRefShape::NonNull(s@),
            MetaTypeName::Named(s) => TypeRefShape::Named(s@),
        }
    }
}

impl PartialEq for MetaTypeName {
    fn eq(&self, other: &MetaTypeName) -> (r: bool) {
        match (self, other) {
            (MetaTypeName::List(a), MetaTypeName::List(b)) => *a == *b,
            (MetaTypeName::NonNull(a), MetaTypeName::NonNull(b)) => *a == *b,
            (MetaTypeName::Named(a), MetaTypeName::Named(b)) => *a == *b,
            _ => false,
        }
    }
}

impl vstd::std_specs::cmp::PartialEqSpecImpl for MetaTypeName {
    open spec fn obeys_eq_spec() -> bool {
        true
    }

    open spec fn eq_spec(&self, other: &MetaTypeName) -> bool {
        self@ == other@
    }
}

impl MetaTypeName {
    /// Peels the outermost layer of `text`.
    pub fn create(text: &str) -> (r: MetaTypeName)
        ensures
            r@ == parse_type_ref(text@),
    {
        let n = text.unicode_len();
        if n >= 1 && text.get_char(n - 1) == '!' {
            MetaTypeName::NonNull(text.substring_char(0, n - 1).to_owned())
        } else if n >= 2 && text.get_char(0) == '[' {
            MetaTypeName::List(text.substring_char(1, n - 1).to_owned())
        } else {
            MetaTypeName::Named(text.to_owned())
        }
    }

    /// Renders the peeled layer back to text.
    pub fn render(&self) -> (r: String)
        ensures
            r@ == render_shape(self@),
    {
        match self {
            MetaTypeName::Named(n) => n.clone(),
            MetaTypeName::NonNull(n) => {
                let mut s = n.clone();
                s.append("!");
                proof {
                    reveal_strlit("!");
                    assert(s@ =~= n@.push('!'));
                }
                s
            },
            MetaTypeName::List(n) => {
                let mut s = String::new();
                s.append("[");
                s.append(n.as_str());
                s.append("]");
                proof {
                    reveal_strlit("[");
                    reveal_strlit("]");
                    assert(s@ =~= seq!['['] + n@ + seq![']']);
                }
                s
            },
        }
    }

    /// The concrete (innermost named) type of a type-reference string.
    pub fn concrete_typename<'a>(text: &'a str) -> (r: &'a str)
        ensures
            r@ == concrete_of(text@),
        decreases text@.len(),
    {
        let n = text.unicode_len();
        if n >= 1 && text.get_char(n - 1) == '!' {
            Self::concrete_typename(text.substring_char(0, n - 1))
        } else if n >= 2 && text.get_char(0) == '[' {
            Self::concrete_typename(text.substring_char(1, n - 1))
        } else {
            text
        }
    }

    /// Whether the outermost layer is non-null.
    pub fn is_non_null(&self) -> (r: bool)
        ensures
            r == (self@ is NonNull),
    {
        match self {
            MetaTypeName::NonNull(_) => true,
            _ => false,
        }
    }

    /// Removes one non-null wrapping, peeling the layer underneath;
    /// leaves any other shape as it is.
    pub fn unwrap_non_null(&self) -> (r: Self)
        ensures
            r@ == match self@ {
                TypeRefShape::NonNull(t) => parse_type_ref(t),
                v => v,
            },
    {
        match self {
            MetaTypeName::NonNull(ty) => Self::create(ty.as_str()),
            MetaTypeName::List(t) => MetaTypeName::List(t.clone()),
            MetaTypeName::Named(t) => MetaTypeName::Named(t.clone()),
        }
    }

    /// Whether a value of shape `sub` may stand where `self` is expected.
    pub fn is_subtype(&self, sub: &MetaTypeName) -> (r: bool)
        ensures
            r == spec_subtype(self@, sub@),
        decreases shape_measure(self@) + shape_measure(sub@),
    {
        proof {
            lemma_parse_measure(match self@ {
                TypeRefShape::List(s) => s,
                TypeRefShape::NonNull(s) => s,
                TypeRefShape::Named(s) => s,
            });
            lemma_parse_measure(match sub@ {
                TypeRefShape::List(s) => s,
                TypeRefShape::NonNull(s) => s,
                TypeRefShape::Named(s) => s,
            });
        }
        match (self, sub) {
            (MetaTypeName::NonNull(sa), MetaTypeName::NonNull(sb)) => {
                Self::create(sa.as_str()).is_subtype(&Self::create(sb.as_str()))
            },
            (MetaTypeName::Named(sa), MetaTypeName::NonNull(sb)) => {
                Self::create(sa.as_str()).is_subtype(&Self::create(sb.as_str()))
            },
            (MetaTypeName::Named(sa), MetaTypeName::Named(sb)) => string_eq(sa, sb),
            (MetaTypeName::List(sa), MetaTypeName::List(sb)) => {
                Self::create(sa.as_str()).is_subtype(&Self::create(sb.as_str()))
            },
            _ => false,
        }
    }

    /// Whether the reference is a list once non-null wrappings are removed.
    pub fn is_list(&self) -> (r: bool)
        ensures
            r == spec_is_list(self@),
        decreases shape_measure(self@),
    {
        match self {
            MetaTypeName::List(_) => true,
            MetaTypeName::NonNull(ty) => {
                proof {
                    lemma_parse_measure(ty@);
                }
                Self::create(ty.as_str()).is_list()
            },
            MetaTypeName::Named(name) => {
                let n = name.as_str().unicode_len();
                n >= 1 && name.as_str().get_char(n - 1) == ']'
            },
        }
    }
}

/// Law: re-rendering a peeled type-reference string reproduces it
/// exactly, for every string in the grammar (one whose bracket form, if
/// any, is properly closed).
pub proof fn lemma_render_after_parse(s: Seq<char>)
    requires
        (s.len() >= 2 && s[0] == '[' && s.last() != '!') ==> s.last() == ']',
    ensures
        render_shape(parse_type_ref(s)) == s,
{
    if s.len() >= 1 && s.last() == '!' {
        assert(render_shape(parse_type_ref(s)) =~= s);
    } else if s.len() >= 2 && s[0] == '[' {
        assert(render_shape(parse_type_ref(s)) =~= s);
    } else {
        assert(render_shape(parse_type_ref(s)) =~= s);
    }
}

} // verus!
