//! The identity of a logged column and the override/fallback algebra that
//! computes it at log time.

use vstd::prelude::*;

verus! {

/// The mathematical value of an [`Identity`]: its three parts, with strings
/// abstracted to their character sequences.
#[verifier::ext_equal]
pub struct IdentityView {
    pub archetype_name: Option<Seq<char>>,
    pub archetype_field_name: Option<Seq<char>>,
    pub component_name: Seq<char>,
}

/// A three-part key identifying a logged column.
///
/// Two identities are equal exactly when all three parts are equal; an absent
/// part is distinct from any string.
#[derive(Debug)]
pub struct Identity {
    /// The logical group this field belongs to, if any.
    pub archetype_name: Option<String>,
    /// The logical field name within that group, if any.
    pub archetype_field_name: Option<String>,
    /// The concrete data-kind identity (a type tag).  Always present.
    pub component_name: String,
}

/// The view of an optional string: its characters, when present.
pub open spec fn opt_view(s: Option<String>) -> Option<Seq<char>> {
    match s {
        Some(s) => Some(s@),
        None => None,
    }
}

impl View for Identity {
    type V = IdentityView;

    open spec fn view(&self) -> IdentityView {
        IdentityView {
            archetype_name: opt_view(self.archetype_name),
            archetype_field_name: opt_view(self.archetype_field_name),
            component_name: self.component_name@,
        }
    }
}

/// The data-kinds with built-in column support in this engine.
///
/// An identity's `component_name` is not restricted to these: any opaque
/// string is accepted through [`Identity::construct`], so a producer-defined
/// kind can extend (or impersonate) the built-in namespace.
#[derive(Clone, Copy, PartialEq, Eq, Structural, Debug)]
pub enum DataKind {
    Position3D,
    Color,
}

/// The canonical component name of a data-kind.
pub open spec fn spec_canonical_name(kind: DataKind) -> Seq<char> {
    match kind {
        DataKind::Position3D => "rerun.components.Position3D"@,
        DataKind::Color => "rerun.components.Color"@,
    }
}

impl DataKind {
    /// The canonical component name of this data-kind.
    pub fn canonical_name(&self) -> (r: String)
        ensures
            r@ == spec_canonical_name(*self),
    {
        match self {
            DataKind::Position3D => String::from_str("rerun.components.Position3D"),
            DataKind::Color => String::from_str("rerun.components.Color"),
        }
    }
}

/// The natural identity of a data-kind: only the component name is set, to
/// the kind's canonical name; the archetype name and field name are absent.
pub fn default_identity(kind: DataKind) -> (r: Identity)
    ensures
        r@.component_name == spec_canonical_name(kind),
        r@.archetype_name is None,
        r@.archetype_field_name is None,
{
    Identity::construct(kind.canonical_name())
}

/// What [`Identity::with_archetype_name_if_absent`] computes: the archetype
/// name is filled in with `name` only when it is absent.
pub open spec fn spec_with_archetype_name_if_absent(id: IdentityView, name: Seq<char>) -> IdentityView {
    if id.archetype_name is Some {
        id
    } else {
        IdentityView { archetype_name: Some(name), ..id }
    }
}

/// What [`Identity::with_archetype_field_name_if_absent`] computes.
pub open spec fn spec_with_archetype_field_name_if_absent(
    id: IdentityView,
    name: Seq<char>,
) -> IdentityView {
    if id.archetype_field_name is Some {
        id
    } else {
        IdentityView { archetype_field_name: Some(name), ..id }
    }
}

impl Identity {
    /// Builds an identity with only the component name set; the archetype
    /// name and field name start absent.
    pub fn construct(component_name: String) -> (r: Identity)
        ensures
            r@ == (IdentityView {
                archetype_name: None,
                archetype_field_name: None,
                component_name: component_name@,
            }),
    {
        Identity { archetype_name: None, archetype_field_name: None, component_name }
    }

    /// Builds an identity with all three parts supplied explicitly, replacing
    /// any default entirely.
    pub fn full_override(
        archetype_name: String,
        archetype_field_name: String,
        component_name: String,
    ) -> (r: Identity)
        ensures
            r@ == (IdentityView {
                archetype_name: Some(archetype_name@),
                archetype_field_name: Some(archetype_field_name@),
                component_name: component_name@,
            }),
    {
        Identity {
            archetype_name: Some(archetype_name),
            archetype_field_name: Some(archetype_field_name),
            component_name,
        }
    }

    /// Sets the archetype name to `name` if it is absent; an identity whose
    /// archetype name is already set is returned unchanged, and nothing is
    /// allocated on that path.
    pub fn with_archetype_name_if_absent(self, name: &str) -> (r: Identity)
        ensures
            r@ == spec_with_archetype_name_if_absent(self@, name@),
            r@.archetype_name is Some,
    {
        if self.archetype_name.is_some() {
            self
        } else {
            Identity { archetype_name: Some(String::from_str(name)), ..self }
        }
    }

    /// Sets the archetype field name to `name` if it is absent; an identity
    /// whose archetype field name is already set is returned unchanged, and
    /// nothing is allocated on that path.
    pub fn with_archetype_field_name_if_absent(self, name: &str) -> (r: Identity)
        ensures
            r@ == spec_with_archetype_field_name_if_absent(self@, name@),
            r@.archetype_field_name is Some,
    {
        if self.archetype_field_name.is_some() {
            self
        } else {
            Identity { archetype_field_name: Some(String::from_str(name)), ..self }
        }
    }
}

/// Equality of two optional strings, part by part: an absent part is distinct
/// from any string.
fn opt_string_eq(a: &Option<String>, b: &Option<String>) -> (r: bool)
    ensures
        r == (opt_view(*a) == opt_view(*b)),
{
    match (a, b) {
        (Some(a), Some(b)) => *a == *b,
        (None, None) => true,
        _ => false,
    }
}

impl PartialEq for Identity {
    fn eq(&self, other: &Identity) -> (r: bool) {
        opt_string_eq(&self.archetype_name, &other.archetype_name)
            && opt_string_eq(&self.archetype_field_name, &other.archetype_field_name)
            && self.component_name == other.component_name
    }
}

impl vstd::std_specs::cmp::PartialEqSpecImpl for Identity {
    open spec fn obeys_eq_spec() -> bool {
        true
    }

    open spec fn eq_spec(&self, other: &Identity) -> bool {
        self@ == other@
    }
}

impl Clone for Identity {
    fn clone(&self) -> (r: Identity)
        ensures
            r@ == self@,
    {
        Identity {
            archetype_name: match &self.archetype_name {
                Some(s) => Some(s.clone()),
                None => None,
            },
            archetype_field_name: match &self.archetype_field_name {
                Some(s) => Some(s.clone()),
                None => None,
            },
            component_name: self.component_name.clone(),
        }
    }
}

/// Strict lexicographic order on character sequences, by code point; a proper
/// prefix precedes its extensions.
pub open spec fn chars_lt(a: Seq<char>, b: Seq<char>) -> bool
    decreases a.len(),
{
    if b.len() == 0 {
        false
    } else if a.len() == 0 {
        true
    } else if a[0] == b[0] {
        chars_lt(a.skip(1), b.skip(1))
    } else {
        (a[0] as u32) < (b[0] as u32)
    }
}

/// Strict order on optional strings: an absent part precedes every string.
pub open spec fn opt_lt(a: Option<Seq<char>>, b: Option<Seq<char>>) -> bool {
    match (a, b) {
        (None, None) => false,
        (None, Some(_)) => true,
        (Some(_), None) => false,
        (Some(x), Some(y)) => chars_lt(x, y),
    }
}

/// The total order on identities: lexicographic over the triple (archetype
/// name, archetype field name, component name), with absent parts first.
pub open spec fn identity_lt(a: IdentityView, b: IdentityView) -> bool {
    opt_lt(a.archetype_name, b.archetype_name) || (a.archetype_name == b.archetype_name && (
    opt_lt(a.archetype_field_name, b.archetype_field_name) || (a.archetype_field_name
        == b.archetype_field_name && chars_lt(a.component_name, b.component_name))))
}

pub proof fn lemma_chars_lt_asymmetric(a: Seq<char>, b: Seq<char>)
    ensures
        !(chars_lt(a, b) && chars_lt(b, a)),
    decreases a.len(),
{
    if a.len() > 0 && b.len() > 0 && a[0] == b[0] {
        lemma_chars_lt_asymmetric(a.skip(1), b.skip(1));
    }
}

pub proof fn lemma_chars_lt_connected(a: Seq<char>, b: Seq<char>)
    ensures
        chars_lt(a, b) || chars_lt(b, a) || a == b,
    decreases a.len(),
{
    if a.len() == 0 && b.len() == 0 {
        assert(a =~= b);
    } else if a.len() > 0 && b.len() > 0 {
        if a[0] != b[0] {
            vstd::utf8::char_u32_cast(a[0], a[0] as u32);
            vstd::utf8::char_u32_cast(b[0], b[0] as u32);
            assert((a[0] as u32) != (b[0] as u32));
        } else {
            lemma_chars_lt_connected(a.skip(1), b.skip(1));
            if !chars_lt(a, b) && !chars_lt(b, a) {
                assert(a.skip(1) == b.skip(1));
                assert forall|i: int| 0 <= i < a.len() implies a[i] == b[i] by {
                    if i > 0 {
                        assert(a[i] == a.skip(1)[i - 1]);
                        assert(b[i] == b.skip(1)[i - 1]);
                    }
                }
                assert(a =~= b);
            }
        }
    }
}

/// Two characters with the same code point are the same character.
proof fn lemma_char_code_injective(a: char, b: char)
    requires
        a as u32 == b as u32,
    ensures
        a == b,
{
    vstd::utf8::char_u32_cast(a, a as u32);
    vstd::utf8::char_u32_cast(b, b as u32);
}

pub proof fn lemma_chars_lt_transitive(a: Seq<char>, b: Seq<char>, c: Seq<char>)
    requires
        chars_lt(a, b),
        chars_lt(b, c),
    ensures
        chars_lt(a, c),
    decreases a.len(),
{
    if a.len() > 0 && b.len() > 0 && c.len() > 0 && a[0] == b[0] && b[0] == c[0] {
        lemma_chars_lt_transitive(a.skip(1), b.skip(1), c.skip(1));
    }
}

pub proof fn lemma_identity_lt_asymmetric(a: IdentityView, b: IdentityView)
    ensures
        !(identity_lt(a, b) && identity_lt(b, a)),
{
    if let (Some(x), Some(y)) = (a.archetype_name, b.archetype_name) {
        lemma_chars_lt_asymmetric(x, y);
    }
    if let (Some(x), Some(y)) = (a.archetype_field_name, b.archetype_field_name) {
        lemma_chars_lt_asymmetric(x, y);
    }
    lemma_chars_lt_asymmetric(a.component_name, b.component_name);
}

pub proof fn lemma_identity_lt_connected(a: IdentityView, b: IdentityView)
    ensures
        identity_lt(a, b) || identity_lt(b, a) || a == b,
{
    if let (Some(x), Some(y)) = (a.archetype_name, b.archetype_name) {
        lemma_chars_lt_connected(x, y);
    }
    if let (Some(x), Some(y)) = (a.archetype_field_name, b.archetype_field_name) {
        lemma_chars_lt_connected(x, y);
    }
    lemma_chars_lt_connected(a.component_name, b.component_name);
}

pub proof fn lemma_identity_lt_transitive(a: IdentityView, b: IdentityView, c: IdentityView)
    ensures
        identity_lt(a, b) && identity_lt(b, c) ==> identity_lt(a, c),
{
    if identity_lt(a, b) && identity_lt(b, c) {
        if let (Some(x), Some(y)) = (a.archetype_name, b.archetype_name) {
            if let Some(z) = c.archetype_name {
                if chars_lt(x, y) && chars_lt(y, z) {
                    lemma_chars_lt_transitive(x, y, z);
                }
            }
        }
        if let (Some(x), Some(y)) = (a.archetype_field_name, b.archetype_field_name) {
            if let Some(z) = c.archetype_field_name {
                if chars_lt(x, y) && chars_lt(y, z) {
                    lemma_chars_lt_transitive(x, y, z);
                }
            }
        }
        if chars_lt(a.component_name, b.component_name) && chars_lt(
            b.component_name,
            c.component_name,
        ) {
            lemma_chars_lt_transitive(a.component_name, b.component_name, c.component_name);
        }
    }
}

/// Dropping an equal prefix of both sequences does not change how they
/// compare.
proof fn lemma_chars_lt_common_prefix(a: Seq<char>, b: Seq<char>, i: int)
    requires
        0 <= i <= a.len(),
        i <= b.len(),
        forall|j: int| 0 <= j < i ==> a[j] == b[j],
    ensures
        chars_lt(a, b) == chars_lt(a.skip(i), b.skip(i)),
    decreases i,
{
    if i == 0 {
        assert(a.skip(0) =~= a);
        assert(b.skip(0) =~= b);
    } else {
        assert(a[0] == b[0]);
        lemma_chars_lt_common_prefix(a.skip(1), b.skip(1), i - 1);
        assert(a.skip(1).skip(i - 1) =~= a.skip(i));
        assert(b.skip(1).skip(i - 1) =~= b.skip(i));
    }
}

/// Strict lexicographic comparison of two strings, by code point.
pub fn str_lt(a: &str, b: &str) -> (r: bool)
    ensures
        r == chars_lt(a@, b@),
{
    let alen = a.unicode_len();
    let blen = b.unicode_len();
    let mut i: usize = 0;
    while i < alen && i < blen
        invariant
            i <= alen,
            i <= blen,
            alen == a@.len(),
            blen == b@.len(),
            forall|j: int| 0 <= j < i ==> a@[j] == b@[j],
        decreases alen - i,
    {
        let ca = a.get_char(i);
        let cb = b.get_char(i);
        if ca as u32 != cb as u32 {
            proof {
                lemma_chars_lt_common_prefix(a@, b@, i as int);
            }
            return (ca as u32) < (cb as u32);
        }
        proof {
            lemma_char_code_injective(ca, cb);
        }
        i += 1;
    }
    proof {
        lemma_chars_lt_common_prefix(a@, b@, i as int);
    }
    alen < blen
}

/// Strict comparison of two optional strings, absent parts first.
fn opt_string_lt(a: &Option<String>, b: &Option<String>) -> (r: bool)
    ensures
        r == opt_lt(opt_view(*a), opt_view(*b)),
{
    match (a, b) {
        (None, None) => false,
        (None, Some(_)) => true,
        (Some(_), None) => false,
        (Some(x), Some(y)) => str_lt(x.as_str(), y.as_str()),
    }
}

impl Identity {
    /// Strict comparison in the canonical identity order.
    pub fn lt(&self, other: &Identity) -> (r: bool)
        ensures
            r == identity_lt(self@, other@),
    {
        if opt_string_lt(&self.archetype_name, &other.archetype_name) {
            true
        } else if !opt_string_eq(&self.archetype_name, &other.archetype_name) {
            false
        } else if opt_string_lt(&self.archetype_field_name, &other.archetype_field_name) {
            true
        } else if !opt_string_eq(&self.archetype_field_name, &other.archetype_field_name) {
            false
        } else {
            str_lt(self.component_name.as_str(), other.component_name.as_str())
        }
    }
}

/// Filling in an absent archetype name is idempotent: once the first
/// application has made the field present, a second application (with any
/// other name) changes nothing.
pub proof fn lemma_with_archetype_name_idempotent(id: IdentityView, n1: Seq<char>, n2: Seq<char>)
    ensures
        spec_with_archetype_name_if_absent(spec_with_archetype_name_if_absent(id, n1), n2)
            == spec_with_archetype_name_if_absent(id, n1),
{
}

/// Filling in an absent archetype field name is idempotent in the same way.
pub proof fn lemma_with_archetype_field_name_idempotent(
    id: IdentityView,
    n1: Seq<char>,
    n2: Seq<char>,
)
    ensures
        spec_with_archetype_field_name_if_absent(
            spec_with_archetype_field_name_if_absent(id, n1),
            n2,
        ) == spec_with_archetype_field_name_if_absent(id, n1),
{
}

} // verus!
