//! Field identity and the canonical field order.
//!
//! A field of a variant is identified by a [`FieldKey`]: its declared name,
//! or, for unnamed fields, its positional index treated as a name. Keys are
//! ordered canonically — numerically for positions, lexicographically for
//! names — so that two variants with the same field set always expose their
//! fields in the same order, however they were declared.

use vstd::prelude::*;

verus! {

/// Identity of a field within one variant: a positional index for unnamed
/// fields, or the declared field name.
#[derive(PartialEq, Eq, Debug, Clone)]
pub enum FieldKey {
    Pos(usize),
    Name(Vec<u8>),
}

/// Mathematical model of a [`FieldKey`].
pub enum KeyModel {
    Pos(usize),
    Name(Seq<u8>),
}

impl View for FieldKey {
    type V = KeyModel;

    open spec fn view(&self) -> KeyModel {
        match self {
            FieldKey::Pos(n) => KeyModel::Pos(*n),
            FieldKey::Name(b) => KeyModel::Name(b@),
        }
    }
}

/// One field of a variant's layout: the field's key and its byte offset,
/// measured from the start of the whole value's storage.
#[derive(PartialEq, Eq, Debug, Clone)]
pub struct FieldSlot {
    pub key: FieldKey,
    pub offset: usize,
}

/// Mathematical model of a [`FieldSlot`].
pub struct SlotModel {
    pub key: KeyModel,
    pub offset: usize,
}

impl View for FieldSlot {
    type V = SlotModel;

    open spec fn view(&self) -> SlotModel {
        SlotModel { key: self.key@, offset: self.offset }
    }
}

/// Lexicographic order on byte strings.
pub open spec fn lex_le(a: Seq<u8>, b: Seq<u8>) -> bool
    decreases a.len(),
{
    if a.len() == 0 {
        true
    } else if b.len() == 0 {
        false
    } else if a[0] < b[0] {
        true
    } else if a[0] > b[0] {
        false
    } else {
        lex_le(a.drop_first(), b.drop_first())
    }
}

/// The canonical order on field keys: positions numerically, names
/// lexicographically; every position sorts before every name.
pub open spec fn key_le(a: KeyModel, b: KeyModel) -> bool {
    match (a, b) {
        (KeyModel::Pos(i), KeyModel::Pos(j)) => i <= j,
        (KeyModel::Pos(_), KeyModel::Name(_)) => true,
        (KeyModel::Name(_), KeyModel::Pos(_)) => false,
        (KeyModel::Name(x), KeyModel::Name(y)) => lex_le(x, y),
    }
}

/// Any two byte strings are ordered one way or the other.
pub proof fn lemma_lex_le_total(a: Seq<u8>, b: Seq<u8>)
    ensures
        lex_le(a, b) || lex_le(b, a),
    decreases a.len(),
{
    if a.len() == 0 || b.len() == 0 {
    } else if a[0] == b[0] {
        lemma_lex_le_total(a.drop_first(), b.drop_first());
    }
}

/// Byte strings ordered both ways are equal.
pub proof fn lemma_lex_le_antisymmetric(a: Seq<u8>, b: Seq<u8>)
    requires
        lex_le(a, b),
        lex_le(b, a),
    ensures
        a == b,
    decreases a.len(),
{
    if a.len() == 0 {
        assert(b.len() == 0);
        assert(a =~= b);
    } else {
        assert(b.len() > 0);
        assert(a[0] == b[0]);
        lemma_lex_le_antisymmetric(a.drop_first(), b.drop_first());
        assert(a.len() == b.len());
        assert forall|i: int| 0 <= i < a.len() implies a[i] == b[i] by {
            if i > 0 {
                assert(a[i] == a.drop_first()[i - 1]);
                assert(b[i] == b.drop_first()[i - 1]);
            }
        }
        assert(a =~= b);
    }
}

/// Keys ordered both ways are equal.
pub proof fn lemma_key_le_antisymmetric(a: KeyModel, b: KeyModel)
    requires
        key_le(a, b),
        key_le(b, a),
    ensures
        a == b,
{
    match (a, b) {
        (KeyModel::Name(x), KeyModel::Name(y)) => lemma_lex_le_antisymmetric(x, y),
        _ => (),
    }
}

/// The lexicographic order is transitive.
pub proof fn lemma_lex_le_transitive(a: Seq<u8>, b: Seq<u8>, c: Seq<u8>)
    requires
        lex_le(a, b),
        lex_le(b, c),
    ensures
        lex_le(a, c),
    decreases a.len(),
{
    if a.len() == 0 || b.len() == 0 || c.len() == 0 {
    } else if a[0] == b[0] && b[0] == c[0] {
        lemma_lex_le_transitive(a.drop_first(), b.drop_first(), c.drop_first());
    }
}

/// Any two keys are ordered one way or the other.
pub proof fn lemma_key_le_total(a: KeyModel, b: KeyModel)
    ensures
        key_le(a, b) || key_le(b, a),
{
    match (a, b) {
        (KeyModel::Name(x), KeyModel::Name(y)) => lemma_lex_le_total(x, y),
        _ => (),
    }
}

/// The key order is transitive.
pub proof fn lemma_key_le_transitive(a: KeyModel, b: KeyModel, c: KeyModel)
    requires
        key_le(a, b),
        key_le(b, c),
    ensures
        key_le(a, c),
{
    match (a, b) {
        (KeyModel::Name(x), KeyModel::Name(y)) => {
            match c {
                KeyModel::Name(z) => lemma_lex_le_transitive(x, y, z),
                KeyModel::Pos(_) => (),
            }
        },
        _ => (),
    }
}

/// Whether two byte strings are equal.
pub fn bytes_eq(a: &Vec<u8>, b: &Vec<u8>) -> (r: bool)
    ensures
        r == (a@ == b@),
{
    if a.len() != b.len() {
        return false;
    }
    let mut i: usize = 0;
    while i < a.len()
        invariant
            i <= a.len(),
            a@.len() == b@.len(),
            forall|j: int| 0 <= j < i ==> a@[j] == b@[j],
        decreases a.len() - i,
    {
        if a[i] != b[i] {
            return false;
        }
        i += 1;
    }
    proof {
        assert(a@ =~= b@);
    }
    true
}

/// Whether `a` sorts at or before `b` in the lexicographic order.
pub fn bytes_le(a: &Vec<u8>, b: &Vec<u8>) -> (r: bool)
    ensures
        r == lex_le(a@, b@),
{
    let mut i: usize = 0;
    proof {
        assert(a@.skip(0) =~= a@);
        assert(b@.skip(0) =~= b@);
    }
    loop
        invariant
            i <= a.len(),
            i <= b.len(),
            lex_le(a@, b@) == lex_le(a@.skip(i as int), b@.skip(i as int)),
        decreases a.len() - i,
    {
        if i == a.len() {
            return true;
        }
        if i == b.len() {
            return false;
        }
        if a[i] < b[i] {
            return true;
        }
        if a[i] > b[i] {
            return false;
        }
        proof {
            assert(a@.skip(i as int).drop_first() =~= a@.skip(i as int + 1));
            assert(b@.skip(i as int).drop_first() =~= b@.skip(i as int + 1));
        }
        i += 1;
    }
}

/// Whether two keys are equal.
pub fn key_eq(a: &FieldKey, b: &FieldKey) -> (r: bool)
    ensures
        r == (a@ == b@),
{
    match (a, b) {
        (FieldKey::Pos(i), FieldKey::Pos(j)) => i == j,
        (FieldKey::Name(x), FieldKey::Name(y)) => bytes_eq(x, y),
        _ => false,
    }
}

/// Whether `a` sorts at or before `b` in the canonical key order.
pub fn key_le_exec(a: &FieldKey, b: &FieldKey) -> (r: bool)
    ensures
        r == key_le(a@, b@),
{
    match (a, b) {
        (FieldKey::Pos(i), FieldKey::Pos(j)) => i <= j,
        (FieldKey::Pos(_), FieldKey::Name(_)) => true,
        (FieldKey::Name(_), FieldKey::Pos(_)) => false,
        (FieldKey::Name(x), FieldKey::Name(y)) => bytes_le(x, y),
    }
}

} // verus!
