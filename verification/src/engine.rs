//! The conversion engine: total forward conversion and partial backward
//! conversion over one (source, target) pair.
//!
//! A [`Conversion`] is built once per pair from the two canonical layouts;
//! building it resolves the name correspondence (and fails exactly when a
//! source variant has no target match) and caches the zero-copy verdict.
//! [`Conversion::convert`] reads that decision to choose how to work:
//! either the whole value moves at once, modelling bit reinterpretation
//! with no field read or copied, or each field is looked up by key and
//! moved into the target's canonical field order. The backward direction is always
//! structural and returns the untouched input when the target value's
//! variant is target-only.

use vstd::prelude::*;

verus! {

use crate::compat;
use crate::compat::zero_copy;
use crate::correspond::CorrespondenceTable;
use crate::correspond::correspond;
use crate::correspond::corresponds;
use crate::correspond::fields_match;
use crate::correspond::variant_matched;
use crate::correspond::table_ok;
use crate::keys::FieldKey;
use crate::keys::FieldSlot;
use crate::layout::TypeLayout;
use crate::layout::TypeModel;
use crate::layout::distinct_names;
use crate::layout::find_variant;
use crate::layout::has_variant;
use crate::layout::lemma_slot_keys_index;
use crate::layout::lemma_view_slots_index;
use crate::layout::lemma_view_variants_index;
use crate::layout::slot_keys;
use crate::layout::view_slots;
use crate::layout::wf_type;
use crate::layout::wf_variant;
use crate::layout::distinct_keys;

/// One field's payload, moved as an owned whole on the structural path.
#[derive(PartialEq, Eq, Debug, Clone)]
pub enum FieldVal {
    Uint(u64),
    Bool(bool),
    Str(Vec<u8>),
}

/// Mathematical model of a [`FieldVal`].
pub enum ValModel {
    Uint(u64),
    Bool(bool),
    Str(Seq<u8>),
}

impl View for FieldVal {
    type V = ValModel;

    open spec fn view(&self) -> ValModel {
        match self {
            FieldVal::Uint(n) => ValModel::Uint(*n),
            FieldVal::Bool(b) => ValModel::Bool(*b),
            FieldVal::Str(s) => ValModel::Str(s@),
        }
    }
}

/// The payload sequence a vector of field values stands for.
pub open spec fn view_vals(s: Seq<FieldVal>) -> Seq<ValModel> {
    s.map_values(|x: FieldVal| x@)
}

/// An owned value of some tagged-union type: the active variant's name and
/// its field payloads, one per slot of that variant, in the variant's
/// canonical field order.
#[derive(PartialEq, Eq, Debug, Clone)]
pub struct Value {
    pub variant: Vec<u8>,
    pub fields: Vec<FieldVal>,
}

/// Mathematical model of a [`Value`].
pub struct ValueModel {
    pub variant: Seq<u8>,
    pub fields: Seq<ValModel>,
}

impl View for Value {
    type V = ValueModel;

    open spec fn view(&self) -> ValueModel {
        ValueModel { variant: self.variant@, fields: view_vals(self.fields@) }
    }
}

/// The value inhabits the type: its variant is one of the type's variants
/// and it carries one payload per field slot of that variant.
pub open spec fn wf_value(t: TypeModel, v: ValueModel) -> bool {
    exists|i: int|
        0 <= i < t.variants.len() && (#[trigger] t.variants[i]).name == v.variant
            && t.variants[i].slots.len() == v.fields.len()
}

/// Two variants of distinctly named variants with the same name are the
/// same variant.
proof fn lemma_name_unique(t: TypeModel, i: int, j: int)
    requires
        distinct_names(t.variants),
        0 <= i < t.variants.len(),
        0 <= j < t.variants.len(),
        t.variants[i].name == t.variants[j].name,
    ensures
        i == j,
{
    if i < j {
        assert(t.variants[i].name != t.variants[j].name);
    } else if j < i {
        assert(t.variants[j].name != t.variants[i].name);
    }
}

/// A value that inhabits the source type also inhabits the target type once
/// the name correspondence holds: the matched variant has the same name and
/// equally many fields.
pub proof fn lemma_wf_value_carries(s: TypeModel, t: TypeModel, v: ValueModel)
    requires
        corresponds(s, t),
        wf_value(s, v),
    ensures
        wf_value(t, v),
        has_variant(t, v.variant),
{
    let i = choose|i: int|
        0 <= i < s.variants.len() && (#[trigger] s.variants[i]).name == v.variant
            && s.variants[i].slots.len() == v.fields.len();
    assert(variant_matched(s.variants[i], t));
    let j = choose|j: int|
        0 <= j < t.variants.len() && (#[trigger] t.variants[j]).name == s.variants[i].name
            && fields_match(s.variants[i], t.variants[j]);
    lemma_slot_keys_index(s.variants[i].slots);
    lemma_slot_keys_index(t.variants[j].slots);
    assert(t.variants[j].slots.len() == s.variants[i].slots.len());
}

/// The first slot carrying this key, if any.
fn find_key(slots: &Vec<FieldSlot>, key: &FieldKey) -> (r: Option<usize>)
    ensures
        match r {
            Some(i) => i < slots.len() && view_slots(slots@)[i as int].key == key@
                && forall|k: int| 0 <= k < i ==> view_slots(slots@)[k].key != key@,
            None => forall|k: int| 0 <= k < slots.len() ==> view_slots(slots@)[k].key != key@,
        },
{
    let mut i: usize = 0;
    while i < slots.len()
        invariant
            i <= slots.len(),
            forall|k: int| 0 <= k < i ==> view_slots(slots@)[k].key != key@,
        decreases slots.len() - i,
    {
        proof {
            lemma_view_slots_index(slots@);
            assert(view_slots(slots@)[i as int] == slots@[i as int]@);
        }
        if crate::keys::key_eq(&slots[i].key, key) {
            return Some(i);
        }
        i += 1;
    }
    None
}

/// Move the payloads of a value across matched variants: for each target
/// slot, in canonical order, the source slot of the same key is looked up
/// and its payload moved over. Because matched variants expose the same
/// canonical key sequence, the payload for target slot `j` is found at
/// source position `j`, and the moved sequence is the input unchanged.
fn move_fields(
    from_slots: &Vec<FieldSlot>,
    to_slots: &Vec<FieldSlot>,
    fields: Vec<FieldVal>,
) -> (r: Vec<FieldVal>)
    requires
        slot_keys(view_slots(from_slots@)) == slot_keys(view_slots(to_slots@)),
        distinct_keys(view_slots(from_slots@)),
        fields@.len() == from_slots@.len(),
    ensures
        r@ == fields@,
{
    let ghost orig = fields@;
    let mut fields = fields;
    let mut out: Vec<FieldVal> = Vec::new();
    proof {
        lemma_view_slots_index(from_slots@);
        lemma_view_slots_index(to_slots@);
        lemma_slot_keys_index(view_slots(from_slots@));
        lemma_slot_keys_index(view_slots(to_slots@));
        assert(to_slots@.len() == from_slots@.len());
        assert(out@ =~= orig.take(0));
        assert(fields@ =~= orig.skip(0));
    }
    let n = to_slots.len();
    let mut j: usize = 0;
    while j < n
        invariant
            j <= n,
            n == to_slots@.len(),
            n == from_slots@.len(),
            n == orig.len(),
            slot_keys(view_slots(from_slots@)) == slot_keys(view_slots(to_slots@)),
            distinct_keys(view_slots(from_slots@)),
            out@ == orig.take(j as int),
            fields@ == orig.skip(j as int),
        decreases n - j,
    {
        proof {
            lemma_view_slots_index(from_slots@);
            lemma_view_slots_index(to_slots@);
            lemma_slot_keys_index(view_slots(from_slots@));
            lemma_slot_keys_index(view_slots(to_slots@));
            assert(view_slots(to_slots@)[j as int].key
                == slot_keys(view_slots(to_slots@))[j as int]);
            assert(view_slots(from_slots@)[j as int].key
                == slot_keys(view_slots(from_slots@))[j as int]);
            assert(view_slots(to_slots@)[j as int] == to_slots@[j as int]@);
        }
        let found = find_key(from_slots, &to_slots[j].key);
        proof {
            if found is None {
                assert(view_slots(from_slots@)[j as int].key
                    == view_slots(to_slots@)[j as int].key);
                assert(false);
            }
        }
        let idx = found.unwrap();
        proof {
            assert(view_slots(from_slots@)[idx as int].key
                == view_slots(from_slots@)[j as int].key);
            if idx < j {
                assert(view_slots(from_slots@)[idx as int].key
                    != view_slots(from_slots@)[j as int].key);
            }
            if j < idx {
                assert(view_slots(from_slots@)[j as int].key
                    != view_slots(to_slots@)[j as int].key);
            }
            assert(idx == j);
        }
        // slots before `j` have already been moved out of `fields`
        let ghost prev = fields@;
        let val = fields.remove(idx - j);
        out.push(val);
        proof {
            assert(val == orig[j as int]);
            assert(out@ =~= orig.take(j as int + 1));
            assert(fields@ =~= orig.skip(j as int + 1)) by {
                assert(forall|k: int|
                    0 <= k < fields@.len() ==> fields@[k] == #[trigger] prev[k + 1]);
            }
        }
        j += 1;
    }
    proof {
        assert(orig.take(n as int) =~= orig);
    }
    out
}

/// The conversion capability for one (source, target) pair: the two
/// immutable layouts, the resolved name correspondence, and the zero-copy
/// verdict, computed once and cached.
pub struct Conversion {
    pub source: TypeLayout,
    pub target: TypeLayout,
    pub table: CorrespondenceTable,
    pub zero_copy: bool,
}

impl Conversion {
    /// Validity of the pair: both layouts well-formed, every source variant
    /// matched in the target, the table and cached verdict faithful.
    pub open spec fn wf(&self) -> bool {
        &&& wf_type(self.source@)
        &&& wf_type(self.target@)
        &&& corresponds(self.source@, self.target@)
        &&& table_ok(self.table.matched@, self.source@, self.target@)
        &&& self.zero_copy == zero_copy(self.source@, self.target@)
    }

    /// Offer the conversion capability for a pair of layouts.
    ///
    /// Fails exactly when some source variant has no same-named target
    /// variant with the same field key set; such a pair must not convert at
    /// all. On success the zero-copy verdict is computed once and cached.
    pub fn new(source: TypeLayout, target: TypeLayout) -> (r: Option<Conversion>)
        requires
            wf_type(source@),
            wf_type(target@),
        ensures
            (r is Some) == corresponds(source@, target@),
            r matches Some(c) ==> c.wf() && c.source@ == source@ && c.target@ == target@,
    {
        match correspond(&source, &target) {
            None => None,
            Some(table) => {
                let verdict = compat::is_zero_copy(&source, &target);
                Some(Conversion { source, target, table, zero_copy: verdict })
            },
        }
    }

    /// Read the stored zero-copy decision for this pair.
    pub fn is_zero_copy(&self) -> (r: bool)
        requires
            self.wf(),
        ensures
            r == zero_copy(self.source@, self.target@),
    {
        self.zero_copy
    }

    /// Recompute the verdict from the layouts. Recomputation is idempotent
    /// and side-effect-free: it always agrees with the cached verdict.
    pub fn recompute_zero_copy(&self) -> (r: bool)
        requires
            self.wf(),
        ensures
            r == zero_copy(self.source@, self.target@),
            r == self.zero_copy,
    {
        compat::is_zero_copy(&self.source, &self.target)
    }

    /// Convert a source value into the target type. Total: never fails.
    ///
    /// When the cached verdict allows it, the value's storage is taken
    /// whole — the model of bit reinterpretation, no field read or moved —
    /// and otherwise each field is moved structurally. Either way the
    /// result carries the same variant name and the same payloads.
    pub fn convert(&self, v: Value) -> (r: Value)
        requires
            self.wf(),
            wf_value(self.source@, v@),
        ensures
            r@ == v@,
            wf_value(self.target@, r@),
    {
        proof {
            lemma_wf_value_carries(self.source@, self.target@, v@);
        }
        if self.zero_copy {
            v
        } else {
            self.convert_structural(v)
        }
    }

    /// The structural path: move every field of the active variant, by
    /// field key, into the matched target variant.
    pub fn convert_structural(&self, v: Value) -> (r: Value)
        requires
            self.wf(),
            wf_value(self.source@, v@),
        ensures
            r@ == v@,
            wf_value(self.target@, r@),
    {
        proof {
            lemma_wf_value_carries(self.source@, self.target@, v@);
            lemma_view_variants_index(self.source.variants@);
            lemma_view_variants_index(self.target.variants@);
        }
        let found_src = find_variant(&self.source.variants, &v.variant);
        proof {
            if found_src is None {
                let i = choose|i: int|
                    0 <= i < self.source@.variants.len() && (
                    #[trigger] self.source@.variants[i]).name == v@.variant
                        && self.source@.variants[i].slots.len() == v@.fields.len();
                assert(false);
            }
        }
        let si = found_src.unwrap();
        let found_tgt = find_variant(&self.target.variants, &v.variant);
        proof {
            if found_tgt is None {
                let i = choose|i: int|
                    0 <= i < self.target@.variants.len() && (
                    #[trigger] self.target@.variants[i]).name == v@.variant
                        && self.target@.variants[i].slots.len() == v@.fields.len();
                assert(false);
            }
        }
        let tj = found_tgt.unwrap();
        proof {
            self.lemma_matched_slots(si as int, tj as int, v@);
        }
        let Value { variant, fields } = v;
        let out = move_fields(
            &self.source.variants[si].slots,
            &self.target.variants[tj].slots,
            fields,
        );
        Value { variant, fields: out }
    }

    /// The matched source and target variants of a source value expose the
    /// same canonical key sequence; the source variant's keys are distinct;
    /// and the value has one payload per slot.
    proof fn lemma_matched_slots(&self, si: int, tj: int, v: ValueModel)
        requires
            self.wf(),
            wf_value(self.source@, v),
            0 <= si < self.source@.variants.len(),
            0 <= tj < self.target@.variants.len(),
            self.source@.variants[si].name == v.variant,
            self.target@.variants[tj].name == v.variant,
        ensures
            slot_keys(self.source@.variants[si].slots) == slot_keys(
                self.target@.variants[tj].slots,
            ),
            distinct_keys(self.source@.variants[si].slots),
            v.fields.len() == self.source@.variants[si].slots.len(),
    {
        let s = self.source@;
        let t = self.target@;
        assert(wf_variant(s.variants[si]));
        assert(variant_matched(s.variants[si], t));
        let j2 = choose|j2: int|
            0 <= j2 < t.variants.len() && (#[trigger] t.variants[j2]).name
                == s.variants[si].name && fields_match(s.variants[si], t.variants[j2]);
        lemma_name_unique(t, j2, tj);
        let i2 = choose|i2: int|
            0 <= i2 < s.variants.len() && (#[trigger] s.variants[i2]).name == v.variant
                && s.variants[i2].slots.len() == v.fields.len();
        lemma_name_unique(s, i2, si);
    }

    /// Try to convert a target value back into the source type. Succeeds,
    /// structurally, exactly when the value's active variant has a source
    /// counterpart; a target-only variant fails, handing the original value
    /// back untouched.
    pub fn try_convert_back(&self, t: Value) -> (r: Result<Value, Value>)
        requires
            self.wf(),
            wf_value(self.target@, t@),
        ensures
            (r is Ok) == has_variant(self.source@, t@.variant),
            r matches Ok(s) ==> s@ == t@ && wf_value(self.source@, s@),
            r matches Err(e) ==> e == t,
    {
        proof {
            lemma_view_variants_index(self.source.variants@);
            lemma_view_variants_index(self.target.variants@);
        }
        let found_src = find_variant(&self.source.variants, &t.variant);
        match found_src {
            None => {
                proof {
                    if has_variant(self.source@, t@.variant) {
                        let w = choose|w: int|
                            0 <= w < self.source@.variants.len()
                                && self.source@.variants[w].name == t@.variant;
                        assert(false);
                    }
                }
                Err(t)
            },
            Some(si) => {
                let found_tgt = find_variant(&self.target.variants, &t.variant);
                proof {
                    if found_tgt is None {
                        let i = choose|i: int|
                            0 <= i < self.target@.variants.len() && (
                            #[trigger] self.target@.variants[i]).name == t@.variant
                                && self.target@.variants[i].slots.len() == t@.fields.len();
                        assert(false);
                    }
                }
                let tj = found_tgt.unwrap();
                proof {
                    self.lemma_back_slots(si as int, tj as int, t@);
                }
                let Value { variant, fields } = t;
                let out = move_fields(
                    &self.target.variants[tj].slots,
                    &self.source.variants[si].slots,
                    fields,
                );
                Ok(Value { variant, fields: out })
            },
        }
    }

    /// The backward counterpart of [`Conversion::lemma_matched_slots`]: for
    /// a target value whose variant the source also has, the two matched
    /// variants expose the same keys, the target variant's keys are
    /// distinct, and the value has one payload per target slot.
    proof fn lemma_back_slots(&self, si: int, tj: int, v: ValueModel)
        requires
            self.wf(),
            wf_value(self.target@, v),
            0 <= si < self.source@.variants.len(),
            0 <= tj < self.target@.variants.len(),
            self.source@.variants[si].name == v.variant,
            self.target@.variants[tj].name == v.variant,
        ensures
            slot_keys(self.target@.variants[tj].slots) == slot_keys(
                self.source@.variants[si].slots,
            ),
            distinct_keys(self.target@.variants[tj].slots),
            v.fields.len() == self.target@.variants[tj].slots.len(),
            wf_value(self.source@, v),
    {
        let s = self.source@;
        let t = self.target@;
        assert(wf_variant(t.variants[tj]));
        assert(variant_matched(s.variants[si], t));
        let j2 = choose|j2: int|
            0 <= j2 < t.variants.len() && (#[trigger] t.variants[j2]).name
                == s.variants[si].name && fields_match(s.variants[si], t.variants[j2]);
        lemma_name_unique(t, j2, tj);
        let i2 = choose|i2: int|
            0 <= i2 < t.variants.len() && (#[trigger] t.variants[i2]).name == v.variant
                && t.variants[i2].slots.len() == v.fields.len();
        lemma_name_unique(t, i2, tj);
        lemma_slot_keys_index(s.variants[si].slots);
        lemma_slot_keys_index(t.variants[tj].slots);
    }
}

/// Round trip: a source value, converted forward, is a well-formed target
/// value whose variant the source has — so, by the contracts of
/// [`Conversion::convert`] (the output carries the input's content) and of
/// [`Conversion::try_convert_back`] (a value whose variant the source has
/// comes back `Ok` with its content kept), converting forward and then
/// backward returns the original value.
pub proof fn lemma_round_trip(c: Conversion, v: ValueModel)
    requires
        c.wf(),
        wf_value(c.source@, v),
    ensures
        wf_value(c.target@, v),
        has_variant(c.source@, v.variant),
{
    lemma_wf_value_carries(c.source@, c.target@, v);
    let i = choose|i: int|
        0 <= i < c.source@.variants.len() && (#[trigger] c.source@.variants[i]).name
            == v.variant && c.source@.variants[i].slots.len() == v.fields.len();
}

/// Zero-copy equivalence: the reinterpreting fast path and the per-field
/// structural path are observationally indistinguishable. Both
/// [`Conversion::convert`] and [`Conversion::convert_structural`] promise
/// output content equal to the input's, so on any value the two paths'
/// outputs are equal.
pub proof fn lemma_zero_copy_equivalence(
    c: Conversion,
    v: ValueModel,
    fast: ValueModel,
    slow: ValueModel,
)
    requires
        c.wf(),
        wf_value(c.source@, v),
        fast == v,
        slow == v,
    ensures
        fast == slow,
{
}

/// Failure preserves the value: by the contract of
/// [`Conversion::try_convert_back`], a failed backward conversion is
/// exactly a target-only active variant, and it hands back the original
/// value itself, unchanged.
pub proof fn lemma_failure_preserves_value(c: Conversion, t: ValueModel)
    requires
        c.wf(),
        wf_value(c.target@, t),
        !has_variant(c.source@, t.variant),
    ensures
        !wf_value(c.source@, t),
{
    if wf_value(c.source@, t) {
        let i = choose|i: int|
            0 <= i < c.source@.variants.len() && (#[trigger] c.source@.variants[i]).name
                == t.variant && c.source@.variants[i].slots.len() == t.fields.len();
    }
}

} // verus!
