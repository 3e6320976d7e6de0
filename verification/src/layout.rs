//! Per-variant layout descriptors and the per-type layout registry.
//!
//! A [`VariantLayout`] gives one variant's tag value and its fields as
//! `(key, byte offset)` pairs in canonical key order; a [`TypeLayout`]
//! aggregates the variant layouts of one concrete type together with the
//! type's total size, minimum alignment, and tag representation width.
//! [`layout_of`] builds the canonical layout from declaration-order data,
//! rejecting malformed declarations (bad name bytes, duplicate field keys,
//! duplicate variant names).

use vstd::prelude::*;

verus! {

use crate::keys::FieldKey;
use crate::keys::FieldSlot;
use crate::keys::KeyModel;
use crate::keys::SlotModel;
use crate::keys::key_le;
use crate::keys::key_le_exec;
use crate::keys::key_eq;
use crate::keys::bytes_eq;
use crate::keys::lemma_key_le_total;
use crate::keys::lemma_key_le_transitive;
use crate::keys::lemma_key_le_antisymmetric;

/// The slot sequence a vector of field slots stands for.
pub open spec fn view_slots(s: Seq<FieldSlot>) -> Seq<SlotModel> {
    s.map_values(|x: FieldSlot| x@)
}

/// How [`view_slots`] indexes.
pub proof fn lemma_view_slots_index(s: Seq<FieldSlot>)
    ensures
        view_slots(s).len() == s.len(),
        forall|k: int| 0 <= k < s.len() ==> view_slots(s)[k] == #[trigger] s[k]@,
{
}

/// The keys of a slot sequence, in slot order.
pub open spec fn slot_keys(s: Seq<SlotModel>) -> Seq<KeyModel> {
    s.map_values(|x: SlotModel| x.key)
}

/// The slots are in canonical key order.
pub open spec fn sorted_keys(s: Seq<SlotModel>) -> bool {
    forall|i: int, j: int| 0 <= i < j < s.len() ==> key_le(s[i].key, s[j].key)
}

/// No two slots carry the same key.
pub open spec fn distinct_keys(s: Seq<SlotModel>) -> bool {
    forall|i: int, j: int| 0 <= i < j < s.len() ==> s[i].key != s[j].key
}

/// A byte allowed in a name: an ASCII letter, digit, or underscore.
pub open spec fn name_byte_ok(c: u8) -> bool {
    (65 <= c <= 90) || (97 <= c <= 122) || (48 <= c <= 57) || c == 95
}

/// A usable name: non-empty, made of letters, digits and underscores.
pub open spec fn name_ok(n: Seq<u8>) -> bool {
    n.len() > 0 && forall|i: int| 0 <= i < n.len() ==> name_byte_ok(n[i])
}

/// A usable field key: positions are always fine, names must be usable.
pub open spec fn key_ok(k: KeyModel) -> bool {
    match k {
        KeyModel::Pos(_) => true,
        KeyModel::Name(n) => name_ok(n),
    }
}

/// Insert a slot into a canonically ordered slot sequence, keeping the order.
pub open spec fn insert_sorted(s: Seq<SlotModel>, x: SlotModel) -> Seq<SlotModel>
    decreases s.len(),
{
    if s.len() == 0 {
        seq![x]
    } else if key_le(s[0].key, x.key) {
        seq![s[0]] + insert_sorted(s.drop_first(), x)
    } else {
        seq![x] + s
    }
}

/// Canonical order of a slot sequence: insertion sort by key.
pub open spec fn sort_slots_spec(s: Seq<SlotModel>) -> Seq<SlotModel>
    decreases s.len(),
{
    if s.len() == 0 {
        Seq::empty()
    } else {
        insert_sorted(sort_slots_spec(s.drop_last()), s.last())
    }
}

/// What one sorted insertion does: the result has one more slot, every slot
/// comes from the input or is the inserted one, order is kept, and
/// distinctness is kept when the inserted key is fresh.
pub proof fn lemma_insert_sorted_props(s: Seq<SlotModel>, x: SlotModel)
    ensures
        insert_sorted(s, x).len() == s.len() + 1,
        forall|idx: int|
            0 <= idx < insert_sorted(s, x).len() ==> s.contains(
                #[trigger] insert_sorted(s, x)[idx],
            ) || insert_sorted(s, x)[idx] == x,
        insert_sorted(s, x).contains(x),
        forall|y: SlotModel| s.contains(y) ==> #[trigger] insert_sorted(s, x).contains(y),
        sorted_keys(s) ==> sorted_keys(insert_sorted(s, x)),
        distinct_keys(s) && (forall|idx: int| 0 <= idx < s.len() ==> s[idx].key != x.key)
            ==> distinct_keys(insert_sorted(s, x)),
    decreases s.len(),
{
    let r = insert_sorted(s, x);
    if s.len() == 0 {
        assert(r =~= seq![x]);
        assert(r[0] == x);
        assert(r.contains(x));
    } else if key_le(s[0].key, x.key) {
        let d = s.drop_first();
        lemma_insert_sorted_props(d, x);
        let rd = insert_sorted(d, x);
        assert(r =~= seq![s[0]] + rd);
        assert(r[0] == s[0]);
        assert(forall|idx: int| 1 <= idx < r.len() ==> r[idx] == rd[idx - 1]);
        assert(r.contains(x)) by {
            let m = choose|m: int| 0 <= m < rd.len() && rd[m] == x;
            assert(r[m + 1] == x);
        }
        assert forall|y: SlotModel| s.contains(y) implies #[trigger] r.contains(y) by {
            let k = choose|k: int| 0 <= k < s.len() && s[k] == y;
            if k == 0 {
                assert(r[0] == y);
            } else {
                assert(d[k - 1] == y);
                assert(d.contains(y));
                assert(rd.contains(y));
                let m = choose|m: int| 0 <= m < rd.len() && rd[m] == y;
                assert(r[m + 1] == y);
            }
        }
        assert forall|idx: int|
            0 <= idx < r.len() implies s.contains(#[trigger] r[idx]) || r[idx] == x by {
            if idx == 0 {
                assert(s[0] == r[idx]);
            } else {
                let e = rd[idx - 1];
                if d.contains(e) {
                    let k = choose|k: int| 0 <= k < d.len() && d[k] == e;
                    assert(s[k + 1] == e);
                }
            }
        }
        if sorted_keys(s) {
            assert(sorted_keys(d));
            assert forall|i: int, j: int| 0 <= i < j < r.len() implies key_le(
                r[i].key,
                r[j].key,
            ) by {
                if i == 0 {
                    let e = rd[j - 1];
                    if d.contains(e) {
                        let k = choose|k: int| 0 <= k < d.len() && d[k] == e;
                        assert(key_le(s[0].key, s[k + 1].key));
                    } else {
                        assert(e == x);
                    }
                } else {
                    assert(key_le(rd[i - 1].key, rd[j - 1].key));
                }
            }
        }
        if distinct_keys(s) && (forall|idx: int| 0 <= idx < s.len() ==> s[idx].key != x.key) {
            assert(distinct_keys(d));
            assert(forall|idx: int| 0 <= idx < d.len() ==> #[trigger] d[idx].key != x.key);
            assert(distinct_keys(rd));
            assert forall|i: int, j: int| 0 <= i < j < r.len() implies r[i].key != r[j].key by {
                if i == 0 {
                    let e = rd[j - 1];
                    if d.contains(e) {
                        let k = choose|k: int| 0 <= k < d.len() && d[k] == e;
                        assert(s[k + 1] == e);
                        assert(s[0].key != s[k + 1].key);
                    } else {
                        assert(e == x);
                        assert(s[0].key != x.key);
                    }
                } else {
                    assert(rd[i - 1].key != rd[j - 1].key);
                }
            }
        }
    } else {
        assert(r =~= seq![x] + s);
        assert forall|idx: int|
            0 <= idx < r.len() implies s.contains(#[trigger] r[idx]) || r[idx] == x by {
            if idx > 0 {
                assert(s[idx - 1] == r[idx]);
            }
        }
        assert(r[0] == x);
        assert(r.contains(x));
        assert forall|y: SlotModel| s.contains(y) implies #[trigger] r.contains(y) by {
            let k = choose|k: int| 0 <= k < s.len() && s[k] == y;
            assert(r[k + 1] == y);
        }
        if sorted_keys(s) {
            lemma_key_le_total(s[0].key, x.key);
            assert(key_le(x.key, s[0].key));
            assert forall|i: int, j: int| 0 <= i < j < r.len() implies key_le(
                r[i].key,
                r[j].key,
            ) by {
                if i == 0 {
                    if j > 1 {
                        assert(key_le(s[0].key, s[j - 1].key));
                        lemma_key_le_transitive(x.key, s[0].key, s[j - 1].key);
                    }
                } else {
                    assert(key_le(s[i - 1].key, s[j - 1].key));
                }
            }
        }
    }
}

/// What the canonical sort does: same length, every slot comes from the
/// input, order is canonical, and distinct keys stay distinct.
pub proof fn lemma_sort_slots_spec(s: Seq<SlotModel>)
    ensures
        sort_slots_spec(s).len() == s.len(),
        forall|idx: int|
            0 <= idx < s.len() ==> s.contains(#[trigger] sort_slots_spec(s)[idx]),
        forall|y: SlotModel| s.contains(y) ==> #[trigger] sort_slots_spec(s).contains(y),
        sorted_keys(sort_slots_spec(s)),
        distinct_keys(s) ==> distinct_keys(sort_slots_spec(s)),
    decreases s.len(),
{
    let r = sort_slots_spec(s);
    if s.len() == 0 {
    } else {
        let d = s.drop_last();
        let x = s.last();
        lemma_sort_slots_spec(d);
        let rd = sort_slots_spec(d);
        lemma_insert_sorted_props(rd, x);
        assert forall|y: SlotModel| s.contains(y) implies #[trigger] r.contains(y) by {
            let k = choose|k: int| 0 <= k < s.len() && s[k] == y;
            if k < s.len() - 1 {
                assert(d[k] == y);
                assert(d.contains(y));
                assert(rd.contains(y));
                assert(r.contains(y));
            } else {
                assert(y == x);
                assert(r.contains(x));
            }
        }
        assert forall|idx: int| 0 <= idx < s.len() implies s.contains(#[trigger] r[idx]) by {
            if rd.contains(r[idx]) {
                let k = choose|k: int| 0 <= k < rd.len() && rd[k] == r[idx];
                assert(d.contains(rd[k]));
                let m = choose|m: int| 0 <= m < d.len() && d[m] == rd[k];
                assert(s[m] == r[idx]);
            } else {
                assert(r[idx] == x);
                assert(s[s.len() - 1] == x);
            }
        }
        if distinct_keys(s) {
            assert(distinct_keys(d));
            assert forall|idx: int| 0 <= idx < rd.len() implies #[trigger] rd[idx].key
                != x.key by {
                assert(d.contains(rd[idx]));
                let m = choose|m: int| 0 <= m < d.len() && d[m] == rd[idx];
                assert(s[m].key != s[s.len() - 1].key);
            }
        }
    }
}

/// Two canonically ordered slot sequences with distinct keys and the same
/// elements are the same sequence.
pub proof fn lemma_sorted_distinct_unique(a: Seq<SlotModel>, b: Seq<SlotModel>)
    requires
        sorted_keys(a),
        sorted_keys(b),
        distinct_keys(a),
        distinct_keys(b),
        a.len() == b.len(),
        forall|y: SlotModel| a.contains(y) <==> #[trigger] b.contains(y),
    ensures
        a == b,
    decreases a.len(),
{
    if a.len() == 0 {
        assert(a =~= b);
    } else {
        assert(a.contains(a[0]));
        assert(b.contains(a[0]));
        let k = choose|k: int| 0 <= k < b.len() && b[k] == a[0];
        assert(b.contains(b[0]));
        assert(a.contains(b[0]));
        let m = choose|m: int| 0 <= m < a.len() && a[m] == b[0];
        if k != 0 && m != 0 {
            assert(key_le(b[0].key, b[k].key));
            assert(key_le(a[0].key, a[m].key));
            lemma_key_le_antisymmetric(a[0].key, b[0].key);
            assert(a[0].key == a[m].key);
            assert(false);
        }
        assert(a[0] == b[0]);
        let a1 = a.drop_first();
        let b1 = b.drop_first();
        assert(forall|i: int| 0 <= i < a1.len() ==> #[trigger] a1[i] == a[i + 1]);
        assert(forall|i: int| 0 <= i < b1.len() ==> #[trigger] b1[i] == b[i + 1]);
        assert forall|y: SlotModel| a1.contains(y) implies #[trigger] b1.contains(y) by {
            let i = choose|i: int| 0 <= i < a1.len() && a1[i] == y;
            assert(a[i + 1] == y);
            assert(a.contains(y));
            assert(b.contains(y));
            let j = choose|j: int| 0 <= j < b.len() && b[j] == y;
            if j == 0 {
                assert(a[i + 1] == a[0]);
                assert(a[0].key != a[i + 1].key);
                assert(false);
            }
            assert(b1[j - 1] == y);
        }
        assert forall|y: SlotModel| b1.contains(y) implies #[trigger] a1.contains(y) by {
            let i = choose|i: int| 0 <= i < b1.len() && b1[i] == y;
            assert(b[i + 1] == y);
            assert(b.contains(y));
            assert(a.contains(y));
            let j = choose|j: int| 0 <= j < a.len() && a[j] == y;
            if j == 0 {
                assert(b[i + 1] == b[0]);
                assert(b[0].key != b[i + 1].key);
                assert(false);
            }
            assert(a1[j - 1] == y);
        }
        assert forall|i: int, j: int| 0 <= i < j < a1.len() implies key_le(
            a1[i].key,
            a1[j].key,
        ) && a1[i].key != a1[j].key by {
            assert(key_le(a[i + 1].key, a[j + 1].key));
            assert(a[i + 1].key != a[j + 1].key);
        }
        assert forall|i: int, j: int| 0 <= i < j < b1.len() implies key_le(
            b1[i].key,
            b1[j].key,
        ) && b1[i].key != b1[j].key by {
            assert(key_le(b[i + 1].key, b[j + 1].key));
            assert(b[i + 1].key != b[j + 1].key);
        }
        lemma_sorted_distinct_unique(a1, b1);
        assert forall|i: int| 0 <= i < a.len() implies a[i] == b[i] by {
            if i > 0 {
                assert(a1[i - 1] == b1[i - 1]);
            }
        }
        assert(a =~= b);
    }
}

/// Canonicalization makes declaration order immaterial: two declarations of
/// the same distinct-keyed field set, in whatever order each lists it,
/// produce the same canonical slot sequence — so structurally equal variants
/// always expose equal-ordered offset sequences.
pub proof fn lemma_canonical_order_immaterial(a: Seq<SlotModel>, b: Seq<SlotModel>)
    requires
        distinct_keys(a),
        distinct_keys(b),
        a.len() == b.len(),
        forall|y: SlotModel| a.contains(y) <==> #[trigger] b.contains(y),
    ensures
        sort_slots_spec(a) == sort_slots_spec(b),
{
    lemma_sort_slots_spec(a);
    lemma_sort_slots_spec(b);
    let ra = sort_slots_spec(a);
    let rb = sort_slots_spec(b);
    assert forall|y: SlotModel| ra.contains(y) implies #[trigger] rb.contains(y) by {
        let i = choose|i: int| 0 <= i < ra.len() && ra[i] == y;
        assert(a.contains(ra[i]));
        assert(b.contains(y));
        assert(rb.contains(y));
    }
    assert forall|y: SlotModel| rb.contains(y) implies #[trigger] ra.contains(y) by {
        let i = choose|i: int| 0 <= i < rb.len() && rb[i] == y;
        assert(b.contains(rb[i]));
        assert(a.contains(y));
        assert(ra.contains(y));
    }
    assert(forall|y: SlotModel| ra.contains(y) <==> #[trigger] rb.contains(y));
    lemma_sorted_distinct_unique(ra, rb);
}

/// One variant's layout: its name, tag value, and fields in canonical order.
#[derive(PartialEq, Eq, Debug)]
pub struct VariantLayout {
    pub name: Vec<u8>,
    pub tag: u64,
    pub slots: Vec<FieldSlot>,
}

/// Mathematical model of a [`VariantLayout`] (and of a [`VariantDecl`]).
pub struct VariantModel {
    pub name: Seq<u8>,
    pub tag: u64,
    pub slots: Seq<SlotModel>,
}

impl View for VariantLayout {
    type V = VariantModel;

    open spec fn view(&self) -> VariantModel {
        VariantModel { name: self.name@, tag: self.tag, slots: view_slots(self.slots@) }
    }
}

/// The variant sequence a vector of variant layouts stands for.
pub open spec fn view_variants(s: Seq<VariantLayout>) -> Seq<VariantModel> {
    s.map_values(|x: VariantLayout| x@)
}

/// How [`view_variants`] indexes.
pub proof fn lemma_view_variants_index(s: Seq<VariantLayout>)
    ensures
        view_variants(s).len() == s.len(),
        forall|k: int| 0 <= k < s.len() ==> view_variants(s)[k] == #[trigger] s[k]@,
{
}

/// A whole type's layout: its variants, total size, minimum alignment, and
/// the size and alignment of its tag representation.
#[derive(PartialEq, Eq, Debug)]
pub struct TypeLayout {
    pub size: usize,
    pub align: usize,
    pub tag_size: usize,
    pub tag_align: usize,
    pub variants: Vec<VariantLayout>,
}

/// Mathematical model of a [`TypeLayout`] (and of a [`TypeDecl`]).
pub struct TypeModel {
    pub size: usize,
    pub align: usize,
    pub tag_size: usize,
    pub tag_align: usize,
    pub variants: Seq<VariantModel>,
}

impl View for TypeLayout {
    type V = TypeModel;

    open spec fn view(&self) -> TypeModel {
        TypeModel {
            size: self.size,
            align: self.align,
            tag_size: self.tag_size,
            tag_align: self.tag_align,
            variants: view_variants(self.variants@),
        }
    }
}

/// One variant as declared: name, tag value, fields in declaration order.
pub struct VariantDecl {
    pub name: Vec<u8>,
    pub tag: u64,
    pub fields: Vec<FieldSlot>,
}

impl View for VariantDecl {
    type V = VariantModel;

    open spec fn view(&self) -> VariantModel {
        VariantModel { name: self.name@, tag: self.tag, slots: view_slots(self.fields@) }
    }
}

/// The variant sequence a vector of declared variants stands for.
pub open spec fn view_decls(s: Seq<VariantDecl>) -> Seq<VariantModel> {
    s.map_values(|x: VariantDecl| x@)
}

/// A whole type as declared, before canonicalization.
pub struct TypeDecl {
    pub size: usize,
    pub align: usize,
    pub tag_size: usize,
    pub tag_align: usize,
    pub variants: Vec<VariantDecl>,
}

impl View for TypeDecl {
    type V = TypeModel;

    open spec fn view(&self) -> TypeModel {
        TypeModel {
            size: self.size,
            align: self.align,
            tag_size: self.tag_size,
            tag_align: self.tag_align,
            variants: view_decls(self.variants@),
        }
    }
}

/// No two variants carry the same name.
pub open spec fn distinct_names(vs: Seq<VariantModel>) -> bool {
    forall|i: int, j: int| 0 <= i < j < vs.len() ==> vs[i].name != vs[j].name
}

/// A well-formed canonical variant: usable names, canonical order, distinct
/// keys.
pub open spec fn wf_variant(v: VariantModel) -> bool {
    &&& name_ok(v.name)
    &&& forall|i: int| 0 <= i < v.slots.len() ==> key_ok(#[trigger] v.slots[i].key)
    &&& sorted_keys(v.slots)
    &&& distinct_keys(v.slots)
}

/// A well-formed type layout: distinct variant names, each variant
/// well-formed. Established by [`layout_of`]; layouts never change after.
pub open spec fn wf_type(t: TypeModel) -> bool {
    &&& distinct_names(t.variants)
    &&& forall|i: int| 0 <= i < t.variants.len() ==> wf_variant(#[trigger] t.variants[i])
}

/// An acceptable declared variant: usable names, distinct field keys
/// (declaration order is free).
pub open spec fn decl_variant_ok(v: VariantModel) -> bool {
    &&& name_ok(v.name)
    &&& forall|i: int| 0 <= i < v.slots.len() ==> key_ok(#[trigger] v.slots[i].key)
    &&& distinct_keys(v.slots)
}

/// An acceptable type declaration.
pub open spec fn decl_ok(d: TypeModel) -> bool {
    &&& distinct_names(d.variants)
    &&& forall|i: int| 0 <= i < d.variants.len() ==> decl_variant_ok(#[trigger] d.variants[i])
}

/// The canonical layout a declaration stands for: each variant's fields in
/// canonical key order, everything else kept.
pub open spec fn canonical_type(d: TypeModel) -> TypeModel {
    TypeModel {
        size: d.size,
        align: d.align,
        tag_size: d.tag_size,
        tag_align: d.tag_align,
        variants: d.variants.map_values(
            |v: VariantModel| VariantModel { name: v.name, tag: v.tag, slots: sort_slots_spec(v.slots) },
        ),
    }
}

/// How [`view_decls`] indexes.
pub proof fn lemma_view_decls_index(s: Seq<VariantDecl>)
    ensures
        view_decls(s).len() == s.len(),
        forall|k: int| 0 <= k < s.len() ==> view_decls(s)[k] == #[trigger] s[k]@,
{
}

/// How [`canonical_type`] indexes.
pub proof fn lemma_canonical_index(d: TypeModel)
    ensures
        canonical_type(d).variants.len() == d.variants.len(),
        forall|k: int|
            0 <= k < d.variants.len() ==> #[trigger] canonical_type(d).variants[k]
                == (VariantModel {
                name: d.variants[k].name,
                tag: d.variants[k].tag,
                slots: sort_slots_spec(d.variants[k].slots),
            }),
{
}

/// The type has a variant of this name.
pub open spec fn has_variant(t: TypeModel, name: Seq<u8>) -> bool {
    exists|i: int| 0 <= i < t.variants.len() && t.variants[i].name == name
}

/// The index of the variant of this name (meaningful when the name is there
/// and names are distinct).
pub open spec fn variant_index(t: TypeModel, name: Seq<u8>) -> int {
    choose|i: int| 0 <= i < t.variants.len() && t.variants[i].name == name
}

/// Find the variant of the given name, if any.
pub fn find_variant(vs: &Vec<VariantLayout>, name: &Vec<u8>) -> (r: Option<usize>)
    ensures
        match r {
            Some(i) => i < vs.len() && view_variants(vs@)[i as int].name == name@,
            None => forall|i: int|
                0 <= i < vs.len() ==> view_variants(vs@)[i].name != name@,
        },
{
    let mut i: usize = 0;
    while i < vs.len()
        invariant
            i <= vs.len(),
            forall|j: int| 0 <= j < i ==> view_variants(vs@)[j].name != name@,
        decreases vs.len() - i,
    {
        if bytes_eq(&vs[i].name, name) {
            return Some(i);
        }
        i += 1;
    }
    None
}

/// Whether the name is non-empty and made of allowed bytes.
pub fn name_ok_exec(n: &Vec<u8>) -> (r: bool)
    ensures
        r == name_ok(n@),
{
    if n.len() == 0 {
        return false;
    }
    let mut i: usize = 0;
    while i < n.len()
        invariant
            i <= n.len(),
            forall|j: int| 0 <= j < i ==> name_byte_ok(n@[j]),
        decreases n.len() - i,
    {
        let c = n[i];
        let ok = (65 <= c && c <= 90) || (97 <= c && c <= 122) || (48 <= c && c <= 57)
            || c == 95;
        if !ok {
            return false;
        }
        i += 1;
    }
    true
}

/// Whether the key is usable.
pub fn key_ok_exec(k: &FieldKey) -> (r: bool)
    ensures
        r == key_ok(k@),
{
    match k {
        FieldKey::Pos(_) => true,
        FieldKey::Name(n) => name_ok_exec(n),
    }
}

/// Whether no two of the declared fields carry the same key.
pub fn distinct_keys_exec(fields: &Vec<FieldSlot>) -> (r: bool)
    ensures
        r == distinct_keys(view_slots(fields@)),
{
    let n = fields.len();
    let mut i: usize = 0;
    while i < n
        invariant
            i <= n,
            n == fields.len(),
            forall|a: int, b: int|
                0 <= a < b < n && a < i ==> view_slots(fields@)[a].key
                    != view_slots(fields@)[b].key,
        decreases n - i,
    {
        let mut j: usize = i + 1;
        while j < n
            invariant
                i < j <= n,
                n == fields.len(),
                forall|b: int|
                    i < b < j ==> view_slots(fields@)[i as int].key
                        != view_slots(fields@)[b].key,
            decreases n - j,
        {
            if key_eq(&fields[i].key, &fields[j].key) {
                proof {
                    lemma_view_slots_index(fields@);
                    assert(view_slots(fields@)[i as int].key
                        == view_slots(fields@)[j as int].key);
                }
                return false;
            }
            j += 1;
        }
        i += 1;
    }
    true
}

/// Whether no two of the declared variants carry the same name.
pub fn distinct_names_exec(vs: &Vec<VariantDecl>) -> (r: bool)
    ensures
        r == distinct_names(view_decls(vs@)),
{
    let n = vs.len();
    let ghost m = view_decls(vs@);
    proof {
        lemma_view_decls_index(vs@);
    }
    let mut i: usize = 0;
    while i < n
        invariant
            i <= n,
            n == vs.len(),
            m == view_decls(vs@),
            forall|a: int, b: int| 0 <= a < b < n && a < i ==> m[a].name != m[b].name,
        decreases n - i,
    {
        let mut j: usize = i + 1;
        while j < n
            invariant
                i < j <= n,
                n == vs.len(),
                m == view_decls(vs@),
                forall|b: int| i < b < j ==> m[i as int].name != m[b].name,
            decreases n - j,
        {
            if bytes_eq(&vs[i].name, &vs[j].name) {
                proof {
                    lemma_view_decls_index(vs@);
                    assert(m[i as int].name == m[j as int].name);
                }
                return false;
            }
            j += 1;
        }
        i += 1;
    }
    true
}

/// The position at which a slot of this key joins a canonically ordered
/// vector: the first position whose key does not sort at or before the new
/// one.
fn insert_position(out: &Vec<FieldSlot>, x: &FieldSlot) -> (j: usize)
    ensures
        j <= out.len(),
        forall|k: int| 0 <= k < j ==> key_le(view_slots(out@)[k].key, x@.key),
        j < out.len() ==> !key_le(view_slots(out@)[j as int].key, x@.key),
{
    let mut j: usize = 0;
    while j < out.len()
        invariant
            j <= out.len(),
            forall|k: int| 0 <= k < j ==> key_le(view_slots(out@)[k].key, x@.key),
        decreases out.len() - j,
    {
        if !key_le_exec(&out[j].key, &x.key) {
            return j;
        }
        j += 1;
    }
    j
}

/// Inserting at the found position is what [`insert_sorted`] does.
proof fn lemma_insert_sorted_position(s: Seq<SlotModel>, x: SlotModel, j: int)
    requires
        0 <= j <= s.len(),
        forall|k: int| 0 <= k < j ==> key_le(s[k].key, x.key),
        j < s.len() ==> !key_le(s[j].key, x.key),
    ensures
        insert_sorted(s, x) == s.insert(j, x),
    decreases s.len(),
{
    if j == 0 {
        if s.len() == 0 {
            assert(insert_sorted(s, x) =~= s.insert(0, x));
        } else {
            assert(!key_le(s[0].key, x.key));
            assert(insert_sorted(s, x) =~= s.insert(0, x));
        }
    } else {
        assert(key_le(s[0].key, x.key));
        let d = s.drop_first();
        lemma_insert_sorted_position(d, x, j - 1);
        assert(seq![s[0]] + d.insert(j - 1, x) =~= s.insert(j, x));
    }
}

/// Sort the slots into canonical key order.
pub fn sort_slots(v: Vec<FieldSlot>) -> (r: Vec<FieldSlot>)
    ensures
        view_slots(r@) == sort_slots_spec(view_slots(v@)),
{
    let ghost orig = view_slots(v@);
    let mut v = v;
    let mut out: Vec<FieldSlot> = Vec::new();
    let ghost mut i: int = 0;
    proof {
        assert(view_slots(v@) =~= orig.skip(0));
        assert(view_slots(out@) =~= sort_slots_spec(orig.take(0)));
    }
    while v.len() > 0
        invariant
            0 <= i <= orig.len(),
            view_slots(v@) == orig.skip(i),
            view_slots(out@) == sort_slots_spec(orig.take(i)),
        decreases v.len(),
    {
        proof {
            lemma_view_slots_index(v@);
            assert(i < orig.len());
        }
        let ghost prev = v@;
        let x = v.remove(0);
        let j = insert_position(&out, &x);
        proof {
            lemma_view_slots_index(prev);
            assert(x@ == view_slots(prev)[0]);
            assert(x@ == orig[i]);
            lemma_insert_sorted_position(view_slots(out@), x@, j as int);
        }
        out.insert(j, x);
        proof {
            lemma_view_slots_index(v@);
            assert(view_slots(v@) =~= orig.skip(i + 1)) by {
                assert(forall|k: int| 0 <= k < v@.len() ==> v@[k] == #[trigger] prev[k + 1]);
            }
            assert(view_slots(out@) =~= sort_slots_spec(orig.take(i)).insert(j as int, x@));
            assert(orig.take(i + 1).drop_last() =~= orig.take(i));
            assert(orig.take(i + 1).last() == orig[i]);
            i = i + 1;
        }
    }
    proof {
        assert(orig.take(i) =~= orig);
    }
    out
}

/// The byte offsets of a slot sequence, in slot order.
pub open spec fn slot_offsets(s: Seq<SlotModel>) -> Seq<usize> {
    s.map_values(|x: SlotModel| x.offset)
}

/// How [`slot_offsets`] indexes.
pub proof fn lemma_slot_offsets_index(s: Seq<SlotModel>)
    ensures
        slot_offsets(s).len() == s.len(),
        forall|k: int| 0 <= k < s.len() ==> slot_offsets(s)[k] == #[trigger] s[k].offset,
{
}

/// How [`slot_keys`] indexes.
pub proof fn lemma_slot_keys_index(s: Seq<SlotModel>)
    ensures
        slot_keys(s).len() == s.len(),
        forall|k: int| 0 <= k < s.len() ==> slot_keys(s)[k] == #[trigger] s[k].key,
{
}

/// Whether two slot sequences are pointwise identical: same keys in the
/// same order, at the same byte offsets.
pub fn slots_eq(a: &Vec<FieldSlot>, b: &Vec<FieldSlot>) -> (r: bool)
    ensures
        r == (view_slots(a@) == view_slots(b@)),
{
    proof {
        lemma_view_slots_index(a@);
        lemma_view_slots_index(b@);
    }
    if a.len() != b.len() {
        proof {
            assert(view_slots(a@).len() != view_slots(b@).len());
        }
        return false;
    }
    let mut i: usize = 0;
    while i < a.len()
        invariant
            i <= a.len(),
            a@.len() == b@.len(),
            forall|k: int| 0 <= k < i ==> view_slots(a@)[k] == view_slots(b@)[k],
        decreases a.len() - i,
    {
        proof {
            lemma_view_slots_index(a@);
            lemma_view_slots_index(b@);
            assert(view_slots(a@)[i as int] == a@[i as int]@);
            assert(view_slots(b@)[i as int] == b@[i as int]@);
        }
        if !key_eq(&a[i].key, &b[i].key) {
            proof {
                assert(view_slots(a@)[i as int].key != view_slots(b@)[i as int].key);
            }
            return false;
        }
        if a[i].offset != b[i].offset {
            proof {
                assert(view_slots(a@)[i as int].offset != view_slots(b@)[i as int].offset);
            }
            return false;
        }
        proof {
            assert(view_slots(a@)[i as int] == view_slots(b@)[i as int]);
        }
        i += 1;
    }
    proof {
        assert(view_slots(a@) =~= view_slots(b@));
    }
    true
}

/// Whether two slot sequences carry the same keys in the same order,
/// whatever their offsets.
pub fn slot_keys_eq(a: &Vec<FieldSlot>, b: &Vec<FieldSlot>) -> (r: bool)
    ensures
        r == (slot_keys(view_slots(a@)) == slot_keys(view_slots(b@))),
{
    proof {
        lemma_view_slots_index(a@);
        lemma_view_slots_index(b@);
        lemma_slot_keys_index(view_slots(a@));
        lemma_slot_keys_index(view_slots(b@));
    }
    if a.len() != b.len() {
        return false;
    }
    let mut i: usize = 0;
    while i < a.len()
        invariant
            i <= a.len(),
            a@.len() == b@.len(),
            forall|k: int|
                0 <= k < i ==> slot_keys(view_slots(a@))[k] == slot_keys(view_slots(b@))[k],
        decreases a.len() - i,
    {
        proof {
            lemma_view_slots_index(a@);
            lemma_view_slots_index(b@);
            lemma_slot_keys_index(view_slots(a@));
            lemma_slot_keys_index(view_slots(b@));
            assert(view_slots(a@)[i as int] == a@[i as int]@);
            assert(view_slots(b@)[i as int] == b@[i as int]@);
            assert(slot_keys(view_slots(a@))[i as int] == view_slots(a@)[i as int].key);
            assert(slot_keys(view_slots(b@))[i as int] == view_slots(b@)[i as int].key);
        }
        if !key_eq(&a[i].key, &b[i].key) {
            proof {
                assert(slot_keys(view_slots(a@))[i as int]
                    != slot_keys(view_slots(b@))[i as int]);
            }
            return false;
        }
        i += 1;
    }
    proof {
        assert(slot_keys(view_slots(a@)) =~= slot_keys(view_slots(b@)));
    }
    true
}

/// Build the canonical layout of a declared type, once per concrete type.
///
/// Succeeds exactly on acceptable declarations: usable variant and field
/// names, no duplicate field key within a variant, no duplicate variant
/// name. The result keeps the declared variant order and tag values and
/// puts each variant's fields in canonical key order.
pub fn layout_of(decl: TypeDecl) -> (r: Option<TypeLayout>)
    ensures
        (r is Some) == decl_ok(decl@),
        r matches Some(t) ==> t@ == canonical_type(decl@) && wf_type(t@),
{
    let ghost dm = decl@;
    proof {
        lemma_view_decls_index(decl.variants@);
        lemma_canonical_index(dm);
    }
    let n = decl.variants.len();
    let mut i: usize = 0;
    while i < n
        invariant
            i <= n,
            n == decl.variants.len(),
            dm == decl@,
            forall|a: int| 0 <= a < i ==> decl_variant_ok(#[trigger] dm.variants[a]),
        decreases n - i,
    {
        let v = &decl.variants[i];
        proof {
            lemma_view_decls_index(decl.variants@);
            assert(dm.variants[i as int] == v@);
        }
        if !name_ok_exec(&v.name) {
            proof {
                assert(!decl_variant_ok(dm.variants[i as int]));
            }
            return None;
        }
        let mut k: usize = 0;
        while k < v.fields.len()
            invariant
                k <= v.fields.len(),
                dm == decl@,
                dm.variants[i as int] == v@,
                i < dm.variants.len(),
                forall|b: int| 0 <= b < k ==> key_ok(#[trigger] view_slots(v.fields@)[b].key),
            decreases v.fields.len() - k,
        {
            if !key_ok_exec(&v.fields[k].key) {
                proof {
                    lemma_view_slots_index(v.fields@);
                    assert(!key_ok(view_slots(v.fields@)[k as int].key));
                    assert(!decl_variant_ok(dm.variants[i as int]));
                }
                return None;
            }
            proof {
                lemma_view_slots_index(v.fields@);
            }
            k += 1;
        }
        if !distinct_keys_exec(&v.fields) {
            proof {
                assert(!decl_variant_ok(dm.variants[i as int]));
            }
            return None;
        }
        proof {
            assert(decl_variant_ok(dm.variants[i as int]));
        }
        i += 1;
    }
    if !distinct_names_exec(&decl.variants) {
        return None;
    }
    let mut vars: Vec<VariantLayout> = Vec::new();
    let mut vs = decl.variants;
    let ghost total = dm.variants.len() as int;
    let ghost mut done: int = 0;
    proof {
        lemma_view_decls_index(vs@);
        assert(view_decls(vs@) =~= dm.variants.skip(0));
        lemma_view_variants_index(vars@);
        assert(view_variants(vars@) =~= canonical_type(dm).variants.take(0));
    }
    while vs.len() > 0
        invariant
            0 <= done <= total,
            total == dm.variants.len(),
            view_decls(vs@) == dm.variants.skip(done),
            view_variants(vars@) == canonical_type(dm).variants.take(done),
        decreases vs.len(),
    {
        proof {
            lemma_view_decls_index(vs@);
            assert(done < total);
        }
        let ghost prev = vs@;
        let v = vs.remove(0);
        proof {
            lemma_view_decls_index(prev);
            assert(v@ == view_decls(prev)[0]);
            assert(v@ == dm.variants[done]);
        }
        let slots = sort_slots(v.fields);
        let vl = VariantLayout { name: v.name, tag: v.tag, slots };
        proof {
            lemma_canonical_index(dm);
            assert(vl@ == canonical_type(dm).variants[done]);
        }
        let ghost pvars = vars@;
        vars.push(vl);
        proof {
            lemma_view_decls_index(vs@);
            lemma_view_decls_index(prev);
            assert(view_decls(vs@) =~= dm.variants.skip(done + 1)) by {
                assert(forall|k: int|
                    0 <= k < vs@.len() ==> vs@[k] == #[trigger] prev[k + 1]);
            }
            lemma_view_variants_index(vars@);
            lemma_view_variants_index(pvars);
            assert(view_variants(vars@) =~= canonical_type(dm).variants.take(done + 1)) by {
                assert(forall|k: int|
                    0 <= k < pvars.len() ==> vars@[k] == #[trigger] pvars[k]);
                assert(vars@[pvars.len() as int] == vl);
            }
            done = done + 1;
        }
    }
    let t = TypeLayout {
        size: decl.size,
        align: decl.align,
        tag_size: decl.tag_size,
        tag_align: decl.tag_align,
        variants: vars,
    };
    proof {
        assert(canonical_type(dm).variants.take(done) =~= canonical_type(dm).variants);
        assert(t@ =~= canonical_type(dm)) by {
            assert(view_variants(t.variants@) =~= canonical_type(dm).variants);
        }
        assert forall|a: int|
            0 <= a < t@.variants.len() implies wf_variant(#[trigger] t@.variants[a]) by {
            let dv = dm.variants[a];
            lemma_sort_slots_spec(dv.slots);
            assert(decl_variant_ok(dv));
            assert forall|b: int|
                0 <= b < t@.variants[a].slots.len() implies key_ok(
                #[trigger] t@.variants[a].slots[b].key,
            ) by {
                assert(dv.slots.contains(sort_slots_spec(dv.slots)[b]));
                let w = choose|w: int| 0 <= w < dv.slots.len() && dv.slots[w]
                    == sort_slots_spec(dv.slots)[b];
                assert(key_ok(dv.slots[w].key));
            }
        }
        assert(distinct_names(t@.variants)) by {
            assert(forall|a: int|
                0 <= a < t@.variants.len() ==> #[trigger] t@.variants[a].name
                    == dm.variants[a].name);
        }
    }
    Some(t)
}

} // verus!
