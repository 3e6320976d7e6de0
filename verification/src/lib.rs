//! Conversion between structurally related tagged-union types.
//!
//! A tagged-union type is described by a [`layout::TypeLayout`]: one
//! [`layout::VariantLayout`] per variant, each carrying the variant's tag
//! value and its fields as canonically ordered `(key, byte offset)` pairs.
//! Layouts are built once per concrete type by [`layout::layout_of`] from the
//! declaration-order data that a host front-end supplies.
//!
//! Given the layouts of a source and a target type, [`engine::Conversion`]
//! decides once whether a whole-value bit reinterpretation is sound and then
//! converts values either by that zero-copy path or by a per-field structural
//! path; the reverse, partial direction recovers a source value from a target
//! value and fails without consuming the input when the target's variant has
//! no source counterpart.

pub mod compat;
pub mod correspond;
pub mod engine;
pub mod keys;
pub mod layout;
pub mod pair;

use vstd::prelude::*;

verus! {

use crate::layout::TypeLayout;
use crate::layout::VariantModel;
use crate::layout::wf_type;
use crate::layout::has_variant;
use crate::layout::variant_index;
use crate::layout::find_variant;
use crate::layout::slot_offsets;
use crate::layout::lemma_slot_offsets_index;
use crate::layout::lemma_view_variants_index;
use crate::layout::lemma_view_slots_index;

/// A type layout that can report, for each variant name it has, the
/// variant's tag value and its field byte offsets in canonical field order.
pub trait HasVariant: Sized {
    /// Validity of the layout data the implementor answers from.
    spec fn hv_wf(&self) -> bool;

    /// Whether the type has a variant of this name.
    spec fn hv_has_variant(&self, name: Seq<u8>) -> bool;

    /// The named variant's metadata.
    spec fn hv_variant(&self, name: Seq<u8>) -> VariantModel;

    /// The named variant's tag value.
    fn discriminant(&self, name: &Vec<u8>) -> (tag: u64)
        requires
            self.hv_wf(),
            self.hv_has_variant(name@),
        ensures
            tag == self.hv_variant(name@).tag,
    ;

    /// The named variant's field byte offsets, in canonical field order.
    fn offsets(&self, name: &Vec<u8>) -> (offs: Vec<usize>)
        requires
            self.hv_wf(),
            self.hv_has_variant(name@),
        ensures
            offs@ == slot_offsets(self.hv_variant(name@).slots),
    ;
}

impl HasVariant for TypeLayout {
    open spec fn hv_wf(&self) -> bool {
        wf_type(self@)
    }

    open spec fn hv_has_variant(&self, name: Seq<u8>) -> bool {
        has_variant(self@, name)
    }

    open spec fn hv_variant(&self, name: Seq<u8>) -> VariantModel {
        self@.variants[variant_index(self@, name)]
    }

    fn discriminant(&self, name: &Vec<u8>) -> (tag: u64) {
        proof {
            lemma_view_variants_index(self.variants@);
        }
        let found = find_variant(&self.variants, name);
        proof {
            if found is None {
                let w = choose|w: int|
                    0 <= w < self@.variants.len() && self@.variants[w].name == name@;
                assert(false);
            }
        }
        let i = found.unwrap();
        proof {
            let ci = variant_index(self@, name@);
            assert(0 <= ci < self@.variants.len() && self@.variants[ci].name == name@);
            if ci < i as int {
                assert(self@.variants[ci].name != self@.variants[i as int].name);
            }
            if (i as int) < ci {
                assert(self@.variants[i as int].name != self@.variants[ci].name);
            }
        }
        self.variants[i].tag
    }

    fn offsets(&self, name: &Vec<u8>) -> (offs: Vec<usize>) {
        proof {
            lemma_view_variants_index(self.variants@);
        }
        let found = find_variant(&self.variants, name);
        proof {
            if found is None {
                let w = choose|w: int|
                    0 <= w < self@.variants.len() && self@.variants[w].name == name@;
                assert(false);
            }
        }
        let i = found.unwrap();
        proof {
            let ci = variant_index(self@, name@);
            assert(0 <= ci < self@.variants.len() && self@.variants[ci].name == name@);
            if ci < i as int {
                assert(self@.variants[ci].name != self@.variants[i as int].name);
            }
            if (i as int) < ci {
                assert(self@.variants[i as int].name != self@.variants[ci].name);
            }
            assert(self@.variants[i as int] == self.hv_variant(name@));
        }
        let slots = &self.variants[i].slots;
        let ghost goal = slot_offsets(self.hv_variant(name@).slots);
        proof {
            lemma_view_slots_index(slots@);
            lemma_slot_offsets_index(self.hv_variant(name@).slots);
            assert(self.hv_variant(name@).slots == crate::layout::view_slots(slots@));
            assert(goal.len() == slots@.len());
            assert forall|k: int| 0 <= k < slots@.len() implies goal[k] == (
            #[trigger] slots@[k])@.offset by {
                assert(crate::layout::view_slots(slots@)[k] == slots@[k]@);
            }
        }
        let mut offs: Vec<usize> = Vec::new();
        let mut j: usize = 0;
        while j < slots.len()
            invariant
                j <= slots.len(),
                goal == slot_offsets(self.hv_variant(name@).slots),
                goal.len() == slots@.len(),
                view_slots_of(slots@, goal),
                offs@ == goal.take(j as int),
            decreases slots.len() - j,
        {
            proof {
                assert(goal[j as int] == slots@[j as int]@.offset);
            }
            offs.push(slots[j].offset);
            j += 1;
            proof {
                assert(offs@ =~= goal.take(j as int));
            }
        }
        proof {
            assert(goal.take(slots@.len() as int) =~= goal);
        }
        offs
    }
}

/// The offsets sequence `goal` reads off the slots pointwise.
pub open spec fn view_slots_of(slots: Seq<crate::keys::FieldSlot>, goal: Seq<usize>) -> bool {
    forall|k: int| 0 <= k < slots.len() ==> goal[k] == (#[trigger] slots[k])@.offset
}

/// Conversion from `Self` into a structurally related tagged-union type
/// `Target`, in the form host code consumes it: one implementation per
/// convertible (source, target) pair, declared at build time.
///
/// The two spec members fix what each direction yields; both executable
/// forward paths must agree with `convert_spec`, which makes the zero-cost
/// and the structural path observationally indistinguishable, and the
/// backward direction must recover exactly what `back_spec` says, handing
/// the input back untouched on failure.
pub trait ConvertTo<Target>: Sized {
    /// What forward conversion yields.
    spec fn convert_spec(self) -> Target;

    /// What backward conversion yields: the recovered source value, or
    /// nothing when the target value's variant has no source counterpart.
    spec fn back_spec(t: Target) -> Option<Self>;

    /// Whether forward conversion is zero cost for this pair.
    spec fn zerocost_spec() -> bool;

    /// Round trip: what forward conversion yields, backward conversion
    /// recovers.
    proof fn law_round_trip(self)
        ensures
            Self::back_spec(self.convert_spec()) == Some(self),
    ;

    /// Convert `Self` to `Target`, consuming the ownership of `Self` and
    /// returning ownership of `Target`; zero cost when
    /// [`ConvertTo::is_zerocost`] says so.
    fn convert_to(self) -> (t: Target)
        ensures
            t == self.convert_spec(),
    ;

    /// Convert structurally, moving field by field.
    fn convert_to_slow(self) -> (t: Target)
        ensures
            t == self.convert_spec(),
    ;

    /// Try to convert a `Target` back to `Self`; if `Self` has no variant
    /// equivalent to the given value's, it fails, returning the value
    /// unchanged.
    fn try_convert_from(t: Target) -> (r: Result<Self, Target>)
        ensures
            match r {
                Ok(s) => Self::back_spec(t) == Some(s),
                Err(e) => Self::back_spec(t) is None && e == t,
            },
    ;

    /// The structural backward path.
    fn try_convert_from_slow(t: Target) -> (r: Result<Self, Target>)
        ensures
            match r {
                Ok(s) => Self::back_spec(t) == Some(s),
                Err(e) => Self::back_spec(t) is None && e == t,
            },
    ;

    /// Whether the conversion from `Self` to `Target` is zero cost; the
    /// same answer on every call.
    fn is_zerocost() -> (r: bool)
        ensures
            r == Self::zerocost_spec(),
    ;
}

} // verus!
