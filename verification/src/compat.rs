//! The compatibility checker: is reinterpreting a source bit pattern as the
//! target sound for every variant the source can produce?
//!
//! The verdict is a pure function of the two immutable layouts, computed
//! once per (source, target) pair and cached by the conversion engine; a
//! single mismatching variant forces the structural path for every value of
//! the pair, because the active variant of a value is not known when the
//! verdict is made.

use vstd::prelude::*;

verus! {

use crate::layout::TypeLayout;
use crate::layout::TypeModel;
use crate::layout::VariantModel;
use crate::layout::slots_eq;
use crate::layout::find_variant;
use crate::layout::wf_type;
use crate::layout::distinct_names;
use crate::layout::lemma_view_variants_index;

/// The type `t` has a variant of the same name as `sv`, with the same tag
/// value and pointwise identical `(key, offset)` slots.
pub open spec fn variant_zero_copy(sv: VariantModel, t: TypeModel) -> bool {
    exists|j: int|
        0 <= j < t.variants.len() && (#[trigger] t.variants[j]).name == sv.name
            && t.variants[j].tag == sv.tag && t.variants[j].slots == sv.slots
}

/// Bit reinterpretation of a source value as the target type is sound:
/// equal total size, target alignment no stricter than the source's, the
/// same tag representation, and, for every source variant, a same-named
/// target variant with the same tag value and identical slots.
pub open spec fn zero_copy(s: TypeModel, t: TypeModel) -> bool {
    &&& s.size == t.size
    &&& t.align <= s.align
    &&& s.tag_size == t.tag_size
    &&& s.tag_align == t.tag_align
    &&& forall|i: int|
        0 <= i < s.variants.len() ==> variant_zero_copy(#[trigger] s.variants[i], t)
}

/// Decide whether the zero-copy path is sound for this (source, target)
/// pair. A pure function of the two layouts: every call returns the same
/// verdict.
pub fn is_zero_copy(s: &TypeLayout, t: &TypeLayout) -> (r: bool)
    requires
        wf_type(s@),
        wf_type(t@),
    ensures
        r == zero_copy(s@, t@),
{
    let ghost sm = s@;
    let ghost tm = t@;
    if s.size != t.size || t.align > s.align || s.tag_size != t.tag_size || s.tag_align
        != t.tag_align {
        return false;
    }
    let mut i: usize = 0;
    while i < s.variants.len()
        invariant
            i <= s.variants.len(),
            sm == s@,
            tm == t@,
            wf_type(tm),
            sm.size == tm.size && tm.align <= sm.align && sm.tag_size == tm.tag_size
                && sm.tag_align == tm.tag_align,
            forall|a: int| 0 <= a < i ==> variant_zero_copy(#[trigger] sm.variants[a], tm),
        decreases s.variants.len() - i,
    {
        proof {
            lemma_view_variants_index(s.variants@);
            lemma_view_variants_index(t.variants@);
            assert(sm.variants[i as int] == s.variants@[i as int]@);
        }
        let sv = &s.variants[i];
        match find_variant(&t.variants, &sv.name) {
            None => {
                proof {
                    assert(forall|j: int|
                        0 <= j < tm.variants.len() ==> (#[trigger] tm.variants[j]).name
                            != sm.variants[i as int].name);
                    if zero_copy(sm, tm) {
                        assert(variant_zero_copy(sm.variants[i as int], tm));
                        let j2 = choose|j2: int|
                            0 <= j2 < tm.variants.len() && (
                            #[trigger] tm.variants[j2]).name == sm.variants[i as int].name
                                && tm.variants[j2].tag == sm.variants[i as int].tag
                                && tm.variants[j2].slots == sm.variants[i as int].slots;
                        assert(false);
                    }
                }
                return false;
            },
            Some(j) => {
                let tv = &t.variants[j];
                proof {
                    assert(tm.variants[j as int] == t.variants@[j as int]@);
                }
                let tags_agree = sv.tag == tv.tag;
                let slots_agree = slots_eq(&sv.slots, &tv.slots);
                if !tags_agree || !slots_agree {
                    proof {
                        if zero_copy(sm, tm) {
                            assert(variant_zero_copy(sm.variants[i as int], tm));
                            let j2 = choose|j2: int|
                                0 <= j2 < tm.variants.len() && (
                                #[trigger] tm.variants[j2]).name == sm.variants[i as int].name
                                    && tm.variants[j2].tag == sm.variants[i as int].tag
                                    && tm.variants[j2].slots == sm.variants[i as int].slots;
                            assert(distinct_names(tm.variants));
                            assert(j2 == j as int);
                            assert(false);
                        }
                    }
                    return false;
                }
                proof {
                    assert(tm.variants[j as int].name == sm.variants[i as int].name
                        && tm.variants[j as int].tag == sm.variants[i as int].tag
                        && tm.variants[j as int].slots == sm.variants[i as int].slots);
                    assert(variant_zero_copy(sm.variants[i as int], tm));
                }
            },
        }
        i += 1;
    }
    proof {
        lemma_view_variants_index(s.variants@);
        assert forall|a: int| 0 <= a < sm.variants.len() implies variant_zero_copy(
            #[trigger] sm.variants[a],
            tm,
        ) by {
            assert(0 <= a < i);
        }
        assert(zero_copy(sm, tm));
    }
    true
}

} // verus!
