//! Name correspondence between a source and a target type.
//!
//! Variants are matched by name, fields by key, independently of declaration
//! order; because both layouts are canonical, two matched variants have the
//! same field key set exactly when their key sequences are pointwise equal.
//! Every source variant must have a target match — a declaration that breaks
//! this is rejected before any conversion is offered. Target variants with
//! no source counterpart are allowed: they are unreachable forward and the
//! only source of backward failures.

use vstd::prelude::*;

verus! {

use crate::layout::TypeLayout;
use crate::layout::TypeModel;
use crate::layout::VariantModel;
use crate::layout::slot_keys;
use crate::layout::slot_keys_eq;
use crate::layout::has_variant;
use crate::layout::find_variant;
use crate::layout::wf_type;
use crate::layout::distinct_names;
use crate::layout::lemma_view_variants_index;

/// Two matched variants carry the same field keys (in canonical order, so
/// this is field-set equality).
pub open spec fn fields_match(sv: VariantModel, tv: VariantModel) -> bool {
    slot_keys(sv.slots) == slot_keys(tv.slots)
}

/// The type `t` has a variant of the same name as `sv`, with the same field
/// key set.
pub open spec fn variant_matched(sv: VariantModel, t: TypeModel) -> bool {
    exists|j: int|
        0 <= j < t.variants.len() && (#[trigger] t.variants[j]).name == sv.name
            && fields_match(sv, t.variants[j])
}

/// Every source variant has a same-named target variant with the same field
/// key set.
pub open spec fn corresponds(s: TypeModel, t: TypeModel) -> bool {
    forall|i: int| 0 <= i < s.variants.len() ==> variant_matched(#[trigger] s.variants[i], t)
}

/// The name correspondence for one (source, target) pair: for each target
/// variant, in layout order, whether a same-named source variant exists.
/// A `false` entry marks a target-only variant.
pub struct CorrespondenceTable {
    pub matched: Vec<bool>,
}

/// The table says, of each target variant, exactly whether the source has a
/// variant of that name.
pub open spec fn table_ok(tab: Seq<bool>, s: TypeModel, t: TypeModel) -> bool {
    &&& tab.len() == t.variants.len()
    &&& forall|j: int|
        0 <= j < tab.len() ==> tab[j] == has_variant(s, (#[trigger] t.variants[j]).name)
}

/// Resolve the name correspondence between two canonical layouts.
///
/// Succeeds exactly when every source variant has a same-named target
/// variant with the same field key set; a missing or mismatched variant
/// makes the whole conversion capability unavailable.
pub fn correspond(s: &TypeLayout, t: &TypeLayout) -> (r: Option<CorrespondenceTable>)
    requires
        wf_type(s@),
        wf_type(t@),
    ensures
        (r is Some) == corresponds(s@, t@),
        r matches Some(tab) ==> table_ok(tab.matched@, s@, t@),
{
    let ghost sm = s@;
    let ghost tm = t@;
    let mut i: usize = 0;
    while i < s.variants.len()
        invariant
            i <= s.variants.len(),
            sm == s@,
            tm == t@,
            wf_type(tm),
            forall|a: int| 0 <= a < i ==> variant_matched(#[trigger] sm.variants[a], tm),
        decreases s.variants.len() - i,
    {
        proof {
            lemma_view_variants_index(s.variants@);
            lemma_view_variants_index(t.variants@);
            assert(sm.variants[i as int] == s.variants@[i as int]@);
        }
        let sv = &s.variants[i];
        match find_variant(&t.variants, &sv.name) {
            None => {
                proof {
                    assert(forall|j: int|
                        0 <= j < tm.variants.len() ==> (#[trigger] tm.variants[j]).name
                            != sm.variants[i as int].name);
                    if corresponds(sm, tm) {
                        assert(variant_matched(sm.variants[i as int], tm));
                        let j2 = choose|j2: int|
                            0 <= j2 < tm.variants.len() && (
                            #[trigger] tm.variants[j2]).name == sm.variants[i as int].name
                                && fields_match(sm.variants[i as int], tm.variants[j2]);
                        assert(false);
                    }
                }
                return None;
            },
            Some(j) => {
                proof {
                    assert(tm.variants[j as int] == t.variants@[j as int]@);
                }
                if !slot_keys_eq(&sv.slots, &t.variants[j].slots) {
                    proof {
                        assert(!fields_match(sm.variants[i as int], tm.variants[j as int]));
                        if corresponds(sm, tm) {
                            assert(variant_matched(sm.variants[i as int], tm));
                            let j2 = choose|j2: int|
                                0 <= j2 < tm.variants.len() && (
                                #[trigger] tm.variants[j2]).name == sm.variants[i as int].name
                                    && fields_match(sm.variants[i as int], tm.variants[j2]);
                            assert(distinct_names(tm.variants));
                            assert(j2 == j as int);
                            assert(false);
                        }
                    }
                    return None;
                }
                proof {
                    assert(tm.variants[j as int].name == sm.variants[i as int].name
                        && fields_match(sm.variants[i as int], tm.variants[j as int]));
                    assert(variant_matched(sm.variants[i as int], tm));
                }
            },
        }
        i += 1;
    }
    proof {
        lemma_view_variants_index(s.variants@);
        assert forall|a: int| 0 <= a < sm.variants.len() implies variant_matched(
            #[trigger] sm.variants[a],
            tm,
        ) by {
            assert(0 <= a < i);
        }
        assert(corresponds(sm, tm));
    }
    let mut matched: Vec<bool> = Vec::new();
    let mut j: usize = 0;
    while j < t.variants.len()
        invariant
            j <= t.variants.len(),
            sm == s@,
            tm == t@,
            matched@.len() == j,
            corresponds(sm, tm),
            forall|b: int|
                0 <= b < j ==> matched@[b] == has_variant(sm, (#[trigger] tm.variants[b]).name),
        decreases t.variants.len() - j,
    {
        proof {
            lemma_view_variants_index(s.variants@);
            lemma_view_variants_index(t.variants@);
            assert(tm.variants[j as int] == t.variants@[j as int]@);
        }
        let found = find_variant(&s.variants, &t.variants[j].name);
        proof {
            match found {
                Some(idx) => {
                    assert(sm.variants[idx as int].name == tm.variants[j as int].name);
                    assert(has_variant(sm, tm.variants[j as int].name));
                },
                None => {
                    if has_variant(sm, tm.variants[j as int].name) {
                        let w = choose|w: int|
                            0 <= w < sm.variants.len() && sm.variants[w].name
                                == tm.variants[j as int].name;
                        assert(false);
                    }
                },
            }
        }
        matched.push(found.is_some());
        j += 1;
    }
    proof {
        lemma_view_variants_index(t.variants@);
    }
    Some(CorrespondenceTable { matched })
}

} // verus!
