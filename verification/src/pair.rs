//! One concrete convertible pair, implementing [`crate::ConvertTo`] the way
//! host code for a declared pair does: the source's single variant moves
//! field by field into the same-named target variant, and the backward
//! direction fails on the target-only variant, returning the input
//! untouched. This implementation never claims the zero-cost path — forward
//! conversion is correct without it.

use vstd::prelude::*;

verus! {

use crate::ConvertTo;

/// A source type with one variant, `E1(usize, bytes, bool)`, tag 1.
#[derive(PartialEq, Eq, Debug)]
pub enum SourceOne {
    E1(usize, Vec<u8>, bool),
}

/// A target type with the same `E1` and one extra unit variant `E2`.
#[derive(PartialEq, Eq, Debug)]
pub enum TargetOne {
    E1(usize, Vec<u8>, bool),
    E2,
}

impl ConvertTo<TargetOne> for SourceOne {
    open spec fn convert_spec(self) -> TargetOne {
        match self {
            SourceOne::E1(a, b, c) => TargetOne::E1(a, b, c),
        }
    }

    open spec fn back_spec(t: TargetOne) -> Option<SourceOne> {
        match t {
            TargetOne::E1(a, b, c) => Some(SourceOne::E1(a, b, c)),
            TargetOne::E2 => None,
        }
    }

    open spec fn zerocost_spec() -> bool {
        false
    }

    proof fn law_round_trip(self) {
    }

    fn convert_to(self) -> (t: TargetOne) {
        self.convert_to_slow()
    }

    fn convert_to_slow(self) -> (t: TargetOne) {
        match self {
            SourceOne::E1(a, b, c) => TargetOne::E1(a, b, c),
        }
    }

    fn try_convert_from(t: TargetOne) -> (r: Result<SourceOne, TargetOne>) {
        Self::try_convert_from_slow(t)
    }

    fn try_convert_from_slow(t: TargetOne) -> (r: Result<SourceOne, TargetOne>) {
        match t {
            TargetOne::E1(a, b, c) => Ok(SourceOne::E1(a, b, c)),
            o => Err(o),
        }
    }

    fn is_zerocost() -> (r: bool) {
        false
    }
}

} // verus!
