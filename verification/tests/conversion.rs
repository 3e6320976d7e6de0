use fast_enum_conversion::compat::is_zero_copy;
use fast_enum_conversion::engine::{Conversion, FieldVal, Value};
use fast_enum_conversion::keys::{FieldKey, FieldSlot};
use fast_enum_conversion::layout::{layout_of, TypeDecl, TypeLayout, VariantDecl};
use fast_enum_conversion::HasVariant;

fn pos(n: usize, offset: usize) -> FieldSlot {
    FieldSlot { key: FieldKey::Pos(n), offset }
}

fn named(name: &str, offset: usize) -> FieldSlot {
    FieldSlot { key: FieldKey::Name(name.as_bytes().to_vec()), offset }
}

fn variant(name: &str, tag: u64, fields: Vec<FieldSlot>) -> VariantDecl {
    VariantDecl { name: name.as_bytes().to_vec(), tag, fields }
}

fn decl(size: usize, align: usize, variants: Vec<VariantDecl>) -> TypeDecl {
    TypeDecl { size, align, tag_size: 1, tag_align: 1, variants }
}

fn layout(size: usize, align: usize, variants: Vec<VariantDecl>) -> TypeLayout {
    layout_of(decl(size, align, variants)).unwrap()
}

fn value(name: &str, fields: Vec<FieldVal>) -> Value {
    Value { variant: name.as_bytes().to_vec(), fields }
}

fn uint(n: u64) -> FieldVal {
    FieldVal::Uint(n)
}

fn flag(b: bool) -> FieldVal {
    FieldVal::Bool(b)
}

fn text(s: &str) -> FieldVal {
    FieldVal::Str(s.as_bytes().to_vec())
}

// Src { E2 { item1: u8, item2: bool } = 5, E1(usize, &str, bool) = 7, E3 = 1 }
fn src_reordered() -> TypeLayout {
    layout(
        40,
        8,
        vec![
            variant("E2", 5, vec![named("item1", 1), named("item2", 2)]),
            variant("E1", 7, vec![pos(0, 8), pos(1, 16), pos(2, 32)]),
            variant("E3", 1, vec![]),
        ],
    )
}

// Dest { E1 = 7, E2 = 5, E3 = 1, E4 } with the same variants reordered and
// one extra unit variant whose assigned tag is 2.
fn dest_reordered() -> TypeLayout {
    layout(
        40,
        8,
        vec![
            variant("E1", 7, vec![pos(0, 8), pos(1, 16), pos(2, 32)]),
            variant("E2", 5, vec![named("item1", 1), named("item2", 2)]),
            variant("E3", 1, vec![]),
            variant("E4", 2, vec![]),
        ],
    )
}

#[test]
fn test() {
    let conv = Conversion::new(src_reordered(), dest_reordered()).unwrap();
    assert!(conv.is_zero_copy());
    assert_eq!(
        conv.convert(value("E1", vec![uint(123), text("hello"), flag(true)])),
        value("E1", vec![uint(123), text("hello"), flag(true)])
    );
    assert_eq!(
        conv.convert(value("E1", vec![uint(usize::MAX as u64), text("hello"), flag(true)])),
        value("E1", vec![uint(usize::MAX as u64), text("hello"), flag(true)])
    );
    assert_eq!(
        conv.convert(value("E2", vec![uint(0), flag(false)])),
        value("E2", vec![uint(0), flag(false)])
    );
    assert_eq!(conv.convert(value("E3", vec![])), value("E3", vec![]));
    assert_eq!(conv.try_convert_back(value("E3", vec![])), Ok(value("E3", vec![])));
    assert_eq!(conv.try_convert_back(value("E4", vec![])), Err(value("E4", vec![])));
}

// Src { E1(usize, bool, &str) = 1 } and Dest { E1(usize, bool, &str) = 2 }:
// only the tag values differ.
fn src_tag1() -> TypeLayout {
    layout(40, 8, vec![variant("E1", 1, vec![pos(0, 8), pos(1, 16), pos(2, 24)])])
}

fn dest_tag2() -> TypeLayout {
    layout(40, 8, vec![variant("E1", 2, vec![pos(0, 8), pos(1, 16), pos(2, 24)])])
}

#[test]
fn non_zerocost() {
    let conv = Conversion::new(src_tag1(), dest_tag2()).unwrap();
    assert!(!conv.is_zero_copy());
    assert_eq!(
        conv.convert(value("E1", vec![uint(123), flag(true), text("hello")])),
        value("E1", vec![uint(123), flag(true), text("hello")])
    );
    assert_eq!(
        conv.try_convert_back(value("E1", vec![uint(123), flag(true), text("hello")])),
        Ok(value("E1", vec![uint(123), flag(true), text("hello")]))
    );
}

// Src<T> { E1(T) = 1, E2 = 2 } instantiated at T = usize and T = bool,
// against Dest1<T> { E1(T) = 1, E2 = 2, E3 = 3 } and
// Dest2<T, u8> { E1(T) = 1, E2 = 2, E4(u8) = 3 }.
fn src_generic_usize() -> TypeLayout {
    layout(16, 8, vec![variant("E1", 1, vec![pos(0, 8)]), variant("E2", 2, vec![])])
}

fn dest1_generic_usize() -> TypeLayout {
    layout(
        16,
        8,
        vec![
            variant("E1", 1, vec![pos(0, 8)]),
            variant("E2", 2, vec![]),
            variant("E3", 3, vec![]),
        ],
    )
}

fn src_generic_bool() -> TypeLayout {
    layout(2, 1, vec![variant("E1", 1, vec![pos(0, 1)]), variant("E2", 2, vec![])])
}

fn dest1_generic_bool() -> TypeLayout {
    layout(
        2,
        1,
        vec![
            variant("E1", 1, vec![pos(0, 1)]),
            variant("E2", 2, vec![]),
            variant("E3", 3, vec![]),
        ],
    )
}

fn dest2_generic_bool_u8() -> TypeLayout {
    layout(
        2,
        1,
        vec![
            variant("E1", 1, vec![pos(0, 1)]),
            variant("E2", 2, vec![]),
            variant("E4", 3, vec![pos(0, 1)]),
        ],
    )
}

#[test]
fn with_args() {
    let conv_usize = Conversion::new(src_generic_usize(), dest1_generic_usize()).unwrap();
    assert!(conv_usize.is_zero_copy());
    let conv_bool = Conversion::new(src_generic_bool(), dest1_generic_bool()).unwrap();
    assert_eq!(
        conv_bool.convert(value("E1", vec![flag(true)])),
        value("E1", vec![flag(true)])
    );
    assert_eq!(conv_bool.convert(value("E2", vec![])), value("E2", vec![]));
    let conv_bool2 = Conversion::new(src_generic_bool(), dest2_generic_bool_u8()).unwrap();
    assert_eq!(conv_bool2.convert(value("E2", vec![])), value("E2", vec![]));
}

// Src { E1(usize, &str, bool) tag=1 } to Target { E1 tag=1, E2 }: layouts
// identical for the one shared variant, so the verdict is positive.
// Src { E1(T) tag=1, E2 tag=2 } to Target { E1(T) tag=1, E2 tag=2, E3(U)
// tag=3 } at a resolved T that makes both types identical in size: the
// verdict is positive, and backward conversion of the target-only `E3(u)`
// fails returning that value unchanged.
#[test]
fn generic_pair_with_target_only_payload() {
    let src = layout(16, 8, vec![variant("E1", 1, vec![pos(0, 8)]), variant("E2", 2, vec![])]);
    let dst = layout(
        16,
        8,
        vec![
            variant("E1", 1, vec![pos(0, 8)]),
            variant("E2", 2, vec![]),
            variant("E3", 3, vec![pos(0, 8)]),
        ],
    );
    let conv = Conversion::new(src, dst).unwrap();
    assert!(conv.is_zero_copy());
    assert_eq!(
        conv.try_convert_back(value("E3", vec![uint(77)])),
        Err(value("E3", vec![uint(77)]))
    );
    assert_eq!(conv.try_convert_back(value("E2", vec![])), Ok(value("E2", vec![])));
}

#[test]
fn single_variant_zero_copy() {
    let src = layout(40, 8, vec![variant("E1", 1, vec![pos(0, 8), pos(1, 16), pos(2, 32)])]);
    let dst = layout(
        40,
        8,
        vec![variant("E1", 1, vec![pos(0, 8), pos(1, 16), pos(2, 32)]), variant("E2", 2, vec![])],
    );
    let conv = Conversion::new(src, dst).unwrap();
    assert!(conv.is_zero_copy());
    assert_eq!(
        conv.convert(value("E1", vec![uint(123), text("hello"), flag(true)])),
        value("E1", vec![uint(123), text("hello"), flag(true)])
    );
}

#[test]
fn round_trip_every_shared_variant() {
    let conv = Conversion::new(src_reordered(), dest_reordered()).unwrap();
    let samples = vec![
        value("E1", vec![uint(123), text("hello"), flag(true)]),
        value("E2", vec![uint(9), flag(true)]),
        value("E3", vec![]),
    ];
    for v in samples {
        let copy = v.clone();
        let forward = conv.convert(v);
        assert_eq!(conv.try_convert_back(forward), Ok(copy));
    }
}

#[test]
fn zero_copy_equivalence_both_paths() {
    // a pair where the verdict is positive: the fast path is taken by
    // convert, and must agree with the structural path
    let conv = Conversion::new(src_reordered(), dest_reordered()).unwrap();
    let v1 = value("E1", vec![uint(5), text("abc"), flag(false)]);
    let v2 = value("E1", vec![uint(5), text("abc"), flag(false)]);
    assert!(conv.is_zero_copy());
    assert_eq!(conv.convert(v1), conv.convert_structural(v2));
    // a pair where it is negative: convert itself goes structurally
    let conv2 = Conversion::new(src_tag1(), dest_tag2()).unwrap();
    let w1 = value("E1", vec![uint(7), flag(true), text("xyz")]);
    let w2 = value("E1", vec![uint(7), flag(true), text("xyz")]);
    assert!(!conv2.is_zero_copy());
    assert_eq!(conv2.convert(w1), conv2.convert_structural(w2));
}

#[test]
fn failure_preserves_value() {
    // a target-only variant that carries a payload: the failed backward
    // conversion returns the value with every field untouched
    let src = layout(16, 8, vec![variant("E1", 1, vec![pos(0, 8)])]);
    let dst = layout(
        16,
        8,
        vec![
            variant("E1", 1, vec![pos(0, 8)]),
            variant("E5", 2, vec![pos(0, 1), pos(1, 8)]),
        ],
    );
    let conv = Conversion::new(src, dst).unwrap();
    assert_eq!(
        conv.try_convert_back(value("E5", vec![uint(7), text("kept")])),
        Err(value("E5", vec![uint(7), text("kept")]))
    );
}

#[test]
fn verdict_is_deterministic() {
    let conv = Conversion::new(src_reordered(), dest_reordered()).unwrap();
    let a = conv.is_zero_copy();
    let b = conv.is_zero_copy();
    let c = conv.recompute_zero_copy();
    let d = conv.recompute_zero_copy();
    assert_eq!(a, b);
    assert_eq!(a, c);
    assert_eq!(a, d);
    let conv2 = Conversion::new(src_tag1(), dest_tag2()).unwrap();
    assert_eq!(conv2.is_zero_copy(), conv2.recompute_zero_copy());
}

#[test]
fn canonical_order_neutralizes_declaration_order() {
    // named fields declared in opposite orders, with equal per-name offsets
    let src = layout(8, 4, vec![variant("E1", 1, vec![named("beta", 4), named("alpha", 1)])]);
    let dst = layout(8, 4, vec![variant("E1", 1, vec![named("alpha", 1), named("beta", 4)])]);
    let conv = Conversion::new(src, dst).unwrap();
    assert!(conv.is_zero_copy());
    let roundabout = conv.convert(value("E1", vec![uint(1), uint(2)]));
    assert_eq!(roundabout, value("E1", vec![uint(1), uint(2)]));
}

#[test]
fn verdict_conditions_each_matter() {
    let base = |tag: u64, off: usize| {
        vec![variant("E1", tag, vec![pos(0, off)])]
    };
    // sizes differ
    let c = Conversion::new(layout(16, 8, base(1, 8)), layout(24, 8, base(1, 8))).unwrap();
    assert!(!c.is_zero_copy());
    // target alignment stricter than the source's
    let src = layout_of(TypeDecl { size: 16, align: 4, tag_size: 1, tag_align: 1, variants: base(1, 8) })
        .unwrap();
    let dst = layout_of(TypeDecl { size: 16, align: 8, tag_size: 1, tag_align: 1, variants: base(1, 8) })
        .unwrap();
    let c = Conversion::new(src, dst).unwrap();
    assert!(!c.is_zero_copy());
    // target alignment looser than the source's is fine
    let src = layout_of(TypeDecl { size: 16, align: 8, tag_size: 1, tag_align: 1, variants: base(1, 8) })
        .unwrap();
    let dst = layout_of(TypeDecl { size: 16, align: 4, tag_size: 1, tag_align: 1, variants: base(1, 8) })
        .unwrap();
    let c = Conversion::new(src, dst).unwrap();
    assert!(c.is_zero_copy());
    // tag representations differ
    let src = layout_of(TypeDecl { size: 16, align: 8, tag_size: 1, tag_align: 1, variants: base(1, 8) })
        .unwrap();
    let dst = layout_of(TypeDecl { size: 16, align: 8, tag_size: 4, tag_align: 4, variants: base(1, 8) })
        .unwrap();
    let c = Conversion::new(src, dst).unwrap();
    assert!(!c.is_zero_copy());
    // tag values differ
    let c = Conversion::new(layout(16, 8, base(1, 8)), layout(16, 8, base(2, 8))).unwrap();
    assert!(!c.is_zero_copy());
    // offsets differ
    let c = Conversion::new(layout(16, 8, base(1, 8)), layout(16, 8, base(1, 4))).unwrap();
    assert!(!c.is_zero_copy());
    // everything agrees
    let c = Conversion::new(layout(16, 8, base(1, 8)), layout(16, 8, base(1, 8))).unwrap();
    assert!(c.is_zero_copy());
}

#[test]
fn checker_is_queryable_independently() {
    // a source variant without a target counterpart also fails the checker
    let src = layout(16, 8, vec![variant("E1", 1, vec![pos(0, 8)]), variant("E9", 2, vec![])]);
    let dst = layout(16, 8, vec![variant("E1", 1, vec![pos(0, 8)])]);
    assert!(!is_zero_copy(&src, &dst));
    let a = layout(16, 8, vec![variant("E1", 1, vec![pos(0, 8)])]);
    let b = layout(16, 8, vec![variant("E1", 1, vec![pos(0, 8)])]);
    assert!(is_zero_copy(&a, &b));
}

#[test]
fn malformed_declarations_are_rejected() {
    // duplicate field keys within a variant
    assert!(layout_of(decl(16, 8, vec![variant("E1", 1, vec![pos(0, 8), pos(0, 12)])])).is_none());
    // duplicate variant names
    assert!(layout_of(decl(16, 8, vec![variant("E1", 1, vec![]), variant("E1", 2, vec![])]))
        .is_none());
    // empty variant name
    assert!(layout_of(decl(16, 8, vec![variant("", 1, vec![])])).is_none());
    // a byte outside letters, digits and underscore
    assert!(layout_of(decl(16, 8, vec![variant("E-1", 1, vec![])])).is_none());
    assert!(layout_of(decl(16, 8, vec![variant("E1", 1, vec![named("a-b", 8)])])).is_none());
    // a sound declaration passes
    assert!(layout_of(decl(16, 8, vec![variant("E1", 1, vec![named("a_b", 8)])])).is_some());
}

#[test]
fn unmatched_source_variant_forbids_conversion() {
    // a source variant the target lacks
    let src = layout(16, 8, vec![variant("E1", 1, vec![]), variant("E9", 2, vec![])]);
    let dst = layout(16, 8, vec![variant("E1", 1, vec![])]);
    assert!(Conversion::new(src, dst).is_none());
    // same names but different field key sets
    let src = layout(16, 8, vec![variant("E1", 1, vec![named("a", 8)])]);
    let dst = layout(16, 8, vec![variant("E1", 1, vec![named("b", 8)])]);
    assert!(Conversion::new(src, dst).is_none());
    // same names and field sets at different offsets still correspond
    let src = layout(16, 8, vec![variant("E1", 1, vec![named("a", 8)])]);
    let dst = layout(16, 8, vec![variant("E1", 1, vec![named("a", 4)])]);
    assert!(Conversion::new(src, dst).is_some());
}

#[test]
fn discriminant_and_offsets_read_back() {
    let src = src_reordered();
    assert_eq!(src.discriminant(&b"E1".to_vec()), 7);
    assert_eq!(src.discriminant(&b"E2".to_vec()), 5);
    assert_eq!(src.discriminant(&b"E3".to_vec()), 1);
    assert_eq!(src.offsets(&b"E1".to_vec()), vec![8, 16, 32]);
    assert_eq!(src.offsets(&b"E2".to_vec()), vec![1, 2]);
    assert_eq!(src.offsets(&b"E3".to_vec()), Vec::<usize>::new());
    // fields declared out of order are read back in canonical order
    let t = layout(8, 4, vec![variant("E1", 1, vec![named("beta", 4), named("alpha", 1)])]);
    assert_eq!(t.offsets(&b"E1".to_vec()), vec![1, 4]);
}
