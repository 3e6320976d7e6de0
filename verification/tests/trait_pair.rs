use fast_enum_conversion::pair::{SourceOne, TargetOne};
use fast_enum_conversion::ConvertTo;

#[test]
fn declared_pair_converts_and_comes_back() {
    assert_eq!(
        SourceOne::E1(123, b"hello".to_vec(), true).convert_to(),
        TargetOne::E1(123, b"hello".to_vec(), true)
    );
    assert_eq!(
        SourceOne::E1(123, b"hello".to_vec(), true).convert_to_slow(),
        TargetOne::E1(123, b"hello".to_vec(), true)
    );
    assert_eq!(
        <SourceOne as ConvertTo<TargetOne>>::try_convert_from(TargetOne::E1(
            7,
            b"x".to_vec(),
            false
        )),
        Ok(SourceOne::E1(7, b"x".to_vec(), false))
    );
    assert_eq!(
        <SourceOne as ConvertTo<TargetOne>>::try_convert_from(TargetOne::E2),
        Err(TargetOne::E2)
    );
}

#[test]
fn declared_pair_round_trip() {
    let v = SourceOne::E1(9, b"abc".to_vec(), false);
    let forward = SourceOne::E1(9, b"abc".to_vec(), false).convert_to();
    assert_eq!(
        <SourceOne as ConvertTo<TargetOne>>::try_convert_from(forward),
        Ok(v)
    );
    assert!(!<SourceOne as ConvertTo<TargetOne>>::is_zerocost());
}
