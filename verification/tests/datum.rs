use postgres_extension::postgres::{DatumGetInt32, Int32GetDatum, NullableDatum};
use postgres_extension::fmgr::{getarg_value, FUNC_MAX_ARGS};

#[test]
fn int32_datum_of_non_negative_is_the_number() {
    assert_eq!(Int32GetDatum(0), 0);
    assert_eq!(Int32GetDatum(1), 1);
    assert_eq!(Int32GetDatum(i32::MAX), 0x7fff_ffff);
}

#[test]
fn int32_datum_of_negative_is_sign_extended() {
    assert_eq!(Int32GetDatum(-1), usize::MAX);
    assert_eq!(Int32GetDatum(-2), usize::MAX - 1);
    assert_eq!(Int32GetDatum(i32::MIN), usize::MAX - 0x7fff_ffff);
}

#[test]
fn datum_int32_reads_the_low_32_bits() {
    assert_eq!(DatumGetInt32(5), 5);
    assert_eq!(DatumGetInt32(0x8000_0000), i32::MIN);
    assert_eq!(DatumGetInt32(0xffff_ffff), -1);
    assert_eq!(DatumGetInt32(usize::MAX), -1);
}

#[test]
fn int32_round_trips_through_datum() {
    for x in [i32::MIN, -65536, -1000, -1, 0, 1, 42, 65535, i32::MAX] {
        assert_eq!(DatumGetInt32(Int32GetDatum(x)), x);
    }
    let mut x: i64 = i32::MIN as i64;
    while x <= i32::MAX as i64 {
        assert_eq!(DatumGetInt32(Int32GetDatum(x as i32)), x as i32);
        x += 65_537;
    }
}

#[test]
fn datum_round_trips_only_when_sign_extended() {
    assert_eq!(Int32GetDatum(DatumGetInt32(7)), 7);
    assert_eq!(Int32GetDatum(DatumGetInt32(usize::MAX)), usize::MAX);
    assert_eq!(Int32GetDatum(DatumGetInt32(0x8000_0000)), usize::MAX - 0x7fff_ffff);
    assert_ne!(Int32GetDatum(DatumGetInt32(0x8000_0000)), 0x8000_0000);
}

#[test]
fn getarg_value_returns_the_datum_of_a_non_null_argument() {
    let args = [
        NullableDatum { value: 11, isnull: false },
        NullableDatum { value: 0, isnull: true },
        NullableDatum { value: 33, isnull: false },
    ];
    assert_eq!(getarg_value(3, &args, 0, true), Some(11));
    assert_eq!(getarg_value(3, &args, 2, false), Some(33));
}

#[test]
fn getarg_value_returns_none_for_null_in_non_strict_function() {
    let args = [
        NullableDatum { value: 11, isnull: false },
        NullableDatum { value: 99, isnull: true },
    ];
    assert_eq!(getarg_value(2, &args, 1, false), None);
}

#[test]
fn func_max_args_is_one_hundred() {
    assert_eq!(FUNC_MAX_ARGS, 100);
}
