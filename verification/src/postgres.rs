use vstd::prelude::*;

verus! {

/// Postgres passes every SQL value through an unsigned machine word.
pub type Datum = usize;

/// An argument slot of a function call: the word and whether it is SQL NULL.
pub struct NullableDatum {
    pub value: Datum,
    pub isnull: bool,
}

/// The word that carries `val`: its two's-complement bits, sign-extended to
/// the width of a machine word.
pub open spec fn int32_datum(val: i32) -> int {
    if val >= 0 {
        val as int
    } else {
        val as int + usize::MAX as int + 1
    }
}

/// The `i32` read back from a word: its low 32 bits taken as two's complement.
pub open spec fn datum_int32(val: usize) -> int {
    let low = (val as int) % 0x1_0000_0000;
    if low < 0x8000_0000 {
        low
    } else {
        low - 0x1_0000_0000
    }
}

/// Stores an `i32` in a datum.
pub fn Int32GetDatum(val: i32) -> (d: Datum)
    ensures
        d as int == int32_datum(val),
        val >= 0 ==> d as int == val as int,
        val < 0 ==> d as int == val as int + usize::MAX as int + 1,
{
    let d = val as Datum;
    assert(val >= 0 ==> d as int == val as int) by (bit_vector)
        requires d == val as usize;
    assert(val < 0 ==> d as int == val as int + (!0usize) as int + 1) by (bit_vector)
        requires d == val as usize;
    let ghost m: usize = usize::MAX;
    assert(m <= !0usize) by (bit_vector);
    d
}

/// Reads an `i32` out of a datum.
pub fn DatumGetInt32(val: Datum) -> (r: i32)
    ensures
        r as int == datum_int32(val),
        (r as int - val as int) % 0x1_0000_0000 == 0,
        val < 0x8000_0000 ==> r as int == val as int,
{
    let r = val as i32;
    assert(r as int == datum_int32(val)) by (bit_vector)
        requires r == val as i32;
    r
}

/// The datum of an `i32` is the number itself when it is not negative, and
/// the number plus `2^N` (its sign extension to an `N`-bit word) when it is
/// negative; in both cases it is a valid word that agrees with the number
/// modulo `2^32`.
pub proof fn lemma_int32_datum_is_sign_extension(x: i32)
    ensures
        x >= 0 ==> int32_datum(x) == x as int,
        x < 0 ==> int32_datum(x) == x as int + usize::MAX as int + 1,
        0 <= int32_datum(x) <= usize::MAX,
        (int32_datum(x) - x as int) % 0x1_0000_0000 == 0,
{
    assert(usize::MAX == 0xffff_ffff || usize::MAX == 0xffff_ffff_ffff_ffff);
}

/// The `i32` read from a datum is the one `i32` that agrees with the datum
/// modulo `2^32`: it lies in `i32`'s range and differs from the datum by a
/// multiple of `2^32`; a datum below `2^31` reads back as itself.
pub proof fn lemma_datum_int32_is_low_word(d: usize)
    ensures
        -0x8000_0000 <= datum_int32(d) < 0x8000_0000,
        (datum_int32(d) - d as int) % 0x1_0000_0000 == 0,
        d < 0x8000_0000 ==> datum_int32(d) == d as int,
{
}

/// Reading an `i32` back out of the datum that stores it gives the same
/// `i32`: `DatumGetInt32(Int32GetDatum(x)) == x` for every `x`.
pub proof fn lemma_int32_datum_round_trip(x: i32)
    ensures
        0 <= int32_datum(x) <= usize::MAX,
        datum_int32(int32_datum(x) as usize) == x as int,
{
    assert(usize::MAX == 0xffff_ffff || usize::MAX == 0xffff_ffff_ffff_ffff);
}

/// A datum survives the trip through `i32` (`Int32GetDatum(DatumGetInt32(d))
/// == d`) exactly when it is the sign extension of some `i32`: below `2^31`,
/// or within `2^31` of the top of the word.
pub proof fn lemma_datum_int32_round_trip(d: usize)
    ensures
        -0x8000_0000 <= datum_int32(d) < 0x8000_0000,
        int32_datum(datum_int32(d) as i32) == d as int
            <==> (d < 0x8000_0000 || d as int >= usize::MAX as int + 1 - 0x8000_0000),
{
    assert(usize::MAX == 0xffff_ffff || usize::MAX == 0xffff_ffff_ffff_ffff);
}

} // verus!
