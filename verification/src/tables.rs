//! The tables of RFC 1951 section 3.2.5: for each length code and each
//! distance code, the number of extra bits that follow it and the smallest
//! value it stands for.

use vstd::prelude::*;
use crate::bits::two_to;

verus! {

/// An entry of the length or the distance table: `bits` extra bits follow
/// the code, and the value is `len` plus the number those bits hold.
#[derive(Clone, Copy)]
pub struct Length {
    pub bits: u8,
    pub len: u16,
}

/// The entry for length code `257 + i`, for `i` below 29.
pub open spec fn length_table(i: usize) -> Length {
    match i {
        0 => Length { bits: 0, len: 3 },
        1 => Length { bits: 0, len: 4 },
        2 => Length { bits: 0, len: 5 },
        3 => Length { bits: 0, len: 6 },
        4 => Length { bits: 0, len: 7 },
        5 => Length { bits: 0, len: 8 },
        6 => Length { bits: 0, len: 9 },
        7 => Length { bits: 0, len: 10 },
        8 => Length { bits: 1, len: 11 },
        9 => Length { bits: 1, len: 13 },
        10 => Length { bits: 1, len: 15 },
        11 => Length { bits: 1, len: 17 },
        12 => Length { bits: 2, len: 19 },
        13 => Length { bits: 2, len: 23 },
        14 => Length { bits: 2, len: 27 },
        15 => Length { bits: 2, len: 31 },
        16 => Length { bits: 3, len: 35 },
        17 => Length { bits: 3, len: 43 },
        18 => Length { bits: 3, len: 51 },
        19 => Length { bits: 3, len: 59 },
        20 => Length { bits: 4, len: 67 },
        21 => Length { bits: 4, len: 83 },
        22 => Length { bits: 4, len: 99 },
        23 => Length { bits: 4, len: 115 },
        24 => Length { bits: 5, len: 131 },
        25 => Length { bits: 5, len: 163 },
        26 => Length { bits: 5, len: 195 },
        27 => Length { bits: 5, len: 227 },
        _ => Length { bits: 0, len: 258 },
    }
}

/// The entry for distance code `i`, for `i` below 30.
pub open spec fn distance_table(i: usize) -> Length {
    match i {
        0 => Length { bits: 0, len: 1 },
        1 => Length { bits: 0, len: 2 },
        2 => Length { bits: 0, len: 3 },
        3 => Length { bits: 0, len: 4 },
        4 => Length { bits: 1, len: 5 },
        5 => Length { bits: 1, len: 7 },
        6 => Length { bits: 2, len: 9 },
        7 => Length { bits: 2, len: 13 },
        8 => Length { bits: 3, len: 17 },
        9 => Length { bits: 3, len: 25 },
        10 => Length { bits: 4, len: 33 },
        11 => Length { bits: 4, len: 49 },
        12 => Length { bits: 5, len: 65 },
        13 => Length { bits: 5, len: 97 },
        14 => Length { bits: 6, len: 129 },
        15 => Length { bits: 6, len: 193 },
        16 => Length { bits: 7, len: 257 },
        17 => Length { bits: 7, len: 385 },
        18 => Length { bits: 8, len: 513 },
        19 => Length { bits: 8, len: 769 },
        20 => Length { bits: 9, len: 1025 },
        21 => Length { bits: 9, len: 1537 },
        22 => Length { bits: 10, len: 2049 },
        23 => Length { bits: 10, len: 3073 },
        24 => Length { bits: 11, len: 4097 },
        25 => Length { bits: 11, len: 6145 },
        26 => Length { bits: 12, len: 8193 },
        27 => Length { bits: 12, len: 12289 },
        28 => Length { bits: 13, len: 16385 },
        _ => Length { bits: 13, len: 24577 },
    }
}

/// The entry for length code `257 + i`.
pub fn length_entry(i: usize) -> (r: Length)
    requires
        i < 29,
    ensures
        r == length_table(i),
{
    match i {
        0 => Length { bits: 0, len: 3 },
        1 => Length { bits: 0, len: 4 },
        2 => Length { bits: 0, len: 5 },
        3 => Length { bits: 0, len: 6 },
        4 => Length { bits: 0, len: 7 },
        5 => Length { bits: 0, len: 8 },
        6 => Length { bits: 0, len: 9 },
        7 => Length { bits: 0, len: 10 },
        8 => Length { bits: 1, len: 11 },
        9 => Length { bits: 1, len: 13 },
        10 => Length { bits: 1, len: 15 },
        11 => Length { bits: 1, len: 17 },
        12 => Length { bits: 2, len: 19 },
        13 => Length { bits: 2, len: 23 },
        14 => Length { bits: 2, len: 27 },
        15 => Length { bits: 2, len: 31 },
        16 => Length { bits: 3, len: 35 },
        17 => Length { bits: 3, len: 43 },
        18 => Length { bits: 3, len: 51 },
        19 => Length { bits: 3, len: 59 },
        20 => Length { bits: 4, len: 67 },
        21 => Length { bits: 4, len: 83 },
        22 => Length { bits: 4, len: 99 },
        23 => Length { bits: 4, len: 115 },
        24 => Length { bits: 5, len: 131 },
        25 => Length { bits: 5, len: 163 },
        26 => Length { bits: 5, len: 195 },
        27 => Length { bits: 5, len: 227 },
        _ => Length { bits: 0, len: 258 },
    }
}

/// The entry for distance code `i`.
pub fn distance_entry(i: usize) -> (r: Length)
    requires
        i < 30,
    ensures
        r == distance_table(i),
{
    match i {
        0 => Length { bits: 0, len: 1 },
        1 => Length { bits: 0, len: 2 },
        2 => Length { bits: 0, len: 3 },
        3 => Length { bits: 0, len: 4 },
        4 => Length { bits: 1, len: 5 },
        5 => Length { bits: 1, len: 7 },
        6 => Length { bits: 2, len: 9 },
        7 => Length { bits: 2, len: 13 },
        8 => Length { bits: 3, len: 17 },
        9 => Length { bits: 3, len: 25 },
        10 => Length { bits: 4, len: 33 },
        11 => Length { bits: 4, len: 49 },
        12 => Length { bits: 5, len: 65 },
        13 => Length { bits: 5, len: 97 },
        14 => Length { bits: 6, len: 129 },
        15 => Length { bits: 6, len: 193 },
        16 => Length { bits: 7, len: 257 },
        17 => Length { bits: 7, len: 385 },
        18 => Length { bits: 8, len: 513 },
        19 => Length { bits: 8, len: 769 },
        20 => Length { bits: 9, len: 1025 },
        21 => Length { bits: 9, len: 1537 },
        22 => Length { bits: 10, len: 2049 },
        23 => Length { bits: 10, len: 3073 },
        24 => Length { bits: 11, len: 4097 },
        25 => Length { bits: 11, len: 6145 },
        26 => Length { bits: 12, len: 8193 },
        27 => Length { bits: 12, len: 12289 },
        28 => Length { bits: 13, len: 16385 },
        _ => Length { bits: 13, len: 24577 },
    }
}

/// The length codes 257 to 284 cover the lengths 3 to 258 without gap or
/// overlap: the values of one code (its `len` plus a number of `bits` bits)
/// end just below the first value of the next code. Code 285 stands for 258
/// alone.
pub proof fn law_length_ranges_adjacent(i: usize)
    requires
        i < 27,
    ensures
        length_table(i).len + two_to(length_table(i).bits as nat) == length_table(
            (i + 1) as usize,
        ).len,
        length_table(0).len == 3,
        length_table(27).len + two_to(length_table(27).bits as nat) - 1 == 258,
        length_table(28).len == 258 && length_table(28).bits == 0,
{
    reveal_with_fuel(two_to, 6);
}

/// The distance codes 0 to 29 cover the distances 1 to 32768 without gap or
/// overlap: the values of one code end just below the first value of the
/// next code.
pub proof fn law_distance_ranges_adjacent(i: usize)
    requires
        i < 29,
    ensures
        distance_table(i).len + two_to(distance_table(i).bits as nat) == distance_table(
            (i + 1) as usize,
        ).len,
        distance_table(0).len == 1,
        distance_table(29).len + two_to(distance_table(29).bits as nat) - 1 == 32768,
{
    reveal_with_fuel(two_to, 14);
}

/// The extra bits of length code `257 + i` by RFC 1951 section 3.2.5: none
/// for the first eight codes, then one more for every four codes.
pub open spec fn rfc_length_bits(i: int) -> nat {
    if i < 8 {
        0
    } else {
        (i / 4 - 1) as nat
    }
}

/// The number of lengths that the length codes `257` to `257 + i - 1` stand for.
pub open spec fn rfc_length_span(i: int) -> nat
    decreases i,
{
    if i <= 0 {
        0
    } else {
        rfc_length_span(i - 1) + two_to(rfc_length_bits(i - 1))
    }
}

/// The extra bits of distance code `i` by RFC 1951 section 3.2.5: none for
/// the first four codes, then one more for every two codes.
pub open spec fn rfc_distance_bits(i: int) -> nat {
    if i < 4 {
        0
    } else {
        (i / 2 - 1) as nat
    }
}

/// The number of distances that the distance codes `0` to `i - 1` stand for.
pub open spec fn rfc_distance_span(i: int) -> nat
    decreases i,
{
    if i <= 0 {
        0
    } else {
        rfc_distance_span(i - 1) + two_to(rfc_distance_bits(i - 1))
    }
}

/// Length codes 257 to 284 follow RFC 1951 section 3.2.5: code `257 + i`
/// has `rfc_length_bits(i)` extra bits and stands for the lengths from
/// `3` plus the lengths of all codes before it on.
pub proof fn law_length_table_is_rfc(i: usize)
    requires
        i < 28,
    ensures
        length_table(i).bits == rfc_length_bits(i as int),
        length_table(i).len == 3 + rfc_length_span(i as int),
    decreases i,
{
    if i > 0 {
        law_length_table_is_rfc((i - 1) as usize);
        law_length_ranges_adjacent((i - 1) as usize);
        assert(rfc_length_span(i as int) == rfc_length_span(i - 1) + two_to(rfc_length_bits(i - 1)));
    }
}

/// Distance codes 0 to 29 follow RFC 1951 section 3.2.5: code `i` has
/// `rfc_distance_bits(i)` extra bits and stands for the distances from `1`
/// plus the distances of all codes before it on.
pub proof fn law_distance_table_is_rfc(i: usize)
    requires
        i < 30,
    ensures
        distance_table(i).bits == rfc_distance_bits(i as int),
        distance_table(i).len == 1 + rfc_distance_span(i as int),
    decreases i,
{
    if i > 0 {
        law_distance_table_is_rfc((i - 1) as usize);
        law_distance_ranges_adjacent((i - 1) as usize);
        assert(rfc_distance_span(i as int) == rfc_distance_span(i - 1) + two_to(
            rfc_distance_bits(i - 1),
        ));
    }
}

} // verus!
