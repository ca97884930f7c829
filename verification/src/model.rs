//! What decoding a DEFLATE stream yields, stated over the input's bits and
//! the output buffer as sequences.
//!
//! A run of the decoder ends in one of three ways: it finishes, with a count,
//! a bit position and the buffer's new contents; it rejects the data, with
//! the buffer as it stands; or it faults, where the decoder would index out
//! of a buffer or a table, read past the end of the input, or overflow its
//! arithmetic.

use vstd::prelude::*;
use crate::bits::{align_up, bit_at, fits, lsb_value, msb_value};
use crate::huffman::{build_faults, read_symbol, Lookup};
use crate::tables::{distance_table, length_table};

verus! {

/// How a run of the decoder ends.
pub enum Run {
    /// It finished: `value` is its result, `pos` the next bit to read, `buf`
    /// the output buffer.
    Done { value: int, pos: int, buf: Seq<u8> },
    /// It rejected the data, leaving the output buffer as `buf`.
    Invalid { buf: Seq<u8> },
    /// It faulted.
    Fault,
}

/// `buf` after copying `length` bytes, one at a time, from `distance` bytes
/// back to position `cur` on: a byte copied may be one that the same copy
/// wrote.
pub open spec fn copy_bytes(buf: Seq<u8>, cur: int, distance: int, length: int) -> Seq<u8>
    decreases length,
{
    if length <= 0 {
        buf
    } else {
        copy_bytes(buf.update(cur, buf[cur - distance]), cur + 1, distance, length - 1)
    }
}

pub proof fn lemma_copy_bytes_len(buf: Seq<u8>, cur: int, distance: int, length: int)
    requires
        length <= 0 || (0 <= cur && cur + length <= buf.len()),
    ensures
        copy_bytes(buf, cur, distance, length).len() == buf.len(),
    decreases length,
{
    if length > 0 {
        lemma_copy_bytes_len(buf.update(cur, buf[cur - distance]), cur + 1, distance, length - 1);
    }
}

/// After a back-reference copy, each of the `length` bytes written equals
/// the byte `distance` positions before it in the result, and every byte
/// outside the written range keeps its value.
pub proof fn law_copy_repeats(buf: Seq<u8>, cur: int, distance: int, length: int)
    requires
        0 <= distance <= cur,
        0 <= length,
        cur + length <= buf.len(),
    ensures
        copy_bytes(buf, cur, distance, length).len() == buf.len(),
        forall|i: int|
            cur <= i < cur + length ==> #[trigger] copy_bytes(buf, cur, distance, length)[i]
                == copy_bytes(buf, cur, distance, length)[i - distance],
        forall|i: int|
            0 <= i < buf.len() && !(cur <= i < cur + length) ==> #[trigger] copy_bytes(
                buf,
                cur,
                distance,
                length,
            )[i] == buf[i],
    decreases length,
{
    lemma_copy_bytes_len(buf, cur, distance, length);
    if length > 0 {
        let b1 = buf.update(cur, buf[cur - distance]);
        law_copy_repeats(b1, cur + 1, distance, length - 1);
        let r = copy_bytes(buf, cur, distance, length);
        assert(r == copy_bytes(b1, cur + 1, distance, length - 1));
        assert(r[cur] == b1[cur]);
        assert(distance > 0 ==> r[cur - distance] == b1[cur - distance]);
    }
}

/// A back-reference inside the window of `buf` that starts at `lo`: `None`
/// where it reaches before the window or writes past the buffer's end.
pub open spec fn copy_run(buf: Seq<u8>, lo: int, cur: int, distance: int, length: int) -> Option<
    Seq<u8>,
> {
    if distance > cur - lo || (length > 0 && cur + length > buf.len()) {
        None
    } else {
        Some(copy_bytes(buf, cur, distance, length))
    }
}

/// The length that a length code stands for, from its extra bits at `p`
/// (least significant first): `(length, next position)`, or `None` where the
/// table or the data ends.
pub open spec fn length_value(data: Seq<u8>, p: int, code: int) -> Option<(int, int)> {
    let i = code - 257;
    if i < 0 || i >= 29 {
        None
    } else {
        let e = length_table(i as usize);
        if !fits(data, p, e.bits as nat) {
            None
        } else {
            Some((e.len + lsb_value(data, p, e.bits as nat), p + e.bits))
        }
    }
}

/// The distance that distance code `i` stands for, from the extra bits at
/// `p`: `(distance, next position)`, or `None` where the table or the data
/// ends.
pub open spec fn distance_value(data: Seq<u8>, p: int, i: int) -> Option<(int, int)> {
    if i < 0 || i >= 30 {
        None
    } else {
        let e = distance_table(i as usize);
        if !fits(data, p, e.bits as nat) {
            None
        } else {
            Some((e.len + lsb_value(data, p, e.bits as nat), p + e.bits))
        }
    }
}

/// A length/distance pair of a block with fixed codes, from position `p` on,
/// for length code `code`: the buffer after the copy, the next position and
/// the next output position; `None` where it faults. The 5-bit distance
/// code is read most significant bit first, as Huffman codes are; extra bits
/// are read least significant bit first.
pub open spec fn static_pair(data: Seq<u8>, buf: Seq<u8>, p: int, cur: int, code: int) -> Option<
    (Seq<u8>, int, int),
> {
    match length_value(data, p, code) {
        None => None,
        Some((length, q)) => if !fits(data, q, 5) {
            None
        } else {
            match distance_value(data, q + 5, msb_value(data, q, 5) as int) {
                None => None,
                Some((distance, q2)) => match copy_run(buf, 0, cur, distance, length) {
                    None => None,
                    Some(b) => Some((b, q2, cur + length)),
                },
            }
        },
    }
}

pub proof fn lemma_static_pair_advances(
    data: Seq<u8>,
    buf: Seq<u8>,
    p: int,
    cur: int,
    code: int,
)
    requires
        p >= 0,
    ensures
        static_pair(data, buf, p, cur, code) matches Some((b, q, c)) ==> p < q <= 8
            * data.len(),
{
}

/// A block with fixed Huffman codes, from bit position `p`, writing at `cur`;
/// the value when it finishes is `cur - out_pos`.
pub open spec fn static_block(data: Seq<u8>, buf: Seq<u8>, p: int, cur: int, out_pos: int) -> Run
    decreases 8 * data.len() - p,
{
    if p < 0 || !fits(data, p, 7) {
        Run::Fault
    } else {
        let cmd = msb_value(data, p, 7) as int;
        if cmd <= 23 {
            if cmd == 0 {
                Run::Done { value: cur - out_pos, pos: p + 7, buf }
            } else {
                match static_pair(data, buf, p + 7, cur, 256 + cmd) {
                    None => Run::Fault,
                    Some((b, q, c)) => {
                        proof {
                            lemma_static_pair_advances(data, buf, p + 7, cur, 256 + cmd);
                        }
                        static_block(data, b, q, c, out_pos)
                    },
                }
            }
        } else if !fits(data, p + 7, 1) {
            Run::Fault
        } else {
            let cmd8 = cmd * 2 + bit_at(data, p + 7);
            if 48 <= cmd8 <= 191 {
                if cur < 0 || cur >= buf.len() {
                    Run::Fault
                } else {
                    static_block(data, buf.update(cur, (cmd8 - 48) as u8), p + 8, cur + 1, out_pos)
                }
            } else if 192 <= cmd8 <= 199 {
                let code = 280 + (cmd8 - 192);
                if code == 286 || code == 287 {
                    Run::Invalid { buf }
                } else {
                    match static_pair(data, buf, p + 8, cur, code) {
                        None => Run::Fault,
                        Some((b, q, c)) => {
                            proof {
                                lemma_static_pair_advances(data, buf, p + 8, cur, code);
                            }
                            static_block(data, b, q, c, out_pos)
                        },
                    }
                }
            } else if !fits(data, p + 8, 1) {
                Run::Fault
            } else {
                let cmd9 = cmd8 * 2 + bit_at(data, p + 8);
                if 400 <= cmd9 <= 511 {
                    if cur < 0 || cur >= buf.len() {
                        Run::Fault
                    } else {
                        static_block(
                            data,
                            buf.update(cur, (144 + (cmd9 - 400)) as u8),
                            p + 9,
                            cur + 1,
                            out_pos,
                        )
                    }
                } else {
                    Run::Invalid { buf }
                }
            }
        }
    }
}


/// Where the `i`-th code length of the code length alphabet goes
/// (RFC 1951 section 3.2.7).
pub open spec fn code_length_order(i: int) -> int {
    if i == 0 { 16 } else if i == 1 { 17 } else if i == 2 { 18 } else if i == 3 { 0 }
    else if i == 4 { 8 } else if i == 5 { 7 } else if i == 6 { 9 } else if i == 7 { 6 }
    else if i == 8 { 10 } else if i == 9 { 5 } else if i == 10 { 11 } else if i == 11 { 4 }
    else if i == 12 { 12 } else if i == 13 { 3 } else if i == 14 { 13 } else if i == 15 { 2 }
    else if i == 16 { 14 } else if i == 17 { 1 } else { 15 }
}

/// The order in which RFC 1951 section 3.2.7 lists the code lengths of the
/// code length alphabet.
pub open spec fn rfc_code_length_order() -> Seq<int> {
    seq![16int, 17, 18, 0, 8, 7, 9, 6, 10, 5, 11, 4, 12, 3, 13, 2, 14, 1, 15]
}

/// The `i`-th code length of the code length alphabet goes to the `i`-th
/// symbol of the order that RFC 1951 section 3.2.7 gives.
pub proof fn law_code_length_order_is_rfc()
    ensures
        rfc_code_length_order().len() == 19,
        forall|i: int| 0 <= i < 19 ==> #[trigger] code_length_order(i) == rfc_code_length_order()[i],
{
    let order = rfc_code_length_order();
    assert(order =~= seq![16int, 17, 18, 0, 8, 7, 9, 6, 10, 5, 11, 4, 12, 3, 13, 2, 14, 1, 15]);
    assert(order.len() == 19);
    assert(order[0] == 16 && order[1] == 17 && order[2] == 18 && order[3] == 0);
    assert(order[4] == 8 && order[5] == 7 && order[6] == 9 && order[7] == 6);
    assert(order[8] == 10 && order[9] == 5 && order[10] == 11 && order[11] == 4);
    assert(order[12] == 12 && order[13] == 3 && order[14] == 13 && order[15] == 2);
    assert(order[16] == 14 && order[17] == 1 && order[18] == 15);
    assert forall|i: int| 0 <= i < 19 implies #[trigger] code_length_order(i) == order[i] by {
        assert(i == 0 || i == 1 || i == 2 || i == 3 || i == 4 || i == 5 || i == 6 || i == 7 || i
            == 8 || i == 9 || i == 10 || i == 11 || i == 12 || i == 13 || i == 14 || i == 15 || i
            == 16 || i == 17 || i == 18);
    }
}

/// The 19 code lengths of the code length alphabet, after reading `k` of
/// them, 3 bits each, from position `p`; the others are 0.
pub open spec fn code_length_lens(data: Seq<u8>, p: int, k: int) -> Seq<u8>
    decreases k,
{
    if k <= 0 {
        Seq::new(19, |i: int| 0u8)
    } else {
        code_length_lens(data, p, k - 1).update(
            code_length_order(k - 1),
            lsb_value(data, p + 3 * (k - 1), 3) as u8,
        )
    }
}

proof fn lemma_rfc_order_distinct()
    ensures
        forall|i: int, j: int|
            0 <= i < 19 && 0 <= j < 19 && i != j ==> rfc_code_length_order()[i]
                != rfc_code_length_order()[j],
        forall|i: int| 0 <= i < 19 ==> 0 <= #[trigger] rfc_code_length_order()[i] < 19,
{
    law_code_length_order_is_rfc();
    let order = rfc_code_length_order();
    let position = |x: int|
        if x == 16 { 0int } else if x == 17 { 1 } else if x == 18 { 2 } else if x == 0 { 3 }
        else if x == 8 { 4 } else if x == 7 { 5 } else if x == 9 { 6 } else if x == 6 { 7 }
        else if x == 10 { 8 } else if x == 5 { 9 } else if x == 11 { 10 } else if x == 4 { 11 }
        else if x == 12 { 12 } else if x == 3 { 13 } else if x == 13 { 14 } else if x == 2 { 15 }
        else if x == 14 { 16 } else if x == 1 { 17 } else { 18 };
    assert forall|i: int| 0 <= i < 19 implies position(#[trigger] order[i]) == i && 0 <= order[i]
        < 19 by {
        assert(code_length_order(i) == order[i]);
        assert(i == 0 || i == 1 || i == 2 || i == 3 || i == 4 || i == 5 || i == 6 || i == 7 || i
            == 8 || i == 9 || i == 10 || i == 11 || i == 12 || i == 13 || i == 14 || i == 15 || i
            == 16 || i == 17 || i == 18);
    }
    assert forall|i: int, j: int|
        0 <= i < 19 && 0 <= j < 19 && i != j implies order[i] != order[j] by {
        assert(position(order[i]) == i);
        assert(position(order[j]) == j);
    }
}

/// Reading `k` code lengths of the code length alphabet gives the `j`-th
/// 3-bit value, least significant bit first, to the `j`-th symbol of the
/// order of RFC 1951 section 3.2.7 for each `j` below `k`, and length 0 to
/// the symbols not reached.
pub proof fn law_code_length_lens_follow_rfc_order(data: Seq<u8>, p: int, k: int)
    requires
        0 <= k <= 19,
    ensures
        code_length_lens(data, p, k).len() == 19,
        forall|j: int|
            0 <= j < 19 ==> #[trigger] code_length_lens(data, p, k)[rfc_code_length_order()[j]]
                == if j < k {
                lsb_value(data, p + 3 * j, 3) as u8
            } else {
                0u8
            },
    decreases k,
{
    law_code_length_order_is_rfc();
    lemma_rfc_order_distinct();
    let order = rfc_code_length_order();
    if k > 0 {
        law_code_length_lens_follow_rfc_order(data, p, k - 1);
        let prev = code_length_lens(data, p, k - 1);
        assert(code_length_order(k - 1) == order[k - 1]);
        assert forall|j: int| 0 <= j < 19 implies #[trigger] code_length_lens(data, p, k)[order[j]]
            == if j < k {
            lsb_value(data, p + 3 * j, 3) as u8
        } else {
            0u8
        } by {
            if j != k - 1 {
                assert(order[j] != order[k - 1]);
                assert(prev[order[j]] == if j < k - 1 {
                    lsb_value(data, p + 3 * j, 3) as u8
                } else {
                    0u8
                });
            }
        }
    } else {
        assert forall|j: int| 0 <= j < 19 implies #[trigger] code_length_lens(data, p, k)[order[j]]
            == 0u8 by {
            assert(0 <= order[j] < 19);
        }
    }
}

/// Appends `v` to the literal/length code lengths `d` while they number
/// fewer than `hlit`, else to the distance code lengths `o` while they
/// number fewer than `hdist`, else drops it.
pub open spec fn put_either(d: Seq<u8>, o: Seq<u8>, hlit: int, hdist: int, v: u8) -> (
    Seq<u8>,
    Seq<u8>,
) {
    if d.len() < hlit {
        (d.push(v), o)
    } else if o.len() < hdist {
        (d, o.push(v))
    } else {
        (d, o)
    }
}

/// `put_either` done `n` times.
pub open spec fn put_repeat(d: Seq<u8>, o: Seq<u8>, hlit: int, hdist: int, v: u8, n: int) -> (
    Seq<u8>,
    Seq<u8>,
)
    decreases n,
{
    if n <= 0 {
        (d, o)
    } else {
        let (d1, o1) = put_either(d, o, hlit, hdist, v);
        put_repeat(d1, o1, hlit, hdist, v, n - 1)
    }
}

/// The last code length read so far: the last distance code length, else
/// the last literal/length code length; `None` before the first.
pub open spec fn last_length(d: Seq<u8>, o: Seq<u8>) -> Option<u8> {
    if o.len() > 0 {
        Some(o.last())
    } else if d.len() > 0 {
        Some(d.last())
    } else {
        None
    }
}

/// How many code lengths are still to be read.
pub open spec fn lens_missing(d: Seq<u8>, o: Seq<u8>, hlit: int, hdist: int) -> int {
    (if d.len() < hlit {
        hlit - d.len()
    } else {
        0
    }) + (if o.len() < hdist {
        hdist - o.len()
    } else {
        0
    })
}

/// How reading the code lengths of a block with dynamic codes ends.
pub enum LensRun {
    /// The literal/length and distance code lengths, and the next position.
    Done { lit: Seq<u8>, dist: Seq<u8>, pos: int },
    Invalid,
    Fault,
}

/// Reads code lengths, coded with the code lengths `zlens`, from position
/// `p`, until `hlit` literal/length and `hdist` distance code lengths are
/// known. The two lists are read as one sequence (RFC 1951 section 3.2.7):
/// symbols 0 to 15 are lengths; 16 repeats the last length read
/// 3 + (2 extra bits) times, and is refused before any length; 17 and 18
/// give 3 + (3 extra bits) and 11 + (7 extra bits) zero lengths. Lengths
/// beyond the two lists are dropped.
pub open spec fn lengths_run(
    zlens: Seq<u8>,
    data: Seq<u8>,
    p: int,
    d: Seq<u8>,
    o: Seq<u8>,
    hlit: int,
    hdist: int,
) -> LensRun
    decreases lens_missing(d, o, hlit, hdist),
{
    if d.len() >= hlit && o.len() >= hdist {
        LensRun::Done { lit: d, dist: o, pos: p }
    } else {
        match read_symbol(zlens, data, p) {
            (Lookup::Found(sym), q) => {
                let cmd = sym as u8;
                if cmd <= 15 {
                    let (d1, o1) = put_either(d, o, hlit, hdist, cmd);
                    lengths_run(zlens, data, q, d1, o1, hlit, hdist)
                } else if cmd == 16 {
                    if !fits(data, q, 2) {
                        LensRun::Fault
                    } else {
                        match last_length(d, o) {
                            None => LensRun::Invalid,
                            Some(v) => {
                                let count = lsb_value(data, q, 2) + 3int;
                                let (d1, o1) = put_repeat(d, o, hlit, hdist, v, count);
                                proof {
                                    lemma_put_repeat_progress(d, o, hlit, hdist, v, count);
                                }
                                lengths_run(zlens, data, q + 2, d1, o1, hlit, hdist)
                            },
                        }
                    }
                } else if cmd == 17 || cmd == 18 {
                    let bits: nat = if cmd == 17 {
                        3
                    } else {
                        7
                    };
                    let least: int = if cmd == 17 {
                        3
                    } else {
                        11
                    };
                    if !fits(data, q, bits) {
                        LensRun::Fault
                    } else {
                        let count = lsb_value(data, q, bits) + least;
                        let (d1, o1) = put_repeat(d, o, hlit, hdist, 0, count);
                        proof {
                            lemma_put_repeat_progress(d, o, hlit, hdist, 0, count);
                        }
                        lengths_run(zlens, data, q + bits, d1, o1, hlit, hdist)
                    }
                } else {
                    LensRun::Invalid
                }
            },
            _ => LensRun::Fault,
        }
    }
}

pub proof fn lemma_put_repeat_progress(d: Seq<u8>, o: Seq<u8>, hlit: int, hdist: int, v: u8, n: int)
    requires
        n >= 1,
        d.len() < hlit || o.len() < hdist,
    ensures
        lens_missing(put_repeat(d, o, hlit, hdist, v, n).0, put_repeat(d, o, hlit, hdist, v, n).1, hlit, hdist)
            < lens_missing(d, o, hlit, hdist),
    decreases n,
{
    let (d1, o1) = put_either(d, o, hlit, hdist, v);
    assert(put_repeat(d, o, hlit, hdist, v, n) == put_repeat(d1, o1, hlit, hdist, v, n - 1));
    assert(lens_missing(d1, o1, hlit, hdist) < lens_missing(d, o, hlit, hdist));
    if n > 1 {
        if d1.len() < hlit || o1.len() < hdist {
            lemma_put_repeat_progress(d1, o1, hlit, hdist, v, n - 1);
        } else {
            lemma_put_repeat_full(d1, o1, hlit, hdist, v, n - 1);
        }
    } else {
        assert(put_repeat(d1, o1, hlit, hdist, v, 0) == (d1, o1));
    }
}

pub proof fn lemma_put_repeat_full(d: Seq<u8>, o: Seq<u8>, hlit: int, hdist: int, v: u8, n: int)
    requires
        d.len() >= hlit && o.len() >= hdist,
    ensures
        put_repeat(d, o, hlit, hdist, v, n) == (d, o),
    decreases n,
{
    if n > 0 {
        lemma_put_repeat_full(d, o, hlit, hdist, v, n - 1);
    }
}

/// A code read from `p` ends after `p`, within the data.
pub proof fn lemma_read_symbol_advances(lens: Seq<u8>, data: Seq<u8>, p: int, l: int)
    requires
        p >= 0,
        l >= 1,
    ensures
        crate::huffman::read_symbol_from(lens, data, p, l) matches (Lookup::Found(_), q) ==> p < q
            <= 8 * data.len(),
    decreases 17 - l,
{
    if l <= 15 {
        lemma_read_symbol_advances(lens, data, p, l + 1);
    }
}

/// The literals and length/distance pairs of a block with dynamic codes,
/// from position `p`, writing at `start + cur`; the value when it finishes
/// is `cur`.
pub open spec fn dynamic_symbols(
    lit: Seq<u8>,
    dist: Seq<u8>,
    data: Seq<u8>,
    buf: Seq<u8>,
    p: int,
    start: int,
    cur: int,
) -> Run
    decreases 8 * data.len() - p,
{
    if p < 0 {
        Run::Fault
    } else {
        match read_symbol(lit, data, p) {
            (Lookup::Found(x), q) => {
                proof {
                    lemma_read_symbol_advances(lit, data, p, 1);
                }
                if x <= 255 {
                    if start + cur < 0 || start + cur >= buf.len() {
                        Run::Fault
                    } else {
                        dynamic_symbols(lit, dist, data, buf.update(start + cur, x as u8), q, start, cur + 1)
                    }
                } else if x == 256 {
                    Run::Done { value: cur, pos: q, buf }
                } else {
                    match length_value(data, q, x as int) {
                        None => Run::Fault,
                        Some((length, q1)) => match read_symbol(dist, data, q1) {
                            (Lookup::Found(off), q2) => match distance_value(data, q2, off as int) {
                                None => Run::Fault,
                                Some((distance, q3)) => match copy_run(
                                    buf,
                                    0,
                                    start + cur,
                                    distance,
                                    length,
                                ) {
                                    None => Run::Fault,
                                    Some(b) => {
                                        proof {
                                            lemma_read_symbol_advances(dist, data, q1, 1);
                                        }
                                        dynamic_symbols(lit, dist, data, b, q3, start, cur + length)
                                    },
                                },
                            },
                            (Lookup::Absent, _) => Run::Invalid { buf },
                            (Lookup::Fault, _) => Run::Fault,
                        },
                    }
                }
            },
            (Lookup::Absent, _) => Run::Invalid { buf },
            (Lookup::Fault, _) => Run::Fault,
        }
    }
}

/// A block with dynamic Huffman codes, from bit position `p`, writing from
/// `start` on; the value when it finishes is the number of bytes written.
pub open spec fn dynamic_block(data: Seq<u8>, buf: Seq<u8>, p: int, start: int) -> Run {
    if !fits(data, p, 14) {
        Run::Fault
    } else {
        let hlit = lsb_value(data, p, 5) + 257int;
        let hdist = lsb_value(data, p + 5, 5) + 1int;
        let hclen = lsb_value(data, p + 10, 4) + 4int;
        if !fits(data, p + 14, (3 * hclen) as nat) {
            Run::Fault
        } else {
            let zlens = code_length_lens(data, p + 14, hclen);
            if build_faults(zlens) {
                Run::Fault
            } else {
                match lengths_run(zlens, data, p + 14 + 3 * hclen, Seq::empty(), Seq::empty(), hlit, hdist) {
                    LensRun::Done { lit, dist, pos } => if build_faults(lit) || build_faults(dist) {
                        Run::Fault
                    } else {
                        dynamic_symbols(lit, dist, data, buf, pos, start, 0)
                    },
                    LensRun::Invalid => Run::Invalid { buf },
                    LensRun::Fault => Run::Fault,
                }
            }
        }
    }
}

/// A stored block whose header starts at bit position `p`: at the next byte
/// border its length `len` (16 bits) and the length's complement (16 bits,
/// not checked), then its `len` bytes, copied to the output from `count` on.
pub open spec fn stored_block(data: Seq<u8>, buf: Seq<u8>, p: int, count: int) -> Run {
    let q = align_up(p);
    if !fits(data, q, 32) {
        Run::Fault
    } else {
        let len = lsb_value(data, q, 16) as int;
        let from = q / 8 + 4;
        if len > 0 && (count + len > buf.len() || from + len > data.len()) {
            Run::Fault
        } else {
            Run::Done {
                value: count + len,
                pos: q + 32 + 8 * len,
                buf: stored_copy(data, buf, count, from, len),
            }
        }
    }
}

/// `buf` with the `len` bytes of `data` from byte `from` on written from
/// `count` on.
pub open spec fn stored_copy(data: Seq<u8>, buf: Seq<u8>, count: int, from: int, len: int) -> Seq<u8> {
    Seq::new(
        buf.len(),
        |i: int|
            if count <= i < count + len {
                data[from + i - count]
            } else {
                buf[i]
            },
    )
}

/// Reading code lengths never moves backwards.
pub proof fn lemma_lengths_run_advances(
    zlens: Seq<u8>,
    data: Seq<u8>,
    p: int,
    d: Seq<u8>,
    o: Seq<u8>,
    hlit: int,
    hdist: int,
)
    requires
        p >= 0,
    ensures
        lengths_run(zlens, data, p, d, o, hlit, hdist) matches LensRun::Done { pos, .. } ==> p
            <= pos,
    decreases lens_missing(d, o, hlit, hdist),
{
    if !(d.len() >= hlit && o.len() >= hdist) {
        match read_symbol(zlens, data, p) {
            (Lookup::Found(sym), q) => {
                lemma_read_symbol_advances(zlens, data, p, 1);
                let cmd = sym as u8;
                if cmd <= 15 {
                    let (d1, o1) = put_either(d, o, hlit, hdist, cmd);
                    lemma_lengths_run_advances(zlens, data, q, d1, o1, hlit, hdist);
                } else if cmd == 16 {
                    if fits(data, q, 2) {
                        if let Some(v) = last_length(d, o) {
                            let count = lsb_value(data, q, 2) + 3int;
                            let (d1, o1) = put_repeat(d, o, hlit, hdist, v, count);
                            lemma_put_repeat_progress(d, o, hlit, hdist, v, count);
                            lemma_lengths_run_advances(zlens, data, q + 2, d1, o1, hlit, hdist);
                        }
                    }
                } else if cmd == 17 || cmd == 18 {
                    let bits: nat = if cmd == 17 {
                        3
                    } else {
                        7
                    };
                    let least: int = if cmd == 17 {
                        3
                    } else {
                        11
                    };
                    let count = lsb_value(data, q, bits) + least;
                    let (d1, o1) = put_repeat(d, o, hlit, hdist, 0, count);
                    lemma_put_repeat_progress(d, o, hlit, hdist, 0, count);
                    lemma_lengths_run_advances(zlens, data, q + bits, d1, o1, hlit, hdist);
                }
            },
            _ => {},
        }
    }
}

/// The symbols of a block with dynamic codes end after their start, within
/// the data.
pub proof fn lemma_dynamic_symbols_advances(
    lit: Seq<u8>,
    dist: Seq<u8>,
    data: Seq<u8>,
    buf: Seq<u8>,
    p: int,
    start: int,
    cur: int,
)
    ensures
        dynamic_symbols(lit, dist, data, buf, p, start, cur) matches Run::Done { pos, .. } ==> p
            < pos <= 8 * data.len(),
    decreases 8 * data.len() - p,
{
    if p >= 0 {
        lemma_read_symbol_advances(lit, data, p, 1);
        match read_symbol(lit, data, p) {
            (Lookup::Found(x), q) => {
                if x <= 255 {
                    if !(start + cur < 0 || start + cur >= buf.len()) {
                        lemma_dynamic_symbols_advances(
                            lit,
                            dist,
                            data,
                            buf.update(start + cur, x as u8),
                            q,
                            start,
                            cur + 1,
                        );
                    }
                } else if x != 256 {
                    if let Some((length, q1)) = length_value(data, q, x as int) {
                        lemma_read_symbol_advances(dist, data, q1, 1);
                        if let (Lookup::Found(off), q2) = read_symbol(dist, data, q1) {
                            if let Some((distance, q3)) = distance_value(data, q2, off as int) {
                                if let Some(b) = copy_run(buf, 0, start + cur, distance, length) {
                                    lemma_dynamic_symbols_advances(
                                        lit,
                                        dist,
                                        data,
                                        b,
                                        q3,
                                        start,
                                        cur + length,
                                    );
                                }
                            }
                        }
                    }
                }
            },
            _ => {},
        }
    }
}

/// A block with fixed codes ends after its start, within the data.
pub proof fn lemma_static_block_advances(
    data: Seq<u8>,
    buf: Seq<u8>,
    p: int,
    cur: int,
    out_pos: int,
)
    ensures
        static_block(data, buf, p, cur, out_pos) matches Run::Done { pos, .. } ==> p < pos <= 8
            * data.len(),
    decreases 8 * data.len() - p,
{
    if p >= 0 && fits(data, p, 7) {
        let cmd = msb_value(data, p, 7) as int;
        if cmd <= 23 {
            if cmd != 0 {
                lemma_static_pair_advances(data, buf, p + 7, cur, 256 + cmd);
                if let Some((b, q, c)) = static_pair(data, buf, p + 7, cur, 256 + cmd) {
                    lemma_static_block_advances(data, b, q, c, out_pos);
                }
            }
        } else if fits(data, p + 7, 1) {
            let cmd8 = cmd * 2 + bit_at(data, p + 7);
            if 48 <= cmd8 <= 191 {
                if !(cur < 0 || cur >= buf.len()) {
                    lemma_static_block_advances(
                        data,
                        buf.update(cur, (cmd8 - 48) as u8),
                        p + 8,
                        cur + 1,
                        out_pos,
                    );
                }
            } else if 192 <= cmd8 <= 199 {
                let code = 280 + (cmd8 - 192);
                lemma_static_pair_advances(data, buf, p + 8, cur, code);
                if let Some((b, q, c)) = static_pair(data, buf, p + 8, cur, code) {
                    lemma_static_block_advances(data, b, q, c, out_pos);
                }
            } else if fits(data, p + 8, 1) {
                let cmd9 = cmd8 * 2 + bit_at(data, p + 8);
                if 400 <= cmd9 <= 511 && !(cur < 0 || cur >= buf.len()) {
                    lemma_static_block_advances(
                        data,
                        buf.update(cur, (144 + (cmd9 - 400)) as u8),
                        p + 9,
                        cur + 1,
                        out_pos,
                    );
                }
            }
        }
    }
}

/// A block with dynamic codes ends after its start, within the data.
pub proof fn lemma_dynamic_block_advances(data: Seq<u8>, buf: Seq<u8>, p: int, start: int)
    requires
        p >= 0,
    ensures
        dynamic_block(data, buf, p, start) matches Run::Done { pos, .. } ==> p < pos <= 8
            * data.len(),
{
    if fits(data, p, 14) {
        let hlit = lsb_value(data, p, 5) + 257int;
        let hdist = lsb_value(data, p + 5, 5) + 1int;
        let hclen = lsb_value(data, p + 10, 4) + 4int;
        let zlens = code_length_lens(data, p + 14, hclen);
        let q = p + 14 + 3 * hclen;
        lemma_lengths_run_advances(zlens, data, q, Seq::empty(), Seq::empty(), hlit, hdist);
        if let LensRun::Done { lit, dist, pos } = lengths_run(
            zlens,
            data,
            q,
            Seq::empty(),
            Seq::empty(),
            hlit,
            hdist,
        ) {
            lemma_dynamic_symbols_advances(lit, dist, data, buf, pos, start, 0);
        }
    }
}

/// One block, whose header starts at bit position `p`, with `count` bytes
/// decoded so far; the value when it finishes is the new count. Every kind
/// of block writes its bytes from `count` on, and back-references may reach
/// into the output of earlier blocks.
pub open spec fn block_run(data: Seq<u8>, buf: Seq<u8>, p: int, count: int) -> Run {
    let btype = lsb_value(data, p + 1, 2);
    if btype == 0 {
        stored_block(data, buf, p + 3, count)
    } else if btype == 1 {
        match static_block(data, buf, p + 3, count, count) {
            Run::Done { value, pos, buf } => Run::Done { value: count + value, pos, buf },
            other => other,
        }
    } else if btype == 2 {
        if count > buf.len() {
            Run::Fault
        } else {
            match dynamic_block(data, buf, p + 3, count) {
                Run::Done { value, pos, buf } => Run::Done { value: count + value, pos, buf },
                other => other,
            }
        }
    } else {
        Run::Invalid { buf }
    }
}

#[verifier::spinoff_prover]
pub proof fn lemma_block_run_advances(data: Seq<u8>, buf: Seq<u8>, p: int, count: int)
    requires
        p >= 0,
        fits(data, p, 3),
    ensures
        block_run(data, buf, p, count) matches Run::Done { pos, .. } ==> p < pos <= 8
            * data.len(),
{
    lemma_static_block_advances(data, buf, p + 3, count, count);
    lemma_dynamic_block_advances(data, buf, p + 3, count);
}

/// Decoding blocks from bit position `p` on, with `count` bytes decoded so
/// far, until the block marked final; the value when it finishes is the
/// number of bytes decoded.
pub open spec fn decode_blocks(data: Seq<u8>, buf: Seq<u8>, p: int, count: int) -> Run
    decreases 8 * data.len() - p,
{
    if p < 0 || !fits(data, p, 3) {
        Run::Fault
    } else {
        match block_run(data, buf, p, count) {
            Run::Done { value, pos, buf: b } => if lsb_value(data, p, 1) == 1 {
                Run::Done { value, pos, buf: b }
            } else {
                proof {
                    lemma_block_run_advances(data, buf, p, count);
                }
                decode_blocks(data, b, pos, value)
            },
            other => other,
        }
    }
}

/// Decoding `data` into an output buffer that holds `out`.
pub open spec fn decode_spec(data: Seq<u8>, out: Seq<u8>) -> Run {
    decode_blocks(data, out, 0, 0)
}

} // verus!
