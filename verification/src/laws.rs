//! What decoding promises of whole inputs.

use vstd::prelude::*;
use crate::bits::{align_up, bit_at, fits, lsb_value, msb_value, two_to};
use crate::tables::{distance_table, length_table};
use crate::huffman::{read_symbol, Lookup};
use crate::model::{
    block_run, copy_bytes, copy_run, decode_blocks, decode_spec, distance_value, dynamic_block,
    dynamic_symbols, length_value, lengths_run, static_block, static_pair, stored_block,
    stored_copy, LensRun, Run,
};

verus! {

/// The block header bits of byte 0: bit 0 is the final-block flag, bits 1
/// and 2 the block type.
proof fn lemma_header_bits(data: Seq<u8>)
    requires
        data.len() >= 1,
    ensures
        lsb_value(data, 0, 1) == ((data[0] >> 0u8) & 1u8) as nat,
        lsb_value(data, 1, 2) == ((data[0] >> 1u8) & 1u8) as nat + 2 * ((data[0] >> 2u8) & 1u8)
            as nat,
{
    let b = data[0];
    assert(((b >> 0u8) & 1u8) <= 1u8 && ((b >> 1u8) & 1u8) <= 1u8 && ((b >> 2u8) & 1u8) <= 1u8)
        by (bit_vector);
    assert(bit_at(data, 0) == ((b >> 0u8) & 1u8) as nat);
    assert(bit_at(data, 1) == ((b >> 1u8) & 1u8) as nat);
    assert(bit_at(data, 2) == ((b >> 2u8) & 1u8) as nat);
    crate::bits::lemma_one_bit(data, 0);
    crate::bits::lemma_one_bit(data, 1);
    assert(lsb_value(data, 1, 2) == lsb_value(data, 1, 1) + bit_at(data, 2) * two_to(1));
}

/// Data whose first block has the reserved type 3 is refused, and the output
/// buffer is left as it was.
pub proof fn law_reserved_block_type_refused(data: Seq<u8>, out: Seq<u8>)
    requires
        data.len() >= 1,
        (data[0] >> 1u8) & 3u8 == 3u8,
    ensures
        decode_spec(data, out) == (Run::Invalid { buf: out }),
{
    let b = data[0];
    assert((b >> 1u8) & 3u8 == 3u8 ==> ((b >> 1u8) & 1u8) == 1u8 && ((b >> 2u8) & 1u8) == 1u8)
        by (bit_vector);
    lemma_header_bits(data);
    assert(fits(data, 0, 3));
    assert(block_run(data, out, 0, 0) == (Run::Invalid { buf: out }));
}

/// A stored block that starts the data and is marked final is copied as it
/// stands: its length `len` is bytes 1 and 2 (low byte first), its bytes
/// start at byte 5, and decoding finishes with `len` after them, the output
/// buffer holding those bytes and then its old contents from position `len`
/// on.
pub proof fn law_stored_block_copied(data: Seq<u8>, out: Seq<u8>)
    requires
        data.len() >= 5,
        data[0] & 7u8 == 1u8,
        5 + data[1] + 256 * data[2] <= data.len(),
        data[1] + 256 * data[2] <= out.len(),
    ensures
        ({
            let len = data[1] + 256 * data[2];
            decode_spec(data, out) == (Run::Done {
                value: len,
                pos: 40 + 8 * len,
                buf: data.subrange(5, 5 + len) + out.skip(len),
            })
        }),
{
    let b = data[0];
    let len = data[1] + 256 * data[2];
    assert(b & 7u8 == 1u8 ==> ((b >> 0u8) & 1u8) == 1u8 && ((b >> 1u8) & 1u8) == 0u8 && ((b
        >> 2u8) & 1u8) == 0u8) by (bit_vector);
    lemma_header_bits(data);
    crate::bits::lemma_lsb_split(data, 8, 8, 8);
    crate::bits::lemma_byte_value(data, 1);
    crate::bits::lemma_byte_value(data, 2);
    reveal_with_fuel(two_to, 9);
    assert(align_up(3) == 8);
    assert(lsb_value(data, 8, 16) == len);
    assert(stored_copy(data, out, 0, 5, len) =~= data.subrange(5, 5 + len) + out.skip(len));
    assert(stored_block(data, out, 3, 0) == (Run::Done {
        value: len,
        pos: 40 + 8 * len,
        buf: data.subrange(5, 5 + len) + out.skip(len),
    }));
    assert(decode_blocks(data, out, 0, 0) == (Run::Done {
        value: len,
        pos: 40 + 8 * len,
        buf: data.subrange(5, 5 + len) + out.skip(len),
    }));
}

/// The fixed Huffman code of literal byte `b` (RFC 1951 section 3.2.6):
/// `(code, length)`, the code read most significant bit first.
pub open spec fn fixed_literal_code(b: u8) -> (int, nat) {
    if b <= 143 {
        (48 + b, 8)
    } else {
        (400 + (b - 144), 9)
    }
}

/// In a block with fixed codes, the code of a literal byte writes that byte
/// at the output position and moves on: decoding goes on as from the bits
/// after the code, with the byte written.
pub proof fn law_fixed_literal_decodes(
    data: Seq<u8>,
    buf: Seq<u8>,
    p: int,
    cur: int,
    out_pos: int,
    b: u8,
)
    requires
        p >= 0,
        0 <= cur < buf.len(),
        fits(data, p, fixed_literal_code(b).1),
        msb_value(data, p, fixed_literal_code(b).1) == fixed_literal_code(b).0,
    ensures
        static_block(data, buf, p, cur, out_pos) == static_block(
            data,
            buf.update(cur, b),
            p + fixed_literal_code(b).1,
            cur + 1,
            out_pos,
        ),
{
    reveal_with_fuel(two_to, 2);
    crate::bits::lemma_msb_split(data, p, 7, 1);
    crate::bits::lemma_one_bit(data, p + 7);
    crate::bits::lemma_msb_split(data, p, 8, 1);
    crate::bits::lemma_one_bit(data, p + 8);
    let m7 = msb_value(data, p, 7) as int;
    let m8 = msb_value(data, p, 8) as int;
    assert(m8 == m7 * 2 + bit_at(data, p + 7));
    assert(msb_value(data, p, 9) == m8 * 2 + bit_at(data, p + 8));
    if b <= 143 {
        assert(m8 == 48 + b);
        assert(((m8 - 48) as u8) == b);
    } else {
        assert(200 <= m8 <= 255);
        assert(((144 + (msb_value(data, p, 9) - 400)) as u8) == b);
    }
}

/// The bits from position `p` on hold the fixed codes of `bytes`, one after
/// another, then the end-of-block code (7 zero bits).
pub open spec fn fixed_literals_at(data: Seq<u8>, p: int, bytes: Seq<u8>) -> bool
    decreases bytes.len(),
{
    if bytes.len() == 0 {
        fits(data, p, 7) && msb_value(data, p, 7) == 0
    } else {
        let (c, l) = fixed_literal_code(bytes[0]);
        &&& fits(data, p, l)
        &&& msb_value(data, p, l) == c
        &&& fixed_literals_at(data, p + l, bytes.drop_first())
    }
}

/// The position after the codes of `bytes` and the end-of-block code, from
/// position `p` on.
pub open spec fn fixed_literals_end(p: int, bytes: Seq<u8>) -> int
    decreases bytes.len(),
{
    if bytes.len() == 0 {
        p + 7
    } else {
        fixed_literals_end(p + fixed_literal_code(bytes[0]).1, bytes.drop_first())
    }
}

/// A block with fixed codes made of the codes of some bytes and the
/// end-of-block code writes those bytes from the output position on and
/// finishes after the end-of-block code.
pub proof fn law_fixed_literals_decode(
    data: Seq<u8>,
    buf: Seq<u8>,
    p: int,
    cur: int,
    out_pos: int,
    bytes: Seq<u8>,
)
    requires
        p >= 0,
        0 <= out_pos <= cur,
        cur + bytes.len() <= buf.len(),
        fixed_literals_at(data, p, bytes),
    ensures
        static_block(data, buf, p, cur, out_pos) == (Run::Done {
            value: cur + bytes.len() - out_pos,
            pos: fixed_literals_end(p, bytes),
            buf: buf.take(cur) + bytes + buf.skip(cur + bytes.len()),
        }),
    decreases bytes.len(),
{
    if bytes.len() == 0 {
        assert(buf.take(cur) + bytes + buf.skip(cur) =~= buf);
    } else {
        let b = bytes[0];
        let l = fixed_literal_code(b).1;
        law_fixed_literal_decodes(data, buf, p, cur, out_pos, b);
        let buf1 = buf.update(cur, b);
        law_fixed_literals_decode(data, buf1, p + l, cur + 1, out_pos, bytes.drop_first());
        assert(buf1.take(cur + 1) + bytes.drop_first() + buf1.skip(cur + 1 + bytes.drop_first().len())
            =~= buf.take(cur) + bytes + buf.skip(cur + bytes.len()));
    }
}

/// Data that starts with a final block with fixed codes holding the codes
/// of `bytes` decodes to `bytes`: decoding finishes with their number, the
/// output buffer holding them and then its old contents.
pub proof fn law_fixed_block_decodes(data: Seq<u8>, out: Seq<u8>, bytes: Seq<u8>)
    requires
        data.len() >= 1,
        data[0] & 7u8 == 3u8,
        fixed_literals_at(data, 3, bytes),
        bytes.len() <= out.len(),
    ensures
        decode_spec(data, out) == (Run::Done {
            value: bytes.len() as int,
            pos: fixed_literals_end(3, bytes),
            buf: bytes + out.skip(bytes.len() as int),
        }),
{
    let b = data[0];
    assert(b & 7u8 == 3u8 ==> ((b >> 0u8) & 1u8) == 1u8 && ((b >> 1u8) & 1u8) == 1u8 && ((b
        >> 2u8) & 1u8) == 0u8) by (bit_vector);
    lemma_header_bits(data);
    law_fixed_literals_decode(data, out, 3, 0, 0, bytes);
    assert(out.take(0) + bytes + out.skip(bytes.len() as int) =~= bytes + out.skip(
        bytes.len() as int,
    ));
    assert(fits(data, 0, 3));
    assert(block_run(data, out, 0, 0) == (Run::Done {
        value: bytes.len() as int,
        pos: fixed_literals_end(3, bytes),
        buf: bytes + out.skip(bytes.len() as int),
    }));
}

/// `b` is `buf` with at most the bytes in `lo .. hi` changed.
pub open spec fn changed_within(buf: Seq<u8>, b: Seq<u8>, lo: int, hi: int) -> bool {
    &&& b.len() == buf.len()
    &&& forall|i: int| 0 <= i < buf.len() && !(lo <= i < hi) ==> #[trigger] b[i] == buf[i]
}

proof fn lemma_copy_run_range(buf: Seq<u8>, cur: int, distance: int, length: int)
    requires
        0 <= distance,
        0 <= length,
    ensures
        copy_run(buf, 0, cur, distance, length) matches Some(b) ==> changed_within(
            buf,
            b,
            cur,
            cur + length,
        ),
{
    if let Some(b) = copy_run(buf, 0, cur, distance, length) {
        if length > 0 {
            crate::model::law_copy_repeats(buf, cur, distance, length);
        } else {
            assert(b == buf);
        }
    }
}

proof fn lemma_static_pair_range(data: Seq<u8>, buf: Seq<u8>, p: int, cur: int, code: int)
    ensures
        static_pair(data, buf, p, cur, code) matches Some((b, q, c)) ==> cur <= c
            && changed_within(buf, b, cur, c) && (cur <= buf.len() ==> c <= buf.len()),
{
    if let Some((length, q)) = length_value(data, p, code) {
        if crate::bits::fits(data, q, 5) {
            if let Some((distance, q2)) = distance_value(
                data,
                q + 5,
                msb_value(data, q, 5) as int,
            ) {
                lemma_copy_run_range(buf, cur, distance, length);
            }
        }
    }
}

/// A block with fixed codes, writing at `cur`, changes only the bytes from
/// `cur` up to where it finishes, `out_pos` plus the value it finishes with.
pub proof fn law_static_block_writes_only_its_count(
    data: Seq<u8>,
    buf: Seq<u8>,
    p: int,
    cur: int,
    out_pos: int,
)
    ensures
        static_block(data, buf, p, cur, out_pos) matches Run::Done { value, buf: b, .. } ==> cur
            <= out_pos + value && changed_within(buf, b, cur, out_pos + value) && (cur <= buf.len()
            ==> out_pos + value <= buf.len()),
    decreases 8 * data.len() - p,
{
    if p >= 0 && fits(data, p, 7) {
        let cmd = msb_value(data, p, 7) as int;
        if cmd <= 23 {
            if cmd != 0 {
                crate::model::lemma_static_pair_advances(data, buf, p + 7, cur, 256 + cmd);
                lemma_static_pair_range(data, buf, p + 7, cur, 256 + cmd);
                if let Some((b, q, c)) = static_pair(data, buf, p + 7, cur, 256 + cmd) {
                    law_static_block_writes_only_its_count(data, b, q, c, out_pos);
                }
            }
        } else if fits(data, p + 7, 1) {
            let cmd8 = cmd * 2 + bit_at(data, p + 7);
            if 48 <= cmd8 <= 191 {
                if !(cur < 0 || cur >= buf.len()) {
                    law_static_block_writes_only_its_count(
                        data,
                        buf.update(cur, (cmd8 - 48) as u8),
                        p + 8,
                        cur + 1,
                        out_pos,
                    );
                }
            } else if 192 <= cmd8 <= 199 {
                let code = 280 + (cmd8 - 192);
                crate::model::lemma_static_pair_advances(data, buf, p + 8, cur, code);
                lemma_static_pair_range(data, buf, p + 8, cur, code);
                if let Some((b, q, c)) = static_pair(data, buf, p + 8, cur, code) {
                    law_static_block_writes_only_its_count(data, b, q, c, out_pos);
                }
            } else if fits(data, p + 8, 1) {
                let cmd9 = cmd8 * 2 + bit_at(data, p + 8);
                if 400 <= cmd9 <= 511 && !(cur < 0 || cur >= buf.len()) {
                    law_static_block_writes_only_its_count(
                        data,
                        buf.update(cur, (144 + (cmd9 - 400)) as u8),
                        p + 9,
                        cur + 1,
                        out_pos,
                    );
                }
            }
        }
    }
}

/// The symbols of a block with dynamic codes write only from `start + cur`
/// up to where they finish.
proof fn lemma_dynamic_symbols_range(
    lit: Seq<u8>,
    dist: Seq<u8>,
    data: Seq<u8>,
    buf: Seq<u8>,
    p: int,
    start: int,
    cur: int,
)
    ensures
        dynamic_symbols(lit, dist, data, buf, p, start, cur) matches Run::Done {
            value,
            buf: b,
            ..
        } ==> cur <= value && changed_within(buf, b, start + cur, start + value) && (start + cur
            <= buf.len() ==> start + value <= buf.len()),
    decreases 8 * data.len() - p,
{
    if p >= 0 {
        crate::model::lemma_read_symbol_advances(lit, data, p, 1);
        if let (Lookup::Found(x), q) = read_symbol(lit, data, p) {
            if x <= 255 {
                if !(start + cur < 0 || start + cur >= buf.len()) {
                    lemma_dynamic_symbols_range(
                        lit,
                        dist,
                        data,
                        buf.update(start + cur, x as u8),
                        q,
                        start,
                        cur + 1,
                    );
                }
            } else if x != 256 {
                if let Some((length, q1)) = length_value(data, q, x as int) {
                    crate::model::lemma_read_symbol_advances(dist, data, q1, 1);
                    if let (Lookup::Found(off), q2) = read_symbol(dist, data, q1) {
                        if let Some((distance, q3)) = distance_value(data, q2, off as int) {
                            lemma_copy_run_range(buf, start + cur, distance, length);
                            if let Some(b) = copy_run(buf, 0, start + cur, distance, length) {
                                lemma_dynamic_symbols_range(
                                    lit,
                                    dist,
                                    data,
                                    b,
                                    q3,
                                    start,
                                    cur + length,
                                );
                            }
                        }
                    }
                }
            }
        }
    }
}

/// A block with dynamic codes, writing from `start` on, changes only the
/// bytes from `start` up to `start` plus the number it decodes.
pub proof fn law_dynamic_block_writes_only_its_count(
    data: Seq<u8>,
    buf: Seq<u8>,
    p: int,
    start: int,
)
    ensures
        dynamic_block(data, buf, p, start) matches Run::Done { value, buf: b, .. } ==> 0 <= value
            && changed_within(buf, b, start, start + value) && (start <= buf.len() ==> start + value
            <= buf.len()),
{
    if fits(data, p, 14) {
        let hlit = lsb_value(data, p, 5) + 257int;
        let hdist = lsb_value(data, p + 5, 5) + 1int;
        let hclen = lsb_value(data, p + 10, 4) + 4int;
        let zlens = crate::model::code_length_lens(data, p + 14, hclen);
        if let LensRun::Done { lit, dist, pos } = lengths_run(
            zlens,
            data,
            p + 14 + 3 * hclen,
            Seq::empty(),
            Seq::empty(),
            hlit,
            hdist,
        ) {
            lemma_dynamic_symbols_range(lit, dist, data, buf, pos, start, 0);
        }
    }
}

/// One block writes only from the count before it up to the count after it.
proof fn lemma_block_run_range(data: Seq<u8>, buf: Seq<u8>, p: int, count: int)
    ensures
        block_run(data, buf, p, count) matches Run::Done { value, buf: b, .. } ==> count <= value
            && changed_within(buf, b, count, value) && (count <= buf.len() ==> value <= buf.len()),
{
    law_static_block_writes_only_its_count(data, buf, p + 3, count, count);
    law_dynamic_block_writes_only_its_count(data, buf, p + 3, count);
    let q = p + 3;
    let r = align_up(q);
    if fits(data, r, 32) {
        let len = lsb_value(data, r, 16) as int;
        let from = r / 8 + 4;
        let b = stored_copy(data, buf, count, from, len);
        assert(changed_within(buf, b, count, count + len));
    }
}

/// Blocks from bit position `p` on write only from the count before them up
/// to the count after the final one.
proof fn lemma_decode_blocks_range(data: Seq<u8>, buf: Seq<u8>, p: int, count: int)
    ensures
        decode_blocks(data, buf, p, count) matches Run::Done { value, buf: b, .. } ==> count
            <= value && changed_within(buf, b, count, value) && (count <= buf.len() ==> value
            <= buf.len()),
    decreases 8 * data.len() - p,
{
    if p >= 0 && fits(data, p, 3) {
        lemma_block_run_range(data, buf, p, count);
        if let Run::Done { value, pos, buf: b } = block_run(data, buf, p, count) {
            if lsb_value(data, p, 1) != 1 {
                crate::model::lemma_block_run_advances(data, buf, p, count);
                lemma_decode_blocks_range(data, b, pos, value);
            }
        }
    }
}

/// Decoding writes the bytes it decodes at the start of the output buffer,
/// each block after the one before, and leaves every byte past their number
/// as it was.
pub proof fn law_decode_writes_only_its_count(data: Seq<u8>, out: Seq<u8>)
    ensures
        decode_spec(data, out) matches Run::Done { value, buf, .. } ==> {
            &&& 0 <= value <= out.len()
            &&& buf.len() == out.len()
            &&& forall|i: int| value <= i < out.len() ==> #[trigger] buf[i] == out[i]
        },
{
    lemma_decode_blocks_range(data, out, 0, 0);
}

/// Block outputs follow one another: after a block that is not the final
/// one, decoding goes on from the bits and the count after it, and the
/// blocks after it keep the bytes that it and the blocks before it wrote.
pub proof fn law_blocks_concatenate(data: Seq<u8>, out: Seq<u8>, p: int, count: int)
    requires
        p >= 0,
        fits(data, p, 3),
        lsb_value(data, p, 1) == 0,
    ensures
        block_run(data, out, p, count) matches Run::Done { value: c1, pos, buf: b1 } ==> {
            &&& decode_blocks(data, out, p, count) == decode_blocks(data, b1, pos, c1)
            &&& decode_blocks(data, b1, pos, c1) matches Run::Done { value, buf: b, .. } ==> {
                &&& c1 <= value
                &&& forall|i: int| 0 <= i < c1 && i < b1.len() ==> #[trigger] b[i] == b1[i]
            }
        },
{
    if let Run::Done { value: c1, pos, buf: b1 } = block_run(data, out, p, count) {
        lemma_decode_blocks_range(data, b1, pos, c1);
    }
}

/// The fixed Huffman code of length code `code` from 257 to 287 (RFC 1951
/// section 3.2.6): `(code, length)`, the code read most significant bit
/// first.
pub open spec fn fixed_length_code(code: int) -> (int, nat) {
    if code <= 279 {
        (code - 256, 7)
    } else {
        (192 + (code - 280), 8)
    }
}

/// A back-reference of a block with fixed codes whose bits start at `p`:
/// length code `code`, its extra bits, a 5-bit distance code and its extra
/// bits all lie in the data, the distance code is one of the 30 defined,
/// and the copy stays inside what was written and inside the buffer.
pub open spec fn fixed_pair_fits(data: Seq<u8>, buf: Seq<u8>, p: int, cur: int, code: int) -> bool {
    let (c, l) = fixed_length_code(code);
    let e = length_table((code - 257) as usize);
    let q = p + l + e.bits;
    let d = msb_value(data, q, 5);
    let de = distance_table(d as usize);
    &&& fits(data, p, l)
    &&& msb_value(data, p, l) == c
    &&& fits(data, p + l, e.bits as nat)
    &&& fits(data, q, 5)
    &&& d < 30
    &&& fits(data, q + 5, de.bits as nat)
    &&& de.len + lsb_value(data, q + 5, de.bits as nat) <= cur
    &&& cur + e.len + lsb_value(data, p + l, e.bits as nat) <= buf.len()
}

/// The length of the back-reference of `fixed_pair_fits`.
pub open spec fn fixed_pair_length(data: Seq<u8>, p: int, code: int) -> int {
    let e = length_table((code - 257) as usize);
    e.len + lsb_value(data, p + fixed_length_code(code).1, e.bits as nat)
}

/// The distance of the back-reference of `fixed_pair_fits`.
pub open spec fn fixed_pair_distance(data: Seq<u8>, p: int, code: int) -> int {
    let q = p + fixed_length_code(code).1 + length_table((code - 257) as usize).bits;
    let de = distance_table(msb_value(data, q, 5) as usize);
    de.len + lsb_value(data, q + 5, de.bits as nat)
}

/// The position after the back-reference of `fixed_pair_fits`.
pub open spec fn fixed_pair_end(data: Seq<u8>, p: int, code: int) -> int {
    let q = p + fixed_length_code(code).1 + length_table((code - 257) as usize).bits;
    q + 5 + distance_table(msb_value(data, q, 5) as usize).bits
}

/// In a block with fixed codes, every length code from 257 to 285 that is
/// followed by its extra bits and a distance within what was written copies
/// that many bytes from that far back and goes on after the distance's
/// extra bits.
pub proof fn law_fixed_length_code_copies(
    data: Seq<u8>,
    buf: Seq<u8>,
    p: int,
    cur: int,
    out_pos: int,
    code: int,
)
    requires
        p >= 0,
        257 <= code <= 285,
        fixed_pair_fits(data, buf, p, cur, code),
    ensures
        static_block(data, buf, p, cur, out_pos) == static_block(
            data,
            copy_bytes(
                buf,
                cur,
                fixed_pair_distance(data, p, code),
                fixed_pair_length(data, p, code),
            ),
            fixed_pair_end(data, p, code),
            cur + fixed_pair_length(data, p, code),
            out_pos,
        ),
{
    reveal_with_fuel(two_to, 2);
    crate::bits::lemma_msb_split(data, p, 7, 1);
    crate::bits::lemma_one_bit(data, p + 7);
    let l = fixed_length_code(code).1;
    let e = length_table((code - 257) as usize);
    let q = p + l;
    let length = e.len + lsb_value(data, q, e.bits as nat);
    assert(length_value(data, q, code) == Some((length, q + e.bits)));
    if code <= 279 {
        assert(msb_value(data, p, 7) == code - 256);
    } else {
        let m7 = msb_value(data, p, 7) as int;
        let m8 = msb_value(data, p, 8) as int;
        assert(m8 == m7 * 2 + bit_at(data, p + 7));
        assert(m8 == 192 + (code - 280));
        assert(96 <= m7 <= 98);
    }
}

/// In a block with fixed codes the 8-bit codes 11000110 and 11000111
/// (length codes 286 and 287) are refused, with the buffer as it stands.
pub proof fn law_fixed_reserved_codes_refused(
    data: Seq<u8>,
    buf: Seq<u8>,
    p: int,
    cur: int,
    out_pos: int,
)
    requires
        p >= 0,
        fits(data, p, 8),
        msb_value(data, p, 8) == 198 || msb_value(data, p, 8) == 199,
    ensures
        static_block(data, buf, p, cur, out_pos) == (Run::Invalid { buf }),
{
    reveal_with_fuel(two_to, 2);
    crate::bits::lemma_msb_split(data, p, 7, 1);
    crate::bits::lemma_one_bit(data, p + 7);
    let m7 = msb_value(data, p, 7) as int;
    assert(msb_value(data, p, 8) == m7 * 2 + bit_at(data, p + 7));
    assert(m7 == 99);
}

} // verus!
