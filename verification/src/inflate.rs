//! The decoder: stored blocks, blocks with fixed Huffman codes and blocks
//! with dynamic Huffman codes, each proved to do what `crate::model` states.

use vstd::prelude::*;
use crate::bits::{align_up, bits_value, fits, lsb_value, BitStream};
use crate::huffman::{build_faults, lens_in_range, Dictionary, DictionaryBuilder, Lookup};
use crate::model::{
    block_run, code_length_lens, stored_block, code_length_order, copy_bytes, copy_run, decode_blocks, decode_spec,
    distance_value, dynamic_block, dynamic_symbols, length_value, lengths_run, lens_missing,
    last_length, put_repeat, static_block, static_pair, stored_copy, LensRun, Run,
};
use crate::tables::{distance_entry, length_entry};

verus! {

/// The code that ends a block.
pub const END_OF_DATA: u16 = 256;

/// How a run of the decoder ended.
pub enum Status {
    /// It finished with this count.
    Done(usize),
    /// It rejected the data.
    Invalid,
    /// The data would make it index out of a buffer or a table, read past the
    /// end of the input, or overflow its arithmetic.
    Fault,
}

/// `r`, with the output buffer holding `out` and the stream at `pos`, is
/// how `run` ends.
pub open spec fn run_matches(r: Status, out: Seq<u8>, pos: int, run: Run) -> bool {
    match run {
        Run::Done { value, pos: p, buf } => {
            &&& r matches Status::Done(v)
            &&& v == value
            &&& out == buf
            &&& pos == p
        },
        Run::Invalid { buf } => r is Invalid && out == buf,
        Run::Fault => r is Fault,
    }
}

/// The length that length code `code` stands for, with its extra bits read
/// least significant first; `None` where the table or the data ends. The
/// stream's bit order is kept.
pub fn huffman_read_length(code: u16, stream: &mut BitStream) -> (r: Option<usize>)
    requires
        old(stream).wf(),
        code >= 257,
    ensures
        final(stream).wf(),
        final(stream).data() == old(stream).data(),
        final(stream).msb_first() == old(stream).msb_first(),
        match length_value(old(stream).data(), old(stream).pos(), code as int) {
            None => r is None && final(stream).pos() == old(stream).pos(),
            Some((v, q)) => r matches Some(x) && x == v && final(stream).pos() == q,
        },
{
    let i = (code - 257) as usize;
    if i >= 29 {
        return None;
    }
    let e = length_entry(i);
    let order = stream.is_msb_first();
    stream.set_static_huffman_bit_order(false);
    let extra = stream.read(e.bits as usize);
    stream.set_static_huffman_bit_order(order);
    match extra {
        Some(x) => Some(e.len as usize + x as usize),
        None => None,
    }
}

/// The distance of a length/distance pair with fixed codes: a 5-bit code
/// read in the stream's order, then its extra bits least significant first;
/// afterwards the stream reads most significant bit first.
pub fn huffman_read_distance(stream: &mut BitStream) -> (r: Option<usize>)
    requires
        old(stream).wf(),
    ensures
        final(stream).wf(),
        final(stream).data() == old(stream).data(),
        r is Some ==> final(stream).msb_first(),
        old(stream).msb_first() ==> final(stream).msb_first(),
        !fits(old(stream).data(), old(stream).pos(), 5) ==> r is None && final(stream).pos() == old(
            stream,
        ).pos(),
        fits(old(stream).data(), old(stream).pos(), 5) ==> match distance_value(
            old(stream).data(),
            old(stream).pos() + 5,
            bits_value(old(stream).data(), old(stream).pos(), 5, old(stream).msb_first()) as int,
        ) {
            None => r is None && final(stream).pos() == old(stream).pos() + 5,
            Some((v, q)) => r matches Some(x) && x == v && final(stream).pos() == q,
        },
{
    let i = match stream.read(5) {
        Some(i) => i as usize,
        None => return None,
    };
    if i >= 30 {
        return None;
    }
    stream.set_static_huffman_bit_order(false);
    let e = distance_entry(i);
    let extra = stream.read(e.bits as usize);
    stream.set_static_huffman_bit_order(true);
    match extra {
        Some(x) => Some(x as usize + e.len as usize),
        None => None,
    }
}

/// Copies `length` bytes from `distance` bytes back to `*buf_pos` on, one
/// at a time, and moves `*buf_pos` past them; `false`, before writing
/// anything, where the copy reaches before `lo` or past the end of `buf`.
pub fn huffman_copy_pair(
    length: usize,
    distance: usize,
    buf: &mut [u8],
    buf_pos: &mut usize,
    lo: usize,
) -> (ok: bool)
    requires
        lo <= *old(buf_pos),
    ensures
        match copy_run(old(buf)@, lo as int, *old(buf_pos) as int, distance as int, length as int) {
            None => !ok && final(buf)@ == old(buf)@ && *final(buf_pos) == *old(buf_pos),
            Some(b) => ok && final(buf)@ == b && *final(buf_pos) == *old(buf_pos) + length,
        },
{
    if distance > *buf_pos - lo {
        return false;
    }
    if length == 0 {
        return true;
    }
    if *buf_pos > buf.len() || buf.len() - *buf_pos < length {
        return false;
    }
    let ghost target = copy_bytes(buf@, *buf_pos as int, distance as int, length as int);
    let ghost end = *buf_pos + length;
    let mut start = *buf_pos - distance;
    let mut k: usize = 0;
    while k < length
        invariant
            k <= length,
            start + distance == *buf_pos,
            *buf_pos + (length - k) == end,
            end <= buf@.len(),
            copy_bytes(buf@, *buf_pos as int, distance as int, (length - k) as int) == target,
        decreases length - k,
    {
        let byte = buf[start];
        buf[*buf_pos] = byte;
        *buf_pos = *buf_pos + 1;
        start = start + 1;
        k = k + 1;
    }
    true
}

/// A length/distance pair of a block with fixed codes, for length code
/// `code`: reads the pair and copies; `false` where that faults.
fn static_pair_step(stream: &mut BitStream, output: &mut [u8], current_pos: &mut usize, code: u16) -> (ok: bool)
    requires
        old(stream).wf(),
        old(stream).msb_first(),
        code >= 257,
    ensures
        final(stream).wf(),
        final(stream).data() == old(stream).data(),
        final(stream).msb_first(),
        ok ==> *final(current_pos) <= final(output)@.len(),
        *old(current_pos) <= *final(current_pos),
        final(output)@.len() == old(output)@.len(),
        match static_pair(old(stream).data(), old(output)@, old(stream).pos(), *old(current_pos) as int, code as int) {
            None => !ok,
            Some((b, q, c)) => ok && final(output)@ == b && final(stream).pos() == q && *final(current_pos) == c,
        },
{
    let len = match huffman_read_length(code, stream) {
        Some(l) => l,
        None => return false,
    };
    let distance = match huffman_read_distance(stream) {
        Some(d) => d,
        None => return false,
    };
    let ghost before = output@;
    let ghost cur0 = *current_pos;
    let ok = huffman_copy_pair(len, distance, output, current_pos, 0);
    proof {
        if ok {
            crate::model::lemma_copy_bytes_len(before, cur0 as int, distance as int, len as int);
        }
    }
    ok
}

/// Decodes a block with fixed Huffman codes, writing from `output_pos` on;
/// the count when it finishes is the number of bytes written. The stream is
/// left reading most significant bit first.
pub fn static_huffman_decode(stream: &mut BitStream, output: &mut [u8], output_pos: usize) -> (r: Status)
    requires
        old(stream).wf(),
    ensures
        final(stream).wf(),
        final(stream).data() == old(stream).data(),
        final(stream).msb_first(),
        final(output)@.len() == old(output)@.len(),
        r matches Status::Done(n) ==> n == 0 || output_pos + n <= old(output)@.len(),
        run_matches(
            r,
            final(output)@,
            final(stream).pos(),
            static_block(
                old(stream).data(),
                old(output)@,
                old(stream).pos(),
                output_pos as int,
                output_pos as int,
            ),
        ),
{
    let ghost data = stream.data();
    let ghost target = static_block(data, output@, stream.pos(), output_pos as int, output_pos as int);
    proof {
        stream.lemma_pos_range();
    }
    let mut current_pos: usize = output_pos;
    stream.set_static_huffman_bit_order(true);
    loop
        invariant
            stream.wf(),
            stream.data() == data,
            data == old(stream).data(),
            output@.len() == old(output)@.len(),
            target == static_block(
                old(stream).data(),
                old(output)@,
                old(stream).pos(),
                output_pos as int,
                output_pos as int,
            ),
            stream.msb_first(),
            0 <= stream.pos() <= 8 * data.len(),
            output_pos <= current_pos,
            current_pos == output_pos || current_pos <= output@.len(),
            static_block(data, output@, stream.pos(), current_pos as int, output_pos as int) == target,
        decreases 8 * data.len() - stream.pos(),
    {
        let ghost p = stream.pos();
        let ghost buf = output@;
        let cmd = match stream.read(7) {
            Some(c) => c,
            None => {
                assert(!fits(data, p, 7));
                assert(static_block(data, buf, p, current_pos as int, output_pos as int) == Run::Fault);
                return Status::Fault;
            },
        };
        proof {
            crate::bits::lemma_value_bound(data, p, 7);
            reveal_with_fuel(crate::bits::two_to, 8);
        }
        if cmd <= 0b0010111 {
            let code = END_OF_DATA + cmd;
            if code == END_OF_DATA {
                return Status::Done(current_pos - output_pos);
            }
            if !static_pair_step(stream, output, &mut current_pos, code) {
                return Status::Fault;
            }
            proof {
                crate::model::lemma_static_pair_advances(data, buf, p + 7, current_pos as int, code as int);
            }
            continue;
        }
        let bit = match stream.read(1) {
            Some(b) => b,
            None => return Status::Fault,
        };
        proof {
            crate::bits::lemma_one_bit(data, p + 7);
        }
        let cmd = cmd * 2 + bit;
        if cmd >= 0b00110000 && cmd <= 0b10111111 {
            if current_pos >= output.len() {
                return Status::Fault;
            }
            output[current_pos] = (cmd - 0b00110000) as u8;
            current_pos = current_pos + 1;
            continue;
        }
        if cmd >= 0b11000000 && cmd <= 0b11000111 {
            let code = 280 + (cmd - 0b11000000);
            if code == 286 || code == 287 {
                return Status::Invalid;
            }
            if !static_pair_step(stream, output, &mut current_pos, code) {
                return Status::Fault;
            }
            continue;
        }
        let bit = match stream.read(1) {
            Some(b) => b,
            None => return Status::Fault,
        };
        proof {
            crate::bits::lemma_one_bit(data, p + 8);
        }
        let cmd = cmd * 2 + bit;
        if cmd >= 0b110010000 && cmd <= 0b111111111 {
            if current_pos >= output.len() {
                return Status::Fault;
            }
            output[current_pos] = (144 + (cmd - 0b110010000)) as u8;
            current_pos = current_pos + 1;
            continue;
        }
        return Status::Invalid;
    }
}

/// Where the `i`-th code length of the code length alphabet goes.
fn code_length_order_entry(i: usize) -> (r: usize)
    requires
        i < 19,
    ensures
        r as int == code_length_order(i as int),
        r < 19,
{
    match i {
        0 => 16,
        1 => 17,
        2 => 18,
        3 => 0,
        4 => 8,
        5 => 7,
        6 => 9,
        7 => 6,
        8 => 10,
        9 => 5,
        10 => 11,
        11 => 4,
        12 => 12,
        13 => 3,
        14 => 13,
        15 => 2,
        16 => 14,
        17 => 1,
        _ => 15,
    }
}

/// Reads the `hclen` code lengths, 3 bits each, of the code length alphabet;
/// `None` where the data ends first.
pub fn read_code_length_lens(stream: &mut BitStream, hclen: usize) -> (r: Option<Vec<u8>>)
    requires
        old(stream).wf(),
        !old(stream).msb_first(),
        hclen <= 19,
    ensures
        final(stream).wf(),
        final(stream).data() == old(stream).data(),
        !final(stream).msb_first(),
        r is None <==> !fits(old(stream).data(), old(stream).pos(), (3 * hclen) as nat),
        r matches Some(v) ==> {
            &&& v@ == code_length_lens(old(stream).data(), old(stream).pos(), hclen as int)
            &&& final(stream).pos() == old(stream).pos() + 3 * hclen
            &&& lens_in_range(v@)
            &&& v@.len() == 19
        },
{
    let ghost data = stream.data();
    let ghost p = stream.pos();
    proof {
        stream.lemma_pos_range();
    }
    let mut cmd_len: Vec<u8> = vec![0u8; 19];
    assert(cmd_len@ =~= code_length_lens(data, p, 0));
    let mut i: usize = 0;
    while i < hclen
        invariant
            stream.wf(),
            stream.data() == data,
            data == old(stream).data(),
            p == old(stream).pos(),
            !stream.msb_first(),
            hclen <= 19,
            i <= hclen,
            stream.pos() == p + 3 * i,
            fits(data, p, (3 * i) as nat),
            cmd_len@ == code_length_lens(data, p, i as int),
            cmd_len@.len() == 19,
            forall|j: int| 0 <= j < 19 ==> #[trigger] cmd_len@[j] <= 7,
        decreases hclen - i,
    {
        let v = match stream.read(3) {
            Some(v) => v,
            None => return None,
        };
        proof {
            crate::bits::lemma_value_bound(data, p + 3 * i, 3);
            reveal_with_fuel(crate::bits::two_to, 4);
        }
        let k = code_length_order_entry(i);
        cmd_len[k] = v as u8;
        i = i + 1;
    }
    Some(cmd_len)
}

/// The table of the code length alphabet, from its 19 code lengths.
fn build_code_length_dictionary(cmd_len: &Vec<u8>) -> (r: Option<Dictionary>)
    requires
        cmd_len@.len() == 19,
        lens_in_range(cmd_len@),
    ensures
        r is None <==> build_faults(cmd_len@),
        r matches Some(d) ==> d.wf() && d.lens() == cmd_len@,
{
    let mut zdict = DictionaryBuilder::new(19);
    let mut i: usize = 0;
    while i < 19
        invariant
            zdict.wf(),
            zdict.capacity() == 19,
            cmd_len@.len() == 19,
            lens_in_range(cmd_len@),
            i <= 19,
            zdict.lens() == cmd_len@.take(i as int),
        decreases 19 - i,
    {
        let ok = zdict.put(cmd_len[i]);
        assert(cmd_len@.take(i + 1) =~= cmd_len@.take(i as int).push(cmd_len@[i as int]));
        i = i + 1;
    }
    assert(cmd_len@.take(19) =~= cmd_len@);
    zdict.build_dictionary()
}

/// Appends the code length `v` `count` times: to `dict` while it has room,
/// then to `offsets` while it has room.
fn put_repeated(dict: &mut DictionaryBuilder, offsets: &mut DictionaryBuilder, v: u8, count: usize)
    requires
        old(dict).wf(),
        old(offsets).wf(),
        old(dict).capacity() <= 289,
        old(offsets).capacity() <= 289,
        v <= 15,
    ensures
        final(dict).wf(),
        final(offsets).wf(),
        final(dict).capacity() == old(dict).capacity(),
        final(offsets).capacity() == old(offsets).capacity(),
        (final(dict).lens(), final(offsets).lens()) == put_repeat(
            old(dict).lens(),
            old(offsets).lens(),
            old(dict).capacity() as int,
            old(offsets).capacity() as int,
            v,
            count as int,
        ),
{
    let ghost hlit = dict.capacity() as int;
    let ghost hdist = offsets.capacity() as int;
    let ghost target = put_repeat(dict.lens(), offsets.lens(), hlit, hdist, v, count as int);
    let mut k: usize = 0;
    while k < count
        invariant
            dict.wf(),
            offsets.wf(),
            dict.capacity() == hlit,
            offsets.capacity() == hdist,
            hlit <= 289,
            hdist <= 289,
            v <= 15,
            k <= count,
            put_repeat(dict.lens(), offsets.lens(), hlit, hdist, v, (count - k) as int) == target,
        decreases count - k,
    {
        if !dict.put(v) {
            offsets.put(v);
        }
        k = k + 1;
    }
}

/// How reading the code lengths of a block ended.
enum LensStatus {
    Done,
    Invalid,
    Fault,
}

/// Reads code lengths coded with `zdict` until `dict` and `offsets` are
/// full.
fn read_code_lengths(
    zdict: &Dictionary,
    stream: &mut BitStream,
    dict: &mut DictionaryBuilder,
    offsets: &mut DictionaryBuilder,
) -> (r: LensStatus)
    requires
        zdict.wf(),
        old(stream).wf(),
        !old(stream).msb_first(),
        old(dict).wf(),
        old(offsets).wf(),
        old(dict).capacity() <= 289,
        old(offsets).capacity() <= 289,
    ensures
        final(stream).wf(),
        final(stream).data() == old(stream).data(),
        !final(stream).msb_first(),
        final(dict).wf(),
        final(offsets).wf(),
        final(dict).capacity() == old(dict).capacity(),
        final(offsets).capacity() == old(offsets).capacity(),
        match lengths_run(
            zdict.lens(),
            old(stream).data(),
            old(stream).pos(),
            old(dict).lens(),
            old(offsets).lens(),
            old(dict).capacity() as int,
            old(offsets).capacity() as int,
        ) {
            LensRun::Done { lit, dist, pos } => r is Done && final(dict).lens() == lit
                && final(offsets).lens() == dist && final(stream).pos() == pos,
            LensRun::Invalid => r is Invalid,
            LensRun::Fault => r is Fault,
        },
{
    let ghost zlens = zdict.lens();
    let ghost data = stream.data();
    let ghost hlit = dict.capacity() as int;
    let ghost hdist = offsets.capacity() as int;
    let ghost target = lengths_run(zlens, data, stream.pos(), dict.lens(), offsets.lens(), hlit, hdist);
    proof {
        stream.lemma_pos_range();
    }
    while !dict.is_full() || !offsets.is_full()
        invariant
            zdict.wf(),
            zlens == zdict.lens(),
            stream.wf(),
            stream.data() == data,
            data == old(stream).data(),
            !stream.msb_first(),
            0 <= stream.pos() <= 8 * data.len(),
            dict.wf(),
            offsets.wf(),
            dict.capacity() == hlit,
            offsets.capacity() == hdist,
            hlit == old(dict).capacity(),
            hdist == old(offsets).capacity(),
            hlit <= 289,
            hdist <= 289,
            target == lengths_run(
                zlens,
                data,
                old(stream).pos(),
                old(dict).lens(),
                old(offsets).lens(),
                old(dict).capacity() as int,
                old(offsets).capacity() as int,
            ),
            lengths_run(zlens, data, stream.pos(), dict.lens(), offsets.lens(), hlit, hdist) == target,
        decreases lens_missing(dict.lens(), offsets.lens(), hlit, hdist),
    {
        let ghost p = stream.pos();
        let ghost d0 = dict.lens();
        let ghost o0 = offsets.lens();
        proof {
            crate::model::lemma_read_symbol_advances(zlens, data, p, 1);
        }
        let sym = match zdict.find_in_bit_stream(stream) {
            Lookup::Found(s) => s,
            _ => return LensStatus::Fault,
        };
        let ghost q = stream.pos();
        let cmd = sym as u8;
        if cmd <= 15 {
            if !dict.put(cmd) {
                offsets.put(cmd);
            }
        } else if cmd == 16 {
            let r = match stream.read(2) {
                Some(r) => r,
                None => return LensStatus::Fault,
            };
            let v = match offsets.last() {
                Some(v) => v,
                None => match dict.last() {
                    Some(v) => v,
                    None => return LensStatus::Invalid,
                },
            };
            put_repeated(dict, offsets, v, r as usize + 3);
            proof {
                crate::model::lemma_put_repeat_progress(d0, o0, hlit, hdist, v, r + 3);
            }
        } else if cmd == 17 {
            let extra = match stream.read(3) {
                Some(x) => x,
                None => return LensStatus::Fault,
            };
            put_repeated(dict, offsets, 0, extra as usize + 3);
            proof {
                crate::model::lemma_put_repeat_progress(d0, o0, hlit, hdist, 0, extra + 3);
            }
        } else if cmd == 18 {
            let extra = match stream.read(7) {
                Some(x) => x,
                None => return LensStatus::Fault,
            };
            put_repeated(dict, offsets, 0, extra as usize + 11);
            proof {
                crate::model::lemma_put_repeat_progress(d0, o0, hlit, hdist, 0, extra + 11);
            }
        } else {
            return LensStatus::Invalid;
        }
    }
    LensStatus::Done
}

/// Decodes literals and length/distance pairs with the tables `lit` and
/// `dist` until the end-of-block code, writing from `start` on; the count
/// when it finishes is the number of bytes written.
fn decode_symbols(
    lit: &Dictionary,
    dist: &Dictionary,
    stream: &mut BitStream,
    output: &mut [u8],
    start: usize,
) -> (r: Status)
    requires
        lit.wf(),
        dist.wf(),
        old(stream).wf(),
        !old(stream).msb_first(),
        start <= old(output)@.len(),
    ensures
        final(stream).wf(),
        final(stream).data() == old(stream).data(),
        final(output)@.len() == old(output)@.len(),
        r matches Status::Done(n) ==> start + n <= old(output)@.len(),
        run_matches(
            r,
            final(output)@,
            final(stream).pos(),
            dynamic_symbols(
                lit.lens(),
                dist.lens(),
                old(stream).data(),
                old(output)@,
                old(stream).pos(),
                start as int,
                0,
            ),
        ),
{
    let ghost data = stream.data();
    let ghost target = dynamic_symbols(lit.lens(), dist.lens(), data, output@, stream.pos(), start as int, 0);
    proof {
        stream.lemma_pos_range();
    }
    let out_len = output.len();
    let mut current_pos: usize = 0;
    loop
        invariant
            output@.len() == out_len,
            lit.wf(),
            dist.wf(),
            stream.wf(),
            stream.data() == data,
            data == old(stream).data(),
            !stream.msb_first(),
            0 <= stream.pos() <= 8 * data.len(),
            output@.len() == old(output)@.len(),
            start + current_pos <= output@.len(),
            target == dynamic_symbols(
                lit.lens(),
                dist.lens(),
                old(stream).data(),
                old(output)@,
                old(stream).pos(),
                start as int,
                0,
            ),
            dynamic_symbols(
                lit.lens(),
                dist.lens(),
                data,
                output@,
                stream.pos(),
                start as int,
                current_pos as int,
            ) == target,
        decreases 8 * data.len() - stream.pos(),
    {
        let ghost p = stream.pos();
        let ghost buf = output@;
        proof {
            crate::model::lemma_read_symbol_advances(lit.lens(), data, p, 1);
        }
        let x = match lit.find_in_bit_stream(stream) {
            Lookup::Found(x) => x,
            Lookup::Absent => return Status::Invalid,
            Lookup::Fault => return Status::Fault,
        };
        if x <= 255 {
            if start + current_pos >= output.len() {
                return Status::Fault;
            }
            output[start + current_pos] = x as u8;
            current_pos = current_pos + 1;
        } else if x == END_OF_DATA {
            return Status::Done(current_pos);
        } else {
            let len = match huffman_read_length(x, stream) {
                Some(l) => l,
                None => return Status::Fault,
            };
            let ghost q1 = stream.pos();
            proof {
                crate::model::lemma_read_symbol_advances(dist.lens(), data, q1, 1);
            }
            let offset = match dist.find_in_bit_stream(stream) {
                Lookup::Found(o) => o,
                Lookup::Absent => return Status::Invalid,
                Lookup::Fault => return Status::Fault,
            };
            if offset >= 30 {
                return Status::Fault;
            }
            let e = distance_entry(offset as usize);
            let extra = match stream.read(e.bits as usize) {
                Some(x) => x,
                None => return Status::Fault,
            };
            let distance = extra as usize + e.len as usize;
            let ghost before = output@;
            let mut buf_pos = start + current_pos;
            if !huffman_copy_pair(len, distance, output, &mut buf_pos, 0) {
                return Status::Fault;
            }
            proof {
                crate::model::lemma_copy_bytes_len(before, (start + current_pos) as int, distance as int, len as int);
            }
            current_pos = buf_pos - start;
        }
    }
}

/// Decodes a block with dynamic Huffman codes: the header, the code lengths
/// of its two tables, then its symbols, writing from `start` on; the count
/// when it finishes is the number of bytes written.
pub fn dynamic_huffman_decode(stream: &mut BitStream, output: &mut [u8], start: usize) -> (r: Status)
    requires
        old(stream).wf(),
        !old(stream).msb_first(),
        start <= old(output)@.len(),
    ensures
        final(stream).wf(),
        final(stream).data() == old(stream).data(),
        final(output)@.len() == old(output)@.len(),
        r matches Status::Done(n) ==> start + n <= old(output)@.len(),
        run_matches(
            r,
            final(output)@,
            final(stream).pos(),
            dynamic_block(old(stream).data(), old(output)@, old(stream).pos(), start as int),
        ),
{
    let ghost data = stream.data();
    let ghost p = stream.pos();
    let hlit = match stream.read(5) {
        Some(v) => v as usize + 257,
        None => return Status::Fault,
    };
    let hdist = match stream.read(5) {
        Some(v) => v as usize + 1,
        None => return Status::Fault,
    };
    let hclen = match stream.read(4) {
        Some(v) => v as usize + 4,
        None => return Status::Fault,
    };
    proof {
        crate::bits::lemma_value_bound(data, p, 5);
        crate::bits::lemma_value_bound(data, p + 5, 5);
        crate::bits::lemma_value_bound(data, p + 10, 4);
        reveal_with_fuel(crate::bits::two_to, 6);
    }
    let cmd_len = match read_code_length_lens(stream, hclen) {
        Some(v) => v,
        None => return Status::Fault,
    };
    let zdict = match build_code_length_dictionary(&cmd_len) {
        Some(d) => d,
        None => return Status::Fault,
    };
    let mut dict = DictionaryBuilder::new(hlit);
    let mut offsets = DictionaryBuilder::new(hdist);
    match read_code_lengths(&zdict, stream, &mut dict, &mut offsets) {
        LensStatus::Done => {},
        LensStatus::Invalid => return Status::Invalid,
        LensStatus::Fault => return Status::Fault,
    }
    let xdict = match dict.build_dictionary() {
        Some(d) => d,
        None => return Status::Fault,
    };
    let xoffsets = match offsets.build_dictionary() {
        Some(d) => d,
        None => return Status::Fault,
    };
    decode_symbols(&xdict, &xoffsets, stream, output, start)
}

/// `r` is how `run` ends, with the output buffer holding `out`.
pub open spec fn outcome_matches(r: Status, out: Seq<u8>, run: Run) -> bool {
    match run {
        Run::Done { value, buf, .. } => {
            &&& r matches Status::Done(v)
            &&& v == value
            &&& out == buf
        },
        Run::Invalid { buf } => r is Invalid && out == buf,
        Run::Fault => r is Fault,
    }
}

/// Copies the `len` bytes of a stored block, taken from byte `from` of
/// `input` on, to `output` from `*count` on; `false`, before writing
/// anything, where either slice is too short.
fn copy_stored(input: &[u8], output: &mut [u8], count: &mut usize, from: usize, len: usize) -> (ok: bool)
    requires
        *old(count) <= old(output)@.len(),
    ensures
        final(output)@.len() == old(output)@.len(),
        ok == !(len > 0 && (*old(count) + len > old(output)@.len() || from + len > input@.len())),
        ok ==> *final(count) == *old(count) + len && final(output)@ == stored_copy(
            input@,
            old(output)@,
            *old(count) as int,
            from as int,
            len as int,
        ),
{
    if len > 0 && (output.len() - *count < len || input.len() < from || input.len() - from < len) {
        return false;
    }
    let ghost c0 = *count as int;
    let ghost buf0 = output@;
    let in_len = input.len();
    let mut i: usize = 0;
    assert(output@ =~= stored_copy(input@, buf0, c0, from as int, 0));
    while i < len
        invariant
            i <= len,
            c0 + len <= buf0.len(),
            len > 0 ==> from + len <= input@.len(),
            input@.len() == in_len,
            *count == c0 + i,
            output@.len() == buf0.len(),
            output@ == stored_copy(input@, buf0, c0, from as int, i as int),
        decreases len - i,
    {
        let byte = input[from + i];
        output[*count] = byte;
        *count = *count + 1;
        i = i + 1;
        assert(output@ =~= stored_copy(input@, buf0, c0, from as int, i as int));
    }
    true
}

/// A stored block whose header bits have been read: `true` with the stream
/// past its bytes and `*count` past the bytes copied, or `false` where it
/// faults.
fn decode_stored(stream: &mut BitStream, input: &[u8], output: &mut [u8], count: &mut usize) -> (ok: bool)
    requires
        old(stream).wf(),
        !old(stream).msb_first(),
        old(stream).data() == input@,
        *old(count) <= old(output)@.len(),
    ensures
        final(stream).wf(),
        final(stream).data() == old(stream).data(),
        final(stream).msb_first() == old(stream).msb_first(),
        final(output)@.len() == old(output)@.len(),
        ok ==> *final(count) <= final(output)@.len(),
        match stored_block(input@, old(output)@, old(stream).pos(), *old(count) as int) {
            Run::Done { value, pos, buf } => ok && *final(count) == value && final(output)@ == buf
                && final(stream).pos() == pos,
            _ => !ok,
        },
{
    let ghost data = input@;
    let ghost p = stream.pos();
    stream.skip_bits_to_byte_border();
    let len = match stream.read(16) {
        Some(l) => l,
        None => return false,
    };
    let _nlen = match stream.read(16) {
        Some(l) => l,
        None => return false,
    };
    proof {
        crate::bits::lemma_lsb_split(data, align_up(p), 16, 16);
        crate::bits::lemma_align_up(p);
    }
    let (from, bit) = stream.position();
    assert(bit == 0 && from * 8 == align_up(p) + 32);
    let ghost q = align_up(p);
    assert(from as int == q / 8 + 4) by (nonlinear_arith)
        requires
            from * 8 == q + 32,
            q % 8 == 0,
    ;
    if !copy_stored(input, output, count, from, len as usize) {
        return false;
    }
    stream.advance_bytes(len as usize);
    true
}

/// One block, whose header starts at the stream's position, with `*count`
/// bytes decoded so far: `Done` with whether the block is marked final, the
/// count moved past the block's bytes.
fn decode_block(stream: &mut BitStream, input: &[u8], output: &mut [u8], count: &mut usize) -> (r: Status)
    requires
        old(stream).wf(),
        old(stream).data() == input@,
        fits(input@, old(stream).pos(), 3),
        *old(count) <= old(output)@.len(),
    ensures
        final(stream).wf(),
        final(stream).data() == old(stream).data(),
        final(output)@.len() == old(output)@.len(),
        r is Done ==> *final(count) <= final(output)@.len(),
        r matches Status::Done(f) ==> f == lsb_value(input@, old(stream).pos(), 1),
        match block_run(input@, old(output)@, old(stream).pos(), *old(count) as int) {
            Run::Done { value, pos, buf } => r is Done && *final(count) == value && final(output)@
                == buf && final(stream).pos() == pos,
            Run::Invalid { buf } => r is Invalid && final(output)@ == buf,
            Run::Fault => r is Fault,
        },
{
    let ghost data = input@;
    let ghost p = stream.pos();
    let out_len = output.len();
    stream.set_static_huffman_bit_order(false);
    let bfinal = match stream.read(1) {
        Some(b) => b,
        None => return Status::Fault,
    };
    let btype = match stream.read(2) {
        Some(t) => t,
        None => return Status::Fault,
    };
    proof {
        crate::bits::lemma_one_bit(data, p);
    }
    match btype {
        0b00 => {
            if !decode_stored(stream, input, output, count) {
                return Status::Fault;
            }
        },
        0b01 => {
            match static_huffman_decode(stream, output, *count) {
                Status::Done(n) => {
                    *count = *count + n;
                },
                Status::Invalid => return Status::Invalid,
                Status::Fault => return Status::Fault,
            }
        },
        0b10 => {
            if *count > output.len() {
                return Status::Fault;
            }
            match dynamic_huffman_decode(stream, output, *count) {
                Status::Done(n) => {
                    *count = *count + n;
                },
                Status::Invalid => return Status::Invalid,
                Status::Fault => return Status::Fault,
            }
        },
        _ => {
            return Status::Invalid;
        },
    }
    Status::Done(bfinal as usize)
}

/// Decodes `input` into `output`, block by block, and gives how the run
/// ended: `Done` with the number of bytes decoded, `Invalid` where the data
/// has a reserved block type or code, `Fault` where the data would make
/// the decoder index out of a buffer or a table, read past its end, or
/// overflow its arithmetic.
pub fn decode_checked(input: &[u8], output: &mut [u8]) -> (r: Status)
    ensures
        final(output)@.len() == old(output)@.len(),
        r matches Status::Done(n) ==> n <= final(output)@.len(),
        outcome_matches(r, final(output)@, decode_spec(input@, old(output)@)),
        decode_spec(input@, old(output)@) matches Run::Done { value, .. } ==> 0 <= value
            <= old(output)@.len(),
{
    proof {
        crate::laws::law_decode_writes_only_its_count(input@, output@);
    }
    let ghost data = input@;
    let ghost target = decode_spec(input@, output@);
    let mut count: usize = 0;
    let mut stream = BitStream::new(input);
    loop
        invariant
            stream.wf(),
            stream.data() == data,
            data == input@,
            0 <= stream.pos() <= 8 * data.len(),
            output@.len() == old(output)@.len(),
            count <= output@.len(),
            target == decode_spec(input@, old(output)@),
            decode_blocks(data, output@, stream.pos(), count as int) == target,
        decreases 8 * data.len() - stream.pos(),
    {
        let ghost p = stream.pos();
        let ghost buf = output@;
        let ghost c = count;
        if !stream.has_bits(3) {
            return Status::Fault;
        }
        proof {
            crate::model::lemma_block_run_advances(data, buf, p, c as int);
        }
        let bfinal = match decode_block(&mut stream, input, output, &mut count) {
            Status::Done(f) => f,
            Status::Invalid => return Status::Invalid,
            Status::Fault => return Status::Fault,
        };
        if bfinal == 1 {
            return Status::Done(count);
        }
    }
}

/// Decodes the DEFLATE data `input` into `output`: the number of bytes
/// decoded, or `None` where the data has a reserved block type or code.
/// Inputs on which the decoder would fault are left out.
pub fn decode(input: &[u8], output: &mut [u8]) -> (r: Option<usize>)
    requires
        !(decode_spec(input@, old(output)@) is Fault),
    ensures
        match decode_spec(input@, old(output)@) {
            Run::Done { value, buf, .. } => r == Some(value as usize) && final(output)@ == buf,
            Run::Invalid { buf } => r is None && final(output)@ == buf,
            Run::Fault => false,
        },
        r matches Some(n) ==> n <= final(output)@.len(),
        decode_spec(input@, old(output)@) matches Run::Done { value, .. } ==> 0 <= value
            <= old(output)@.len(),
{
    proof {
        crate::laws::law_decode_writes_only_its_count(input@, output@);
    }
    match decode_checked(input, output) {
        Status::Done(n) => Some(n),
        _ => None,
    }
}

} // verus!
