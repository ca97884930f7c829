//! Reading the start of a block with dynamic Huffman codes for inspection:
//! its header fields, the codes of its code length alphabet, and the code
//! length symbols that follow, one at a time.
//!
//! The codes given here are the canonical codes of RFC 1951 section 3.2.2,
//! the ones decoding uses: lengths 1 to 15 are numbered in turn, each from
//! the doubled end of the one before; symbols of length 0 get no code and
//! are shown with the code 0.

use vstd::prelude::*;
use crate::bits::{fits, lsb_value, msb_value, BitStream};
use crate::huffman::{
    code_overflow, count_of_len, find_spec, lens_in_range, next_code, not_oversubscribed,
    read_symbol_from, symbol_code, Lookup,
};
use crate::model::code_length_lens;

verus! {

/// A symbol's code: its `len` bits, most significant first, form `code`.
#[derive(Clone, Copy)]
pub struct Code {
    pub code: u16,
    pub len: usize,
}

/// The header fields of a block.
#[derive(Clone, Copy)]
pub struct BlockHeader {
    /// The block is marked final.
    pub last_block: bool,
    /// The block type, 0 to 3.
    pub block_type: u16,
    /// The number of literal/length codes.
    pub hlit: usize,
    /// The number of distance codes.
    pub hdist: usize,
    /// The number of code length codes.
    pub hclen: usize,
}

/// Numbering the codes of some length runs past 16 bits.
pub open spec fn dump_overflows(lens: Seq<u8>) -> bool {
    exists|l: int| 1 <= l < 16 && #[trigger] code_overflow(lens, l)
}

/// The code given to symbol `x`.
pub open spec fn dump_code(lens: Seq<u8>, x: int) -> Code {
    let l = lens[x] as int;
    if 1 <= l <= 15 {
        Code { code: (next_code(lens, l) + count_of_len(lens, l, x)) as u16, len: l as usize }
    } else {
        Code { code: 0, len: l as usize }
    }
}

/// The header fields of a block starting at bit position `p`, once `fits(data, p, 17)`.
pub open spec fn header_at(data: Seq<u8>, p: int) -> BlockHeader {
    BlockHeader {
        last_block: lsb_value(data, p, 1) == 1,
        block_type: lsb_value(data, p + 1, 2) as u16,
        hlit: (lsb_value(data, p + 3, 5) + 257) as usize,
        hdist: (lsb_value(data, p + 8, 5) + 1) as usize,
        hclen: (lsb_value(data, p + 13, 4) + 4) as usize,
    }
}

/// The first of `codes` with length `len` and code `cmd`.
pub open spec fn is_first_match(codes: Seq<Code>, len: int, cmd: int, i: int) -> bool {
    &&& 0 <= i < codes.len()
    &&& codes[i].len == len && codes[i].code == cmd
    &&& forall|j: int| 0 <= j < i ==> !(codes[j].len == len && #[trigger] codes[j].code == cmd)
}

/// Some of `codes` has length `len` and code `cmd`.
pub open spec fn has_match(codes: Seq<Code>, len: int, cmd: int) -> bool {
    exists|j: int| 0 <= j < codes.len() && codes[j].len == len && #[trigger] codes[j].code == cmd
}

/// Reads bits from position `p`, most significant first and kept in 16
/// bits, until the first `l` of them (`l` counted from `l0`) form the code
/// of a symbol: `(l, the 16-bit value)`, or `None` where the data ends first.
pub open spec fn code_search(codes: Seq<Code>, data: Seq<u8>, p: int, l: int) -> Option<(int, int)>
    decreases 8 * data.len() - p - l + 1,
{
    if l < 1 || !fits(data, p, l as nat) {
        None
    } else {
        let cmd = msb_value(data, p, l as nat) % 65536;
        if has_match(codes, l, cmd as int) {
            Some((l, cmd as int))
        } else {
            code_search(codes, data, p, l + 1)
        }
    }
}

/// Reads the header fields of a block; `None` where the data ends first.
pub fn read_block_header(stream: &mut BitStream) -> (r: Option<BlockHeader>)
    requires
        old(stream).wf(),
        !old(stream).msb_first(),
    ensures
        final(stream).wf(),
        final(stream).data() == old(stream).data(),
        !final(stream).msb_first(),
        r is None <==> !fits(old(stream).data(), old(stream).pos(), 17),
        r matches Some(h) ==> h == header_at(old(stream).data(), old(stream).pos())
            && final(stream).pos() == old(stream).pos() + 17,
{
    let ghost data = stream.data();
    let ghost p = stream.pos();
    let last = match stream.read(1) {
        Some(v) => v,
        None => return None,
    };
    let block_type = match stream.read(2) {
        Some(v) => v,
        None => return None,
    };
    let hlit = match stream.read(5) {
        Some(v) => v as usize + 257,
        None => return None,
    };
    let hdist = match stream.read(5) {
        Some(v) => v as usize + 1,
        None => return None,
    };
    let hclen = match stream.read(4) {
        Some(v) => v as usize + 4,
        None => return None,
    };
    proof {
        crate::bits::lemma_value_bound(data, p + 3, 5);
        crate::bits::lemma_value_bound(data, p + 8, 5);
        crate::bits::lemma_value_bound(data, p + 13, 4);
        reveal_with_fuel(crate::bits::two_to, 6);
    }
    Some(BlockHeader { last_block: last == 1, block_type, hlit, hdist, hclen })
}

/// The codes of the 19 symbols of the code length alphabet, from their
/// lengths; `None` where numbering them runs past 16 bits.
pub fn assign_codes(lens: &Vec<u8>) -> (r: Option<Vec<Code>>)
    requires
        lens@.len() == 19,
    ensures
        r is None <==> dump_overflows(lens@),
        r matches Some(codes) ==> codes@.len() == 19 && forall|x: int|
            0 <= x < 19 ==> #[trigger] codes@[x] == dump_code(lens@, x),
{
    let ghost ls = lens@;
    let mut codes: Vec<Code> = Vec::new();
    let mut x: usize = 0;
    while x < 19
        invariant
            ls == lens@,
            ls.len() == 19,
            x <= 19,
            codes@.len() == x,
            forall|y: int| 0 <= y < x ==> #[trigger] codes@[y] == (Code { code: 0, len: ls[y] as usize }),
        decreases 19 - x,
    {
        codes.push(Code { code: 0, len: lens[x] as usize });
        x = x + 1;
    }
    let mut code: u16 = 0;
    let mut i: usize = 1;
    while i < 16
        invariant
            ls == lens@,
            ls.len() == 19,
            1 <= i <= 16,
            codes@.len() == 19,
            code == next_code(ls, i as int),
            forall|l: int| 1 <= l < i ==> next_code(ls, l) + #[trigger] count_of_len(ls, l, 19) <= 65535,
            forall|y: int|
                0 <= y < 19 ==> #[trigger] codes@[y] == if 1 <= ls[y] < i {
                    dump_code(ls, y)
                } else {
                    Code { code: 0, len: ls[y] as usize }
                },
        decreases 16 - i,
    {
        let mut y: usize = 0;
        while y < 19
            invariant
                ls == lens@,
                ls.len() == 19,
                1 <= i < 16,
                y <= 19,
                codes@.len() == 19,
                code == next_code(ls, i as int) + count_of_len(ls, i as int, y as int),
                forall|l: int| 1 <= l < i ==> next_code(ls, l) + #[trigger] count_of_len(ls, l, 19) <= 65535,
                forall|z: int|
                    0 <= z < 19 ==> #[trigger] codes@[z] == if 1 <= ls[z] < i || (ls[z] == i && z < y) {
                        dump_code(ls, z)
                    } else {
                        Code { code: 0, len: ls[z] as usize }
                    },
            decreases 19 - y,
        {
            if codes[y].len == i {
                if code == 65535 {
                    proof {
                        crate::huffman::lemma_symbols_grow(ls, i as int, y + 1, 19);
                        assert(code_overflow(ls, i as int));
                    }
                    return None;
                }
                codes[y] = Code { code, len: i };
                code = code + 1;
            }
            y = y + 1;
        }
        proof {
            assert(count_of_len(ls, i as int, 19) == count_of_len(ls, i as int, ls.len() as int));
        }
        code = ((code as u32 * 2) % 65536) as u16;
        i = i + 1;
    }
    proof {
        assert forall|l: int| 1 <= l < 16 implies !#[trigger] code_overflow(ls, l) by {
            assert(count_of_len(ls, l, 19) == count_of_len(ls, l, ls.len() as int));
        }
    }
    Some(codes)
}

/// Reads the `hclen` code lengths of the code length alphabet and gives the
/// codes of its 19 symbols; `None` where the data ends first or numbering
/// the codes runs past 16 bits.
pub fn read_code_length_codes(stream: &mut BitStream, hclen: usize) -> (r: Option<Vec<Code>>)
    requires
        old(stream).wf(),
        !old(stream).msb_first(),
        hclen <= 19,
    ensures
        final(stream).wf(),
        final(stream).data() == old(stream).data(),
        !final(stream).msb_first(),
        ({
            let lens = code_length_lens(old(stream).data(), old(stream).pos(), hclen as int);
            &&& r is None <==> (!fits(old(stream).data(), old(stream).pos(), (3 * hclen) as nat)
                || dump_overflows(lens))
            &&& r matches Some(codes) ==> {
                &&& final(stream).pos() == old(stream).pos() + 3 * hclen
                &&& codes@.len() == 19
                &&& forall|x: int| 0 <= x < 19 ==> #[trigger] codes@[x] == dump_code(lens, x)
            }
        }),
{
    let lens = match crate::inflate::read_code_length_lens(stream, hclen) {
        Some(v) => v,
        None => return None,
    };
    assign_codes(&lens)
}

/// The first of `codes` with length `len` and code `cmd`.
pub fn match_code(codes: &Vec<Code>, len: usize, cmd: u16) -> (r: Option<usize>)
    ensures
        r matches Some(i) ==> is_first_match(codes@, len as int, cmd as int, i as int),
        r is None <==> !has_match(codes@, len as int, cmd as int),
{
    let mut i: usize = 0;
    while i < codes.len()
        invariant
            i <= codes@.len(),
            forall|j: int| 0 <= j < i ==> !(codes@[j].len == len && #[trigger] codes@[j].code == cmd),
        decreases codes@.len() - i,
    {
        if codes[i].len == len && codes[i].code == cmd {
            return Some(i);
        }
        i = i + 1;
    }
    None
}

/// Reads the next code length symbol: bits one at a time until they form
/// the code of one of `codes`, then the extra bits of symbols 17 (3 bits)
/// and 18 (7 bits); `None` where the data ends first.
pub fn next_code_length_symbol(stream: &mut BitStream, codes: &Vec<Code>) -> (r: Option<usize>)
    requires
        old(stream).wf(),
        old(stream).data().len() <= usize::MAX / 8,
        !old(stream).msb_first(),
    ensures
        final(stream).wf(),
        final(stream).data() == old(stream).data(),
        !final(stream).msb_first(),
        match code_search(codes@, old(stream).data(), old(stream).pos(), 1) {
            None => r is None,
            Some((l, cmd)) => forall|i: int|
                #[trigger] is_first_match(codes@, l, cmd, i) ==> {
                    let q = old(stream).pos() + l;
                    let extra: nat = if i == 17 {
                        3
                    } else if i == 18 {
                        7
                    } else {
                        0
                    };
                    &&& r is None <==> !fits(old(stream).data(), q, extra)
                    &&& r matches Some(j) ==> j == i && final(stream).pos() == q + extra
                },
        },
{
    let ghost data = stream.data();
    let ghost p = stream.pos();
    proof {
        stream.lemma_pos_range();
    }
    let mut len: usize = 0;
    let mut cmd: u16 = 0;
    loop
        invariant
            stream.wf(),
            stream.data() == data,
            data == old(stream).data(),
            p == old(stream).pos(),
            data.len() <= usize::MAX / 8,
            0 <= p,
            !stream.msb_first(),
            stream.pos() == p + len,
            fits(data, p, len as nat),
            cmd as int == msb_value(data, p, len as nat) % 65536,
            code_search(codes@, data, p, 1) == code_search(codes@, data, p, len + 1),
        decreases 8 * data.len() - p - len,
    {
        let bit = match stream.read(1) {
            Some(b) => b,
            None => return None,
        };
        proof {
            let a = msb_value(data, p, len as nat) as int;
            crate::bits::lemma_one_bit(data, p + len);
            crate::bits::lemma_msb_split(data, p, len as nat, 1);
            vstd::arithmetic::div_mod::lemma_fundamental_div_mod(a, 65536);
            vstd::arithmetic::div_mod::lemma_mod_multiples_vanish(2 * (a / 65536), 2 * (a % 65536) + bit, 65536);
            assert(2 * a + bit == 65536 * (2 * (a / 65536)) + (2 * (a % 65536) + bit)) by (nonlinear_arith)
                requires
                    a == 65536 * (a / 65536) + a % 65536,
            ;
        }
        cmd = ((cmd as u32 * 2 + bit as u32) % 65536) as u16;
        len = len + 1;
        match match_code(codes, len, cmd) {
            Some(i) => {
                if i == 17 {
                    if stream.read(3).is_none() {
                        return None;
                    }
                } else if i == 18 {
                    if stream.read(7).is_none() {
                        return None;
                    }
                }
                return Some(i);
            },
            None => {},
        }
    }
}

/// `codes` are the codes that `assign_codes` gives the 19 code lengths
/// `lens`, of which no length is over-subscribed.
pub open spec fn dump_codes_of(lens: Seq<u8>, codes: Seq<Code>) -> bool {
    &&& lens.len() == 19
    &&& lens_in_range(lens)
    &&& not_oversubscribed(lens)
    &&& codes.len() == 19
    &&& forall|x: int| 0 <= x < 19 ==> #[trigger] codes[x] == dump_code(lens, x)
}

proof fn lemma_no_overflow(lens: Seq<u8>, m: int)
    requires
        not_oversubscribed(lens),
        1 <= m < 16,
    ensures
        next_code(lens, m) + count_of_len(lens, m, lens.len() as int) <= 32768,
{
    crate::bits::lemma_two_to_monotone(m as nat, 15);
    reveal_with_fuel(crate::bits::two_to, 16);
}

/// Among the codes of length `m`, `c` is one exactly when the table finds
/// a symbol for it, and the first symbol with that code is the one found.
proof fn lemma_match_iff_found(lens: Seq<u8>, codes: Seq<Code>, m: int, c: int)
    requires
        dump_codes_of(lens, codes),
        1 <= m < 16,
        0 <= c < 65536,
    ensures
        has_match(codes, m, c) <==> find_spec(lens, c, m) is Found,
        find_spec(lens, c, m) matches Lookup::Found(t) ==> is_first_match(codes, m, c, t as int),
{
    lemma_no_overflow(lens, m);
    crate::huffman::law_find_canonical(lens, c, m);
    assert forall|j: int|
        0 <= j < 19 && codes[j].len == m && #[trigger] codes[j].code == c implies lens[j] == m
        && c == symbol_code(lens, j) by {
        assert(codes[j] == dump_code(lens, j));
        assert(lens[j] <= 15);
        assert(lens[j] as int == m);
        assert(symbols_grow_step(lens, m, j)) by {
            assert(crate::huffman::symbols_of_len(lens, m, j + 1) == crate::huffman::symbols_of_len(
                lens,
                m,
                j,
            ).push(j as u16));
            crate::huffman::lemma_symbols_grow(lens, m, j + 1, 19);
        }
    }
    if has_match(codes, m, c) {
        let j = choose|j: int| 0 <= j < codes.len() && codes[j].len == m && #[trigger] codes[j].code == c;
        assert(find_spec(lens, c, m) == Lookup::Found(j as u16));
    }
    if let Lookup::Found(t) = find_spec(lens, c, m) {
        let ti = t as int;
        assert(codes[ti] == dump_code(lens, ti));
        assert(lens[ti] as int == m && c == symbol_code(lens, ti));
        assert(codes[ti].len == m);
        assert(codes[ti].code == c);
        assert(has_match(codes, m, c));
        assert forall|j: int| 0 <= j < ti implies !(codes[j].len == m && #[trigger] codes[j].code
            == c) by {
            if codes[j].len == m && codes[j].code == c {
                assert(find_spec(lens, c, m) == Lookup::Found(j as u16));
            }
        }
    }
}

/// The count of length `m` up to symbol `j` of that length is below the
/// count over all 19 symbols.
spec fn symbols_grow_step(lens: Seq<u8>, m: int, j: int) -> bool {
    count_of_len(lens, m, j) < count_of_len(lens, m, 19)
}

proof fn lemma_search_follows_read(
    lens: Seq<u8>,
    codes: Seq<Code>,
    data: Seq<u8>,
    p: int,
    s: int,
    m: int,
)
    requires
        dump_codes_of(lens, codes),
        0 <= s < 19,
        1 <= m <= lens[s],
        p >= 0,
        fits(data, p, lens[s] as nat),
        msb_value(data, p, lens[s] as nat) == symbol_code(lens, s),
        read_symbol_from(lens, data, p, m) == (Lookup::Found(s as u16), p + lens[s]),
    ensures
        code_search(codes, data, p, m) == Some((lens[s] as int, symbol_code(lens, s))),
        is_first_match(codes, lens[s] as int, symbol_code(lens, s), s),
    decreases lens[s] - m,
{
    let l = lens[s] as int;
    let v = msb_value(data, p, m as nat) as int;
    crate::bits::lemma_value_bound(data, p, m as nat);
    crate::bits::lemma_two_to_monotone(m as nat, 15);
    reveal_with_fuel(crate::bits::two_to, 16);
    assert(v % 65536 == v);
    lemma_no_overflow(lens, l);
    crate::huffman::law_code_round_trip(lens, s);
    lemma_match_iff_found(lens, codes, l, symbol_code(lens, s));
    if m < l {
        lemma_match_iff_found(lens, codes, m, v);
        assert(find_spec(lens, v, m) is Absent);
        lemma_search_follows_read(lens, codes, data, p, s, m + 1);
    }
}

/// A code length symbol whose code, most significant bit first, starts at
/// bit position `p` is found there: reading bits one at a time stops after
/// exactly its code length, with its code, and the symbol that matches
/// first is that symbol. So `next_code_length_symbol` returns it.
pub proof fn law_code_length_symbol_read_msb_first(
    lens: Seq<u8>,
    codes: Seq<Code>,
    data: Seq<u8>,
    p: int,
    s: int,
)
    requires
        dump_codes_of(lens, codes),
        0 <= s < 19,
        1 <= lens[s],
        p >= 0,
        fits(data, p, lens[s] as nat),
        msb_value(data, p, lens[s] as nat) == dump_code(lens, s).code,
    ensures
        code_search(codes, data, p, 1) == Some((lens[s] as int, dump_code(lens, s).code as int)),
        is_first_match(codes, lens[s] as int, dump_code(lens, s).code as int, s),
{
    let l = lens[s] as int;
    assert(lens[s] <= 15);
    lemma_no_overflow(lens, l);
    assert(crate::huffman::symbols_of_len(lens, l, s + 1) == crate::huffman::symbols_of_len(
        lens,
        l,
        s,
    ).push(s as u16));
    crate::huffman::lemma_symbols_grow(lens, l, s + 1, 19);
    assert(dump_code(lens, s).code as int == symbol_code(lens, s));
    crate::huffman::law_read_symbol_code(lens, data, p, s);
    lemma_search_follows_read(lens, codes, data, p, s, 1);
}

} // verus!
