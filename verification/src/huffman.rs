//! Canonical Huffman codes (RFC 1951 section 3.2.2): a table of code lengths,
//! one per symbol, determines the code of every symbol. A `DictionaryBuilder`
//! collects the lengths, a `Dictionary` maps codes back to symbols.
//!
//! The model of a table is the sequence of its code lengths. The symbols of
//! length `l` get consecutive codes from `next_code(lens, l)` on, in
//! increasing symbol order.

use vstd::prelude::*;
use crate::bits::{
    fits, lemma_msb_split, lemma_two_to_add, lemma_two_to_monotone, lemma_value_bound, msb_value,
    two_to, BitStream,
};

verus! {

/// The longest code length.
pub const CODE_MAX_LEN: usize = 15;

/// The outcome of looking a code up.
pub enum Lookup {
    /// The code belongs to this symbol.
    Found(u16),
    /// No symbol has this code.
    Absent,
    /// The lookup would index out of its tables or overflow its arithmetic.
    Fault,
}

/// The symbols among the first `n` entries of `lens` whose code length is `l`,
/// in increasing order.
pub open spec fn symbols_of_len(lens: Seq<u8>, l: int, n: int) -> Seq<u16>
    decreases n,
{
    if n <= 0 {
        Seq::empty()
    } else {
        let s = symbols_of_len(lens, l, n - 1);
        if lens[n - 1] as int == l {
            s.push((n - 1) as u16)
        } else {
            s
        }
    }
}

/// How many of the first `n` entries of `lens` are `l`.
pub open spec fn count_of_len(lens: Seq<u8>, l: int, n: int) -> nat {
    symbols_of_len(lens, l, n).len()
}

/// How many of the first `n` entries of `lens` lie in `1 .. l`.
pub open spec fn codes_before(lens: Seq<u8>, l: int, n: int) -> nat
    decreases l,
{
    if l <= 1 {
        0
    } else {
        codes_before(lens, l - 1, n) + count_of_len(lens, l - 1, n)
    }
}

/// The code of the first symbol of length `l`, kept in 16 bits.
pub open spec fn next_code(lens: Seq<u8>, l: int) -> int
    decreases l,
{
    if l <= 1 {
        0
    } else {
        ((next_code(lens, l - 1) + count_of_len(lens, l - 1, lens.len() as int)) * 2) % 65536
    }
}

/// The codes of length `l` do not fit in 16 bits.
pub open spec fn code_overflow(lens: Seq<u8>, l: int) -> bool {
    next_code(lens, l) + count_of_len(lens, l, lens.len() as int) > 65535
}

/// Building the tables for `lens` overflows a 16-bit code.
pub open spec fn build_faults(lens: Seq<u8>) -> bool {
    exists|l: int| 1 <= l < 15 && #[trigger] code_overflow(lens, l)
}

/// The symbol whose code of length `l` is `code`.
pub open spec fn find_spec(lens: Seq<u8>, code: int, l: int) -> Lookup {
    let n = lens.len() as int;
    if l < 0 || l >= 16 {
        Lookup::Fault
    } else if l == 0 || count_of_len(lens, l, n) == 0 {
        Lookup::Absent
    } else if code < next_code(lens, l) {
        Lookup::Absent
    } else if code_overflow(lens, l) {
        Lookup::Fault
    } else if code >= next_code(lens, l) + count_of_len(lens, l, n) {
        Lookup::Absent
    } else {
        Lookup::Found(symbols_of_len(lens, l, n)[code - next_code(lens, l)])
    }
}

/// Reads a code from bit position `p` of `data`, taking `l`, `l + 1`, ...
/// bits most significant first until they form a code of `lens`; gives the
/// lookup and the position after the code.
pub open spec fn read_symbol_from(lens: Seq<u8>, data: Seq<u8>, p: int, l: int) -> (Lookup, int)
    decreases 17 - l,
{
    if l < 1 || l > 16 || !fits(data, p, l as nat) {
        (Lookup::Fault, p)
    } else {
        match find_spec(lens, msb_value(data, p, l as nat) as int, l) {
            Lookup::Found(s) => (Lookup::Found(s), p + l),
            Lookup::Fault => (Lookup::Fault, p),
            Lookup::Absent => if l > 15 {
                (Lookup::Absent, p)
            } else {
                read_symbol_from(lens, data, p, l + 1)
            },
        }
    }
}

/// Reads one code of `lens` from bit position `p` of `data`.
pub open spec fn read_symbol(lens: Seq<u8>, data: Seq<u8>, p: int) -> (Lookup, int) {
    read_symbol_from(lens, data, p, 1)
}

/// Every code length is at most 15.
pub open spec fn lens_in_range(lens: Seq<u8>) -> bool {
    forall|i: int| 0 <= i < lens.len() ==> #[trigger] lens[i] <= 15
}


/// The codes of one length: how many symbols have it, the code of the first
/// of them, and where their symbols start in `Dictionary::ordered_cmd`.
#[derive(Clone, Copy)]
pub struct HuffmanLen {
    pub count: u16,
    pub base_code: u16,
    pub first_cmd_index: u16,
}

/// Collects the code lengths of up to `size` symbols, in symbol order.
pub struct DictionaryBuilder {
    cmd_len: Vec<u8>,
    len_count: Vec<usize>,
    position: usize,
    size: usize,
}

impl DictionaryBuilder {
    /// The code lengths put so far.
    pub closed spec fn lens(&self) -> Seq<u8> {
        self.cmd_len@.take(self.position as int)
    }

    /// How many code lengths the builder takes.
    pub closed spec fn capacity(&self) -> nat {
        self.size as nat
    }

    pub closed spec fn wf(&self) -> bool {
        &&& self.cmd_len.len() == 289
        &&& self.len_count.len() == 16
        &&& self.position <= self.size
        &&& self.position <= 289
        &&& lens_in_range(self.lens())
        &&& forall|i: int| self.position <= i < 289 ==> #[trigger] self.cmd_len@[i] == 0
        &&& forall|l: int|
            0 <= l < 16 ==> #[trigger] self.len_count@[l] == count_of_len(
                self.lens(),
                l,
                self.position as int,
            )
    }

    /// An empty builder for `size` symbols.
    pub fn new(size: usize) -> (b: Self)
        ensures
            b.wf(),
            b.lens() == Seq::<u8>::empty(),
            b.capacity() == size,
    {
        let b = DictionaryBuilder {
            cmd_len: vec![0u8; 289],
            len_count: vec![0usize; 16],
            position: 0,
            size,
        };
        assert(b.lens() =~= Seq::<u8>::empty());
        b
    }

    /// Appends the code length `len`; `false`, and no change, where the
    /// builder is full.
    pub fn put(&mut self, len: u8) -> (ok: bool)
        requires
            old(self).wf(),
            len <= 15,
            old(self).lens().len() < 289 || old(self).lens().len() >= old(self).capacity(),
        ensures
            final(self).wf(),
            final(self).capacity() == old(self).capacity(),
            ok == (old(self).lens().len() < old(self).capacity()),
            final(self).lens() == if ok {
                old(self).lens().push(len)
            } else {
                old(self).lens()
            },
    {
        if self.position >= self.size {
            return false;
        }
        let ghost old_lens = self.lens();
        let p = self.position;
        proof {
            lemma_symbols_members(old_lens, len as int, p as int);
        }
        let c = self.len_count[len as usize];
        self.len_count[len as usize] = c + 1;
        self.cmd_len[p] = len;
        self.position = p + 1;
        proof {
            let new_lens = self.lens();
            assert(new_lens =~= old_lens.push(len));
            assert forall|l: int| 0 <= l < 16 implies #[trigger] self.len_count@[l]
                == count_of_len(self.lens(), l, self.position as int) by {
                lemma_symbols_prefix(new_lens, old_lens, l, p as int);
            }
        }
        true
    }

    /// Appends the last code length again.
    pub fn put_last(&mut self) -> (ok: bool)
        requires
            old(self).wf(),
            old(self).lens().len() > 0,
            old(self).lens().len() < 289 || old(self).lens().len() >= old(self).capacity(),
        ensures
            final(self).wf(),
            final(self).capacity() == old(self).capacity(),
            ok == (old(self).lens().len() < old(self).capacity()),
            final(self).lens() == if ok {
                old(self).lens().push(old(self).lens().last())
            } else {
                old(self).lens()
            },
    {
        let last = self.cmd_len[self.position - 1];
        assert(last == self.lens()[self.position - 1]);
        self.put(last)
    }

    /// A builder never holds more code lengths than it takes.
    pub proof fn lemma_within_capacity(&self)
        requires
            self.wf(),
        ensures
            self.lens().len() <= self.capacity(),
    {
    }

    /// Whether the builder holds as many code lengths as it takes.
    pub fn is_full(&self) -> (r: bool)
        requires
            self.wf(),
        ensures
            r == (self.lens().len() >= self.capacity()),
            r == (self.lens().len() == self.capacity()),
    {
        self.position >= self.size
    }

    /// The table for the code lengths put so far; `None` where building it
    /// overflows a 16-bit code.
    pub fn build_dictionary(self) -> (r: Option<Dictionary>)
        requires
            self.wf(),
            self.capacity() <= 289,
        ensures
            r is None <==> build_faults(self.lens()),
            r matches Some(d) ==> d.wf() && d.lens() == self.lens(),
    {
        let ghost lens = self.lens();
        let ghost n = lens.len() as int;
        proof {
            lemma_codes_before_bound(lens, 16, n);
        }
        let zero = HuffmanLen { count: 0, base_code: 0, first_cmd_index: 0 };
        let mut len: Vec<HuffmanLen> = Vec::new();
        len.push(zero);
        let mut code: u16 = 0;
        let mut i: usize = 1;
        while i < 16
            invariant
                self.wf(),
                lens == self.lens(),
                n == lens.len(),
                n == self.position,
                codes_before(lens, 16, n) <= n,
                1 <= i <= 16,
                len.len() == i,
                len@[0].count == 0,
                len@[0].first_cmd_index == 0,
                code == next_code(lens, i - 1),
                forall|l: int| 1 <= l < i - 1 ==> !code_overflow(lens, l),
                forall|l: int|
                    1 <= l < i ==> {
                        &&& (#[trigger] len@[l]).count == count_of_len(lens, l, n)
                        &&& len@[l].base_code == next_code(lens, l)
                        &&& len@[l].first_cmd_index == codes_before(lens, l, n)
                    },
            decreases 16 - i,
        {
            proof {
                lemma_symbols_members(lens, i as int, n);
                lemma_symbols_members(lens, i - 1, n);
                lemma_codes_before_monotone(lens, i as int, 16, n);
            }
            let c: usize = if i == 1 {
                0
            } else {
                self.len_count[i - 1]
            };
            if code as usize + c > 65535 {
                assert(code_overflow(lens, i - 1));
                return None;
            }
            code = (((code as usize + c) * 2) % 65536) as u16;
            let prev = len[i - 1];
            let entry = HuffmanLen {
                count: self.len_count[i] as u16,
                base_code: code,
                first_cmd_index: prev.first_cmd_index + prev.count,
            };
            len.push(entry);
            i = i + 1;
        }
        let mut ordered_cmd: Vec<u16> = vec![0u16; 289];
        let mut offsets: Vec<u16> = vec![0u16; 16];
        let mut i: usize = 0;
        while i < self.position
            invariant
                self.wf(),
                lens == self.lens(),
                n == lens.len(),
                n == self.position,
                0 <= i <= n,
                len.len() == 16,
                ordered_cmd.len() == 289,
                offsets.len() == 16,
                codes_before(lens, 16, n) <= n,
                forall|l: int|
                    1 <= l < 16 ==> {
                        &&& (#[trigger] len@[l]).count == count_of_len(lens, l, n)
                        &&& len@[l].base_code == next_code(lens, l)
                        &&& len@[l].first_cmd_index == codes_before(lens, l, n)
                    },
                forall|l: int| 1 <= l < 16 ==> #[trigger] offsets@[l] == count_of_len(lens, l, i as int),
                forall|l: int, k: int|
                    1 <= l < 16 && 0 <= k < count_of_len(lens, l, i as int) ==> ordered_cmd@[#[trigger] (
                    codes_before(lens, l, n) + k)] == #[trigger] symbols_of_len(lens, l, i as int)[k],
            decreases n - i,
        {
            let cmd_len = self.cmd_len[i] as usize;
            assert(cmd_len == lens[i as int]);
            if cmd_len != 0 {
                proof {
                    lemma_symbols_grow(lens, cmd_len as int, i + 1, n);
                    lemma_codes_before_monotone(lens, cmd_len as int, 16, n);
                }
                let ghost v = cmd_len as int;
                proof {
                    lemma_symbols_members(lens, v, i as int);
                }
                let ghost ci = count_of_len(lens, v, i as int);
                assert(len@[v].first_cmd_index == codes_before(lens, v, n));
                assert(offsets@[v] == ci);
                assert(symbols_of_len(lens, v, i + 1) == symbols_of_len(lens, v, i as int).push(
                    i as u16,
                ));
                let off = len[cmd_len].first_cmd_index + offsets[cmd_len];
                assert(off == codes_before(lens, v, n) + ci);
                let ghost old_ordered = ordered_cmd@;
                offsets[cmd_len] = offsets[cmd_len] + 1;
                ordered_cmd[off as usize] = i as u16;
                proof {
                    assert forall|l: int, k: int|
                        1 <= l < 16 && 0 <= k < count_of_len(
                            lens,
                            l,
                            i + 1,
                        ) implies ordered_cmd@[#[trigger] (codes_before(lens, l, n) + k)]
                        == #[trigger] symbols_of_len(lens, l, i + 1)[k] by {
                        if l != v {
                            assert(symbols_of_len(lens, l, i + 1) == symbols_of_len(
                                lens,
                                l,
                                i as int,
                            ));
                            lemma_symbols_grow(lens, l, i + 1, n);
                            lemma_codes_before_monotone(lens, l, 16, n);
                            if l < v {
                                lemma_codes_before_monotone(lens, l, v, n);
                            } else {
                                lemma_codes_before_monotone(lens, v, l, n);
                            }
                            assert(codes_before(lens, l, n) + k != off);
                            assert(ordered_cmd@[codes_before(lens, l, n) + k] == old_ordered[
                                codes_before(lens, l, n) + k]);
                        } else if k < ci {
                            assert(codes_before(lens, l, n) + k != off);
                            assert(ordered_cmd@[codes_before(lens, l, n) + k] == old_ordered[
                                codes_before(lens, l, n) + k]);
                        } else {
                            assert(k == ci);
                        }
                    }
                    assert forall|l: int| 1 <= l < 16 implies #[trigger] offsets@[l]
                        == count_of_len(lens, l, i + 1) by {
                        if l != v {
                            assert(symbols_of_len(lens, l, i + 1) == symbols_of_len(
                                lens,
                                l,
                                i as int,
                            ));
                        }
                    }
                }
            } else {
                assert forall|l: int| 1 <= l < 16 implies symbols_of_len(lens, l, i + 1)
                    == symbols_of_len(lens, l, i as int) by {}
                assert forall|l: int, k: int|
                    1 <= l < 16 && 0 <= k < count_of_len(
                        lens,
                        l,
                        i + 1,
                    ) implies ordered_cmd@[#[trigger] (codes_before(lens, l, n) + k)]
                    == #[trigger] symbols_of_len(lens, l, i + 1)[k] by {
                    assert(symbols_of_len(lens, l, i + 1) == symbols_of_len(lens, l, i as int));
                }
            }
            i = i + 1;
        }
        Some(Dictionary { len, ordered_cmd, lens: Ghost(lens) })
    }

    /// The last code length put, if any.
    pub fn last(&self) -> (r: Option<u8>)
        requires
            self.wf(),
        ensures
            r == if self.lens().len() > 0 {
                Some(self.lens().last())
            } else {
                None::<u8>
            },
            r matches Some(v) ==> v <= 15,
    {
        if self.position == 0 {
            None
        } else {
            Some(self.cmd_len[self.position - 1])
        }
    }

    /// The number of code lengths put so far.
    pub fn count(&self) -> (r: usize)
        requires
            self.wf(),
        ensures
            r == self.lens().len(),
    {
        self.position
    }
}

/// A table from codes to symbols for the code lengths `lens`.
pub struct Dictionary {
    len: Vec<HuffmanLen>,
    ordered_cmd: Vec<u16>,
    lens: Ghost<Seq<u8>>,
}

impl Dictionary {
    /// The code lengths that the table was built from.
    pub closed spec fn lens(&self) -> Seq<u8> {
        self.lens@
    }

    pub closed spec fn wf(&self) -> bool {
        let lens = self.lens@;
        let n = lens.len() as int;
        &&& self.len.len() == 16
        &&& self.ordered_cmd.len() == 289
        &&& n <= 289
        &&& lens_in_range(lens)
        &&& self.len@[0].count == 0
        &&& forall|l: int|
            1 <= l < 16 ==> {
                &&& (#[trigger] self.len@[l]).count == count_of_len(lens, l, n)
                &&& self.len@[l].base_code == next_code(lens, l)
                &&& self.len@[l].first_cmd_index == codes_before(lens, l, n)
            }
        &&& forall|l: int, k: int|
            1 <= l < 16 && 0 <= k < count_of_len(lens, l, n) ==> self.ordered_cmd@[#[trigger] (
            codes_before(lens, l, n) + k)] == #[trigger] symbols_of_len(lens, l, n)[k]
    }

    /// The symbol whose code of length `len` is `code`.
    pub fn find(&self, code: u16, len: u16) -> (r: Lookup)
        requires
            self.wf(),
        ensures
            r == find_spec(self.lens(), code as int, len as int),
    {
        if len >= 16 {
            return Lookup::Fault;
        }
        let a = self.len[len as usize];
        if a.count == 0 {
            return Lookup::Absent;
        }
        if code < a.base_code {
            return Lookup::Absent;
        }
        if a.base_code as u32 + a.count as u32 > 65535 {
            return Lookup::Fault;
        }
        if code >= a.base_code + a.count {
            return Lookup::Absent;
        }
        let ghost lens = self.lens();
        let ghost n = lens.len() as int;
        proof {
            lemma_codes_before_bound(lens, 16, n);
            lemma_codes_before_monotone(lens, len as int, 16, n);
        }
        let pos = a.first_cmd_index + (code - a.base_code);
        assert(self.ordered_cmd@[codes_before(lens, len as int, n) + (code - a.base_code)]
            == symbols_of_len(lens, len as int, n)[code - a.base_code]);
        Lookup::Found(self.ordered_cmd[pos as usize])
    }

    /// Reads bits one at a time, most significant first, until they form a
    /// code of the table.
    pub fn find_in_bit_stream(&self, stream: &mut BitStream) -> (r: Lookup)
        requires
            self.wf(),
            old(stream).wf(),
        ensures
            final(stream).wf(),
            final(stream).data() == old(stream).data(),
            final(stream).msb_first() == old(stream).msb_first(),
            r == read_symbol(self.lens(), old(stream).data(), old(stream).pos()).0,
            r is Found ==> final(stream).pos() == read_symbol(
                self.lens(),
                old(stream).data(),
                old(stream).pos(),
            ).1,
    {
        let ghost lens = self.lens();
        let ghost data = stream.data();
        let ghost p0 = stream.pos();
        let mut len: u16 = 0;
        let mut cmd: u16 = 0;
        loop
            invariant
                self.wf(),
                stream.wf(),
                stream.data() == data,
                stream.msb_first() == old(stream).msb_first(),
                data == old(stream).data(),
                p0 == old(stream).pos(),
                lens == self.lens(),
                len <= 15,
                stream.pos() == p0 + len,
                cmd as nat == msb_value(data, p0, len as nat),
                read_symbol(lens, data, p0) == read_symbol_from(lens, data, p0, len + 1),
            decreases 16 - len,
        {
            proof {
                crate::bits::lemma_value_bound(data, p0, len as nat);
                crate::bits::lemma_two_to_monotone(len as nat, 15);
                crate::bits::lemma_two_to_16();
                assert(crate::bits::two_to(16) == 2 * crate::bits::two_to(15));
            }
            let bit = match stream.read(1) {
                Some(b) => b,
                None => {
                    assert(!fits(data, p0, (len + 1) as nat));
                    return Lookup::Fault;
                },
            };
            proof {
                let q = p0 + len;
                crate::bits::lemma_one_bit(data, q);
                assert(bit as nat == crate::bits::bit_at(data, q));
                crate::bits::lemma_msb_split(data, p0, len as nat, 1);
                assert(crate::bits::two_to(1) == 2);
                assert(cmd < 32768);
            }
            cmd = cmd * 2 + bit;
            len = len + 1;
            assert(cmd as nat == msb_value(data, p0, len as nat));
            assert(fits(data, p0, len as nat));
            match self.find(cmd, len) {
                Lookup::Found(x) => {
                    return Lookup::Found(x);
                },
                Lookup::Fault => {
                    return Lookup::Fault;
                },
                Lookup::Absent => {},
            }
            if len > CODE_MAX_LEN as u16 {
                return Lookup::Absent;
            }
        }
    }
}

/// Each symbol with a code length `l` from 1 to 15 has the code
/// `next_code(lens, l)` plus the number of symbols of length `l` before it;
/// where the codes of length `l` fit in 16 bits, looking that code up at
/// length `l` gives the symbol back.
pub proof fn law_code_round_trip(lens: Seq<u8>, s: int)
    requires
        lens.len() <= 289,
        0 <= s < lens.len(),
        1 <= lens[s] <= 15,
        !code_overflow(lens, lens[s] as int),
    ensures
        find_spec(
            lens,
            next_code(lens, lens[s] as int) + count_of_len(lens, lens[s] as int, s),
            lens[s] as int,
        ) == Lookup::Found(s as u16),
{
    let l = lens[s] as int;
    let n = lens.len() as int;
    assert(symbols_of_len(lens, l, s + 1) == symbols_of_len(lens, l, s).push(s as u16));
    lemma_symbols_grow(lens, l, s + 1, n);
    assert(symbols_of_len(lens, l, n)[count_of_len(lens, l, s) as int] == s as u16);
}

/// Looking code `c` up at length `l` finds symbol `s` exactly when `s` has
/// code length `l` and `c` is its canonical code; every other code of that
/// length finds nothing (where the codes of length `l` fit in 16 bits).
pub proof fn law_find_canonical(lens: Seq<u8>, c: int, l: int)
    requires
        lens.len() <= 289,
        lens_in_range(lens),
        0 <= l < 16,
        !code_overflow(lens, l),
    ensures
        find_spec(lens, c, l) is Found || find_spec(lens, c, l) is Absent,
        find_spec(lens, c, l) matches Lookup::Found(t) ==> {
            &&& 1 <= l
            &&& t < lens.len()
            &&& lens[t as int] == l
            &&& c == symbol_code(lens, t as int)
        },
        forall|s: int|
            0 <= s < lens.len() && 1 <= l && lens[s] == l && c == symbol_code(lens, s)
                ==> find_spec(lens, c, l) == Lookup::Found(s as u16),
{
    let n = lens.len() as int;
    if let Lookup::Found(t) = find_spec(lens, c, l) {
        let k = c - next_code(lens, l);
        lemma_symbols_members(lens, l, n);
        assert(symbols_of_len(lens, l, n)[k] == t);
        lemma_index_is_count(lens, l, n, k);
    }
    assert forall|s: int|
        0 <= s < lens.len() && 1 <= l && lens[s] == l && c == symbol_code(lens, s) implies find_spec(
        lens,
        c,
        l,
    ) == Lookup::Found(s as u16) by {
        law_code_round_trip(lens, s);
    }
}

/// The symbol at place `k` of the symbols of length `l` has `k` symbols of
/// that length before it.
proof fn lemma_index_is_count(lens: Seq<u8>, l: int, n: int, k: int)
    requires
        0 <= n <= lens.len(),
        lens.len() <= 289,
        0 <= k < symbols_of_len(lens, l, n).len(),
    ensures
        count_of_len(lens, l, symbols_of_len(lens, l, n)[k] as int) == k,
{
    let t = symbols_of_len(lens, l, n)[k] as int;
    lemma_symbols_members(lens, l, n);
    assert(symbols_of_len(lens, l, t + 1) == symbols_of_len(lens, l, t).push(t as u16));
    lemma_symbols_grow(lens, l, t + 1, n);
    let j = count_of_len(lens, l, t) as int;
    assert(symbols_of_len(lens, l, n)[j] == t as u16);
    if j < k {
        assert(symbols_of_len(lens, l, n)[j] < symbols_of_len(lens, l, n)[k]);
    } else if j > k {
        assert(symbols_of_len(lens, l, n)[k] < symbols_of_len(lens, l, n)[j]);
    }
}

/// The codes of lengths 1 to `k`, counted in codes of length `l`:
/// the sum over `j` from 1 to `k` of `count(j) * 2^(l - j)`.
pub open spec fn kraft_sum(lens: Seq<u8>, l: int, k: int) -> nat
    decreases k,
{
    if k <= 0 {
        0
    } else {
        kraft_sum(lens, l, k - 1) + count_of_len(lens, k, lens.len() as int) * two_to(
            (l - k) as nat,
        )
    }
}

/// The Kraft inequality: the sum of `count(j) * 2^(-j)` over the lengths 1
/// to 15 is at most 1.
pub open spec fn kraft_holds(lens: Seq<u8>) -> bool {
    kraft_sum(lens, 15, 15) <= two_to(15)
}

/// The canonical code of symbol `s` (RFC 1951 section 3.2.2): the sum over
/// the shorter lengths `k` of `count(k) * 2^(l - k)`, `l` its own length,
/// plus the number of symbols of length `l` before it.
pub open spec fn canonical_code(lens: Seq<u8>, s: int) -> int {
    let l = lens[s] as int;
    (kraft_sum(lens, l, l - 1) + count_of_len(lens, l, s)) as int
}

proof fn lemma_kraft_scale(lens: Seq<u8>, l: int, m: int, k: int)
    requires
        0 <= k <= l <= m,
    ensures
        kraft_sum(lens, m, k) == two_to((m - l) as nat) * kraft_sum(lens, l, k),
    decreases k,
{
    if k > 0 {
        lemma_kraft_scale(lens, l, m, k - 1);
        let c = count_of_len(lens, k, lens.len() as int);
        let big = two_to((m - l) as nat);
        let t = two_to((l - k) as nat);
        lemma_two_to_add((m - l) as nat, (l - k) as nat);
        assert(((m - l) as nat + (l - k) as nat) as nat == (m - k) as nat);
        assert(two_to((m - k) as nat) == big * t);
        let a = kraft_sum(lens, l, k - 1);
        assert(kraft_sum(lens, m, k - 1) == big * a);
        assert(kraft_sum(lens, m, k) == big * a + c * (big * t));
        assert(kraft_sum(lens, l, k) == a + c * t);
        assert(big * a + c * (big * t) == big * (a + c * t)) by (nonlinear_arith);
    } else {
        let big = two_to((m - l) as nat);
        assert(big * 0 == 0) by (nonlinear_arith);
    }
}

proof fn lemma_kraft_monotone(lens: Seq<u8>, l: int, j: int, k: int)
    requires
        j <= k,
    ensures
        kraft_sum(lens, l, j) <= kraft_sum(lens, l, k),
    decreases k - j,
{
    if j < k {
        lemma_kraft_monotone(lens, l, j, k - 1);
        if k > 0 {
            let c = count_of_len(lens, k, lens.len() as int);
            let t = two_to((l - k) as nat);
            assert(c * t >= 0) by (nonlinear_arith);
        }
    }
}

/// Under the Kraft inequality the codes of lengths 1 to `l` fit in `l` bits.
proof fn lemma_kraft_prefix_bound(lens: Seq<u8>, l: int)
    requires
        kraft_holds(lens),
        1 <= l <= 15,
    ensures
        kraft_sum(lens, l, l) <= two_to(l as nat),
{
    lemma_kraft_scale(lens, l, 15, l);
    lemma_kraft_monotone(lens, 15, l, 15);
    lemma_two_to_add((15 - l) as nat, l as nat);
    assert(((15 - l) as nat + l as nat) as nat == 15);
    lemma_two_to_monotone(0, (15 - l) as nat);
    reveal_with_fuel(two_to, 1);
    let t = two_to((15 - l) as nat);
    let x = kraft_sum(lens, l, l);
    let y = two_to(l as nat);
    assert(x <= y) by (nonlinear_arith)
        requires
            t * x <= t * y,
            t >= 1,
    ;
}

/// Under the Kraft inequality the first code of each length is the sum of
/// the shorter codes, counted in codes of that length.
proof fn lemma_kraft_next_code(lens: Seq<u8>, l: int)
    requires
        kraft_holds(lens),
        1 <= l <= 15,
    ensures
        next_code(lens, l) == kraft_sum(lens, l, l - 1),
    decreases l,
{
    if l > 1 {
        lemma_kraft_next_code(lens, l - 1);
        lemma_kraft_prefix_bound(lens, l - 1);
        lemma_two_to_monotone((l - 1) as nat, 14);
        reveal_with_fuel(two_to, 15);
        assert(two_to(0) == 1 && two_to(1) == 2 && two_to(14) == 16384);
        assert(((l - 1) - (l - 1)) as nat == 0nat);
        let x = next_code(lens, l - 1) + count_of_len(lens, l - 1, lens.len() as int);
        assert(kraft_sum(lens, l - 1, l - 1) == kraft_sum(lens, l - 1, l - 2) + count_of_len(
            lens,
            l - 1,
            lens.len() as int,
        ) * two_to(0));
        let c = count_of_len(lens, l - 1, lens.len() as int);
        let one = two_to(0);
        assert(c * one == c) by (nonlinear_arith)
            requires
                one == 1,
        ;
        assert(next_code(lens, l - 1) == kraft_sum(lens, l - 1, l - 2));
        assert(x == kraft_sum(lens, l - 1, l - 1));
        assert(x <= 16384);
        assert(next_code(lens, l) == (x * 2) % 65536);
        assert(next_code(lens, l) == 2 * x);
        lemma_kraft_scale(lens, l - 1, l, l - 1);
        assert(kraft_sum(lens, l, l - 1) == two_to(1) * kraft_sum(lens, l - 1, l - 1));
    }
}

/// Under the Kraft inequality no length is over-subscribed and no code
/// overflows 16 bits.
pub proof fn law_kraft_not_oversubscribed(lens: Seq<u8>)
    requires
        kraft_holds(lens),
    ensures
        not_oversubscribed(lens),
        forall|l: int| 1 <= l < 16 ==> !#[trigger] code_overflow(lens, l),
{
    assert forall|l: int| 1 <= l < 16 implies next_code(lens, l) + count_of_len(
        lens,
        l,
        lens.len() as int,
    ) <= two_to(l as nat) by {
        lemma_kraft_next_code(lens, l);
        lemma_kraft_prefix_bound(lens, l);
        reveal_with_fuel(two_to, 1);
        assert(two_to(0) == 1);
        assert((l - l) as nat == 0nat);
        assert(kraft_sum(lens, l, l) == kraft_sum(lens, l, l - 1) + count_of_len(
            lens,
            l,
            lens.len() as int,
        ) * two_to((l - l) as nat));
    }
    assert forall|l: int| 1 <= l < 16 implies !#[trigger] code_overflow(lens, l) by {
        lemma_two_to_monotone(l as nat, 15);
        reveal_with_fuel(two_to, 16);
    }
}

/// Under the Kraft inequality each symbol's code is its canonical code.
pub proof fn law_symbol_code_is_canonical(lens: Seq<u8>, s: int)
    requires
        kraft_holds(lens),
        0 <= s < lens.len(),
        1 <= lens[s] <= 15,
    ensures
        symbol_code(lens, s) == canonical_code(lens, s),
{
    lemma_kraft_next_code(lens, lens[s] as int);
}

/// For code lengths that meet the Kraft inequality, looking code `c` up at
/// length `l` finds symbol `s` exactly when `s` has length `l` and `c` is
/// its canonical code; every other code finds nothing, and so does every
/// code at length 0.
pub proof fn law_find_canonical_code(lens: Seq<u8>, c: int, l: int)
    requires
        lens.len() <= 289,
        lens_in_range(lens),
        kraft_holds(lens),
        0 <= l < 16,
    ensures
        find_spec(lens, c, l) is Found || find_spec(lens, c, l) is Absent,
        l == 0 ==> find_spec(lens, c, l) is Absent,
        find_spec(lens, c, l) matches Lookup::Found(t) ==> t < lens.len(),
        forall|s: int|
            0 <= s < lens.len() ==> (find_spec(lens, c, l) == Lookup::Found(s as u16) <==> (1 <= l
                && lens[s] == l && c == canonical_code(lens, s))),
{
    law_kraft_not_oversubscribed(lens);
    lemma_symbols_members(lens, 0, lens.len() as int);
    assert(!code_overflow(lens, l));
    law_find_canonical(lens, c, l);
    assert forall|s: int| 0 <= s < lens.len() implies (find_spec(lens, c, l) == Lookup::Found(
        s as u16,
    ) <==> (1 <= l && lens[s] == l && c == canonical_code(lens, s))) by {
        if 1 <= l && lens[s] == l {
            law_symbol_code_is_canonical(lens, s);
        }
        if let Lookup::Found(t) = find_spec(lens, c, l) {
            if t == s as u16 {
                assert(t as int == s);
                law_symbol_code_is_canonical(lens, s);
            }
        }
    }
}

/// For code lengths that meet the Kraft inequality, no code is a prefix of
/// a longer one: where code `c1` of length `l1` is found, no code `c2` of a
/// longer length `l2` whose first `l1` bits are `c1` is found.
pub proof fn law_no_code_is_prefix(lens: Seq<u8>, c1: int, l1: int, c2: int, l2: int)
    requires
        lens.len() <= 289,
        lens_in_range(lens),
        kraft_holds(lens),
        1 <= l1 < l2 < 16,
        find_spec(lens, c1, l1) is Found,
        0 <= c2,
        c2 / two_to((l2 - l1) as nat) as int == c1,
    ensures
        find_spec(lens, c2, l2) is Absent,
{
    law_kraft_not_oversubscribed(lens);
    law_find_canonical(lens, c2, l2);
    if let Lookup::Found(t) = find_spec(lens, c2, l2) {
        law_prefix_free(lens, t as int, l1);
    }
}

/// Of two symbols with the same code length, the one with the smaller index
/// gets the smaller code: no two symbols share a code.
pub proof fn law_codes_distinct(lens: Seq<u8>, s: int, t: int)
    requires
        lens.len() <= 289,
        0 <= s < t < lens.len(),
        1 <= lens[s] <= 15,
        lens[s] == lens[t],
    ensures
        count_of_len(lens, lens[s] as int, s) < count_of_len(lens, lens[t] as int, t),
{
    let l = lens[s] as int;
    assert(symbols_of_len(lens, l, s + 1) == symbols_of_len(lens, l, s).push(s as u16));
    lemma_symbols_grow(lens, l, s + 1, t);
}

/// No code length is over-subscribed: the codes of each length `l` fit in
/// `l` bits.
pub open spec fn not_oversubscribed(lens: Seq<u8>) -> bool {
    forall|l: int|
        1 <= l < 16 ==> next_code(lens, l) + count_of_len(lens, l, lens.len() as int) <= two_to(
            l as nat,
        )
}

/// The code of symbol `s`: the first code of its length plus the number of
/// symbols of that length before it.
pub open spec fn symbol_code(lens: Seq<u8>, s: int) -> int {
    next_code(lens, lens[s] as int) + count_of_len(lens, lens[s] as int, s)
}

proof fn lemma_next_code_no_wrap(lens: Seq<u8>, l: int)
    requires
        not_oversubscribed(lens),
        2 <= l < 16,
    ensures
        next_code(lens, l) == 2 * (next_code(lens, l - 1) + count_of_len(lens, l - 1, lens.len() as int)),
{
    let k = l - 1;
    assert(next_code(lens, k) + count_of_len(lens, k, lens.len() as int) <= two_to(k as nat));
    lemma_two_to_monotone(k as nat, 14);
    reveal_with_fuel(two_to, 15);
}

/// The first codes grow at least as fast as the shorter codes double.
proof fn lemma_next_code_grows(lens: Seq<u8>, m: int, l: int)
    requires
        not_oversubscribed(lens),
        1 <= m < l < 16,
    ensures
        next_code(lens, l) >= (next_code(lens, m) + count_of_len(lens, m, lens.len() as int))
            * two_to((l - m) as nat),
    decreases l,
{
    let n = lens.len() as int;
    lemma_next_code_no_wrap(lens, l);
    let x = next_code(lens, m) + count_of_len(lens, m, n);
    if l == m + 1 {
        assert(two_to(1) == 2) by {
            reveal_with_fuel(two_to, 2);
        }
    } else {
        lemma_next_code_grows(lens, m, l - 1);
        let t = two_to((l - 1 - m) as nat);
        assert(two_to((l - m) as nat) == 2 * t);
        assert(next_code(lens, l - 1) >= x * t);
        assert(next_code(lens, l) >= 2 * next_code(lens, l - 1));
        assert(2 * (x * t) == x * (2 * t)) by (nonlinear_arith);
    }
}

/// Reading from a stream whose next bits hold the code of symbol `s`, most
/// significant bit first, gives `s` and moves past the code: with no length
/// over-subscribed, no shorter code is a prefix of it.
pub proof fn law_read_symbol_code(lens: Seq<u8>, data: Seq<u8>, p: int, s: int)
    requires
        lens.len() <= 289,
        0 <= s < lens.len(),
        1 <= lens[s] <= 15,
        not_oversubscribed(lens),
        fits(data, p, lens[s] as nat),
        msb_value(data, p, lens[s] as nat) == symbol_code(lens, s),
    ensures
        read_symbol(lens, data, p) == (Lookup::Found(s as u16), p + lens[s]),
{
    lemma_read_symbol_from_code(lens, data, p, s, 1);
}

/// With no length over-subscribed, no code is a prefix of a longer one: the
/// first `m` bits of the code of a symbol of length `l > m` are no code of
/// length `m`.
pub proof fn law_prefix_free(lens: Seq<u8>, s: int, m: int)
    requires
        lens.len() <= 289,
        0 <= s < lens.len(),
        1 <= m < lens[s] <= 15,
        not_oversubscribed(lens),
    ensures
        find_spec(lens, symbol_code(lens, s) / two_to((lens[s] - m) as nat) as int, m)
            == Lookup::Absent,
{
    let l = lens[s] as int;
    let n = lens.len() as int;
    let x = next_code(lens, m) + count_of_len(lens, m, n);
    let t = two_to((l - m) as nat) as int;
    let c = symbol_code(lens, s);
    lemma_next_code_grows(lens, m, l);
    lemma_two_to_monotone(m as nat, 15);
    reveal_with_fuel(two_to, 16);
    assert(t >= 1) by {
        lemma_two_to_monotone(0, (l - m) as nat);
    }
    assert(c >= x * t);
    assert(c / t >= x) by (nonlinear_arith)
        requires
            c >= x * t,
            t >= 1,
    ;
}

proof fn lemma_read_symbol_from_code(lens: Seq<u8>, data: Seq<u8>, p: int, s: int, m: int)
    requires
        lens.len() <= 289,
        0 <= s < lens.len(),
        1 <= m <= lens[s] <= 15,
        not_oversubscribed(lens),
        fits(data, p, lens[s] as nat),
        msb_value(data, p, lens[s] as nat) == symbol_code(lens, s),
    ensures
        read_symbol_from(lens, data, p, m) == (Lookup::Found(s as u16), p + lens[s]),
    decreases lens[s] - m,
{
    let l = lens[s] as int;
    let n = lens.len() as int;
    lemma_two_to_monotone(l as nat, 15);
    lemma_two_to_monotone(m as nat, 15);
    reveal_with_fuel(two_to, 16);
    if m == l {
        law_code_round_trip(lens, s);
    } else {
        lemma_read_symbol_from_code(lens, data, p, s, m + 1);
        let x = next_code(lens, m) + count_of_len(lens, m, n);
        let d = (l - m) as nat;
        let t = two_to(d);
        let v = msb_value(data, p, m as nat) as int;
        let r = msb_value(data, p + m, d) as int;
        lemma_next_code_grows(lens, m, l);
        lemma_msb_split(data, p, m as nat, d);
        lemma_value_bound(data, p + m, d);
        assert(m as nat + d == l as nat);
        assert(v * t + r >= x * t);
        assert(v >= x) by (nonlinear_arith)
            requires
                v * t + r >= x * t,
                0 <= r < t,
        ;
        assert(find_spec(lens, v, m) == Lookup::Absent);
    }
}

// Facts about the model.

/// `symbols_of_len` reads only the first `n` entries.
pub proof fn lemma_symbols_prefix(s: Seq<u8>, t: Seq<u8>, l: int, n: int)
    requires
        n <= s.len(),
        n <= t.len(),
        forall|i: int| 0 <= i < n ==> s[i] == t[i],
    ensures
        symbols_of_len(s, l, n) == symbols_of_len(t, l, n),
    decreases n,
{
    if n > 0 {
        lemma_symbols_prefix(s, t, l, n - 1);
    }
}

/// The symbols of length `l` among the first `m` entries start the list of
/// those among the first `n`, and every symbol listed has length `l`.
pub proof fn lemma_symbols_grow(lens: Seq<u8>, l: int, m: int, n: int)
    requires
        0 <= m <= n <= lens.len(),
    ensures
        symbols_of_len(lens, l, m).len() <= symbols_of_len(lens, l, n).len(),
        forall|k: int|
            0 <= k < symbols_of_len(lens, l, m).len() ==> symbols_of_len(lens, l, n)[k]
                == symbols_of_len(lens, l, m)[k],
    decreases n,
{
    if m < n {
        lemma_symbols_grow(lens, l, m, n - 1);
    }
}

/// Every symbol listed in `symbols_of_len(lens, l, n)` has length `l`, lies
/// below `n`, and the list is increasing.
pub proof fn lemma_symbols_members(lens: Seq<u8>, l: int, n: int)
    requires
        0 <= n <= lens.len(),
        lens.len() <= 65536,
    ensures
        symbols_of_len(lens, l, n).len() <= n,
        forall|k: int|
            0 <= k < symbols_of_len(lens, l, n).len() ==> {
                let s = #[trigger] symbols_of_len(lens, l, n)[k];
                &&& s < n
                &&& lens[s as int] as int == l
            },
        forall|j: int, k: int|
            0 <= j < k < symbols_of_len(lens, l, n).len() ==> symbols_of_len(lens, l, n)[j]
                < symbols_of_len(lens, l, n)[k],
    decreases n,
{
    if n > 0 {
        lemma_symbols_members(lens, l, n - 1);
    }
}

/// Adding an entry of `lens` adds one to the count of its own length, and to
/// `codes_before` of the lengths above it.
pub proof fn lemma_codes_before_step(lens: Seq<u8>, l: int, n: int)
    requires
        0 <= n < lens.len(),
    ensures
        codes_before(lens, l, n + 1) == codes_before(lens, l, n) + (if 1 <= lens[n] < l {
            1nat
        } else {
            0nat
        }),
    decreases l,
{
    if l > 1 {
        lemma_codes_before_step(lens, l - 1, n);
    }
}

/// At most `n` of the first `n` entries lie in `1 .. l`.
pub proof fn lemma_codes_before_bound(lens: Seq<u8>, l: int, n: int)
    requires
        0 <= n <= lens.len(),
    ensures
        codes_before(lens, l, n) <= n,
    decreases n,
{
    if n > 0 {
        lemma_codes_before_bound(lens, l, n - 1);
        lemma_codes_before_step(lens, l, n - 1);
    } else {
        lemma_codes_before_zero(lens, l);
    }
}

proof fn lemma_codes_before_zero(lens: Seq<u8>, l: int)
    ensures
        codes_before(lens, l, 0) == 0,
    decreases l,
{
    if l > 1 {
        lemma_codes_before_zero(lens, l - 1);
    }
}

/// The ranges `codes_before(l) .. codes_before(l) + count(l)` follow one
/// another.
pub proof fn lemma_codes_before_monotone(lens: Seq<u8>, l: int, m: int, n: int)
    requires
        1 <= l <= m,
    ensures
        codes_before(lens, l, n) + (if l < m {
            count_of_len(lens, l, n)
        } else {
            0
        }) <= codes_before(lens, m, n),
    decreases m,
{
    if l < m {
        lemma_codes_before_monotone(lens, l, m - 1, n);
    }
}

} // verus!
