//! Reading a byte slice as a stream of bits, least significant bit of each
//! byte first, as DEFLATE packs its data.

use vstd::prelude::*;

verus! {

/// `2` to the power `n`.
pub open spec fn two_to(n: nat) -> nat
    decreases n,
{
    if n == 0 {
        1
    } else {
        2 * two_to((n - 1) as nat)
    }
}

/// The bit at bit position `p` of `data`: bit `p % 8` of byte `p / 8`.
pub open spec fn bit_at(data: Seq<u8>, p: int) -> nat {
    if (data[p / 8] >> ((p % 8) as u8)) & 1u8 == 1u8 {
        1
    } else {
        0
    }
}

/// The `n` bits from position `p` on, read as a number whose first bit is
/// the least significant one.
pub open spec fn lsb_value(data: Seq<u8>, p: int, n: nat) -> nat
    decreases n,
{
    if n == 0 {
        0
    } else {
        lsb_value(data, p, (n - 1) as nat) + bit_at(data, p + n - 1) * two_to((n - 1) as nat)
    }
}

/// The `n` bits from position `p` on, read as a number whose first bit is
/// the most significant one.
pub open spec fn msb_value(data: Seq<u8>, p: int, n: nat) -> nat
    decreases n,
{
    if n == 0 {
        0
    } else {
        msb_value(data, p, (n - 1) as nat) * 2 + bit_at(data, p + n - 1)
    }
}

/// The `n` bits from position `p` on, in the given order: most significant
/// bit first when `msb_first` holds.
pub open spec fn bits_value(data: Seq<u8>, p: int, n: nat, msb_first: bool) -> nat {
    if msb_first {
        msb_value(data, p, n)
    } else {
        lsb_value(data, p, n)
    }
}

/// Whether `n` bits can be read from position `p` of `data`.
pub open spec fn fits(data: Seq<u8>, p: int, n: nat) -> bool {
    p + n <= 8 * data.len()
}

/// The first byte border at or after bit position `p`.
pub open spec fn align_up(p: int) -> int {
    if p % 8 == 0 {
        p
    } else {
        p - p % 8 + 8
    }
}

pub proof fn lemma_two_to_monotone(m: nat, n: nat)
    requires
        m <= n,
    ensures
        two_to(m) <= two_to(n),
    decreases n,
{
    if m < n {
        lemma_two_to_monotone(m, (n - 1) as nat);
    }
}

pub proof fn lemma_two_to_16()
    ensures
        two_to(16) == 65536,
{
    reveal_with_fuel(two_to, 17);
}

/// One bit reads the same in either order.
pub proof fn lemma_one_bit(data: Seq<u8>, q: int)
    ensures
        lsb_value(data, q, 1) == bit_at(data, q),
        msb_value(data, q, 1) == bit_at(data, q),
        two_to(1) == 2,
{
    reveal_with_fuel(lsb_value, 2);
    reveal_with_fuel(msb_value, 2);
    reveal_with_fuel(two_to, 2);
}

/// A number read from `n` bits is below `2^n`, in either order.
pub proof fn lemma_value_bound(data: Seq<u8>, p: int, n: nat)
    ensures
        lsb_value(data, p, n) < two_to(n),
        msb_value(data, p, n) < two_to(n),
    decreases n,
{
    if n > 0 {
        lemma_value_bound(data, p, (n - 1) as nat);
    }
}

/// The number read from `n + m` bits is the number read from the first `n`
/// bits plus `2^n` times the number read from the `m` bits after them.
pub proof fn lemma_lsb_split(data: Seq<u8>, p: int, n: nat, m: nat)
    ensures
        lsb_value(data, p, n + m) == lsb_value(data, p, n) + two_to(n) * lsb_value(
            data,
            p + n,
            m,
        ),
    decreases m,
{
    if m > 0 {
        let m1 = (m - 1) as nat;
        lemma_lsb_split(data, p, n, m1);
        let k = n + m1;
        let b = bit_at(data, p + n + m1);
        let t = two_to(n);
        let r = lsb_value(data, p + n, m1);
        lemma_two_to_add(n, m1);
        assert(lsb_value(data, p, k + 1) == lsb_value(data, p, k) + bit_at(data, p + k) * two_to(
            k,
        ));
        assert(k + 1 == n + m);
        assert(lsb_value(data, p + n, m) == r + b * two_to(m1));
        assert(two_to(k) == t * two_to(m1));
        assert(t * (r + b * two_to(m1)) == t * r + b * (t * two_to(m1))) by (nonlinear_arith);
        assert(lsb_value(data, p, n + m) == lsb_value(data, p, k) + b * two_to(k));
        assert(t * lsb_value(data, p + n, m) == t * (r + b * two_to(m1)));
    } else {
        assert(lsb_value(data, p + n, m) == 0);
        assert(n + m == n);
    }
}

pub proof fn lemma_two_to_add(a: nat, b: nat)
    ensures
        two_to(a + b) == two_to(a) * two_to(b),
    decreases b,
{
    if b > 0 {
        let b1 = (b - 1) as nat;
        lemma_two_to_add(a, b1);
        let x = two_to(a);
        let y = two_to(b1);
        assert(two_to(a + b1) == x * y);
        assert(two_to(a + b1 + 1) == 2 * two_to(a + b1));
        assert(a + b1 + 1 == a + b);
        assert(two_to(b) == 2 * y);
        assert(2 * (x * y) == x * (2 * y)) by (nonlinear_arith);
        assert(two_to(a + b) == 2 * (x * y));
        assert(x * two_to(b) == x * (2 * y));
        assert(two_to(a + b) == two_to(a) * two_to(b));
    } else {
        assert(two_to(b) == 1);
        assert(two_to(a + b) == two_to(a) * two_to(b));
    }
}

/// The number read from `n + m` bits most significant bit first is the number
/// read from the first `n` bits times `2^m` plus the number read from the rest.
pub proof fn lemma_msb_split(data: Seq<u8>, p: int, n: nat, m: nat)
    ensures
        msb_value(data, p, n + m) == msb_value(data, p, n) * two_to(m) + msb_value(
            data,
            p + n,
            m,
        ),
    decreases m,
{
    if m > 0 {
        let m1 = (m - 1) as nat;
        lemma_msb_split(data, p, n, m1);
        let k = n + m1;
        let a = msb_value(data, p, n);
        let r = msb_value(data, p + n, m1);
        let y = two_to(m1);
        assert(msb_value(data, p, k + 1) == msb_value(data, p, k) * 2 + bit_at(data, p + k));
        assert(k + 1 == n + m);
        assert(msb_value(data, p + n, m) == r * 2 + bit_at(data, p + n + m1));
        assert(two_to(m) == 2 * y);
        assert((a * y + r) * 2 == a * (2 * y) + r * 2) by (nonlinear_arith);
        assert(msb_value(data, p, n + m) == (a * y + r) * 2 + bit_at(data, p + n + m1));
        assert(a * two_to(m) == a * (2 * y));
    } else {
        assert(msb_value(data, p + n, m) == 0);
        assert(two_to(m) == 1);
        assert(n + m == n);
    }
}

/// The 8 bits of byte `k`, read least significant first, are the byte.
pub proof fn lemma_byte_value(data: Seq<u8>, k: int)
    requires
        0 <= k < data.len(),
    ensures
        lsb_value(data, 8 * k, 8) == data[k] as nat,
{
    reveal_with_fuel(lsb_value, 9);
    reveal_with_fuel(two_to, 8);
    let b = data[k];
    assert forall|j: int| 0 <= j < 8 implies #[trigger] bit_at(data, 8 * k + j) == ((b >> (
        j as u8)) & 1u8) as nat by {
        lemma_split_position(k, j);
        assert(8 * k + j == k * 8 + j);
        let jj = j as u8;
        assert(((b >> jj) & 1u8) == 0u8 || ((b >> jj) & 1u8) == 1u8) by (bit_vector);
    }
    assert(b as int == ((b >> 0u8) & 1u8) as int + 2 * ((b >> 1u8) & 1u8) as int + 4 * ((b >> 2u8)
        & 1u8) as int + 8 * ((b >> 3u8) & 1u8) as int + 16 * ((b >> 4u8) & 1u8) as int + 32 * ((b
        >> 5u8) & 1u8) as int + 64 * ((b >> 6u8) & 1u8) as int + 128 * ((b >> 7u8) & 1u8) as int)
        by (bit_vector);
    assert(bit_at(data, 8 * k + 0) == ((b >> 0u8) & 1u8) as nat);
    assert(bit_at(data, 8 * k + 1) == ((b >> 1u8) & 1u8) as nat);
    assert(bit_at(data, 8 * k + 2) == ((b >> 2u8) & 1u8) as nat);
    assert(bit_at(data, 8 * k + 3) == ((b >> 3u8) & 1u8) as nat);
    assert(bit_at(data, 8 * k + 4) == ((b >> 4u8) & 1u8) as nat);
    assert(bit_at(data, 8 * k + 5) == ((b >> 5u8) & 1u8) as nat);
    assert(bit_at(data, 8 * k + 6) == ((b >> 6u8) & 1u8) as nat);
    assert(bit_at(data, 8 * k + 7) == ((b >> 7u8) & 1u8) as nat);
    let p = 8 * k;
    assert(two_to(0) == 1 && two_to(1) == 2 && two_to(2) == 4 && two_to(3) == 8 && two_to(4)
        == 16 && two_to(5) == 32 && two_to(6) == 64 && two_to(7) == 128);
    assert(lsb_value(data, p, 1) == bit_at(data, p));
    assert(lsb_value(data, p, 2) == lsb_value(data, p, 1) + bit_at(data, p + 1) * 2);
    assert(lsb_value(data, p, 3) == lsb_value(data, p, 2) + bit_at(data, p + 2) * 4);
    assert(lsb_value(data, p, 4) == lsb_value(data, p, 3) + bit_at(data, p + 3) * 8);
    assert(lsb_value(data, p, 5) == lsb_value(data, p, 4) + bit_at(data, p + 4) * 16);
    assert(lsb_value(data, p, 6) == lsb_value(data, p, 5) + bit_at(data, p + 5) * 32);
    assert(lsb_value(data, p, 7) == lsb_value(data, p, 6) + bit_at(data, p + 6) * 64);
    assert(lsb_value(data, p, 8) == lsb_value(data, p, 7) + bit_at(data, p + 7) * 128);
}

/// Moving to the byte border lands on a multiple of 8, less than 8 bits on,
/// and moving again stays there.
pub proof fn lemma_align_up(p: int)
    ensures
        align_up(p) % 8 == 0,
        p <= align_up(p) < p + 8,
        align_up(align_up(p)) == align_up(p),
{
}

proof fn lemma_split_position(c: int, o: int)
    requires
        0 <= o < 8,
        c >= 0,
    ensures
        (c * 8 + o) / 8 == c,
        (c * 8 + o) % 8 == o,
{
    assert((c * 8 + o) / 8 == c && (c * 8 + o) % 8 == o) by (nonlinear_arith)
        requires
            0 <= o < 8,
            c >= 0,
    ;
}

/// A cursor over the bits of a byte slice.
///
/// `order` selects how multi-bit reads are assembled: least significant bit
/// first (the DEFLATE default) or most significant bit first (as the fixed
/// Huffman codes are written).
pub struct BitStream<'a> {
    data: &'a [u8],
    current_byte: usize,
    bit_in_byte: u8,
    order: bool,
}

impl<'a> BitStream<'a> {
    /// The bytes read.
    pub closed spec fn data(&self) -> Seq<u8> {
        self.data@
    }

    /// The position of the next bit to read.
    pub closed spec fn pos(&self) -> int {
        self.current_byte * 8 + self.bit_in_byte
    }

    /// Whether multi-bit reads put the first bit read at the top.
    pub closed spec fn msb_first(&self) -> bool {
        self.order
    }

    pub closed spec fn wf(&self) -> bool {
        &&& self.bit_in_byte < 8
        &&& self.pos() <= 8 * self.data@.len()
    }

    pub proof fn lemma_pos_range(&self)
        requires
            self.wf(),
        ensures
            0 <= self.pos() <= 8 * self.data().len(),
    {
    }

    /// A stream at the first bit of `data`, reading least significant bit first.
    pub fn new(data: &'a [u8]) -> (s: Self)
        ensures
            s.wf(),
            s.data() == data@,
            s.pos() == 0,
            !s.msb_first(),
    {
        BitStream { data, current_byte: 0, bit_in_byte: 0, order: false }
    }

    /// The position of the next bit to read, as a byte index and a bit index
    /// within that byte.
    pub fn position(&self) -> (r: (usize, u8))
        requires
            self.wf(),
        ensures
            r.0 * 8 + r.1 == self.pos(),
            r.1 < 8,
    {
        (self.current_byte, self.bit_in_byte)
    }

    pub fn set_static_huffman_bit_order(&mut self, set: bool)
        requires
            old(self).wf(),
        ensures
            final(self).wf(),
            final(self).data() == old(self).data(),
            final(self).pos() == old(self).pos(),
            final(self).msb_first() == set,
    {
        self.order = set;
    }

    /// Whether multi-bit reads put the first bit read at the top.
    pub fn is_msb_first(&self) -> (r: bool)
        ensures
            r == self.msb_first(),
    {
        self.order
    }

    /// Moves `n` whole bytes on from a byte border.
    pub fn advance_bytes(&mut self, n: usize)
        requires
            old(self).wf(),
            old(self).pos() % 8 == 0,
            old(self).pos() + 8 * n <= 8 * old(self).data().len(),
        ensures
            final(self).wf(),
            final(self).data() == old(self).data(),
            final(self).msb_first() == old(self).msb_first(),
            final(self).pos() == old(self).pos() + 8 * n,
    {
        proof {
            lemma_split_position(self.current_byte as int, self.bit_in_byte as int);
        }
        let len = self.data.len();
        assert(self.current_byte + n <= len);
        self.current_byte = self.current_byte + n;
    }

    /// Moves to the next byte border, unless the stream stands on one.
    pub fn skip_bits_to_byte_border(&mut self)
        requires
            old(self).wf(),
        ensures
            final(self).wf(),
            final(self).data() == old(self).data(),
            final(self).msb_first() == old(self).msb_first(),
            final(self).pos() == align_up(old(self).pos()),
    {
        proof {
            lemma_split_position(self.current_byte as int, self.bit_in_byte as int);
        }
        let len = self.data.len();
        if self.bit_in_byte != 0 {
            assert(self.current_byte < len);
            self.bit_in_byte = 0;
            self.current_byte = self.current_byte + 1;
        }
    }

    /// Whether `bit_count` more bits can be read.
    pub fn has_bits(&self, bit_count: usize) -> (r: bool)
        requires
            self.wf(),
            bit_count <= 16,
        ensures
            r == fits(self.data(), self.pos(), bit_count as nat),
    {
        let rest_bytes = self.data.len() - self.current_byte;
        !(rest_bytes < 3 && rest_bytes * 8 - (self.bit_in_byte as usize) < bit_count)
    }

    /// Reads one bit.
    fn next_bit(&mut self) -> (b: u8)
        requires
            old(self).wf(),
            old(self).pos() < 8 * old(self).data().len(),
        ensures
            final(self).wf(),
            final(self).data() == old(self).data(),
            final(self).msb_first() == old(self).msb_first(),
            final(self).pos() == old(self).pos() + 1,
            b as nat == bit_at(old(self).data(), old(self).pos()),
            b <= 1,
    {
        proof {
            lemma_split_position(self.current_byte as int, self.bit_in_byte as int);
        }
        let byte = self.data[self.current_byte];
        let shift = self.bit_in_byte;
        let b = (byte >> shift) & 1u8;
        assert(b == 0 || b == 1) by (bit_vector)
            requires
                b == (byte >> shift) & 1u8,
        ;
        if self.bit_in_byte == 7 {
            self.bit_in_byte = 0;
            self.current_byte = self.current_byte + 1;
        } else {
            self.bit_in_byte = self.bit_in_byte + 1;
        }
        b
    }

    /// Reads `bit_count` bits and assembles them in the stream's order;
    /// `None` where the data ends before them.
    pub fn read(&mut self, bit_count: usize) -> (res: Option<u16>)
        requires
            old(self).wf(),
            bit_count <= 16,
        ensures
            final(self).wf(),
            final(self).data() == old(self).data(),
            final(self).msb_first() == old(self).msb_first(),
            res is None <==> !fits(old(self).data(), old(self).pos(), bit_count as nat),
            res is None ==> final(self).pos() == old(self).pos(),
            res matches Some(v) ==> {
                &&& v as nat == bits_value(
                    old(self).data(),
                    old(self).pos(),
                    bit_count as nat,
                    old(self).msb_first(),
                )
                &&& final(self).pos() == old(self).pos() + bit_count
            },
    {
        if !self.has_bits(bit_count) {
            return None;
        }
        let ghost start = self.pos();
        let ghost data = self.data();
        let mut res: u32 = 0;
        let mut lsb_weight: u32 = 1;
        let mut i: usize = 0;
        while i < bit_count
            invariant
                self.wf(),
                self.data() == data,
                self.msb_first() == old(self).msb_first(),
                start == old(self).pos(),
                data == old(self).data(),
                fits(data, start, bit_count as nat),
                bit_count <= 16,
                i <= bit_count,
                self.pos() == start + i,
                lsb_weight == two_to(i as nat),
                res == bits_value(data, start, i as nat, self.msb_first()),
            decreases bit_count - i,
        {
            proof {
                lemma_value_bound(data, start, i as nat);
                lemma_two_to_monotone(i as nat, 15);
                reveal_with_fuel(two_to, 16);
            }
            let ghost p0 = self.pos();
            let b = self.next_bit();
            assert(b as nat == bit_at(data, p0));
            if self.order {
                res = res * 2 + b as u32;
            } else {
                if b == 1 {
                    assert(bit_at(data, start + i) * two_to(i as nat) == lsb_weight);
                    res = res + lsb_weight;
                } else {
                    assert(bit_at(data, start + i) * two_to(i as nat) == 0);
                }
            }
            lsb_weight = lsb_weight * 2;
            i = i + 1;
        }
        proof {
            lemma_value_bound(data, start, bit_count as nat);
            lemma_two_to_monotone(bit_count as nat, 16);
            lemma_two_to_16();
        }
        Some(res as u16)
    }
}

} // verus!
