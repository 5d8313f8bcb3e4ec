//! Raw storage arithmetic: bitwise and shift operations over fixed-width
//! byte strings of one to eight bytes, kept in canonical big-endian order.

use vstd::prelude::*;

verus! {

/// The numeric value of a big-endian byte string, read into a 64-bit word.
///
/// Only strings of at most eight bytes are given to it, so the word never
/// truncates.
pub open spec fn be_val(s: Seq<u8>) -> u64
    decreases s.len(),
{
    if s.len() == 0 {
        0u64
    } else {
        (be_val(s.drop_last()) << 8u64) | (s.last() as u64)
    }
}

/// The 64-bit mask with the low `n` bits set.
pub open spec fn low_mask(n: u64) -> u64 {
    if n >= 64 {
        0xffff_ffff_ffff_ffffu64
    } else {
        ((1u64 << n) - 1) as u64
    }
}

/// The big-endian byte string of width `n` holding the low `8 * n` bits of `v`.
pub open spec fn from_val(v: u64, n: nat) -> Seq<u8> {
    Seq::new(n, |j: int| (v >> ((8 * (n - 1 - j)) as u64)) as u8)
}

/// Pointwise complement of a byte string.
pub open spec fn byte_not(s: Seq<u8>) -> Seq<u8> {
    Seq::new(s.len(), |i: int| !s[i])
}

/// Pointwise conjunction of two byte strings of equal length.
pub open spec fn byte_and(a: Seq<u8>, b: Seq<u8>) -> Seq<u8> {
    Seq::new(a.len(), |i: int| a[i] & b[i])
}

/// Pointwise disjunction of two byte strings of equal length.
pub open spec fn byte_or(a: Seq<u8>, b: Seq<u8>) -> Seq<u8> {
    Seq::new(a.len(), |i: int| a[i] | b[i])
}

/// The value of a byte string of width `n` fits in `8 * n` bits.
pub proof fn lemma_be_val_fits(s: Seq<u8>)
    requires
        s.len() <= 8,
    ensures
        be_val(s) & low_mask((8 * s.len()) as u64) == be_val(s),
    decreases s.len(),
{
    if s.len() == 0 {
        assert(0u64 & low_mask(0) == 0u64) by (bit_vector);
    } else {
        let f = s.drop_last();
        lemma_be_val_fits(f);
        let x = be_val(f);
        let z = s.last();
        let n = s.len() as u64;
        assert(be_val(s) == (x << 8u64) | (z as u64));
        assert((((x << 8u64) | (z as u64)) & low_mask((8 * n) as u64)) == ((x << 8u64) | (z as u64)))
            by (bit_vector)
            requires
                1 <= n <= 8,
                x & low_mask((8 * (n - 1)) as u64) == x,
        ;
    }
}

/// Byte `j` of a byte string is the `j`-th byte of its value, counted from
/// the most significant end.
pub proof fn lemma_be_val_byte(s: Seq<u8>, j: int)
    requires
        s.len() <= 8,
        0 <= j < s.len(),
    ensures
        s[j] == (be_val(s) >> ((8 * (s.len() - 1 - j)) as u64)) as u8,
    decreases s.len(),
{
    let x = be_val(s.drop_last());
    let z = s.last();
    if j == s.len() - 1 {
        assert((((x << 8u64) | (z as u64)) >> 0u64) as u8 == z) by (bit_vector);
    } else {
        lemma_be_val_byte(s.drop_last(), j);
        let d = (8 * (s.len() - 2 - j)) as u64;
        assert((((x << 8u64) | (z as u64)) >> (d + 8)) as u8 == (x >> d) as u8)
            by (bit_vector)
            requires
                d <= 48,
        ;
    }
}

/// Two byte strings of the same width and the same value are equal.
pub proof fn lemma_be_val_injective(a: Seq<u8>, b: Seq<u8>)
    requires
        a.len() == b.len() <= 8,
        be_val(a) == be_val(b),
    ensures
        a == b,
{
    assert forall|j: int| 0 <= j < a.len() implies a[j] == b[j] by {
        lemma_be_val_byte(a, j);
        lemma_be_val_byte(b, j);
    }
    assert(a =~= b);
}

/// Reading back the byte string written for a value yields the value,
/// truncated to the string's width.
pub proof fn lemma_from_val_be(v: u64, n: nat)
    requires
        n <= 8,
    ensures
        from_val(v, n).len() == n,
        be_val(from_val(v, n)) == v & low_mask((8 * n) as u64),
    decreases n,
{
    if n == 0 {
        assert(v & low_mask(0) == 0) by (bit_vector);
    } else {
        lemma_from_val_be(v >> 8u64, (n - 1) as nat);
        assert forall|j: int| 0 <= j < n - 1 implies from_val(v, n)[j] == from_val(
            v >> 8u64,
            (n - 1) as nat,
        )[j] by {
            let d = (8 * (n - 2 - j)) as u64;
            assert((v >> (d + 8)) as u8 == ((v >> 8u64) >> d) as u8) by (bit_vector)
                requires
                    d <= 48,
            ;
        }
        assert(from_val(v, n).drop_last() =~= from_val(v >> 8u64, (n - 1) as nat));
        let x = be_val(from_val(v, n).drop_last());
        let z = from_val(v, n).last();
        assert(z == (v >> 0u64) as u8);
        let m = n as u64;
        assert(((x << 8u64) | (((v >> 0u64) as u8) as u64)) == (v & low_mask((8 * m) as u64)))
            by (bit_vector)
            requires
                1 <= m <= 8,
                x == (v >> 8u64) & low_mask((8 * (m - 1)) as u64),
        ;
        assert(be_val(from_val(v, n)) == (x << 8u64) | (z as u64));
    }
}

/// Byte-wise complement is complement of the value, within the width.
pub proof fn lemma_be_val_not(s: Seq<u8>)
    requires
        s.len() <= 8,
    ensures
        be_val(byte_not(s)) == !be_val(s) & low_mask((8 * s.len()) as u64),
    decreases s.len(),
{
    if s.len() == 0 {
        assert(!0u64 & low_mask(0) == 0u64) by (bit_vector);
    } else {
        let f = s.drop_last();
        lemma_be_val_not(f);
        assert(byte_not(s).drop_last() =~= byte_not(f));
        let x = be_val(f);
        let x2 = be_val(byte_not(f));
        let z = s.last();
        let m = s.len() as u64;
        assert(be_val(byte_not(s)) == (x2 << 8u64) | ((!z) as u64));
        assert(((x2 << 8u64) | ((!z) as u64)) == !((x << 8u64) | (z as u64)) & low_mask(
            (8 * m) as u64,
        ))
            by (bit_vector)
            requires
                1 <= m <= 8,
                x2 == !x & low_mask((8 * (m - 1)) as u64),
        ;
    }
}

/// Byte-wise conjunction is conjunction of the values.
pub proof fn lemma_be_val_and(a: Seq<u8>, b: Seq<u8>)
    requires
        a.len() == b.len() <= 8,
    ensures
        be_val(byte_and(a, b)) == (be_val(a) & be_val(b)),
    decreases a.len(),
{
    if a.len() == 0 {
        assert(0u64 & 0u64 == 0u64) by (bit_vector);
    } else {
        let fa = a.drop_last();
        let fb = b.drop_last();
        lemma_be_val_and(fa, fb);
        assert(byte_and(a, b).drop_last() =~= byte_and(fa, fb));
        let xa = be_val(fa);
        let xb = be_val(fb);
        let za = a.last();
        let zb = b.last();
        assert(be_val(byte_and(a, b)) == (be_val(byte_and(fa, fb)) << 8u64) | ((za & zb) as u64));
        assert((((xa & xb) << 8u64) | ((za & zb) as u64)) == (((xa << 8u64) | (za as u64)) & ((xb
            << 8u64) | (zb as u64)))) by (bit_vector);
    }
}

/// Byte-wise disjunction is disjunction of the values.
pub proof fn lemma_be_val_or(a: Seq<u8>, b: Seq<u8>)
    requires
        a.len() == b.len() <= 8,
    ensures
        be_val(byte_or(a, b)) == (be_val(a) | be_val(b)),
    decreases a.len(),
{
    if a.len() == 0 {
        assert(0u64 | 0u64 == 0u64) by (bit_vector);
    } else {
        let fa = a.drop_last();
        let fb = b.drop_last();
        lemma_be_val_or(fa, fb);
        assert(byte_or(a, b).drop_last() =~= byte_or(fa, fb));
        let xa = be_val(fa);
        let xb = be_val(fb);
        let za = a.last();
        let zb = b.last();
        assert(be_val(byte_or(a, b)) == (be_val(byte_or(fa, fb)) << 8u64) | ((za | zb) as u64));
        assert((((xa | xb) << 8u64) | ((za | zb) as u64)) == (((xa << 8u64) | (za as u64)) | ((xb
            << 8u64) | (zb as u64)))) by (bit_vector);
    }
}

/// Left shift of a byte string by `k < 8` bits, written byte by byte: each
/// output byte keeps its own high bits and takes a carry from the neighbour
/// on its less significant side.
pub open spec fn shl_carry(s: Seq<u8>, k: u8) -> Seq<u8> {
    Seq::new(
        s.len(),
        |j: int|
            if j < s.len() - 1 {
                (s[j] << k) | (s[j + 1] >> ((8 - k) as u8))
            } else {
                s[j] << k
            },
    )
}

/// Right shift of a byte string by `k < 8` bits, written byte by byte: the
/// carry comes from the neighbour on the more significant side.
pub open spec fn shr_carry(s: Seq<u8>, k: u8) -> Seq<u8> {
    Seq::new(
        s.len(),
        |j: int|
            if j >= 1 {
                (s[j] >> k) | (s[j - 1] << ((8 - k) as u8))
            } else {
                s[j] >> k
            },
    )
}

/// The byte-carry left shift and the widened-word left shift agree: shifting
/// byte by byte with an eight-bit carry gives exactly the bytes of the
/// string's value shifted as one big-endian integer.
pub proof fn lemma_shl_carry_agrees(s: Seq<u8>, k: u8)
    requires
        1 <= s.len() <= 8,
        k < 8,
    ensures
        shl_carry(s, k) == from_val(be_val(s) << (k as u64), s.len()),
{
    let n = s.len();
    let v = be_val(s);
    assert forall|j: int| 0 <= j < n implies shl_carry(s, k)[j] == from_val(
        v << (k as u64),
        n,
    )[j] by {
        lemma_be_val_byte(s, j);
        if j < n - 1 {
            lemma_be_val_byte(s, j + 1);
            let d = (8 * (n - 1 - j)) as u64;
            let a = s[j];
            let b = s[j + 1];
            assert(((v << k) >> d) as u8 == ((a << k) | (b >> ((8 - k) as u8))) as u8)
                by (bit_vector)
                requires
                    8 <= d <= 56,
                    k < 8,
                    a == (v >> d) as u8,
                    b == (v >> ((d - 8) as u64)) as u8,
            ;
        } else {
            assert(((v << k) >> 0u64) as u8 == (((v >> 0u64) as u8) << k) as u8) by (bit_vector)
                requires
                    k < 8,
            ;
        }
    }
    assert(shl_carry(s, k) =~= from_val(v << (k as u64), n));
}

/// The byte-carry right shift and the widened-word right shift agree.
pub proof fn lemma_shr_carry_agrees(s: Seq<u8>, k: u8)
    requires
        1 <= s.len() <= 8,
        k < 8,
    ensures
        shr_carry(s, k) == from_val(be_val(s) >> (k as u64), s.len()),
{
    let n = s.len();
    let v = be_val(s);
    lemma_be_val_fits(s);
    assert forall|j: int| 0 <= j < n implies shr_carry(s, k)[j] == from_val(
        v >> (k as u64),
        n,
    )[j] by {
        lemma_be_val_byte(s, j);
        let d = (8 * (n - 1 - j)) as u64;
        let m = n as u64;
        let a = s[j];
        if j >= 1 {
            lemma_be_val_byte(s, j - 1);
            let c = s[j - 1];
            assert(((v >> k) >> d) as u8 == ((a >> k) | (c << ((8 - k) as u8))) as u8)
                by (bit_vector)
                requires
                    d <= 48,
                    k < 8,
                    a == (v >> d) as u8,
                    c == (v >> (d + 8)) as u8,
            ;
        } else {
            assert(((v >> k) >> d) as u8 == ((a >> k)) as u8) by (bit_vector)
                requires
                    d == 8 * (m - 1),
                    1 <= m <= 8,
                    k < 8,
                    a == (v >> d) as u8,
                    v & low_mask((8 * m) as u64) == v,
            ;
        }
    }
    assert(shr_carry(s, k) =~= from_val(v >> (k as u64), n));
}

/// Reversing a byte string twice gives the string back: the little-endian
/// byte-order transform is an involution, while the big-endian transform is
/// the identity outright.
pub proof fn lemma_little_endian_involution(s: Seq<u8>)
    ensures
        s.reverse().reverse() == s,
{
    assert(s.reverse().reverse() =~= s);
}

/// A fixed-width unsigned bit pattern of one to eight bytes, kept in
/// canonical big-endian order.
///
/// Widths that machine integers do not natively support (three, five, six
/// or seven bytes) are as welcome as the native ones.
#[derive(Clone, Copy, Debug)]
pub struct RawField {
    bytes: [u8; 8],
    width: usize,
}

impl View for RawField {
    type V = Seq<u8>;

    closed spec fn view(&self) -> Seq<u8> {
        if self.width <= 8 {
            self.bytes@.take(self.width as int)
        } else {
            Seq::empty()
        }
    }
}

/// Operations of a raw storage cell: byte-wise boolean connectives, shifts
/// with zero fill, and byte-order transforms.
///
/// `digits()` is the canonical big-endian byte pattern of the cell, and
/// `inv()` says that the cell's width is supported.
pub trait RawFieldOps: Sized {
    /// The canonical big-endian byte pattern.
    spec fn digits(&self) -> Seq<u8>;

    /// The width is one to eight bytes.
    spec fn inv(&self) -> bool;

    /// Byte-wise complement.
    fn not(&self) -> (r: Self)
        requires
            self.inv(),
        ensures
            r.inv(),
            r.digits() == byte_not(self.digits()),
            be_val(r.digits()) == !be_val(self.digits()) & low_mask(
                (8 * self.digits().len()) as u64,
            ),
    ;

    /// Byte-wise conjunction with a cell of the same width.
    fn bitand(&self, rhs: Self) -> (r: Self)
        requires
            self.inv(),
            rhs.inv(),
            rhs.digits().len() == self.digits().len(),
        ensures
            r.inv(),
            r.digits() == byte_and(self.digits(), rhs.digits()),
            be_val(r.digits()) == be_val(self.digits()) & be_val(rhs.digits()),
    ;

    /// Byte-wise disjunction with a cell of the same width.
    fn bitor(&self, rhs: Self) -> (r: Self)
        requires
            self.inv(),
            rhs.inv(),
            rhs.digits().len() == self.digits().len(),
        ensures
            r.inv(),
            r.digits() == byte_or(self.digits(), rhs.digits()),
            be_val(r.digits()) == be_val(self.digits()) | be_val(rhs.digits()),
    ;

    /// Left shift by `rhs` bits with zero fill, the cell read as a single
    /// big-endian unsigned integer.
    fn shl(&self, rhs: u8) -> (r: Self)
        requires
            self.inv(),
            (rhs as nat) < 8 * self.digits().len(),
        ensures
            r.inv(),
            r.digits() == from_val(be_val(self.digits()) << (rhs as u64), self.digits().len()),
            be_val(r.digits()) == (be_val(self.digits()) << (rhs as u64)) & low_mask(
                (8 * self.digits().len()) as u64,
            ),
    ;

    /// Right shift by `rhs` bits with zero fill.
    fn shr(&self, rhs: u8) -> (r: Self)
        requires
            self.inv(),
            (rhs as nat) < 8 * self.digits().len(),
        ensures
            r.inv(),
            r.digits() == from_val(be_val(self.digits()) >> (rhs as u64), self.digits().len()),
            be_val(r.digits()) == be_val(self.digits()) >> (rhs as u64),
    ;

    /// Storage is canonically big-endian, so this is the identity.
    fn from_be(x: Self) -> (r: Self)
        requires
            x.inv(),
        ensures
            r.inv(),
            r.digits() == x.digits(),
    ;

    /// Byte-order reversal.
    fn from_le(x: Self) -> (r: Self)
        requires
            x.inv(),
        ensures
            r.inv(),
            r.digits() == x.digits().reverse(),
    ;

    /// Storage is canonically big-endian, so this is the identity.
    fn to_be(&self) -> (r: Self)
        requires
            self.inv(),
        ensures
            r.inv(),
            r.digits() == self.digits(),
    ;

    /// Byte-order reversal.
    fn to_le(&self) -> (r: Self)
        requires
            self.inv(),
        ensures
            r.inv(),
            r.digits() == self.digits().reverse(),
    ;
}

impl RawField {
    /// The width is one to eight bytes.
    pub open spec fn wf(&self) -> bool {
        1 <= self@.len() <= 8
    }

    /// A well-formed cell's stored width is its visible width.
    proof fn lemma_inv(&self)
        requires
            self.wf(),
        ensures
            self.width == self@.len(),
            1 <= self.width <= 8,
    {
        if self.width > 8 {
            assert(self@.len() == 0);
        }
    }

    /// Builds a cell from its big-endian bytes.
    pub fn new(bytes: &[u8]) -> (r: RawField)
        requires
            1 <= bytes@.len() <= 8,
        ensures
            r.wf(),
            r@ == bytes@,
    {
        let mut out: [u8; 8] = [0; 8];
        let w = bytes.len();
        let mut j: usize = 0;
        while j < w
            invariant
                j <= w == bytes@.len() <= 8,
                out@.len() == 8,
                forall|i: int| 0 <= i < j ==> out@[i] == bytes@[i],
            decreases w - j,
        {
            out[j] = bytes[j];
            j = j + 1;
        }
        let r = RawField { bytes: out, width: w };
        proof {
            assert(r@ =~= bytes@);
        }
        r
    }

    /// The cell's numeric value, read as a big-endian unsigned integer.
    pub fn value(&self) -> (r: u64)
        requires
            self.wf(),
        ensures
            r == be_val(self@),
    {
        proof {
            self.lemma_inv();
        }
        let w = self.width;
        let mut acc: u64 = 0;
        let mut j: usize = 0;
        while j < w
            invariant
                j <= w,
                self.wf(),
                w == self@.len(),
                acc == be_val(self@.take(j as int)),
            decreases w - j,
        {
            proof {
                assert(self@.take(j + 1).drop_last() =~= self@.take(j as int));
                assert(self@.take(j + 1).last() == self@[j as int]);
            }
            acc = (acc << 8u64) | (self.bytes[j] as u64);
            proof {
                assert(self.bytes@[j as int] == self@[j as int]);
            }
            j = j + 1;
        }
        proof {
            assert(self@.take(w as int) =~= self@);
        }
        acc
    }

    /// Builds the cell of width `width` whose value is the low `8 * width`
    /// bits of `v`.
    pub fn from_value(v: u64, width: usize) -> (r: RawField)
        requires
            1 <= width <= 8,
        ensures
            r.wf(),
            r@ == from_val(v, width as nat),
            be_val(r@) == v & low_mask((8 * width) as u64),
    {
        let mut out: [u8; 8] = [0; 8];
        let mut j: usize = 0;
        while j < width
            invariant
                j <= width <= 8,
                out@.len() == 8,
                forall|i: int| 0 <= i < j ==> out@[i] == from_val(v, width as nat)[i],
            decreases width - j,
        {
            let k = (8 * (width - 1 - j)) as u64;
            out[j] = (v >> k) as u8;
            j = j + 1;
        }
        let r = RawField { bytes: out, width };
        proof {
            assert(r@ =~= from_val(v, width as nat));
            lemma_from_val_be(v, width as nat);
        }
        r
    }

    /// Builds a cell from `w` bytes of a buffer, starting at `off`.
    pub fn from_buffer(buf: &Vec<u8>, off: usize, w: usize) -> (r: RawField)
        requires
            1 <= w <= 8,
            off + w <= buf@.len(),
        ensures
            r.wf(),
            r@ == buf@.subrange(off as int, off + w),
    {
        let n = buf.len();
        let mut out: [u8; 8] = [0; 8];
        let mut j: usize = 0;
        while j < w
            invariant
                j <= w <= 8,
                off + w <= n == buf@.len(),
                out@.len() == 8,
                forall|i: int| 0 <= i < j ==> out@[i] == buf@[off + i],
            decreases w - j,
        {
            out[j] = buf[off + j];
            j = j + 1;
        }
        let r = RawField { bytes: out, width: w };
        proof {
            assert(r@ =~= buf@.subrange(off as int, off + w));
        }
        r
    }

    /// The cell's width in bytes.
    pub fn byte_len(&self) -> (r: usize)
        requires
            self.wf(),
        ensures
            r == self@.len(),
    {
        proof {
            self.lemma_inv();
        }
        self.width
    }

    /// The cell's byte at position `j`, counted from the most significant
    /// end.
    pub fn byte_at(&self, j: usize) -> (r: u8)
        requires
            self.wf(),
            j < self@.len(),
        ensures
            r == self@[j as int],
    {
        proof {
            self.lemma_inv();
            assert(self.bytes@[j as int] == self@[j as int]);
        }
        self.bytes[j]
    }

    /// Hands the cell's bytes out, most significant first.
    pub fn to_bytes(&self) -> (r: Vec<u8>)
        requires
            self.wf(),
        ensures
            r@ == self@,
    {
        proof {
            self.lemma_inv();
        }
        let mut out: Vec<u8> = Vec::new();
        let mut j: usize = 0;
        while j < self.width
            invariant
                j <= self.width,
                self.wf(),
                self.width == self@.len(),
                out@.len() == j,
                forall|i: int| 0 <= i < j ==> out@[i] == self@[i],
            decreases self.width - j,
        {
            out.push(self.bytes[j]);
            proof {
                assert(self.bytes@[j as int] == self@[j as int]);
            }
            j = j + 1;
        }
        proof {
            assert(out@ =~= self@);
        }
        out
    }

    /// Left shift by `k < 8` bits, carried byte by byte rather than through
    /// a widened word; numerically identical to [`RawFieldOps::shl`].
    pub fn shl_carrying(&self, k: u8) -> (r: RawField)
        requires
            self.wf(),
            k < 8,
        ensures
            r.wf(),
            r@ == shl_carry(self@, k),
            r@ == from_val(be_val(self@) << (k as u64), self@.len()),
    {
        proof {
            self.lemma_inv();
            lemma_shl_carry_agrees(self@, k);
        }
        if k == 0 {
            proof {
                assert forall|j: int| 0 <= j < self@.len() implies shl_carry(self@, 0u8)[j]
                    == self@[j] by {
                    let a = self@[j];
                    if j < self@.len() - 1 {
                        let b = self@[j + 1];
                        assert((a << 0u8) | (b >> 8u8) == a) by (bit_vector);
                    } else {
                        assert(a << 0u8 == a) by (bit_vector);
                    }
                }
                assert(shl_carry(self@, 0u8) =~= self@);
            }
            return *self;
        }
        let w = self.width;
        let mut out: [u8; 8] = [0; 8];
        let mut j: usize = 0;
        while j < w
            invariant
                j <= w == self@.len() <= 8,
                self.wf(),
                w == self.width,
                1 <= k < 8,
                out@.len() == 8,
                forall|i: int| 0 <= i < j ==> out@[i] == shl_carry(self@, k)[i],
            decreases w - j,
        {
            let hi = self.bytes[j] << k;
            let lo = if j + 1 < w {
                self.bytes[j + 1] >> (8 - k)
            } else {
                0
            };
            out[j] = hi | lo;
            proof {
                assert(self.bytes@[j as int] == self@[j as int]);
                if j + 1 < w {
                    assert(self.bytes@[j + 1] == self@[j + 1]);
                } else {
                    let a = self@[j as int];
                    assert((a << k) | 0u8 == (a << k)) by (bit_vector);
                }
            }
            j = j + 1;
        }
        let r = RawField { bytes: out, width: w };
        proof {
            assert(r@ =~= shl_carry(self@, k));
        }
        r
    }

    /// Right shift by `k < 8` bits, carried byte by byte rather than through
    /// a widened word; numerically identical to [`RawFieldOps::shr`].
    pub fn shr_carrying(&self, k: u8) -> (r: RawField)
        requires
            self.wf(),
            k < 8,
        ensures
            r.wf(),
            r@ == shr_carry(self@, k),
            r@ == from_val(be_val(self@) >> (k as u64), self@.len()),
    {
        proof {
            self.lemma_inv();
            lemma_shr_carry_agrees(self@, k);
        }
        if k == 0 {
            proof {
                assert forall|j: int| 0 <= j < self@.len() implies shr_carry(self@, 0u8)[j]
                    == self@[j] by {
                    let a = self@[j];
                    if j >= 1 {
                        let c = self@[j - 1];
                        assert((a >> 0u8) | (c << 8u8) == a) by (bit_vector);
                    } else {
                        assert(a >> 0u8 == a) by (bit_vector);
                    }
                }
                assert(shr_carry(self@, 0u8) =~= self@);
            }
            return *self;
        }
        let w = self.width;
        let mut out: [u8; 8] = [0; 8];
        let mut j: usize = 0;
        while j < w
            invariant
                j <= w == self@.len() <= 8,
                self.wf(),
                w == self.width,
                1 <= k < 8,
                out@.len() == 8,
                forall|i: int| 0 <= i < j ==> out@[i] == shr_carry(self@, k)[i],
            decreases w - j,
        {
            let lo = self.bytes[j] >> k;
            let hi = if j >= 1 {
                self.bytes[j - 1] << (8 - k)
            } else {
                0
            };
            out[j] = lo | hi;
            proof {
                assert(self.bytes@[j as int] == self@[j as int]);
                if j >= 1 {
                    assert(self.bytes@[j - 1] == self@[j - 1]);
                } else {
                    let a = self@[j as int];
                    assert((a >> k) | 0u8 == (a >> k)) by (bit_vector);
                }
            }
            j = j + 1;
        }
        let r = RawField { bytes: out, width: w };
        proof {
            assert(r@ =~= shr_carry(self@, k));
        }
        r
    }
}

impl RawFieldOps for RawField {
    open spec fn digits(&self) -> Seq<u8> {
        self@
    }

    open spec fn inv(&self) -> bool {
        self.wf()
    }

    fn not(&self) -> (r: Self) {
        proof {
            self.lemma_inv();
        }
        let w = self.width;
        let mut out: [u8; 8] = [0; 8];
        let mut j: usize = 0;
        while j < w
            invariant
                j <= w == self@.len() <= 8,
                self.wf(),
                out@.len() == 8,
                forall|i: int| 0 <= i < j ==> out@[i] == byte_not(self@)[i],
            decreases w - j,
        {
            out[j] = !self.bytes[j];
            proof {
                assert(self.bytes@[j as int] == self@[j as int]);
            }
            j = j + 1;
        }
        let r = RawField { bytes: out, width: w };
        proof {
            assert(r@ =~= byte_not(self@));
            lemma_be_val_not(self@);
        }
        r
    }

    fn bitand(&self, rhs: Self) -> (r: Self) {
        proof {
            self.lemma_inv();
            rhs.lemma_inv();
        }
        let w = self.width;
        let mut out: [u8; 8] = [0; 8];
        let mut j: usize = 0;
        while j < w
            invariant
                j <= w == self@.len() <= 8,
                self.wf(),
                rhs.wf(),
                rhs@.len() == w,
                w == rhs.width,
                out@.len() == 8,
                forall|i: int| 0 <= i < j ==> out@[i] == byte_and(self@, rhs@)[i],
            decreases w - j,
        {
            out[j] = self.bytes[j] & rhs.bytes[j];
            proof {
                assert(self.bytes@[j as int] == self@[j as int]);
                assert(rhs.bytes@[j as int] == rhs@[j as int]);
            }
            j = j + 1;
        }
        let r = RawField { bytes: out, width: w };
        proof {
            assert(r@ =~= byte_and(self@, rhs@));
            lemma_be_val_and(self@, rhs@);
        }
        r
    }

    fn bitor(&self, rhs: Self) -> (r: Self) {
        proof {
            self.lemma_inv();
            rhs.lemma_inv();
        }
        let w = self.width;
        let mut out: [u8; 8] = [0; 8];
        let mut j: usize = 0;
        while j < w
            invariant
                j <= w == self@.len() <= 8,
                self.wf(),
                rhs.wf(),
                rhs@.len() == w,
                w == rhs.width,
                out@.len() == 8,
                forall|i: int| 0 <= i < j ==> out@[i] == byte_or(self@, rhs@)[i],
            decreases w - j,
        {
            out[j] = self.bytes[j] | rhs.bytes[j];
            proof {
                assert(self.bytes@[j as int] == self@[j as int]);
                assert(rhs.bytes@[j as int] == rhs@[j as int]);
            }
            j = j + 1;
        }
        let r = RawField { bytes: out, width: w };
        proof {
            assert(r@ =~= byte_or(self@, rhs@));
            lemma_be_val_or(self@, rhs@);
        }
        r
    }

    fn shl(&self, rhs: u8) -> (r: Self) {
        proof {
            self.lemma_inv();
        }
        let v = self.value();
        let shifted = v << (rhs as u64);
        RawField::from_value(shifted, self.width)
    }

    fn shr(&self, rhs: u8) -> (r: Self) {
        proof {
            self.lemma_inv();
        }
        let v = self.value();
        let shifted = v >> (rhs as u64);
        let r = RawField::from_value(shifted, self.width);
        proof {
            lemma_be_val_fits(self@);
            let n = self@.len() as u64;
            let k = rhs as u64;
            assert((v >> k) & low_mask((8 * n) as u64) == (v >> k)) by (bit_vector)
                requires
                    v & low_mask((8 * n) as u64) == v,
                    n <= 8,
            ;
        }
        r
    }

    fn from_be(x: Self) -> (r: Self) {
        x
    }

    fn from_le(x: Self) -> (r: Self) {
        x.to_le()
    }

    fn to_be(&self) -> (r: Self) {
        *self
    }

    fn to_le(&self) -> (r: Self) {
        proof {
            self.lemma_inv();
        }
        let w = self.width;
        let mut out: [u8; 8] = [0; 8];
        let mut j: usize = 0;
        while j < w
            invariant
                j <= w == self@.len() <= 8,
                self.wf(),
                w == self.width,
                out@.len() == 8,
                forall|i: int| 0 <= i < j ==> out@[i] == self@.reverse()[i],
            decreases w - j,
        {
            out[j] = self.bytes[w - 1 - j];
            proof {
                assert(self.bytes@[w - 1 - j] == self@[w - 1 - j]);
            }
            j = j + 1;
        }
        let r = RawField { bytes: out, width: w };
        proof {
            assert(r@ =~= self@.reverse());
        }
        r
    }
}

} // verus!
