//! Field descriptors and the field accessor: the mask/shift/endianness model
//! that turns a bit range of a storage cell into a typed value.

use vstd::prelude::*;

use crate::underlay::RawField;
use crate::underlay::RawFieldOps;
use crate::underlay::be_val;
use crate::underlay::from_val;
use crate::underlay::lemma_be_val_fits;
use crate::underlay::lemma_be_val_injective;
use crate::underlay::lemma_from_val_be;
use crate::underlay::lemma_little_endian_involution;
use crate::underlay::low_mask;

verus! {

/// Which end of a multi-byte storage cell holds the field's least
/// significant bit: `Lsb0` stores the cell little-endian first, `Msb0`
/// big-endian first.
#[derive(Clone, Copy, Debug, PartialEq, Eq, Structural)]
pub enum Endianness {
    Lsb0,
    Msb0,
}

/// The canonical big-endian bytes of a stored cell, per the cell's
/// endianness mode.
pub open spec fn canon(cell: Seq<u8>, e: Endianness) -> Seq<u8> {
    match e {
        Endianness::Msb0 => cell,
        Endianness::Lsb0 => cell.reverse(),
    }
}

/// Static per-field metadata: where the field's bits sit within its group's
/// storage cell, and what it holds when reset.
///
/// `width` is the byte width of the whole group cell; `bit_width` counts the
/// field's own bits; `shift` is the position of the field's least significant
/// bit within the group, counted from the group's own least significant bit;
/// `mask` selects the field's bits; `default_raw` is the field-local value a
/// reset writes.
#[derive(Clone, Copy, Debug)]
pub struct FieldSpec {
    pub width: usize,
    pub bit_width: u64,
    pub shift: u64,
    pub mask: RawField,
    pub default_raw: u64,
    pub endianness: Endianness,
}

impl FieldSpec {
    /// The descriptor's invariant: a supported group width, a mask of
    /// exactly `bit_width` contiguous set bits starting at `shift`, and a
    /// default that fits the field's bit width.
    pub open spec fn wf(&self) -> bool {
        &&& 1 <= self.width <= 8
        &&& 1 <= self.bit_width <= 64
        &&& self.shift + self.bit_width <= 8 * self.width
        &&& self.mask@.len() == self.width
        &&& be_val(self.mask@) == low_mask(self.bit_width) << self.shift
        &&& self.default_raw & low_mask(self.bit_width) == self.default_raw
    }
}

/// The field's raw value within a stored cell: normalize the cell to
/// canonical big-endian form, mask, shift down.
pub open spec fn field_value(cell: Seq<u8>, d: FieldSpec) -> u64 {
    (be_val(canon(cell, d.endianness)) >> d.shift) & low_mask(d.bit_width)
}

/// The stored cell after the field is written with raw value `v`: the bits
/// outside the field's mask keep their old values, the bits inside take the
/// low bits of `v`, and the result is re-encoded to the cell's endianness.
pub open spec fn cell_after_set(cell: Seq<u8>, d: FieldSpec, v: u64) -> Seq<u8> {
    let c = be_val(canon(cell, d.endianness));
    let m = be_val(d.mask@);
    let nv = (c & !m) | ((v << d.shift) & m);
    canon(from_val(nv, d.width as nat), d.endianness)
}

/// A field accessor: one storage cell of the field's group, together with
/// the descriptor that locates the field inside it.
#[derive(Clone, Copy, Debug)]
pub struct Field {
    pub desc: FieldSpec,
    pub cell: RawField,
}

impl Field {
    /// The descriptor is well formed and the cell has the group's width.
    pub open spec fn wf(&self) -> bool {
        &&& self.desc.wf()
        &&& self.cell@.len() == self.desc.width
    }

    /// Binds a fresh accessor holding the field's default.
    pub fn new(desc: FieldSpec) -> (r: Field)
        requires
            desc.wf(),
        ensures
            r.wf(),
            r.desc == desc,
            field_value(r.cell@, desc) == desc.default_raw,
    {
        let cell = RawField::from_value(0, desc.width);
        let mut f = Field { desc, cell };
        f.reset();
        f
    }

    /// The field's raw (undecoded) value: the cell normalized to canonical
    /// big-endian form, masked, and shifted down.
    pub fn raw(&self) -> (r: RawField)
        requires
            self.wf(),
        ensures
            r.wf(),
            r@.len() == self.desc.width,
            be_val(r@) == field_value(self.cell@, self.desc),
    {
        let normal = match self.desc.endianness {
            Endianness::Lsb0 => RawField::from_le(self.cell),
            Endianness::Msb0 => RawField::from_be(self.cell),
        };
        let r = normal.bitand(self.desc.mask).shr(self.desc.shift as u8);
        proof {
            let c = be_val(canon(self.cell@, self.desc.endianness));
            let m = be_val(self.desc.mask@);
            let sh = self.desc.shift;
            let bw = self.desc.bit_width;
            assert(((c & m) >> sh) == ((c >> sh) & low_mask(bw))) by (bit_vector)
                requires
                    m == low_mask(bw) << sh,
                    1 <= bw <= 64,
                    sh + bw <= 64,
            ;
        }
        r
    }

    /// Reads the field: the raw value, decoded. The decode step of this
    /// engine is value-preserving, so the result is the raw value itself.
    pub fn get(&self) -> (r: u64)
        requires
            self.wf(),
        ensures
            r == field_value(self.cell@, self.desc),
    {
        self.raw().value()
    }

    /// Writes the field: the cell keeps every bit outside the field's mask
    /// and takes the low `bit_width` bits of `v` inside it, as one whole-cell
    /// update.
    pub fn set(&mut self, v: u64)
        requires
            old(self).wf(),
        ensures
            final(self).wf(),
            final(self).desc == old(self).desc,
            final(self).cell@ == cell_after_set(old(self).cell@, old(self).desc, v),
            field_value(final(self).cell@, old(self).desc) == v & low_mask(
                old(self).desc.bit_width,
            ),
    {
        let d = self.desc;
        let normal = match d.endianness {
            Endianness::Lsb0 => RawField::from_le(self.cell),
            Endianness::Msb0 => RawField::from_be(self.cell),
        };
        let encoded = RawField::from_value(v, d.width);
        let placed = encoded.shl(d.shift as u8).bitand(d.mask);
        let nv = normal.bitand(d.mask.not()).bitor(placed);
        proof {
            let c = be_val(canon(old(self).cell@, d.endianness));
            let m = be_val(d.mask@);
            let sh = d.shift;
            let bw = d.bit_width;
            let ww = d.width as u64;
            let target = ((c & !m) | ((v << sh) & m)) as u64;
            lemma_be_val_fits(canon(old(self).cell@, d.endianness));
            assert((c & (!m & low_mask((8 * ww) as u64))) | ((((v & low_mask((8 * ww) as u64))
                << sh) & low_mask((8 * ww) as u64)) & m) == target) by (bit_vector)
                requires
                    target == ((c & !m) | ((v << sh) & m)),
                    m == low_mask(bw) << sh,
                    1 <= bw <= 64,
                    sh + bw <= 8 * ww,
                    1 <= ww <= 8,
                    c & low_mask((8 * ww) as u64) == c,
            ;
            assert(target & low_mask((8 * ww) as u64) == target) by (bit_vector)
                requires
                    target == ((c & !m) | ((v << sh) & m)),
                    m == low_mask(bw) << sh,
                    sh + bw <= 8 * ww,
                    1 <= ww <= 8,
                    c & low_mask((8 * ww) as u64) == c,
            ;
            lemma_from_val_be(target, d.width as nat);
            lemma_be_val_injective(nv@, from_val(target, d.width as nat));
        }
        self.cell = match d.endianness {
            Endianness::Lsb0 => nv.to_le(),
            Endianness::Msb0 => nv.to_be(),
        };
        proof {
            lemma_set_reads_back(old(self).cell@, d, v);
        }
    }

    /// Writes the field's declared default, whatever the cell held before.
    pub fn reset(&mut self)
        requires
            old(self).wf(),
        ensures
            final(self).wf(),
            final(self).desc == old(self).desc,
            final(self).cell@ == cell_after_set(
                old(self).cell@,
                old(self).desc,
                old(self).desc.default_raw,
            ),
            field_value(final(self).cell@, old(self).desc) == old(self).desc.default_raw,
    {
        let dv = self.desc.default_raw;
        self.set(dv);
    }
}

/// Writing any value and reading the field back yields the value truncated
/// to the field's bit width, whatever the cell held before.
pub proof fn lemma_set_reads_back(cell: Seq<u8>, d: FieldSpec, v: u64)
    requires
        d.wf(),
        cell.len() == d.width,
    ensures
        field_value(cell_after_set(cell, d, v), d) == v & low_mask(d.bit_width),
{
    let e = d.endianness;
    let c = be_val(canon(cell, e));
    let m = be_val(d.mask@);
    let sh = d.shift;
    let bw = d.bit_width;
    let ww = d.width as u64;
    let nv = ((c & !m) | ((v << sh) & m)) as u64;
    let written = from_val(nv, d.width as nat);
    if e is Lsb0 {
        lemma_little_endian_involution(written);
    }
    assert(canon(cell_after_set(cell, d, v), e) == written);
    lemma_from_val_be(nv, d.width as nat);
    lemma_be_val_fits(canon(cell, e));
    assert((((nv & low_mask((8 * ww) as u64)) >> sh) & low_mask(bw)) == (v & low_mask(bw)))
        by (bit_vector)
        requires
            nv == ((c & !m) | ((v << sh) & m)),
            m == low_mask(bw) << sh,
            1 <= bw <= 64,
            sh + bw <= 8 * ww,
            1 <= ww <= 8,
            c & low_mask((8 * ww) as u64) == c,
    ;
}

/// Round trip: writing a value that fits the field's bit width and reading
/// the field back yields the value, whatever the cell held before.
pub proof fn lemma_round_trip(cell: Seq<u8>, d: FieldSpec, v: u64)
    requires
        d.wf(),
        cell.len() == d.width,
        v & low_mask(d.bit_width) == v,
    ensures
        field_value(cell_after_set(cell, d, v), d) == v,
{
    lemma_set_reads_back(cell, d, v);
}

/// Reset restores the declared default: after writing the descriptor's
/// default the field reads as that default, independent of the prior state
/// of sibling fields in the same cell.
pub proof fn lemma_reset_restores_default(cell: Seq<u8>, d: FieldSpec)
    requires
        d.wf(),
        cell.len() == d.width,
    ensures
        field_value(cell_after_set(cell, d, d.default_raw), d) == d.default_raw,
{
    lemma_set_reads_back(cell, d, d.default_raw);
}

/// Group non-interference: writing one field of a shared cell leaves every
/// sibling field with a disjoint mask and the same endianness mode unchanged.
pub proof fn lemma_group_non_interference(cell: Seq<u8>, a: FieldSpec, b: FieldSpec, v: u64)
    requires
        a.wf(),
        b.wf(),
        cell.len() == a.width,
        b.width == a.width,
        b.endianness == a.endianness,
        be_val(a.mask@) & be_val(b.mask@) == 0,
    ensures
        field_value(cell_after_set(cell, a, v), b) == field_value(cell, b),
{
    let e = a.endianness;
    let c = be_val(canon(cell, e));
    let ma = be_val(a.mask@);
    let mb = be_val(b.mask@);
    let nv = ((c & !ma) | ((v << a.shift) & ma)) as u64;
    let written = from_val(nv, a.width as nat);
    if e is Lsb0 {
        lemma_little_endian_involution(written);
    }
    assert(canon(cell_after_set(cell, a, v), e) == written);
    lemma_from_val_be(nv, a.width as nat);
    lemma_be_val_fits(canon(cell, e));
    let sa = a.shift;
    let ba = a.bit_width;
    let sb = b.shift;
    let bb = b.bit_width;
    let ww = a.width as u64;
    assert((((nv & low_mask((8 * ww) as u64)) >> sb) & low_mask(bb)) == ((c >> sb) & low_mask(bb)))
        by (bit_vector)
        requires
            nv == ((c & !ma) | ((v << sa) & ma)),
            ma == low_mask(ba) << sa,
            mb == low_mask(bb) << sb,
            ma & mb == 0,
            1 <= ba <= 64,
            1 <= bb <= 64,
            sa + ba <= 8 * ww,
            sb + bb <= 8 * ww,
            1 <= ww <= 8,
            c & low_mask((8 * ww) as u64) == c,
    ;
}

} // verus!

