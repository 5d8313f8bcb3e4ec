//! The record view: a layout bound to a caller-supplied byte buffer, with a
//! read, a write and a reset accessor for every declared field.

use vstd::prelude::*;

use crate::field::Field;
use crate::field::cell_after_set;
use crate::field::field_value;
use crate::field::lemma_group_non_interference;
use crate::field::lemma_reset_restores_default;
use crate::field::lemma_round_trip;
use crate::layout::RecordLayout;
use crate::layout::lemma_group_masks_disjoint;
use crate::layout::lemma_prefix_width_mono;
use crate::layout::prefix_width;
use crate::underlay::RawField;
use crate::underlay::low_mask;

verus! {

/// What can go wrong when a layout meets a concrete buffer. Both are
/// recoverable: the caller may retry with a corrected buffer.
#[derive(Clone, Copy, Debug, PartialEq, Eq, Structural)]
pub enum AccessError {
    /// The buffer is smaller than the layout's total size.
    BufferTooShort,
    /// A materialized copy was asked of a buffer whose length is not exactly
    /// the layout's total size.
    LengthMismatch,
}

/// The value of field `f` of layout `l` within a buffer.
pub open spec fn record_field_value(l: RecordLayout, buf: Seq<u8>, f: int) -> u64 {
    let d = l.field_desc(f);
    let off = l.field_offset(f);
    field_value(buf.subrange(off, off + d.width), d)
}

/// The buffer after field `f` of layout `l` is written with raw value `v`:
/// only the field's group cell changes, as one whole-cell update.
pub open spec fn record_after_set(l: RecordLayout, buf: Seq<u8>, f: int, v: u64) -> Seq<u8> {
    let d = l.field_desc(f);
    let off = l.field_offset(f);
    let cell = buf.subrange(off, off + d.width);
    buf.subrange(0, off) + cell_after_set(cell, d, v) + buf.subrange(
        off + d.width,
        buf.len() as int,
    )
}

/// A well-formed layout keeps every field's group cell inside the record's
/// total size, and every field's descriptor well formed at its group's
/// width.
pub proof fn lemma_field_in_buffer(l: RecordLayout, f: int)
    requires
        l.wf(),
        0 <= f < l.spec_num_fields(),
    ensures
        0 <= l.field_offset(f),
        l.field_offset(f) + l.field_desc(f).width <= l.total_size,
        l.field_desc(f).wf(),
        l.field_desc(f).width == l.groups@[l.fields@[f].group as int].width,
{
    let g = l.fields@[f].group as int;
    assert(prefix_width(l.groups@, g + 1) == prefix_width(l.groups@, g) + l.groups@[g].width);
    lemma_prefix_width_mono(l.groups@, 0, g);
    lemma_prefix_width_mono(l.groups@, g + 1, l.groups@.len() as int);
}

/// Splicing a cell back into a buffer: the spliced range holds the cell.
proof fn lemma_splice_keeps_cell(buf: Seq<u8>, off: int, mid: Seq<u8>)
    requires
        0 <= off,
        off + mid.len() <= buf.len(),
    ensures
        (buf.subrange(0, off) + mid + buf.subrange(off + mid.len(), buf.len() as int)).subrange(
            off,
            off + mid.len(),
        ) == mid,
{
    assert((buf.subrange(0, off) + mid + buf.subrange(off + mid.len(), buf.len() as int)).subrange(
        off,
        off + mid.len(),
    ) =~= mid);
}

/// Splicing a cell back into a buffer: every range outside the spliced one
/// keeps its bytes.
proof fn lemma_splice_keeps_rest(buf: Seq<u8>, off: int, mid: Seq<u8>, a: int, b: int)
    requires
        0 <= off,
        off + mid.len() <= buf.len(),
        0 <= a <= b <= buf.len(),
        b <= off || a >= off + mid.len(),
    ensures
        (buf.subrange(0, off) + mid + buf.subrange(off + mid.len(), buf.len() as int)).subrange(
            a,
            b,
        ) == buf.subrange(a, b),
{
    assert((buf.subrange(0, off) + mid + buf.subrange(off + mid.len(), buf.len() as int)).subrange(
        a,
        b,
    ) =~= buf.subrange(a, b));
}

/// Round trip at the record surface: writing a value that fits a field's
/// bit width and reading the field back yields the value, whatever the
/// buffer held before.
pub proof fn lemma_record_round_trip(l: RecordLayout, buf: Seq<u8>, f: int, v: u64)
    requires
        l.wf(),
        0 <= f < l.spec_num_fields(),
        buf.len() >= l.total_size,
        v & low_mask(l.field_desc(f).bit_width) == v,
    ensures
        record_field_value(l, record_after_set(l, buf, f, v), f) == v,
{
    lemma_field_in_buffer(l, f);
    let d = l.field_desc(f);
    let off = l.field_offset(f);
    let cell = buf.subrange(off, off + d.width);
    assert(record_after_set(l, buf, f, v).subrange(off, off + d.width) =~= cell_after_set(
        cell,
        d,
        v,
    ));
    lemma_round_trip(cell, d, v);
}

/// Reset restores the declared default at the record surface: after a reset
/// the field reads as its descriptor's default, independent of the prior
/// state of its own or its sibling fields' bits.
pub proof fn lemma_record_reset_restores_default(l: RecordLayout, buf: Seq<u8>, f: int)
    requires
        l.wf(),
        0 <= f < l.spec_num_fields(),
        buf.len() >= l.total_size,
    ensures
        record_field_value(l, record_after_set(l, buf, f, l.field_desc(f).default_raw), f)
            == l.field_desc(f).default_raw,
{
    lemma_field_in_buffer(l, f);
    let d = l.field_desc(f);
    let off = l.field_offset(f);
    let cell = buf.subrange(off, off + d.width);
    assert(record_after_set(l, buf, f, d.default_raw).subrange(off, off + d.width)
        =~= cell_after_set(cell, d, d.default_raw));
    lemma_reset_restores_default(cell, d);
}

/// Non-interference at the record surface: writing one field leaves every
/// other field unchanged — fields of other groups because their bytes are
/// untouched, siblings in the same group because their masks are disjoint.
/// Siblings must share the written field's endianness mode: a sibling with
/// the opposite override reads the shared cell in the other byte order.
pub proof fn lemma_record_non_interference(
    l: RecordLayout,
    buf: Seq<u8>,
    f1: int,
    f2: int,
    v: u64,
)
    requires
        l.wf(),
        0 <= f1 < l.spec_num_fields(),
        0 <= f2 < l.spec_num_fields(),
        f1 != f2,
        buf.len() >= l.total_size,
        l.fields@[f1].group == l.fields@[f2].group ==> l.field_desc(f1).endianness == l.field_desc(
            f2,
        ).endianness,
    ensures
        record_field_value(l, record_after_set(l, buf, f1, v), f2) == record_field_value(l, buf, f2),
{
    lemma_field_in_buffer(l, f1);
    lemma_field_in_buffer(l, f2);
    let d1 = l.field_desc(f1);
    let d2 = l.field_desc(f2);
    let off1 = l.field_offset(f1);
    let off2 = l.field_offset(f2);
    let g1 = l.fields@[f1].group as int;
    let g2 = l.fields@[f2].group as int;
    let buf2 = record_after_set(l, buf, f1, v);
    let cell = buf.subrange(off1, off1 + d1.width);
    let c2 = cell_after_set(cell, d1, v);
    assert(c2.len() == d1.width);
    if g1 == g2 {
        lemma_splice_keeps_cell(buf, off1, c2);
        assert(buf2.subrange(off1, off1 + d1.width) == c2);
        let m1 = l.fields@[f1].member as int;
        let m2 = l.fields@[f2].member as int;
        assert(m1 != m2);
        lemma_group_masks_disjoint(l.groups@[g1], m1, m2);
        lemma_group_non_interference(cell, d1, d2, v);
    } else {
        // The two groups' byte ranges are disjoint, so field two's cell is
        // untouched.
        if g1 < g2 {
            lemma_prefix_width_mono(l.groups@, g1 + 1, g2);
            assert(prefix_width(l.groups@, g1 + 1) == prefix_width(l.groups@, g1)
                + l.groups@[g1].width);
        } else {
            lemma_prefix_width_mono(l.groups@, g2 + 1, g1);
            assert(prefix_width(l.groups@, g2 + 1) == prefix_width(l.groups@, g2)
                + l.groups@[g2].width);
        }
        lemma_splice_keeps_rest(buf, off1, c2, off2, off2 + d2.width);
        assert(buf2.subrange(off2, off2 + d2.width) == buf.subrange(off2, off2 + d2.width));
    }
}

/// Reads a group's storage cell out of the buffer.
fn read_cell(buf: &Vec<u8>, off: usize, w: usize) -> (r: RawField)
    requires
        1 <= w <= 8,
        off + w <= buf@.len(),
    ensures
        r.wf(),
        r@ == buf@.subrange(off as int, off + w),
{
    RawField::from_buffer(buf, off, w)
}

/// Writes a group's storage cell back into the buffer, leaving every byte
/// outside the cell untouched.
fn write_cell(buf: &mut Vec<u8>, off: usize, cell: &RawField)
    requires
        cell.wf(),
        off + cell@.len() <= old(buf)@.len(),
    ensures
        final(buf)@ == old(buf)@.subrange(0, off as int) + cell@ + old(buf)@.subrange(
            off + cell@.len(),
            old(buf)@.len() as int,
        ),
{
    let w = cell.byte_len();
    let n = buf.len();
    let mut j: usize = 0;
    while j < w
        invariant
            j <= w == cell@.len(),
            cell.wf(),
            off + w <= n == buf@.len(),
            buf@.len() == old(buf)@.len(),
            forall|i: int| 0 <= i < off ==> #[trigger] buf@[i] == old(buf)@[i],
            forall|i: int| off + j <= i < buf@.len() ==> #[trigger] buf@[i] == old(buf)@[i],
            forall|i: int| off <= i < off + j ==> #[trigger] buf@[i] == cell@[i - off],
        decreases w - j,
    {
        buf[off + j] = cell.byte_at(j);
        j = j + 1;
    }
    proof {
        assert(buf@ =~= old(buf)@.subrange(0, off as int) + cell@ + old(buf)@.subrange(
            off + cell@.len(),
            old(buf)@.len() as int,
        ));
    }
}

/// A record layout bound to caller-supplied buffers: the borrowed, non-owning
/// overlay through which every declared field is read and written in place.
pub struct RecordView {
    pub layout: RecordLayout,
}

impl RecordView {
    /// The bound layout is well formed.
    pub open spec fn wf(&self) -> bool {
        self.layout.wf()
    }

    /// Binds the layout to a buffer, without copying it: fails with
    /// `BufferTooShort` exactly when the buffer is smaller than the layout's
    /// total size.
    pub fn bind(layout: RecordLayout, buf: &Vec<u8>) -> (r: Result<RecordView, AccessError>)
        requires
            layout.wf(),
        ensures
            match r {
                Ok(v) => {
                    &&& buf@.len() >= layout.total_size
                    &&& v.layout == layout
                    &&& v.wf()
                },
                Err(e) => {
                    &&& e == AccessError::BufferTooShort
                    &&& buf@.len() < layout.total_size
                },
            },
    {
        if buf.len() < layout.total_size {
            Err(AccessError::BufferTooShort)
        } else {
            Ok(RecordView { layout })
        }
    }

    /// How many fields the record declares.
    pub fn num_fields(&self) -> (r: usize)
        ensures
            r == self.layout.spec_num_fields(),
    {
        self.layout.fields.len()
    }

    /// The record's total byte size: the sum of its groups' widths, with no
    /// padding.
    pub fn total_size(&self) -> (r: usize)
        ensures
            r == self.layout.total_size,
    {
        self.layout.total_size
    }

    /// Reads field `f` from the bound buffer: the field's group cell,
    /// normalized per its endianness, masked and shifted down.
    pub fn get(&self, buf: &Vec<u8>, f: usize) -> (r: u64)
        requires
            self.wf(),
            f < self.layout.spec_num_fields(),
            buf@.len() >= self.layout.total_size,
        ensures
            r == record_field_value(self.layout, buf@, f as int),
    {
        proof {
            lemma_field_in_buffer(self.layout, f as int);
        }
        let fr = self.layout.fields[f];
        let g = &self.layout.groups[fr.group];
        let d = g.members[fr.member];
        let cell = read_cell(buf, g.offset, g.width);
        let fld = Field { desc: d, cell };
        fld.get()
    }

    /// Writes field `f` of the bound buffer with raw value `v`: every bit
    /// outside the field's mask keeps its value, and the group cell is
    /// replaced as one whole-cell update.
    pub fn set(&self, buf: &mut Vec<u8>, f: usize, v: u64)
        requires
            self.wf(),
            f < self.layout.spec_num_fields(),
            old(buf)@.len() >= self.layout.total_size,
        ensures
            final(buf)@ == record_after_set(self.layout, old(buf)@, f as int, v),
            final(buf)@.len() == old(buf)@.len(),
    {
        proof {
            lemma_field_in_buffer(self.layout, f as int);
        }
        let fr = self.layout.fields[f];
        let g = &self.layout.groups[fr.group];
        let d = g.members[fr.member];
        let cell = read_cell(buf, g.offset, g.width);
        let mut fld = Field { desc: d, cell };
        fld.set(v);
        write_cell(buf, g.offset, &fld.cell);
        proof {
            assert(final(buf)@ =~= record_after_set(self.layout, old(buf)@, f as int, v));
        }
    }

    /// Writes field `f`'s declared default into the bound buffer, whatever
    /// the field held before.
    pub fn reset(&self, buf: &mut Vec<u8>, f: usize)
        requires
            self.wf(),
            f < self.layout.spec_num_fields(),
            old(buf)@.len() >= self.layout.total_size,
        ensures
            final(buf)@ == record_after_set(
                self.layout,
                old(buf)@,
                f as int,
                self.layout.field_desc(f as int).default_raw,
            ),
            final(buf)@.len() == old(buf)@.len(),
    {
        proof {
            lemma_field_in_buffer(self.layout, f as int);
        }
        let fr = self.layout.fields[f];
        let g = &self.layout.groups[fr.group];
        let d = g.members[fr.member];
        let dv = d.default_raw;
        self.set(buf, f, dv);
    }

    /// Copies exactly the record's bytes out of the bound buffer: fails with
    /// `LengthMismatch` exactly when the buffer's length is not the record's
    /// total size, rather than copying a wrong-sized array.
    pub fn materialize(&self, buf: &Vec<u8>) -> (r: Result<Vec<u8>, AccessError>)
        requires
            self.wf(),
        ensures
            match r {
                Ok(out) => {
                    &&& buf@.len() == self.layout.total_size
                    &&& out@ == buf@
                },
                Err(e) => {
                    &&& e == AccessError::LengthMismatch
                    &&& buf@.len() != self.layout.total_size
                },
            },
    {
        if buf.len() != self.layout.total_size {
            return Err(AccessError::LengthMismatch);
        }
        let n = buf.len();
        let mut out: Vec<u8> = Vec::new();
        let mut j: usize = 0;
        while j < n
            invariant
                j <= n == buf@.len(),
                out@.len() == j,
                forall|i: int| 0 <= i < j ==> out@[i] == buf@[i],
            decreases n - j,
        {
            out.push(buf[j]);
            j = j + 1;
        }
        proof {
            assert(out@ =~= buf@);
        }
        Ok(out)
    }
}

} // verus!

