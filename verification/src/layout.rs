//! The hybrid grouping algorithm: scanning an ordered list of field
//! declarations and merging consecutive sub-byte fields into byte-aligned
//! storage groups, computing each member's mask and shift within its group.

use vstd::prelude::*;

use crate::field::Endianness;
use crate::field::FieldSpec;
use crate::underlay::RawField;
use crate::underlay::be_val;
use crate::underlay::low_mask;

verus! {

/// One configuration record for a field: every knob optional.
///
/// `bits` is the field's explicit bit width; `default_value` the value a
/// reset writes; `endianness` the byte-order override; `from_into` says the
/// standard conversion between the logical and the storage type is to be
/// used; `has_from` and `has_into` say an explicit decode or encode was
/// supplied.
#[derive(Clone, Copy, Debug)]
pub struct BitfieldAttr {
    pub bits: Option<u64>,
    pub default_value: Option<u64>,
    pub endianness: Option<Endianness>,
    pub from_into: bool,
    pub has_from: bool,
    pub has_into: bool,
}

impl BitfieldAttr {
    /// The merge of two configuration records: each knob keeps its setting
    /// in `self` and falls back to `rhs` where `self` leaves it open.
    pub open spec fn spec_merge(self, rhs: BitfieldAttr) -> BitfieldAttr {
        BitfieldAttr {
            bits: if self.bits is Some {
                self.bits
            } else {
                rhs.bits
            },
            default_value: if self.default_value is Some {
                self.default_value
            } else {
                rhs.default_value
            },
            endianness: if self.endianness is Some {
                self.endianness
            } else {
                rhs.endianness
            },
            from_into: self.from_into || rhs.from_into,
            has_from: self.has_from || rhs.has_from,
            has_into: self.has_into || rhs.has_into,
        }
    }

    /// The record with every knob open.
    pub open spec fn spec_empty() -> BitfieldAttr {
        BitfieldAttr {
            bits: None,
            default_value: None,
            endianness: None,
            from_into: false,
            has_from: false,
            has_into: false,
        }
    }

    /// Builds the record with every knob open.
    pub fn empty() -> (r: BitfieldAttr)
        ensures
            r == BitfieldAttr::spec_empty(),
    {
        BitfieldAttr {
            bits: None,
            default_value: None,
            endianness: None,
            from_into: false,
            has_from: false,
            has_into: false,
        }
    }

    /// Merges a second configuration record under this one: explicit
    /// settings win, open knobs fall back to `rhs`.
    pub fn merge(&self, rhs: &BitfieldAttr) -> (r: BitfieldAttr)
        ensures
            r == self.spec_merge(*rhs),
    {
        BitfieldAttr {
            bits: if self.bits.is_some() {
                self.bits
            } else {
                rhs.bits
            },
            default_value: if self.default_value.is_some() {
                self.default_value
            } else {
                rhs.default_value
            },
            endianness: if self.endianness.is_some() {
                self.endianness
            } else {
                rhs.endianness
            },
            from_into: self.from_into || rhs.from_into,
            has_from: self.has_from || rhs.has_from,
            has_into: self.has_into || rhs.has_into,
        }
    }

    /// The left fold of a list of configuration records under the merge:
    /// the earliest explicit setting of each knob wins.
    pub open spec fn spec_merge_all(attrs: Seq<BitfieldAttr>) -> BitfieldAttr
        decreases attrs.len(),
    {
        if attrs.len() == 0 {
            BitfieldAttr::spec_empty()
        } else {
            BitfieldAttr::spec_merge_all(attrs.drop_last()).spec_merge(attrs.last())
        }
    }

    /// Folds a list of configuration records, earliest explicit setting of
    /// each knob winning, as repeated attributes on one field are folded.
    pub fn from_attributes(attrs: &Vec<BitfieldAttr>) -> (r: BitfieldAttr)
        ensures
            r == BitfieldAttr::spec_merge_all(attrs@),
    {
        let mut acc = BitfieldAttr::empty();
        let mut j: usize = 0;
        while j < attrs.len()
            invariant
                j <= attrs@.len(),
                acc == BitfieldAttr::spec_merge_all(attrs@.take(j as int)),
            decreases attrs@.len() - j,
        {
            proof {
                assert(attrs@.take(j + 1).drop_last() =~= attrs@.take(j as int));
                assert(attrs@.take(j + 1).last() == attrs@[j as int]);
            }
            acc = acc.merge(&attrs[j]);
            j = j + 1;
        }
        proof {
            assert(attrs@.take(attrs@.len() as int) =~= attrs@);
        }
        acc
    }
}

impl Default for BitfieldAttr {
    /// The record with every knob open.
    fn default() -> (r: Self)
        ensures
            r == BitfieldAttr::spec_empty(),
    {
        BitfieldAttr::empty()
    }
}

/// A field declaration: its configuration and the natural bit width of its
/// logical type, used where no explicit width is given.
#[derive(Clone, Copy, Debug)]
pub struct FieldDecl {
    pub attr: BitfieldAttr,
    pub target_bits: u64,
}

/// What can go wrong while a layout is built. All three are fatal: there is
/// no partial layout.
#[derive(Clone, Copy, Debug, PartialEq, Eq, Structural)]
pub enum LayoutError {
    /// The logical and the storage type differ and no conversion is
    /// available.
    MissingConversion,
    /// Trailing sub-byte fields never reach a byte-aligned total.
    IncompleteGroup,
    /// A group's width is not one to eight bytes.
    UnsupportedWidth,
}

/// The effective bit width of a declaration: its explicit width, else the
/// natural width of its logical type.
pub open spec fn eff_bits(d: FieldDecl) -> int {
    match d.attr.bits {
        Some(b) => b as int,
        None => d.target_bits as int,
    }
}

/// The bits of a run of declarations from position `i` on.
pub open spec fn bits_from(p: Seq<FieldDecl>, i: int) -> int
    decreases p.len() - i,
{
    if i < 0 || i >= p.len() {
        0
    } else {
        eff_bits(p[i]) + bits_from(p, i + 1)
    }
}

/// The bits of the first `k` declarations of a run.
pub open spec fn bits_through(p: Seq<FieldDecl>, k: int) -> int
    decreases k,
{
    if k <= 0 {
        0
    } else {
        bits_through(p, k - 1) + eff_bits(p[k - 1])
    }
}

/// A suffix of a run holds a nonnegative number of bits.
pub proof fn lemma_bits_from_nonneg(p: Seq<FieldDecl>, i: int)
    ensures
        bits_from(p, i) >= 0,
    decreases p.len() - i,
{
    if 0 <= i < p.len() {
        lemma_bits_from_nonneg(p, i + 1);
    }
}

/// A run's bits split into the bits through `k` and the bits from `k`.
pub proof fn lemma_bits_split(p: Seq<FieldDecl>, k: int)
    requires
        0 <= k <= p.len(),
    ensures
        bits_through(p, k) + bits_from(p, k) == bits_from(p, 0),
    decreases k,
{
    if k > 0 {
        lemma_bits_split(p, k - 1);
    }
}

/// Whether the declaration can be decoded and encoded in a group whose
/// storage unit is `width_bits` wide: an explicit conversion, the standard
/// one, or the identity where the logical type is the storage type.
pub open spec fn conversion_ok(d: FieldDecl, global: BitfieldAttr, width_bits: int) -> bool {
    let a = d.attr.spec_merge(global);
    &&& (a.has_from || a.from_into || d.target_bits == width_bits)
    &&& (a.has_into || a.from_into || d.target_bits == width_bits)
}

/// Whether every declaration of a run can be converted in a group of
/// `width_bits` bits.
pub open spec fn group_convertible(p: Seq<FieldDecl>, global: BitfieldAttr, width_bits: int) -> bool {
    forall|i: int| 0 <= i < p.len() ==> conversion_ok(#[trigger] p[i], global, width_bits)
}

/// The descriptor a declaration resolves to, apart from its mask: the mask
/// is pinned by the bit width and the shift.
pub struct MemberModel {
    pub bit_width: int,
    pub shift: int,
    pub default_raw: u64,
    pub endianness: Endianness,
}

/// One closed group: its storage width in bytes and its members in
/// declaration order.
pub struct GroupModel {
    pub width: int,
    pub members: Seq<MemberModel>,
}

/// The descriptor of declaration `d` at position `shift` within its group.
pub open spec fn spec_member(d: FieldDecl, global: BitfieldAttr, shift: int) -> MemberModel {
    let a = d.attr.spec_merge(global);
    MemberModel {
        bit_width: eff_bits(d),
        shift: shift,
        default_raw: (match a.default_value {
            Some(x) => x,
            None => 0u64,
        }) & low_mask(eff_bits(d) as u64),
        endianness: match a.endianness {
            Some(e) => e,
            None => Endianness::Lsb0,
        },
    }
}

/// The group a closed run of declarations forms: members are packed from
/// the group's most significant bit downward in declaration order, so each
/// member's shift is the bits of the members after it.
pub open spec fn spec_group(p: Seq<FieldDecl>, global: BitfieldAttr) -> GroupModel {
    GroupModel {
        width: bits_from(p, 0) / 8,
        members: Seq::new(p.len(), |i: int| spec_member(p[i], global, bits_from(p, i + 1))),
    }
}

/// The grouping scan from declaration `i` on, with the still-open run
/// `pending` before it. Each declaration joins the open run; the run closes
/// into a group the moment its bits reach a multiple of eight. A width
/// outside one to sixty-four bits, or a run grown past sixty-four bits, can
/// no longer land on a supported storage unit and is refused at once; a run
/// still open at the end never reached a byte-aligned total.
pub open spec fn spec_scan(
    decls: Seq<FieldDecl>,
    global: BitfieldAttr,
    i: int,
    pending: Seq<FieldDecl>,
) -> Result<Seq<GroupModel>, LayoutError>
    decreases decls.len() - i,
{
    if i < 0 || i >= decls.len() {
        if pending.len() == 0 {
            Ok(Seq::empty())
        } else {
            Err(LayoutError::IncompleteGroup)
        }
    } else {
        let d = decls[i];
        let b = eff_bits(d);
        if b < 1 || b > 64 {
            Err(LayoutError::UnsupportedWidth)
        } else {
            let p2 = pending.push(d);
            let t = bits_from(p2, 0);
            if t > 64 {
                Err(LayoutError::UnsupportedWidth)
            } else if t % 8 == 0 {
                if !group_convertible(p2, global, t) {
                    Err(LayoutError::MissingConversion)
                } else {
                    match spec_scan(decls, global, i + 1, Seq::empty()) {
                        Ok(rest) => Ok(seq![spec_group(p2, global)] + rest),
                        Err(e) => Err(e),
                    }
                }
            } else {
                spec_scan(decls, global, i + 1, p2)
            }
        }
    }
}

/// The grouping of a whole declaration list.
pub open spec fn spec_layout(decls: Seq<FieldDecl>, global: BitfieldAttr) -> Result<
    Seq<GroupModel>,
    LayoutError,
> {
    spec_scan(decls, global, 0, Seq::empty())
}

/// Appending a declaration to a run adds its bits to every suffix.
proof fn lemma_bits_from_push(p: Seq<FieldDecl>, d: FieldDecl, i: int)
    requires
        0 <= i <= p.len(),
    ensures
        bits_from(p.push(d), i) == bits_from(p, i) + eff_bits(d),
    decreases p.len() - i,
{
    assert(p.push(d).len() == p.len() + 1);
    if i < p.len() {
        assert(p.push(d)[i] == p[i]);
        lemma_bits_from_push(p, d, i + 1);
    } else {
        assert(p.push(d)[p.len() as int] == d);
        assert(bits_from(p.push(d), i + 1) == 0);
        assert(bits_from(p, i) == 0);
        assert(bits_from(p.push(d), i) == eff_bits(d) + bits_from(p.push(d), i + 1));
    }
}

/// The bits of a group's member descriptors, from position `i` on.
pub open spec fn suffix_bits(members: Seq<FieldSpec>, i: int) -> int
    decreases members.len() - i,
{
    if i < 0 || i >= members.len() {
        0
    } else {
        members[i].bit_width + suffix_bits(members, i + 1)
    }
}

/// Member descriptors carrying the declarations' effective bit widths have
/// the same suffix sums.
proof fn lemma_suffix_eq(members: Seq<FieldSpec>, p: Seq<FieldDecl>, i: int)
    requires
        members.len() == p.len(),
        forall|k: int| 0 <= k < p.len() ==> (#[trigger] members[k]).bit_width == eff_bits(p[k]),
        0 <= i <= p.len(),
    ensures
        suffix_bits(members, i) == bits_from(p, i),
    decreases p.len() - i,
{
    if i < p.len() {
        lemma_suffix_eq(members, p, i + 1);
    }
}

/// One byte-aligned storage group: its byte offset within the record, its
/// storage width in bytes, and its member descriptors in declaration order.
pub struct FieldGroup {
    pub offset: usize,
    pub width: usize,
    pub members: Vec<FieldSpec>,
}

impl FieldGroup {
    /// The group invariant: a supported width, at least one member, member
    /// bit widths summing to exactly the storage width with no unused bits,
    /// and members packed from the most significant bit downward, so each
    /// member's shift is the bits of the members after it.
    pub open spec fn wf(&self) -> bool {
        &&& 1 <= self.width <= 8
        &&& self.members@.len() >= 1
        &&& suffix_bits(self.members@, 0) == 8 * self.width
        &&& forall|i: int|
            0 <= i < self.members@.len() ==> {
                let m = (#[trigger] self.members@[i]);
                &&& m.wf()
                &&& m.width == self.width
                &&& m.shift == suffix_bits(self.members@, i + 1)
            }
    }
}

/// Suffix sums of member bits shrink as the start moves right.
proof fn lemma_suffix_mono(members: Seq<FieldSpec>, i: int, j: int)
    requires
        0 <= i <= j <= members.len(),
    ensures
        suffix_bits(members, i) >= suffix_bits(members, j),
    decreases j - i,
{
    if i < j {
        lemma_suffix_mono(members, i + 1, j);
    }
}

/// Two distinct members of a well-formed group occupy disjoint bits of the
/// group's storage cell.
pub proof fn lemma_group_masks_disjoint(g: FieldGroup, i: int, j: int)
    requires
        g.wf(),
        0 <= i < g.members@.len(),
        0 <= j < g.members@.len(),
        i != j,
    ensures
        be_val(g.members@[i].mask@) & be_val(g.members@[j].mask@) == 0,
{
    let (lo, hi) = if i < j {
        (j, i)
    } else {
        (i, j)
    };
    // `lo` sits at the less significant end: its bits end below `hi`'s shift.
    let mlo = g.members@[lo];
    let mhi = g.members@[hi];
    lemma_suffix_mono(g.members@, hi + 1, lo);
    assert(suffix_bits(g.members@, lo) == mlo.bit_width + suffix_bits(g.members@, lo + 1));
    let b1 = mlo.bit_width;
    let s1 = mlo.shift;
    let b2 = mhi.bit_width;
    let s2 = mhi.shift;
    assert((low_mask(b1) << s1) & (low_mask(b2) << s2) == 0 && (low_mask(b2) << s2) & (low_mask(b1)
        << s1) == 0) by (bit_vector)
        requires
            1 <= b1 <= 64,
            1 <= b2 <= 64,
            s1 + b1 <= s2,
            s2 + b2 <= 64,
    ;
}

/// Where a field lives: which group, and which member of it.
#[derive(Clone, Copy, Debug)]
pub struct FieldRef {
    pub group: usize,
    pub member: usize,
}

/// An ordered sequence of storage groups overlaying a byte buffer with no
/// padding, with a flat index from declaration order to group members.
pub struct RecordLayout {
    pub groups: Vec<FieldGroup>,
    pub fields: Vec<FieldRef>,
    pub total_size: usize,
}

/// The bytes of the groups before group `g`: group `g`'s byte offset.
pub open spec fn prefix_width(groups: Seq<FieldGroup>, g: int) -> int
    decreases g,
{
    if g <= 0 {
        0
    } else {
        prefix_width(groups, g - 1) + groups[g - 1].width
    }
}

/// The members of the groups before group `g`: the flat index of group
/// `g`'s first member.
pub open spec fn members_before(groups: Seq<FieldGroup>, g: int) -> int
    decreases g,
{
    if g <= 0 {
        0
    } else {
        members_before(groups, g - 1) + groups[g - 1].members@.len()
    }
}

/// Appending a group changes no earlier prefix width.
proof fn lemma_prefix_width_push(groups: Seq<FieldGroup>, g: FieldGroup, k: int)
    requires
        0 <= k <= groups.len(),
    ensures
        prefix_width(groups.push(g), k) == prefix_width(groups, k),
    decreases k,
{
    if k > 0 {
        lemma_prefix_width_push(groups, g, k - 1);
    }
}

/// Appending a group changes no earlier member count.
proof fn lemma_members_before_push(groups: Seq<FieldGroup>, g: FieldGroup, k: int)
    requires
        0 <= k <= groups.len(),
    ensures
        members_before(groups.push(g), k) == members_before(groups, k),
    decreases k,
{
    if k > 0 {
        lemma_members_before_push(groups, g, k - 1);
    }
}

/// Prefix widths grow with the group index.
pub proof fn lemma_prefix_width_mono(groups: Seq<FieldGroup>, g1: int, g2: int)
    requires
        0 <= g1 <= g2 <= groups.len(),
    ensures
        prefix_width(groups, g1) <= prefix_width(groups, g2),
    decreases g2 - g1,
{
    if g1 < g2 {
        lemma_prefix_width_mono(groups, g1, g2 - 1);
    }
}

impl RecordLayout {
    /// The layout invariant: every group well formed, group offsets the
    /// running sums of the widths before them with no padding, the total
    /// size the sum of all widths, and the flat field index enumerating the
    /// groups' members in order.
    pub open spec fn wf(&self) -> bool {
        &&& forall|g: int| 0 <= g < self.groups@.len() ==> (#[trigger] self.groups@[g]).wf()
        &&& forall|g: int|
            0 <= g < self.groups@.len() ==> (#[trigger] self.groups@[g]).offset == prefix_width(
                self.groups@,
                g,
            )
        &&& self.total_size == prefix_width(self.groups@, self.groups@.len() as int)
        &&& self.fields@.len() == members_before(self.groups@, self.groups@.len() as int)
        &&& forall|f: int|
            0 <= f < self.fields@.len() ==> {
                let fr = (#[trigger] self.fields@[f]);
                &&& fr.group < self.groups@.len()
                &&& fr.member < self.groups@[fr.group as int].members@.len()
                &&& members_before(self.groups@, fr.group as int) + fr.member == f
            }
    }

    /// The descriptor of the field with flat index `f`.
    pub open spec fn field_desc(&self, f: int) -> FieldSpec {
        let fr = self.fields@[f];
        self.groups@[fr.group as int].members@[fr.member as int]
    }

    /// The byte offset of the group holding the field with flat index `f`.
    pub open spec fn field_offset(&self, f: int) -> int {
        self.groups@[self.fields@[f].group as int].offset as int
    }

    /// How many fields the layout declares.
    pub open spec fn spec_num_fields(&self) -> int {
        self.fields@.len() as int
    }
}

/// The model of a member descriptor: everything but the mask, which the bit
/// width and the shift pin.
pub open spec fn member_model_of(m: FieldSpec) -> MemberModel {
    MemberModel {
        bit_width: m.bit_width as int,
        shift: m.shift as int,
        default_raw: m.default_raw,
        endianness: m.endianness,
    }
}

/// The model of a built group.
pub open spec fn group_model_of(g: FieldGroup) -> GroupModel {
    GroupModel {
        width: g.width as int,
        members: Seq::new(g.members@.len(), |i: int| member_model_of(g.members@[i])),
    }
}

/// The models of a run of built groups.
pub open spec fn models_of(groups: Seq<FieldGroup>) -> Seq<GroupModel> {
    Seq::new(groups.len(), |g: int| group_model_of(groups[g]))
}

/// A member descriptor resolves its declaration: the declared effective bit
/// width, the resolved default truncated to it, the resolved endianness.
pub open spec fn field_resolves_decl(m: FieldSpec, d: FieldDecl, global: BitfieldAttr) -> bool {
    let a = d.attr.spec_merge(global);
    &&& m.bit_width == eff_bits(d)
    &&& m.default_raw == (match a.default_value {
        Some(x) => x,
        None => 0u64,
    }) & low_mask(eff_bits(d) as u64)
    &&& m.endianness == (match a.endianness {
        Some(e) => e,
        None => Endianness::Lsb0,
    })
}

/// The effective bit width of a declaration: its explicit width, else the
/// natural width of its logical type.
fn eff_of(d: &FieldDecl) -> (r: u64)
    ensures
        r as int == eff_bits(*d),
{
    match d.attr.bits {
        Some(b) => b,
        None => d.target_bits,
    }
}

/// The mask with the low `n` bits set.
fn low_mask_of(n: u64) -> (r: u64)
    requires
        n <= 64,
    ensures
        r == low_mask(n),
{
    if n >= 64 {
        0xffff_ffff_ffff_ffffu64
    } else {
        proof {
            assert(1u64 << n >= 1) by (bit_vector)
                requires
                    n < 64,
            ;
        }
        (1u64 << n) - 1
    }
}

/// Whether the declaration can be decoded and encoded in a group whose
/// storage unit is `width_bits` bits wide.
fn check_conversion(d: &FieldDecl, global: &BitfieldAttr, width_bits: u64) -> (r: bool)
    ensures
        r == conversion_ok(*d, *global, width_bits as int),
{
    let a = d.attr.merge(global);
    (a.has_from || a.from_into || d.target_bits == width_bits) && (a.has_into || a.from_into
        || d.target_bits == width_bits)
}

/// Closes a pending run of declarations into one storage group at byte
/// offset `offset`: checks every member's conversion, then assigns each its
/// mask and shift, packing from the group's most significant bit downward in
/// declaration order.
fn close_group(pending: &Vec<FieldDecl>, global: &BitfieldAttr, t: u64, offset: usize) -> (r:
    Result<FieldGroup, LayoutError>)
    requires
        pending@.len() >= 1,
        t as int == bits_from(pending@, 0),
        8 <= t <= 64,
        t as int % 8 == 0,
        forall|k: int| 0 <= k < pending@.len() ==> 1 <= eff_bits(#[trigger] pending@[k]) <= 64,
    ensures
        match r {
            Ok(g) => {
                &&& group_convertible(pending@, *global, t as int)
                &&& g.wf()
                &&& g.offset == offset
                &&& g.width == t / 8
                &&& g.members@.len() == pending@.len()
                &&& group_model_of(g) == spec_group(pending@, *global)
                &&& forall|j: int|
                    0 <= j < pending@.len() ==> field_resolves_decl(
                        (#[trigger] g.members@[j]),
                        pending@[j],
                        *global,
                    )
            },
            Err(e) => {
                &&& e == LayoutError::MissingConversion
                &&& !group_convertible(pending@, *global, t as int)
            },
        },
{
    let ghost p2 = pending@;
    let plen = pending.len();
    let mut k: usize = 0;
    while k < plen
        invariant
            k <= plen == p2.len(),
            pending@ == p2,
            t as int == bits_from(p2, 0),
            forall|j: int| 0 <= j < k ==> conversion_ok(#[trigger] p2[j], *global, t as int),
        decreases plen - k,
    {
        if !check_conversion(&pending[k], global, t) {
            proof {
                assert(!group_convertible(p2, *global, t as int));
            }
            return Err(LayoutError::MissingConversion);
        }
        k = k + 1;
    }
    assert(group_convertible(p2, *global, t as int));
    let w = (t / 8) as usize;
    let mut members: Vec<FieldSpec> = Vec::new();
    let mut prefix: u64 = 0;
    let mut k2: usize = 0;
    while k2 < plen
        invariant
            k2 <= plen == p2.len(),
            pending@ == p2,
            1 <= plen,
            t as int == bits_from(p2, 0),
            8 <= t <= 64,
            t as int % 8 == 0,
            w == t / 8,
            1 <= w <= 8,
            forall|j: int| 0 <= j < p2.len() ==> 1 <= eff_bits(#[trigger] p2[j]) <= 64,
            prefix as int == bits_through(p2, k2 as int),
            prefix <= t,
            members@.len() == k2,
            forall|j: int|
                0 <= j < k2 ==> {
                    let m = (#[trigger] members@[j]);
                    &&& m.wf()
                    &&& m.width == w
                    &&& m.bit_width as int == eff_bits(p2[j])
                    &&& m.shift as int == bits_from(p2, j + 1)
                    &&& member_model_of(m) == spec_member(p2[j], *global, bits_from(p2, j + 1))
                    &&& field_resolves_decl(m, p2[j], *global)
                },
        decreases plen - k2,
    {
        let pd = pending[k2];
        let bi = eff_of(&pd);
        proof {
            lemma_bits_split(p2, k2 as int);
            lemma_bits_split(p2, k2 + 1);
            lemma_bits_from_nonneg(p2, k2 + 1);
            assert(bits_through(p2, k2 + 1) == bits_through(p2, k2 as int) + eff_bits(
                p2[k2 as int],
            ));
            assert(bits_from(p2, k2 as int) == eff_bits(p2[k2 as int]) + bits_from(p2, k2 + 1));
        }
        let shift = t - prefix - bi;
        let lmv = low_mask_of(bi);
        let mask_val = lmv << shift;
        let mask = RawField::from_value(mask_val, w);
        let a = pd.attr.merge(global);
        let dv = match a.default_value {
            Some(x) => x,
            None => 0,
        };
        let draw = dv & lmv;
        let e = match a.endianness {
            Some(x) => x,
            None => Endianness::Lsb0,
        };
        let fs = FieldSpec { width: w, bit_width: bi, shift, mask, default_raw: draw, endianness: e };
        proof {
            let ww = w as u64;
            assert((low_mask(bi) << shift) & low_mask((8 * ww) as u64) == (low_mask(bi) << shift))
                by (bit_vector)
                requires
                    1 <= bi <= 64,
                    shift + bi <= 8 * ww,
                    1 <= ww <= 8,
            ;
            assert((dv & low_mask(bi)) & low_mask(bi) == (dv & low_mask(bi))) by (bit_vector);
            assert(fs.wf());
        }
        members.push(fs);
        prefix = prefix + bi;
        k2 = k2 + 1;
    }
    let g_new = FieldGroup { offset, width: w, members };
    proof {
        lemma_suffix_eq(g_new.members@, p2, 0);
        assert forall|j: int| 0 <= j < g_new.members@.len() implies {
            let m = (#[trigger] g_new.members@[j]);
            &&& m.wf()
            &&& m.width == g_new.width
            &&& m.shift == suffix_bits(g_new.members@, j + 1)
        } by {
            lemma_suffix_eq(g_new.members@, p2, j + 1);
        }
        assert(g_new.wf());
        assert(group_model_of(g_new).members =~= spec_group(p2, *global).members);
        assert(group_model_of(g_new) == spec_group(p2, *global));
    }
    Ok(g_new)
}

/// Appends a freshly closed group to the layout under construction and
/// extends the flat field index by the group's members.
fn append_group(
    groups: &mut Vec<FieldGroup>,
    fields: &mut Vec<FieldRef>,
    g_new: FieldGroup,
    Ghost(dseq): Ghost<Seq<FieldDecl>>,
    Ghost(gattr): Ghost<BitfieldAttr>,
    Ghost(p2): Ghost<Seq<FieldDecl>>,
)
    requires
        g_new.wf(),
        g_new.members@.len() == p2.len(),
        p2.len() >= 1,
        g_new.offset == prefix_width(old(groups)@, old(groups)@.len() as int),
        forall|g: int| 0 <= g < old(groups)@.len() ==> (#[trigger] old(groups)@[g]).wf(),
        forall|g: int|
            0 <= g < old(groups)@.len() ==> (#[trigger] old(groups)@[g]).offset == prefix_width(
                old(groups)@,
                g,
            ),
        old(fields)@.len() == members_before(old(groups)@, old(groups)@.len() as int),
        forall|f: int|
            0 <= f < old(fields)@.len() ==> {
                let fr = (#[trigger] old(fields)@[f]);
                &&& fr.group < old(groups)@.len()
                &&& fr.member < old(groups)@[fr.group as int].members@.len()
                &&& members_before(old(groups)@, fr.group as int) + fr.member == f
            },
        old(fields)@.len() + p2.len() <= dseq.len(),
        forall|f: int|
            0 <= f < old(fields)@.len() ==> field_resolves_decl(
                {
                    let fr = (#[trigger] old(fields)@[f]);
                    old(groups)@[fr.group as int].members@[fr.member as int]
                },
                dseq[f],
                gattr,
            ),
        forall|j: int| 0 <= j < p2.len() ==> p2[j] == dseq[old(fields)@.len() + j],
        forall|j: int|
            0 <= j < p2.len() ==> field_resolves_decl(
                (#[trigger] g_new.members@[j]),
                p2[j],
                gattr,
            ),
    ensures
        final(groups)@ == old(groups)@.push(g_new),
        final(fields)@.len() == old(fields)@.len() + p2.len(),
        forall|g: int| 0 <= g < final(groups)@.len() ==> (#[trigger] final(groups)@[g]).wf(),
        forall|g: int|
            0 <= g < final(groups)@.len() ==> (#[trigger] final(groups)@[g]).offset == prefix_width(
                final(groups)@,
                g,
            ),
        prefix_width(final(groups)@, final(groups)@.len() as int) == prefix_width(
            old(groups)@,
            old(groups)@.len() as int,
        ) + g_new.width,
        final(fields)@.len() == members_before(final(groups)@, final(groups)@.len() as int),
        forall|f: int|
            0 <= f < final(fields)@.len() ==> {
                let fr = (#[trigger] final(fields)@[f]);
                &&& fr.group < final(groups)@.len()
                &&& fr.member < final(groups)@[fr.group as int].members@.len()
                &&& members_before(final(groups)@, fr.group as int) + fr.member == f
            },
        forall|f: int|
            0 <= f < final(fields)@.len() ==> field_resolves_decl(
                {
                    let fr = (#[trigger] final(fields)@[f]);
                    final(groups)@[fr.group as int].members@[fr.member as int]
                },
                dseq[f],
                gattr,
            ),
{
    let plen = g_new.members.len();
    let gidx = groups.len();
    let ghost old_groups = groups@;
    let ghost old_fields = fields@;
    groups.push(g_new);
    proof {
        assert forall|g: int| 0 <= g < old_groups.len() implies prefix_width(groups@, g)
            == prefix_width(old_groups, g) && members_before(groups@, g) == members_before(
            old_groups,
            g,
        ) by {
            lemma_prefix_width_push(old_groups, g_new, g);
            lemma_members_before_push(old_groups, g_new, g);
        }
        lemma_prefix_width_push(old_groups, g_new, old_groups.len() as int);
        lemma_members_before_push(old_groups, g_new, old_groups.len() as int);
    }
    let mut k3: usize = 0;
    while k3 < plen
        invariant
            k3 <= plen,
            gidx + 1 == groups@.len(),
            groups@[gidx as int].members@.len() == plen,
            fields@.len() == old_fields.len() + k3,
            forall|f: int| 0 <= f < old_fields.len() ==> fields@[f] == old_fields[f],
            forall|j: int|
                0 <= j < k3 ==> (#[trigger] fields@[old_fields.len() + j]) == (FieldRef {
                    group: gidx,
                    member: j as usize,
                }),
        decreases plen - k3,
    {
        fields.push(FieldRef { group: gidx, member: k3 });
        k3 = k3 + 1;
    }
    proof {
        assert forall|f: int| 0 <= f < fields@.len() implies {
            let fr = (#[trigger] fields@[f]);
            &&& fr.group < groups@.len()
            &&& fr.member < groups@[fr.group as int].members@.len()
            &&& members_before(groups@, fr.group as int) + fr.member == f
        } by {
            let fr = fields@[f];
            if f < old_fields.len() {
                assert(fields@[f] == old_fields[f]);
                assert(old_groups.push(g_new)[fr.group as int] == old_groups[fr.group as int]);
            } else {
                let j = f - old_fields.len();
                assert(fields@[old_fields.len() + j] == (FieldRef {
                    group: gidx,
                    member: j as usize,
                }));
                assert(old_groups.push(g_new)[gidx as int] == g_new);
            }
        }
        assert forall|f: int| 0 <= f < fields@.len() implies field_resolves_decl(
            {
                let fr = (#[trigger] fields@[f]);
                groups@[fr.group as int].members@[fr.member as int]
            },
            dseq[f],
            gattr,
        ) by {
            let fr = fields@[f];
            if f >= old_fields.len() {
                let j = f - old_fields.len();
                assert(fields@[old_fields.len() + j] == (FieldRef {
                    group: gidx,
                    member: j as usize,
                }));
                assert(old_groups.push(g_new)[gidx as int] == g_new);
            } else {
                assert(old_fields[f] == fields@[f]);
                assert(old_groups.push(g_new)[fr.group as int] == old_groups[fr.group as int]);
            }
        }
    }
}

/// One closing step of the scan, seen from the whole layout's mirror: the
/// group just built joins the models of the groups built before it.
proof fn lemma_scan_close_step(
    decls: Seq<FieldDecl>,
    gattr: BitfieldAttr,
    i: int,
    old_pending: Seq<FieldDecl>,
    old_groups: Seq<FieldGroup>,
    new_groups: Seq<FieldGroup>,
    g_new: FieldGroup,
)
    requires
        0 <= i < decls.len(),
        1 <= eff_bits(decls[i]) <= 64,
        new_groups == old_groups.push(g_new),
        ({
            let p2 = old_pending.push(decls[i]);
            &&& bits_from(p2, 0) <= 64
            &&& bits_from(p2, 0) % 8 == 0
            &&& group_convertible(p2, gattr, bits_from(p2, 0))
            &&& group_model_of(g_new) == spec_group(p2, gattr)
        }),
        spec_layout(decls, gattr) == (match spec_scan(decls, gattr, i, old_pending) {
            Ok(rest) => Ok::<Seq<GroupModel>, LayoutError>(models_of(old_groups) + rest),
            Err(e) => Err::<Seq<GroupModel>, LayoutError>(e),
        }),
    ensures
        spec_layout(decls, gattr) == (match spec_scan(decls, gattr, i + 1, Seq::empty()) {
            Ok(rest) => Ok::<Seq<GroupModel>, LayoutError>(models_of(new_groups) + rest),
            Err(e) => Err::<Seq<GroupModel>, LayoutError>(e),
        }),
{
    let p2 = old_pending.push(decls[i]);
    assert(spec_scan(decls, gattr, i, old_pending) == (match spec_scan(
        decls,
        gattr,
        i + 1,
        Seq::empty(),
    ) {
        Ok(rest) => Ok::<Seq<GroupModel>, LayoutError>(seq![spec_group(p2, gattr)] + rest),
        Err(e) => Err::<Seq<GroupModel>, LayoutError>(e),
    }));
    assert(models_of(new_groups) =~= models_of(old_groups) + seq![group_model_of(g_new)]);
    match spec_scan(decls, gattr, i + 1, Seq::empty()) {
        Ok(rest) => {
            assert((models_of(old_groups) + (seq![spec_group(p2, gattr)] + rest)) =~= (models_of(
                new_groups,
            ) + rest));
        },
        Err(e) => {},
    }
}

/// Builds the record layout for an ordered list of field declarations under
/// a record-level configuration: the hybrid grouping scan.
///
/// Declarations are scanned in order; each joins the open run, and the run
/// closes into a byte-aligned group the moment its bits reach a multiple of
/// eight, fixing its members' masks and shifts. The result is exactly what
/// [`spec_layout`] gives: the groups on success, the first construction
/// error otherwise.
#[verifier::rlimit(100)]
pub fn build_layout(decls: &Vec<FieldDecl>, global: &BitfieldAttr) -> (r: Result<
    RecordLayout,
    LayoutError,
>)
    requires
        8 * decls@.len() <= usize::MAX,
    ensures
        match r {
            Ok(l) => {
                &&& spec_layout(decls@, *global) == Ok::<Seq<GroupModel>, LayoutError>(
                    models_of(l.groups@),
                )
                &&& l.wf()
                &&& l.fields@.len() == decls@.len()
                &&& forall|f: int|
                    0 <= f < decls@.len() ==> field_resolves_decl(
                        l.field_desc(f),
                        decls@[f],
                        *global,
                    )
            },
            Err(e) => spec_layout(decls@, *global) == Err::<Seq<GroupModel>, LayoutError>(e),
        },
{
    let n = decls.len();
    let mut groups: Vec<FieldGroup> = Vec::new();
    let mut fields: Vec<FieldRef> = Vec::new();
    let mut offset: usize = 0;
    let mut pending: Vec<FieldDecl> = Vec::new();
    let mut pending_total: u64 = 0;
    let mut i: usize = 0;
    while i < n
        invariant
            i <= n == decls@.len(),
            8 * n <= usize::MAX,
            pending@.len() <= i,
            pending@ == decls@.subrange(i - pending@.len(), i as int),
            pending_total as int == bits_from(pending@, 0),
            pending_total <= 63,
            pending@.len() == 0 ==> pending_total == 0,
            pending@.len() > 0 ==> pending_total as int % 8 != 0,
            forall|k: int| 0 <= k < pending@.len() ==> 1 <= eff_bits(#[trigger] pending@[k]) <= 64,
            spec_layout(decls@, *global) == (match spec_scan(
                decls@,
                *global,
                i as int,
                pending@,
            ) {
                Ok(rest) => Ok::<Seq<GroupModel>, LayoutError>(models_of(groups@) + rest),
                Err(e) => Err::<Seq<GroupModel>, LayoutError>(e),
            }),
            forall|g: int| 0 <= g < groups@.len() ==> (#[trigger] groups@[g]).wf(),
            forall|g: int|
                0 <= g < groups@.len() ==> (#[trigger] groups@[g]).offset == prefix_width(
                    groups@,
                    g,
                ),
            offset as int == prefix_width(groups@, groups@.len() as int),
            offset as int <= 8 * (i - pending@.len()),
            fields@.len() == i - pending@.len(),
            fields@.len() == members_before(groups@, groups@.len() as int),
            forall|f: int|
                0 <= f < fields@.len() ==> {
                    let fr = (#[trigger] fields@[f]);
                    &&& fr.group < groups@.len()
                    &&& fr.member < groups@[fr.group as int].members@.len()
                    &&& members_before(groups@, fr.group as int) + fr.member == f
                },
            forall|f: int|
                0 <= f < fields@.len() ==> field_resolves_decl(
                    {
                        let fr = (#[trigger] fields@[f]);
                        groups@[fr.group as int].members@[fr.member as int]
                    },
                    decls@[f],
                    *global,
                ),
        decreases n - i,
    {
        let d = decls[i];
        let b = eff_of(&d);
        if b < 1 || b > 64 {
            return Err(LayoutError::UnsupportedWidth);
        }
        let ghost old_pending = pending@;
        proof {
            lemma_bits_from_push(old_pending, d, 0);
        }
        pending.push(d);
        pending_total = pending_total + b;
        let ghost p2 = pending@;
        let t = pending_total;
        proof {
            assert(p2 =~= decls@.subrange(i + 1 - p2.len(), i + 1));
        }
        if t > 64 {
            return Err(LayoutError::UnsupportedWidth);
        }
        if t % 8 == 0 {
            let g_new = match close_group(&pending, global, t, offset) {
                Ok(g) => g,
                Err(e) => {
                    proof {
                        assert(spec_scan(decls@, *global, i as int, old_pending) == Err::<
                            Seq<GroupModel>,
                            LayoutError,
                        >(LayoutError::MissingConversion));
                    }
                    return Err(e);
                },
            };
            let g_new_width = g_new.width;
            let ghost g_model = g_new;
            let ghost old_groups = groups@;
            proof {
                assert forall|j: int| 0 <= j < p2.len() implies p2[j] == decls@[fields@.len()
                    + j] by {
                    assert(p2[j] == decls@.subrange(i + 1 - p2.len(), i + 1)[j]);
                }
            }
            append_group(
                &mut groups,
                &mut fields,
                g_new,
                Ghost(decls@),
                Ghost(*global),
                Ghost(p2),
            );
            offset = offset + g_new_width;
            pending = Vec::new();
            pending_total = 0;
            proof {
                lemma_scan_close_step(
                    decls@,
                    *global,
                    i as int,
                    old_pending,
                    old_groups,
                    groups@,
                    g_model,
                );
                assert(pending@ =~= decls@.subrange(i + 1 - pending@.len(), i + 1));
            }
        } else {
            proof {
                assert(spec_scan(decls@, *global, i as int, old_pending) == spec_scan(
                    decls@,
                    *global,
                    i + 1,
                    p2,
                ));
            }
        }
        i = i + 1;
    }
    if pending.len() > 0 {
        proof {
            assert(spec_scan(decls@, *global, n as int, pending@) == Err::<
                Seq<GroupModel>,
                LayoutError,
            >(LayoutError::IncompleteGroup));
        }
        return Err(LayoutError::IncompleteGroup);
    }
    let l = RecordLayout { groups, fields, total_size: offset };
    proof {
        assert(spec_scan(decls@, *global, n as int, pending@) == Ok::<
            Seq<GroupModel>,
            LayoutError,
        >(Seq::<GroupModel>::empty()));
        assert(models_of(l.groups@) + Seq::<GroupModel>::empty() =~= models_of(l.groups@));
        assert(l.wf());
    }
    Ok(l)
}

} // verus!
