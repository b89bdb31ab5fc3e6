//! The layout of an instance: where each field of a component stands in the
//! block of memory that an instance occupies.
//!
//! Fields are laid out in the order in which they are declared. Each field
//! gets the first offset after the field before it that its alignment
//! allows. The block is as aligned as its most aligned field, and its size is
//! a multiple of that alignment.

use vstd::prelude::*;
use vstd::arithmetic::div_mod::{lemma_fundamental_div_mod, lemma_mod_multiples_basic};
use crate::typeregister::{ItemKind, Type};

verus! {

/// What a field is.
#[derive(Clone, Copy, Debug, PartialEq, Eq, Structural)]
pub enum FieldKind {
    /// The record of a built-in item.
    Item(ItemKind),
    /// The cell of a declared property.
    Property(Type),
    /// The handler slot of a declared signal.
    Signal,
    /// The list of the instances that a repeater has made.
    Repeater,
}

/// The size of the record that holds a value of the given type.
pub open spec fn value_size(ty: Type) -> nat {
    match ty {
        Type::Invalid => 0,
        Type::Component(_) => 8,
        Type::Builtin(_) => 8,
        Type::Signal => 16,
        Type::Float32 => 4,
        Type::Int32 => 4,
        Type::String => 8,
        Type::Color => 4,
        Type::Image => 16,
        Type::Bool => 1,
    }
}

/// The number of bytes that the fixed record of a built-in item takes: its
/// property cells and signal slots, each at a multiple of eight, and eight
/// bytes that the renderer may use.
pub open spec fn item_size(kind: ItemKind) -> nat {
    match kind {
        ItemKind::Rectangle => 88,
        ItemKind::BorderRectangle => 136,
        ItemKind::Image => 96,
        ItemKind::Text => 168,
        ItemKind::TouchArea => 168,
        ItemKind::Path => 120,
        ItemKind::Flickable => 136,
        ItemKind::Window => 72,
        ItemKind::RowLayout => 88,
        ItemKind::ColumnLayout => 88,
    }
}

/// The number of bytes that a field of the given kind takes. A property cell
/// is a handle of eight bytes followed by the value.
pub open spec fn field_size(kind: FieldKind) -> nat {
    match kind {
        FieldKind::Item(item) => item_size(item),
        FieldKind::Property(ty) => 8 + value_size(ty),
        FieldKind::Signal => 16,
        FieldKind::Repeater => 24,
    }
}

/// The alignment that a field of the given kind asks for.
pub open spec fn field_align(kind: FieldKind) -> nat {
    match kind {
        FieldKind::Item(_) => 8,
        FieldKind::Property(ty) => 8,
        FieldKind::Signal => 8,
        FieldKind::Repeater => 8,
    }
}

/// The size of a field of the given kind.
pub fn size_of_field(kind: FieldKind) -> (size: usize)
    ensures
        size == field_size(kind),
        0 < size <= 168,
{
    match kind {
        FieldKind::Item(item) => match item {
            ItemKind::Rectangle => 88,
            ItemKind::BorderRectangle => 136,
            ItemKind::Image => 96,
            ItemKind::Text => 168,
            ItemKind::TouchArea => 168,
            ItemKind::Path => 120,
            ItemKind::Flickable => 136,
            ItemKind::Window => 72,
            ItemKind::RowLayout => 88,
            ItemKind::ColumnLayout => 88,
        },
        FieldKind::Property(ty) => match ty {
            Type::Invalid => 8,
            Type::Component(_) => 16,
            Type::Builtin(_) => 16,
            Type::Signal => 24,
            Type::Float32 => 12,
            Type::Int32 => 12,
            Type::String => 16,
            Type::Color => 12,
            Type::Image => 24,
            Type::Bool => 9,
        },
        FieldKind::Signal => 16,
        FieldKind::Repeater => 24,
    }
}

/// The alignment of a field of the given kind.
pub fn align_of_field(kind: FieldKind) -> (align: usize)
    ensures
        align == field_align(kind),
        align == 8,
{
    8
}

/// The first multiple of `align` that is not below `offset`.
pub open spec fn align_up(offset: int, align: int) -> int {
    if offset % align == 0 {
        offset
    } else {
        offset + align - offset % align
    }
}

/// `align_up` gives a multiple of the alignment, not below the offset and
/// less than one alignment above it.
pub proof fn lemma_align_up(offset: int, align: int)
    requires
        0 <= offset,
        0 < align,
    ensures
        align_up(offset, align) % align == 0,
        offset <= align_up(offset, align) < offset + align,
{
    lemma_fundamental_div_mod(offset, align);
    let q = offset / align;
    if offset % align != 0 {
        assert(align_up(offset, align) == align * (q + 1)) by (nonlinear_arith)
            requires
                offset == align * q + offset % align,
                align_up(offset, align) == offset + align - offset % align,
        ;
        lemma_mod_multiples_basic(q + 1, align);
        assert((q + 1) * align == align * (q + 1)) by (nonlinear_arith);
    }
}

/// The offset of field `i` when the fields are laid out in order.
pub open spec fn offset_of(kinds: Seq<FieldKind>, i: int) -> int
    decreases i,
{
    if i <= 0 {
        0
    } else {
        align_up(
            offset_of(kinds, i - 1) + field_size(kinds[i - 1]),
            field_align(kinds[i]) as int,
        )
    }
}

/// The first byte after the last of the first `n` fields.
pub open spec fn end_of(kinds: Seq<FieldKind>, n: int) -> int {
    if n <= 0 {
        0
    } else {
        offset_of(kinds, n - 1) + field_size(kinds[n - 1])
    }
}

/// The alignment of a block that holds the first `n` fields.
pub open spec fn block_align(kinds: Seq<FieldKind>, n: int) -> int
    decreases n,
{
    if n <= 0 {
        1
    } else {
        let below = block_align(kinds, n - 1);
        let own = field_align(kinds[n - 1]) as int;
        if own > below {
            own
        } else {
            below
        }
    }
}

/// The size of a block that holds all the fields.
pub open spec fn block_size(kinds: Seq<FieldKind>) -> int {
    align_up(end_of(kinds, kinds.len() as int), block_align(kinds, kinds.len() as int))
}

/// Offsets do not decrease, and each field ends before the next begins.
pub proof fn lemma_offsets_ordered(kinds: Seq<FieldKind>, i: int, j: int)
    requires
        0 <= i < j < kinds.len(),
    ensures
        0 <= offset_of(kinds, i),
        offset_of(kinds, i) + field_size(kinds[i]) <= offset_of(kinds, j),
    decreases j,
{
    lemma_offset_nonnegative(kinds, i);
    lemma_offset_nonnegative(kinds, j - 1);
    lemma_align_up(
        offset_of(kinds, j - 1) + field_size(kinds[j - 1]),
        field_align(kinds[j]) as int,
    );
    if i < j - 1 {
        lemma_offsets_ordered(kinds, i, j - 1);
    }
}

/// No offset is negative.
pub proof fn lemma_offset_nonnegative(kinds: Seq<FieldKind>, i: int)
    requires
        0 <= i < kinds.len(),
    ensures
        0 <= offset_of(kinds, i),
    decreases i,
{
    if i > 0 {
        lemma_offset_nonnegative(kinds, i - 1);
        lemma_align_up(
            offset_of(kinds, i - 1) + field_size(kinds[i - 1]),
            field_align(kinds[i]) as int,
        );
    }
}

/// No two fields overlap: of two different fields one ends before the other
/// begins.
pub proof fn lemma_fields_disjoint(kinds: Seq<FieldKind>, i: int, j: int)
    requires
        0 <= i < kinds.len(),
        0 <= j < kinds.len(),
        i != j,
    ensures
        offset_of(kinds, i) + field_size(kinds[i]) <= offset_of(kinds, j) || offset_of(kinds, j)
            + field_size(kinds[j]) <= offset_of(kinds, i),
{
    if i < j {
        lemma_offsets_ordered(kinds, i, j);
    } else {
        lemma_offsets_ordered(kinds, j, i);
    }
}

/// Every field stands at a multiple of its alignment, inside the block.
pub proof fn lemma_field_placed(kinds: Seq<FieldKind>, i: int)
    requires
        0 <= i < kinds.len(),
    ensures
        offset_of(kinds, i) % (field_align(kinds[i]) as int) == 0,
        0 <= offset_of(kinds, i),
        offset_of(kinds, i) + field_size(kinds[i]) <= block_size(kinds),
{
    lemma_offset_nonnegative(kinds, i);
    let last = kinds.len() - 1;
    lemma_offset_nonnegative(kinds, last);
    lemma_block_align_positive(kinds, kinds.len() as int);
    lemma_align_up(end_of(kinds, kinds.len() as int), block_align(kinds, kinds.len() as int));
    if i < last {
        lemma_offsets_ordered(kinds, i, last);
    }
    if i > 0 {
        lemma_offset_nonnegative(kinds, i - 1);
        lemma_align_up(
            offset_of(kinds, i - 1) + field_size(kinds[i - 1]),
            field_align(kinds[i]) as int,
        );
    }
}

/// The alignment of a block is at least one.
pub proof fn lemma_block_align_positive(kinds: Seq<FieldKind>, n: int)
    ensures
        block_align(kinds, n) >= 1,
    decreases n,
{
    if n > 0 {
        lemma_block_align_positive(kinds, n - 1);
    }
}

/// Why a layout could not be made.
#[derive(Clone, Copy, Debug, PartialEq, Eq, Structural)]
pub enum LayoutError {
    /// The block would not fit in the address space.
    TooLarge,
}

/// The layout of the instances of one component.
#[derive(Debug)]
pub struct DynamicLayout {
    kinds: Vec<FieldKind>,
    offsets: Vec<usize>,
    size: usize,
    align: usize,
}

/// The first multiple of `align` that is not below `offset`, if it fits.
pub fn align_offset(offset: usize, align: usize) -> (aligned: Option<usize>)
    requires
        align > 0,
    ensures
        match aligned {
            Some(a) => a == align_up(offset as int, align as int),
            None => align_up(offset as int, align as int) > usize::MAX,
        },
{
    let rest = offset % align;
    if rest == 0 {
        Some(offset)
    } else {
        offset.checked_add(align - rest)
    }
}

impl DynamicLayout {
    /// The kinds of the fields, in order.
    pub closed spec fn fields(&self) -> Seq<FieldKind> {
        self.kinds@
    }

    /// The offsets of the fields, in order.
    pub closed spec fn offsets(&self) -> Seq<usize> {
        self.offsets@
    }

    /// The size of the block.
    pub closed spec fn spec_size(&self) -> usize {
        self.size
    }

    /// The alignment of the block.
    pub closed spec fn spec_align(&self) -> usize {
        self.align
    }

    /// The layout is the one that laying out its fields in order gives.
    pub open spec fn wf(&self) -> bool {
        &&& self.offsets().len() == self.fields().len()
        &&& forall|i: int|
            0 <= i < self.fields().len() ==> #[trigger] self.offsets()[i] == offset_of(
                self.fields(),
                i,
            )
        &&& self.spec_size() == block_size(self.fields())
        &&& self.spec_align() == block_align(self.fields(), self.fields().len() as int)
    }

    /// Lays out the given fields in order. Fails when the block would not
    /// fit in the address space, and only then.
    pub fn build(kinds: Vec<FieldKind>) -> (layout: Result<DynamicLayout, LayoutError>)
        ensures
            match layout {
                Ok(l) => l.wf() && l.fields() == kinds@,
                Err(_) => block_size(kinds@) > usize::MAX,
            },
    {
        let mut offsets: Vec<usize> = Vec::new();
        let mut end: usize = 0;
        let mut align: usize = 1;
        let mut i: usize = 0;
        while i < kinds.len()
            invariant
                i <= kinds.len(),
                offsets.len() == i,
                forall|k: int| 0 <= k < i ==> #[trigger] offsets@[k] == offset_of(kinds@, k),
                end == end_of(kinds@, i as int),
                align == block_align(kinds@, i as int),
                align >= 1,
            decreases kinds.len() - i,
        {
            let kind = kinds[i];
            let field_align = align_of_field(kind);
            let size = size_of_field(kind);
            proof {
                if i > 0 {
                    lemma_offset_nonnegative(kinds@, i - 1);
                }
                lemma_align_up(end as int, field_align as int);
            }
            let start = match align_offset(end, field_align) {
                Some(start) => start,
                None => {
                    proof {
                        lemma_too_large(kinds@, i as int);
                    }
                    return Err(LayoutError::TooLarge);
                },
            };
            assert(start == offset_of(kinds@, i as int));
            let next = match start.checked_add(size) {
                Some(next) => next,
                None => {
                    proof {
                        lemma_too_large(kinds@, i as int);
                    }
                    return Err(LayoutError::TooLarge);
                },
            };
            offsets.push(start);
            end = next;
            if field_align > align {
                align = field_align;
            }
            i += 1;
        }
        proof {
            if kinds.len() > 0 {
                lemma_offset_nonnegative(kinds@, kinds.len() - 1);
            }
        }
        match align_offset(end, align) {
            Some(size) => Ok(DynamicLayout { kinds, offsets, size, align }),
            None => Err(LayoutError::TooLarge),
        }
    }

    /// The number of fields.
    pub fn field_count(&self) -> (n: usize)
        requires
            self.wf(),
        ensures
            n == self.fields().len(),
    {
        self.kinds.len()
    }

    /// The size of a block laid out in this way.
    pub fn size(&self) -> (size: usize)
        ensures
            size == self.spec_size(),
    {
        self.size
    }

    /// The alignment of a block laid out in this way.
    pub fn align(&self) -> (align: usize)
        ensures
            align == self.spec_align(),
    {
        self.align
    }

    /// The offset of field `i`.
    pub fn offset(&self, i: usize) -> (offset: usize)
        requires
            self.wf(),
            i < self.fields().len(),
        ensures
            offset == offset_of(self.fields(), i as int),
    {
        self.offsets[i]
    }

    /// The kind of field `i`.
    pub fn kind(&self, i: usize) -> (kind: FieldKind)
        requires
            self.wf(),
            i < self.fields().len(),
        ensures
            kind == self.fields()[i as int],
    {
        self.kinds[i]
    }

    /// The field of the given kind that stands at the given offset, if there
    /// is one: field access is checked against the layout.
    pub fn field_at(&self, offset: usize, kind: FieldKind) -> (field: Option<usize>)
        requires
            self.wf(),
        ensures
            match field {
                Some(i) => i < self.fields().len() && offset_of(self.fields(), i as int) == offset
                    && self.fields()[i as int] == kind,
                None => forall|i: int|
                    0 <= i < self.fields().len() ==> !(offset_of(self.fields(), i) == offset
                        && #[trigger] self.fields()[i] == kind),
            },
    {
        let mut i: usize = 0;
        while i < self.kinds.len()
            invariant
                self.wf(),
                i <= self.kinds.len(),
                forall|k: int|
                    0 <= k < i ==> !(offset_of(self.fields(), k) == offset
                        && #[trigger] self.fields()[k] == kind),
            decreases self.kinds.len() - i,
        {
            if self.offsets[i] == offset && self.kinds[i] == kind {
                return Some(i);
            }
            i += 1;
        }
        None
    }
}

/// A block whose field `i` ends beyond the address space is too large.
proof fn lemma_too_large(kinds: Seq<FieldKind>, i: int)
    requires
        0 <= i < kinds.len(),
        offset_of(kinds, i) + field_size(kinds[i]) > usize::MAX,
    ensures
        block_size(kinds) > usize::MAX,
{
    let last = kinds.len() - 1;
    lemma_offset_nonnegative(kinds, last);
    lemma_offset_nonnegative(kinds, i);
    lemma_block_align_positive(kinds, kinds.len() as int);
    lemma_align_up(end_of(kinds, kinds.len() as int), block_align(kinds, kinds.len() as int));
    if i < last {
        lemma_offsets_ordered(kinds, i, last);
    }
}

} // verus!
