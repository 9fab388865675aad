//! From an ordered list of field widths to the place of each field in the
//! packed buffer.

use vstd::arithmetic::power2::{lemma2_to64, lemma_pow2_strictly_increases, pow2};
use vstd::prelude::*;

verus! {

/// The least width a field may have, in bits.
pub const MIN_WIDTH: usize = 1;

/// The greatest width a field may have, in bits.
pub const MAX_WIDTH: usize = 64;

/// A field as it is declared: a name and a width in bits.
#[derive(Debug, Clone, PartialEq, Eq)]
pub struct FieldDescriptor {
    pub name: String,
    pub width: usize,
}

/// A field as it is placed: it occupies the bits
/// `[bit_offset, bit_offset + width)` of the buffer.
#[derive(Debug, Clone, PartialEq, Eq)]
pub struct LayoutEntry {
    pub field: String,
    pub bit_offset: usize,
    pub width: usize,
}

/// Why a list of fields has no layout.
#[derive(Debug, PartialEq, Eq, Structural, Clone, Copy)]
pub enum LayoutError {
    /// The field at `index` is the first whose width is not a number from
    /// 1 to 64.
    InvalidFieldWidth { index: usize },
}

/// Whether a field may have this width.
pub open spec fn valid_width(width: nat) -> bool {
    MIN_WIDTH <= width <= MAX_WIDTH
}

/// The widths of the declared fields, in their order.
pub open spec fn widths_of(fields: Seq<FieldDescriptor>) -> Seq<nat> {
    Seq::new(fields.len(), |i: int| fields[i].width as nat)
}

/// The sum of the first `count` widths.
pub open spec fn bits_before(widths: Seq<nat>, count: nat) -> nat
    decreases count,
{
    if count == 0 {
        0
    } else {
        bits_before(widths, (count - 1) as nat) + widths[count - 1]
    }
}

/// The sum of all widths.
pub open spec fn total_bits(widths: Seq<nat>) -> nat {
    bits_before(widths, widths.len())
}

/// The least number of bytes that hold `bits` bits.
pub open spec fn bytes_for(bits: nat) -> nat {
    (bits + 7) / 8
}

/// The sum of the first widths grows with their number.
pub proof fn lemma_bits_before_grows(widths: Seq<nat>, fewer: nat, more: nat)
    requires
        fewer <= more,
    ensures
        bits_before(widths, fewer) <= bits_before(widths, more),
    decreases more,
{
    if fewer < more {
        lemma_bits_before_grows(widths, fewer, (more - 1) as nat);
    }
}

/// The sum of the first widths depends on those widths alone.
pub proof fn lemma_bits_before_prefix(a: Seq<nat>, b: Seq<nat>, count: nat)
    requires
        forall|i: int| 0 <= i < count ==> a[i] == b[i],
    ensures
        bits_before(a, count) == bits_before(b, count),
    decreases count,
{
    if count > 0 {
        lemma_bits_before_prefix(a, b, (count - 1) as nat);
    }
}

/// Taking one width out lowers the sum by that width.
pub proof fn lemma_total_bits_remove(widths: Seq<nat>, index: int)
    requires
        0 <= index < widths.len(),
    ensures
        total_bits(widths) == total_bits(widths.remove(index)) + widths[index],
    decreases widths.len(),
{
    let last = widths.len() - 1;
    let front = widths.drop_last();
    lemma_bits_before_prefix(widths, front, last as nat);
    if index == last {
        assert(widths.remove(index) =~= front);
    } else {
        let without = widths.remove(index);
        lemma_total_bits_remove(front, index);
        assert(without.drop_last() =~= front.remove(index));
        lemma_bits_before_prefix(without, without.drop_last(), (last - 1) as nat);
        assert(without[last - 1] == widths[last]);
    }
}

/// The same widths in another order have the same sum.
pub proof fn lemma_total_bits_any_order(a: Seq<nat>, b: Seq<nat>)
    requires
        a.to_multiset() == b.to_multiset(),
    ensures
        total_bits(a) == total_bits(b),
    decreases a.len(),
{
    a.to_multiset_ensures();
    b.to_multiset_ensures();
    if a.len() > 0 {
        let last = a.len() - 1;
        let width = a[last];
        assert(a.contains(width));
        assert(b.to_multiset().count(width) > 0);
        assert(b.contains(width));
        let index = choose|i: int| 0 <= i < b.len() && b[i] == width;
        assert(a.remove(last).to_multiset() =~= b.remove(index).to_multiset());
        lemma_total_bits_any_order(a.remove(last), b.remove(index));
        lemma_total_bits_remove(a, last);
        lemma_total_bits_remove(b, index);
    }
}

/// The same fields declared in another order have the same number of bits
/// and so need a buffer of the same length.
pub proof fn lemma_packing_size(a: Seq<FieldDescriptor>, b: Seq<FieldDescriptor>)
    requires
        widths_of(a).to_multiset() == widths_of(b).to_multiset(),
    ensures
        total_bits(widths_of(a)) == total_bits(widths_of(b)),
        bytes_for(total_bits(widths_of(a))) == bytes_for(total_bits(widths_of(b))),
{
    lemma_total_bits_any_order(widths_of(a), widths_of(b));
}

/// The width in bits of the unsigned integer type that presents a field of
/// `width` bits: the least power of two that is at least `width` and at
/// least 8.
pub open spec fn value_bits(width: nat) -> nat {
    if width <= 8 {
        8
    } else if width <= 16 {
        16
    } else if width <= 32 {
        32
    } else {
        64
    }
}

/// `value_bits(width)` is a power of two, at least `width` and at least 8,
/// and no power of two below it is both. A type of that many bits holds
/// every value of a field of `width` bits.
pub proof fn lemma_value_bits_least(width: nat, exponent: nat)
    requires
        width <= MAX_WIDTH,
    ensures
        exists|e: nat| value_bits(width) == #[trigger] pow2(e),
        value_bits(width) >= width,
        value_bits(width) >= 8,
        pow2(exponent) >= width && pow2(exponent) >= 8 ==> pow2(exponent) >= value_bits(width),
        pow2(width) <= pow2(value_bits(width)),
{
    lemma2_to64();
    assert(pow2(3) == 8 && pow2(4) == 16 && pow2(5) == 32 && pow2(6) == 64);
    if width < value_bits(width) {
        lemma_pow2_strictly_increases(width, value_bits(width));
    }
    if exponent < 3 {
        lemma_pow2_strictly_increases(exponent, 3);
    } else if exponent == 3 {
    } else if exponent == 4 {
    } else if exponent == 5 {
    } else {
        if exponent > 6 {
            lemma_pow2_strictly_increases(6, exponent);
        }
    }
}

/// The width in bits of the unsigned integer type that presents a field of
/// `width` bits.
pub fn field_type_bits(width: usize) -> (bits: usize)
    requires
        width <= MAX_WIDTH,
    ensures
        bits == value_bits(width as nat),
{
    if width <= 8 {
        8
    } else if width <= 16 {
        16
    } else if width <= 32 {
        32
    } else {
        64
    }
}

/// The places of the fields of one record type, and the size of its buffer.
#[derive(Debug, Clone, PartialEq, Eq)]
pub struct Layout {
    entries: Vec<LayoutEntry>,
    total_bytes: usize,
}

impl View for Layout {
    type V = Seq<LayoutEntry>;

    /// The entries, in the order in which the fields were declared.
    closed spec fn view(&self) -> Seq<LayoutEntry> {
        self.entries@
    }
}

impl Layout {
    /// The length in bytes of the buffer that holds the fields.
    pub closed spec fn byte_len(&self) -> nat {
        self.total_bytes as nat
    }

    /// The widths of the entries, in their order.
    pub open spec fn widths(&self) -> Seq<nat> {
        Seq::new(self@.len(), |i: int| self@[i].width as nat)
    }

    /// Every width is from 1 to 64, every field starts where the one before
    /// it ends, the first at bit 0, the buffer has no byte to spare, and the
    /// number of bits fits the machine.
    pub open spec fn wf(&self) -> bool {
        &&& total_bits(self.widths()) <= usize::MAX
        &&& forall|i: int| 0 <= i < self@.len() ==> valid_width(#[trigger] self@[i].width as nat)
        &&& forall|i: int|
            0 <= i < self@.len() ==> (#[trigger] self@[i]).bit_offset == bits_before(
                self.widths(),
                i as nat,
            )
        &&& self.byte_len() == bytes_for(total_bits(self.widths()))
    }

    /// The number of fields.
    pub fn len(&self) -> (count: usize)
        ensures
            count == self@.len(),
    {
        self.entries.len()
    }

    /// The entry of the field at `index`.
    pub fn entry(&self, index: usize) -> (entry: &LayoutEntry)
        requires
            index < self@.len(),
        ensures
            *entry == self@[index as int],
    {
        &self.entries[index]
    }

    /// The length in bytes of the buffer that holds the fields.
    pub fn total_bytes(&self) -> (bytes: usize)
        ensures
            bytes == self.byte_len(),
    {
        self.total_bytes
    }

    /// In a well-formed layout a field ends no later than a later field
    /// begins, so no two fields share a bit.
    pub proof fn lemma_fields_apart(&self, first: int, second: int)
        requires
            self.wf(),
            0 <= first < second < self@.len(),
        ensures
            self@[first].bit_offset + self@[first].width <= self@[second].bit_offset,
    {
        let widths = self.widths();
        assert(bits_before(widths, (first + 1) as nat) == bits_before(widths, first as nat)
            + widths[first]);
        lemma_bits_before_grows(widths, (first + 1) as nat, second as nat);
    }

    /// In a well-formed layout every field lies within the buffer.
    pub proof fn lemma_field_within(&self, index: int)
        requires
            self.wf(),
            0 <= index < self@.len(),
        ensures
            valid_width(self@[index].width as nat),
            self@[index].bit_offset + self@[index].width <= 8 * self.byte_len(),
            self@[index].bit_offset + self@[index].width <= usize::MAX,
    {
        let widths = self.widths();
        assert(bits_before(widths, (index + 1) as nat) == bits_before(widths, index as nat)
            + widths[index]);
        lemma_bits_before_grows(widths, (index + 1) as nat, widths.len());
    }
}

/// What `compute_layout` makes of a list of fields whose widths are all
/// valid: one entry for each field, in order, with the field's name and
/// width, placed at the sum of the widths before it.
pub open spec fn laid_out(fields: Seq<FieldDescriptor>, layout: Layout) -> bool {
    &&& layout@.len() == fields.len()
    &&& forall|i: int|
        0 <= i < fields.len() ==> {
            &&& (#[trigger] layout@[i]).field@ == fields[i].name@
            &&& layout@[i].width == fields[i].width
            &&& layout@[i].bit_offset == bits_before(widths_of(fields), i as nat)
        }
    &&& layout.byte_len() == bytes_for(total_bits(widths_of(fields)))
}

/// Places the fields one after the other, the first at bit 0, with no gap
/// between them, and sizes the buffer. Fails at the first field whose width
/// is not from 1 to 64.
pub fn compute_layout(fields: &Vec<FieldDescriptor>) -> (result: Result<Layout, LayoutError>)
    requires
        fields.len() * MAX_WIDTH <= usize::MAX,
    ensures
        match result {
            Ok(layout) => {
                &&& forall|i: int| 0 <= i < fields.len() ==> valid_width(#[trigger] fields[i].width as nat)
                &&& laid_out(fields@, layout)
                &&& layout.wf()
            },
            Err(LayoutError::InvalidFieldWidth { index }) => {
                &&& index < fields.len()
                &&& !valid_width(fields[index as int].width as nat)
                &&& forall|i: int| 0 <= i < index ==> valid_width(#[trigger] fields[i].width as nat)
            },
        },
{
    let ghost widths = widths_of(fields@);
    let mut entries: Vec<LayoutEntry> = Vec::new();
    let mut offset: usize = 0;
    let mut index: usize = 0;
    while index < fields.len()
        invariant
            index <= fields.len(),
            fields.len() * MAX_WIDTH <= usize::MAX,
            widths == widths_of(fields@),
            entries.len() == index,
            offset == bits_before(widths, index as nat),
            offset <= MAX_WIDTH * index,
            forall|i: int| 0 <= i < index ==> valid_width(#[trigger] fields[i].width as nat),
            forall|i: int|
                0 <= i < index ==> {
                    &&& (#[trigger] entries[i]).field@ == fields[i].name@
                    &&& entries[i].width == fields[i].width
                    &&& entries[i].bit_offset == bits_before(widths, i as nat)
                },
        decreases fields.len() - index,
    {
        let width = fields[index].width;
        if width < MIN_WIDTH || width > MAX_WIDTH {
            return Err(LayoutError::InvalidFieldWidth { index });
        }
        let field = fields[index].name.clone();
        entries.push(LayoutEntry { field, bit_offset: offset, width });
        assert(widths[index as int] == width);
        offset = offset + width;
        index = index + 1;
    }
    let total_bytes = offset / 8 + if offset % 8 == 0 {
        0
    } else {
        1
    };
    let layout = Layout { entries, total_bytes };
    proof {
        assert(layout.widths() =~= widths);
    }
    Ok(layout)
}

} // verus!
