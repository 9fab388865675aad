//! A record: a zero-initialised buffer sized by a layout, with its fields
//! read and written by index.

use crate::layout::Layout;
use crate::span::{get_field, lemma_span_isolation, set_field, span_store, span_value};
use vstd::arithmetic::power2::pow2;
use vstd::prelude::*;

verus! {

/// The fields of one record, packed without padding into an owned buffer.
#[derive(Debug, Clone, PartialEq, Eq)]
pub struct Bitfield {
    layout: Layout,
    data: Vec<u8>,
}

impl View for Bitfield {
    type V = Seq<u8>;

    /// The buffer: byte `i` holds the bits `[8i, 8i + 8)`.
    closed spec fn view(&self) -> Seq<u8> {
        self.data@
    }
}

impl Bitfield {
    /// The layout that the record was made with.
    pub closed spec fn layout(&self) -> Layout {
        self.layout
    }

    /// The layout is well-formed and the buffer has the length it asks for.
    pub open spec fn wf(&self) -> bool {
        &&& self.layout().wf()
        &&& self@.len() == self.layout().byte_len()
    }

    /// The value that the field at `index` holds.
    pub open spec fn field_value(&self, index: int) -> nat {
        span_value(
            self@,
            self.layout()@[index].bit_offset as nat,
            self.layout()@[index].width as nat,
        )
    }

    /// A record with every bit clear.
    pub fn new(layout: Layout) -> (record: Bitfield)
        requires
            layout.wf(),
        ensures
            record.wf(),
            record.layout() == layout,
            record@ == Seq::new(layout.byte_len(), |i: int| 0u8),
    {
        let size = layout.total_bytes();
        let mut data: Vec<u8> = Vec::new();
        let mut filled: usize = 0;
        while filled < size
            invariant
                filled <= size,
                data@ == Seq::new(filled as nat, |i: int| 0u8),
            decreases size - filled,
        {
            data.push(0u8);
            filled = filled + 1;
            assert(data@ =~= Seq::new(filled as nat, |i: int| 0u8));
        }
        Bitfield { layout, data }
    }

    /// The number of fields.
    pub fn len(&self) -> (count: usize)
        ensures
            count == self.layout()@.len(),
    {
        self.layout.len()
    }

    /// The layout that the record was made with.
    pub fn get_layout(&self) -> (layout: &Layout)
        ensures
            *layout == self.layout(),
    {
        &self.layout
    }

    /// The buffer as it stands.
    pub fn as_bytes(&self) -> (bytes: &[u8])
        ensures
            bytes@ == self@,
    {
        self.data.as_slice()
    }

    /// Reads the field at `index`.
    pub fn get(&self, index: usize) -> (value: u64)
        requires
            self.wf(),
            index < self.layout()@.len(),
        ensures
            value as nat == self.field_value(index as int),
            (value as nat) < pow2(self.layout()@[index as int].width as nat),
    {
        let entry = self.layout.entry(index);
        proof {
            self.layout.lemma_field_within(index as int);
        }
        get_field(self.data.as_slice(), entry.bit_offset, entry.width)
    }

    /// Writes the low bits of `value`, as many as the field is wide, to the
    /// field at `index`. No other field changes.
    pub fn set(&mut self, index: usize, value: u64)
        requires
            old(self).wf(),
            index < old(self).layout()@.len(),
        ensures
            final(self).wf(),
            final(self).layout() == old(self).layout(),
            final(self)@ == span_store(
                old(self)@,
                old(self).layout()@[index as int].bit_offset as nat,
                old(self).layout()@[index as int].width as nat,
                value as nat,
            ),
            final(self).field_value(index as int) == value as nat % pow2(
                old(self).layout()@[index as int].width as nat,
            ),
            (value as nat) < pow2(old(self).layout()@[index as int].width as nat)
                ==> final(self).field_value(index as int) == value,
            forall|other: int|
                0 <= other < old(self).layout()@.len() && other != index
                    ==> #[trigger] final(self).field_value(other) == old(self).field_value(other),
    {
        let entry = self.layout.entry(index);
        let offset = entry.bit_offset;
        let width = entry.width;
        proof {
            self.layout.lemma_field_within(index as int);
        }
        set_field(self.data.as_mut_slice(), offset, width, value);
        proof {
            let layout = self.layout;
            assert forall|other: int| 0 <= other < layout@.len() && other != index implies self.field_value(
                other,
            ) == old(self).field_value(other) by {
                layout.lemma_field_within(other);
                if other < index {
                    layout.lemma_fields_apart(other, index as int);
                } else {
                    layout.lemma_fields_apart(index as int, other);
                }
                lemma_span_isolation(
                    old(self)@,
                    offset as nat,
                    width as nat,
                    value as nat,
                    layout@[other].bit_offset as nat,
                    layout@[other].width as nat,
                );
            }
        }
    }
}

} // verus!
