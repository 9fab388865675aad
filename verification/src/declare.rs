//! The fields of a record as they are declared, each with the name of a
//! width specifier, and the way from such a declaration to a layout.

use crate::layout::{
    compute_layout,
    valid_width,
    FieldDescriptor,
    Layout,
    LayoutError,
    MAX_WIDTH,
};
use crate::specifier::{named_bits, specifier_bits};
use vstd::prelude::*;

verus! {

/// A field as it stands in the declaration of a record: its name, and the
/// name of the specifier that gives its width, such as `B12`.
#[derive(Debug, Clone, PartialEq, Eq)]
pub struct FieldDecl {
    pub name: String,
    pub specifier: String,
}

impl FieldDecl {
    /// The width that the field's specifier names, if it names one.
    pub open spec fn width(&self) -> Option<nat> {
        named_bits(self.specifier@)
    }
}

/// Every one of the first `count` fields has a specifier that names a
/// width.
pub open spec fn all_named(fields: Seq<FieldDecl>, count: int) -> bool {
    forall|i: int| 0 <= i < count ==> (#[trigger] fields[i]).width() is Some
}

/// The descriptors that stand for the declared fields: as many, in the same
/// order, each with the name of its field and the width that its specifier
/// names.
pub open spec fn described(fields: Seq<FieldDecl>, descriptors: Seq<FieldDescriptor>) -> bool {
    &&& descriptors.len() == fields.len()
    &&& forall|i: int|
        0 <= i < fields.len() ==> {
            &&& (#[trigger] descriptors[i]).name@ == fields[i].name@
            &&& fields[i].width() == Some(descriptors[i].width as nat)
        }
}

/// Reads the width of each declared field from the name of its specifier.
/// Fails at the first field whose specifier names no width.
pub fn extract_names_and_bits(fields: &Vec<FieldDecl>) -> (result: Result<
    Vec<FieldDescriptor>,
    LayoutError,
>)
    ensures
        match result {
            Ok(descriptors) => described(fields@, descriptors@),
            Err(LayoutError::InvalidFieldWidth { index }) => {
                &&& index < fields.len()
                &&& fields[index as int].width() is None
                &&& all_named(fields@, index as int)
            },
        },
{
    let mut descriptors: Vec<FieldDescriptor> = Vec::new();
    let mut index: usize = 0;
    while index < fields.len()
        invariant
            index <= fields.len(),
            descriptors.len() == index,
            all_named(fields@, index as int),
            forall|i: int|
                0 <= i < index ==> {
                    &&& (#[trigger] descriptors[i]).name@ == fields[i].name@
                    &&& fields[i].width() == Some(descriptors[i].width as nat)
                },
        decreases fields.len() - index,
    {
        match specifier_bits(fields[index].specifier.as_str()) {
            Some(width) => {
                let name = fields[index].name.clone();
                descriptors.push(FieldDescriptor { name, width });
            },
            None => {
                return Err(LayoutError::InvalidFieldWidth { index });
            },
        }
        index = index + 1;
    }
    Ok(descriptors)
}

/// The layout of a record declared with these fields. Fails at the first
/// field whose specifier names no width; where every specifier names one,
/// at the first field whose width is not from 1 to 64.
pub fn bitfield(fields: &Vec<FieldDecl>) -> (result: Result<Layout, LayoutError>)
    requires
        fields.len() * MAX_WIDTH <= usize::MAX,
    ensures
        match result {
            Ok(layout) => {
                &&& layout.wf()
                &&& layout@.len() == fields.len()
                &&& forall|i: int|
                    0 <= i < fields.len() ==> {
                        &&& (#[trigger] layout@[i]).field@ == fields[i].name@
                        &&& fields[i].width() == Some(layout@[i].width as nat)
                    }
            },
            Err(LayoutError::InvalidFieldWidth { index }) => {
                &&& index < fields.len()
                &&& all_named(fields@, index as int)
                &&& match fields[index as int].width() {
                    Some(width) => {
                        &&& !valid_width(width)
                        &&& all_named(fields@, fields.len() as int)
                        &&& forall|i: int|
                            0 <= i < index ==> valid_width((#[trigger] fields[i]).width()->Some_0)
                    },
                    None => true,
                }
            },
        },
{
    match extract_names_and_bits(fields) {
        Ok(descriptors) => {
            let result = compute_layout(&descriptors);
            proof {
                assert forall|i: int| 0 <= i < fields.len() implies (#[trigger] fields[i]).width()
                    == Some(descriptors[i].width as nat) by {
                    assert(descriptors[i].name@ == fields[i].name@);
                }
            }
            result
        },
        Err(error) => Err(error),
    }
}

} // verus!
