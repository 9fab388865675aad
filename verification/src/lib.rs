//! Unsigned integer fields of 1 to 64 bits, packed without padding into a
//! byte buffer and read and written in place.
//!
//! A record is declared as an ordered list of fields. `layout` places them
//! one after the other; `span` reads and writes a field of a buffer at its
//! place, zone by zone, where a zone is the part of a field that lies in one
//! byte; `zone` holds the primitives for one zone; `record` owns a buffer and
//! a layout and gives access by field index.

pub mod bits;
pub mod declare;
pub mod layout;
pub mod record;
pub mod span;
pub mod specifier;
pub mod zone;

pub use declare::{bitfield, extract_names_and_bits, FieldDecl};
pub use layout::{compute_layout, field_type_bits, FieldDescriptor, Layout, LayoutEntry, LayoutError};
pub use record::Bitfield;
pub use span::{get_field, set_field};
pub use specifier::{field, specifier_bits, Specifier};
pub use specifier::{
    B1, B2, B3, B4, B5, B6, B7, B8, B9, B10, B11, B12, B13, B14, B15, B16, B17, B18,
    B19, B20, B21, B22, B23, B24, B25, B26, B27, B28, B29, B30, B31, B32, B33, B34, B35,
    B36, B37, B38, B39, B40, B41, B42, B43, B44, B45, B46, B47, B48, B49, B50, B51, B52,
    B53, B54, B55, B56, B57, B58, B59, B60, B61, B62, B63, B64,
};
pub use zone::{get_bits, mask_bits, reverse_bits, set_bits};
