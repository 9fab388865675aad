use bitfield::{compute_layout, Bitfield, FieldDescriptor};

fn record(declared: &[(&str, usize)]) -> Bitfield {
    let mut fields = Vec::new();
    for (name, width) in declared {
        fields.push(FieldDescriptor { name: name.to_string(), width: *width });
    }
    Bitfield::new(compute_layout(&fields).unwrap())
}

#[test]
fn new_record_is_zero() {
    let record = record(&[("a", 3), ("b", 7), ("c", 30)]);
    assert_eq!(record.as_bytes(), &[0u8; 5]);
    assert_eq!(record.len(), 3);
    for index in 0..3 {
        assert_eq!(record.get(index), 0);
    }
}

#[test]
fn cross_byte_fields_hold_their_values() {
    let mut record = record(&[("a", 3), ("b", 7)]);
    assert_eq!(record.as_bytes().len(), 2);
    record.set(0, 0b101);
    record.set(1, 0b1010101);
    assert_eq!(record.get(0), 0b101);
    assert_eq!(record.get(1), 0b1010101);
    assert_eq!(record.as_bytes(), &[0b1010_1101, 0b0000_0001]);
}

#[test]
fn full_byte_field_is_a_plain_byte() {
    let mut record = record(&[("f", 8)]);
    assert_eq!(record.as_bytes().len(), 1);
    record.set(0, 0xa5);
    assert_eq!(record.get(0), 0xa5);
    assert_eq!(record.as_bytes(), &[0xa5]);
}

#[test]
fn widest_field_holds_every_word() {
    let mut record = record(&[("f", 64)]);
    assert_eq!(record.as_bytes().len(), 8);
    for value in [0, 1, u64::MAX, 1 << 63, 0x0123_4567_89ab_cdef, 0xdead_beef_0bad_f00d] {
        record.set(0, value);
        assert_eq!(record.get(0), value);
    }
    record.set(0, 0x0123_4567_89ab_cdef);
    assert_eq!(record.as_bytes(), &[0x01, 0x23, 0x45, 0x67, 0x89, 0xab, 0xcd, 0xef]);
}

#[test]
fn every_value_of_a_field_reads_back() {
    let mut record = record(&[("pad", 5), ("f", 11), ("tail", 3)]);
    for value in 0u64..(1 << 11) {
        record.set(1, value);
        assert_eq!(record.get(1), value);
    }
}

#[test]
fn setting_a_field_leaves_the_others() {
    let widths = [1usize, 3, 4, 24, 9, 64, 7, 16];
    let declared: Vec<(&str, usize)> = widths.iter().map(|width| ("f", *width)).collect();
    let mut record = record(&declared);
    let mut held = Vec::new();
    for (index, width) in widths.iter().enumerate() {
        let value = 0x9e37_79b9_7f4a_7c15u64 >> (64 - width);
        record.set(index, value);
        held.push(value);
    }
    for index in 0..widths.len() {
        assert_eq!(record.get(index), held[index]);
    }
    for index in 0..widths.len() {
        record.set(index, 0);
        held[index] = 0;
        for other in 0..widths.len() {
            assert_eq!(record.get(other), held[other]);
        }
    }
}

#[test]
fn value_too_wide_for_the_field_loses_its_top_bits() {
    let mut record = record(&[("a", 3), ("b", 4), ("c", 9)]);
    record.set(0, 0b111);
    record.set(2, 0x1ff);
    record.set(1, 0xabcd);
    assert_eq!(record.get(1), 0xd);
    assert_eq!(record.get(0), 0b111);
    assert_eq!(record.get(2), 0x1ff);
}

#[test]
fn record_keeps_its_layout() {
    let record = record(&[("first", 12), ("second", 4)]);
    let layout = record.get_layout();
    assert_eq!(layout.len(), 2);
    assert_eq!(layout.entry(0).field, "first");
    assert_eq!(layout.entry(1).field, "second");
    assert_eq!(layout.entry(1).bit_offset, 12);
    assert_eq!(layout.total_bytes(), 2);
}

#[test]
fn record_without_fields_has_no_bytes() {
    let record = record(&[]);
    assert_eq!(record.len(), 0);
    assert!(record.as_bytes().is_empty());
}
