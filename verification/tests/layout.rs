use bitfield::{compute_layout, field_type_bits, FieldDescriptor, LayoutError};

fn fields(declared: &[(&str, usize)]) -> Vec<FieldDescriptor> {
    let mut fields = Vec::new();
    for (name, width) in declared {
        fields.push(FieldDescriptor { name: name.to_string(), width: *width });
    }
    fields
}

#[test]
fn fields_are_placed_one_after_the_other() {
    let layout = compute_layout(&fields(&[("a", 1), ("b", 3), ("c", 4), ("d", 24)])).unwrap();
    assert_eq!(layout.len(), 4);
    let expected = [("a", 0, 1), ("b", 1, 3), ("c", 4, 4), ("d", 8, 24)];
    for (index, (name, offset, width)) in expected.iter().enumerate() {
        let entry = layout.entry(index);
        assert_eq!(entry.field, *name);
        assert_eq!(entry.bit_offset, *offset);
        assert_eq!(entry.width, *width);
    }
    assert_eq!(layout.total_bytes(), 4);
}

#[test]
fn offset_is_the_sum_of_the_widths_before() {
    let widths = [3usize, 7, 64, 1, 13, 8, 8, 20, 33];
    let declared: Vec<FieldDescriptor> = widths
        .iter()
        .map(|width| FieldDescriptor { name: String::from("f"), width: *width })
        .collect();
    let layout = compute_layout(&declared).unwrap();
    let mut sum = 0;
    for (index, width) in widths.iter().enumerate() {
        assert_eq!(layout.entry(index).bit_offset, sum);
        sum += width;
    }
    assert_eq!(layout.total_bytes(), (sum + 7) / 8);
}

#[test]
fn buffer_is_the_bits_rounded_up_to_bytes() {
    assert_eq!(compute_layout(&fields(&[])).unwrap().total_bytes(), 0);
    assert_eq!(compute_layout(&fields(&[("a", 1)])).unwrap().total_bytes(), 1);
    assert_eq!(compute_layout(&fields(&[("a", 8)])).unwrap().total_bytes(), 1);
    assert_eq!(compute_layout(&fields(&[("a", 9)])).unwrap().total_bytes(), 2);
    assert_eq!(compute_layout(&fields(&[("a", 3), ("b", 7)])).unwrap().total_bytes(), 2);
    assert_eq!(compute_layout(&fields(&[("a", 64)])).unwrap().total_bytes(), 8);
    assert_eq!(compute_layout(&fields(&[("a", 64), ("b", 1)])).unwrap().total_bytes(), 9);
}

#[test]
fn order_of_declaration_does_not_change_the_size() {
    let one = compute_layout(&fields(&[("a", 3), ("b", 7), ("c", 13)])).unwrap();
    let other = compute_layout(&fields(&[("c", 13), ("a", 3), ("b", 7)])).unwrap();
    let third = compute_layout(&fields(&[("x", 20), ("y", 3)])).unwrap();
    assert_eq!(one.total_bytes(), 3);
    assert_eq!(other.total_bytes(), 3);
    assert_eq!(third.total_bytes(), 3);
}

#[test]
fn width_zero_is_rejected() {
    let result = compute_layout(&fields(&[("a", 3), ("b", 0), ("c", 0)]));
    assert!(matches!(result, Err(LayoutError::InvalidFieldWidth { index: 1 })));
}

#[test]
fn width_above_64_is_rejected() {
    let result = compute_layout(&fields(&[("a", 65)]));
    assert!(matches!(result, Err(LayoutError::InvalidFieldWidth { index: 0 })));
    let result = compute_layout(&fields(&[("a", 64), ("b", 1), ("c", usize::MAX)]));
    assert!(matches!(result, Err(LayoutError::InvalidFieldWidth { index: 2 })));
}

#[test]
fn least_and_greatest_width_are_accepted() {
    let layout = compute_layout(&fields(&[("a", 1), ("b", 64)])).unwrap();
    assert_eq!(layout.entry(1).bit_offset, 1);
    assert_eq!(layout.total_bytes(), 9);
}

#[test]
fn value_type_is_the_least_power_of_two_that_fits() {
    assert_eq!(field_type_bits(1), 8);
    assert_eq!(field_type_bits(3), 8);
    assert_eq!(field_type_bits(8), 8);
    assert_eq!(field_type_bits(9), 16);
    assert_eq!(field_type_bits(16), 16);
    assert_eq!(field_type_bits(17), 32);
    assert_eq!(field_type_bits(20), 32);
    assert_eq!(field_type_bits(32), 32);
    assert_eq!(field_type_bits(33), 64);
    assert_eq!(field_type_bits(64), 64);
    for width in 1usize..=64 {
        assert_eq!(field_type_bits(width), width.next_power_of_two().max(8));
    }
}
