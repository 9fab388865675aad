use bitfield::{
    bitfield, compute_layout, extract_names_and_bits, field, specifier_bits, FieldDecl,
    LayoutError, Specifier,
};
use bitfield::{
    B1, B2, B3, B4, B5, B6, B7, B8, B9, B10, B11, B12, B13, B14, B15, B16, B17, B18, B19,
    B20, B21, B22, B23, B24, B25, B26, B27, B28, B29, B30, B31, B32, B33, B34, B35, B36,
    B37, B38, B39, B40, B41, B42, B43, B44, B45, B46, B47, B48, B49, B50, B51, B52, B53,
    B54, B55, B56, B57, B58, B59, B60, B61, B62, B63, B64,
};

fn declared(fields: &[(&str, &str)]) -> Vec<FieldDecl> {
    let mut list = Vec::new();
    for (name, specifier) in fields {
        list.push(FieldDecl { name: name.to_string(), specifier: specifier.to_string() });
    }
    list
}

#[test]
fn specifier_types_carry_their_width() {
    assert_eq!(B1::BITS, 1);
    assert_eq!(B3::BITS, 3);
    assert_eq!(B7::BITS, 7);
    assert_eq!(B8::BITS, 8);
    assert_eq!(B9::BITS, 9);
    assert_eq!(B16::BITS, 16);
    assert_eq!(B32::BITS, 32);
    assert_eq!(B64::BITS, 64);
}

#[test]
fn field_takes_its_width_from_the_type() {
    let a = field::<B3>(String::from("a"));
    let b = field::<B7>(String::from("b"));
    assert_eq!(a.name, "a");
    assert_eq!(a.width, 3);
    assert_eq!(b.width, 7);
    let layout = compute_layout(&vec![a, b]).unwrap();
    assert_eq!(layout.entry(1).bit_offset, 3);
    assert_eq!(layout.total_bytes(), 2);
}

#[test]
fn specifier_names_give_their_width() {
    for width in 1usize..=64 {
        assert_eq!(specifier_bits(&format!("B{}", width)), Some(width));
    }
    assert_eq!(specifier_bits("B0"), Some(0));
    assert_eq!(specifier_bits("B65"), Some(65));
    assert_eq!(specifier_bits("B1000"), Some(1000));
}

#[test]
fn specifier_names_follow_the_number_syntax() {
    assert_eq!(specifier_bits("B08"), Some(8));
    assert_eq!(specifier_bits("BB8"), Some(8));
    assert_eq!(specifier_bits("8"), Some(8));
    assert_eq!(specifier_bits("B+8"), Some(8));
    assert_eq!(specifier_bits("B18446744073709551615"), Some(usize::MAX));
}

#[test]
fn names_without_a_width_are_not_specifiers() {
    assert_eq!(specifier_bits(""), None);
    assert_eq!(specifier_bits("B"), None);
    assert_eq!(specifier_bits("BBB"), None);
    assert_eq!(specifier_bits("B+"), None);
    assert_eq!(specifier_bits("B++8"), None);
    assert_eq!(specifier_bits("B-8"), None);
    assert_eq!(specifier_bits("u8"), None);
    assert_eq!(specifier_bits("B8x"), None);
    assert_eq!(specifier_bits("B 8"), None);
    assert_eq!(specifier_bits("b8"), None);
    assert_eq!(specifier_bits("B8B"), None);
    assert_eq!(specifier_bits("B\u{0663}"), None);
    assert_eq!(specifier_bits("B18446744073709551616"), None);
    assert_eq!(specifier_bits("B99999999999999999999999999"), None);
}

#[test]
fn specifier_names_read_as_the_standard_parser_reads_them() {
    let names = [
        "B1", "B64", "B007", "BB12", "B", "", "+", "B+", "B+3", "B-3", "12", "B1_0", "B１",
        "B18446744073709551615", "B18446744073709551616", "Bx", "xB3", "B3 ",
    ];
    for name in names {
        let expected = name.trim_start_matches('B').parse::<usize>().ok();
        assert_eq!(specifier_bits(name), expected);
    }
}

#[test]
fn declared_fields_become_descriptors() {
    let descriptors =
        extract_names_and_bits(&declared(&[("a", "B1"), ("b", "B3"), ("c", "B24")])).unwrap();
    assert_eq!(descriptors.len(), 3);
    assert_eq!(descriptors[0].name, "a");
    assert_eq!(descriptors[0].width, 1);
    assert_eq!(descriptors[1].name, "b");
    assert_eq!(descriptors[1].width, 3);
    assert_eq!(descriptors[2].name, "c");
    assert_eq!(descriptors[2].width, 24);
}

#[test]
fn unrecognized_specifier_is_rejected() {
    let result = extract_names_and_bits(&declared(&[("a", "B1"), ("b", "u8"), ("c", "bool")]));
    assert!(matches!(result, Err(LayoutError::InvalidFieldWidth { index: 1 })));
}

#[test]
fn declaration_gives_the_layout() {
    let layout = bitfield(&declared(&[("a", "B3"), ("b", "B7")])).unwrap();
    assert_eq!(layout.len(), 2);
    assert_eq!(layout.entry(0).field, "a");
    assert_eq!(layout.entry(0).bit_offset, 0);
    assert_eq!(layout.entry(0).width, 3);
    assert_eq!(layout.entry(1).field, "b");
    assert_eq!(layout.entry(1).bit_offset, 3);
    assert_eq!(layout.entry(1).width, 7);
    assert_eq!(layout.total_bytes(), 2);
}

#[test]
fn declaration_fails_on_an_unrecognized_specifier_first() {
    let result = bitfield(&declared(&[("a", "B0"), ("b", "String")]));
    assert!(matches!(result, Err(LayoutError::InvalidFieldWidth { index: 1 })));
}

#[test]
fn declaration_fails_on_a_width_out_of_range() {
    let result = bitfield(&declared(&[("a", "B8"), ("b", "B0")]));
    assert!(matches!(result, Err(LayoutError::InvalidFieldWidth { index: 1 })));
    let result = bitfield(&declared(&[("a", "B65"), ("b", "B0")]));
    assert!(matches!(result, Err(LayoutError::InvalidFieldWidth { index: 0 })));
}

#[test]
fn every_specifier_type_has_the_width_in_its_name() {
    let widths = [
        B1::BITS, B2::BITS, B3::BITS, B4::BITS, B5::BITS, B6::BITS, B7::BITS, B8::BITS,
        B9::BITS, B10::BITS, B11::BITS, B12::BITS, B13::BITS, B14::BITS, B15::BITS,
        B16::BITS, B17::BITS, B18::BITS, B19::BITS, B20::BITS, B21::BITS, B22::BITS,
        B23::BITS, B24::BITS, B25::BITS, B26::BITS, B27::BITS, B28::BITS, B29::BITS,
        B30::BITS, B31::BITS, B32::BITS, B33::BITS, B34::BITS, B35::BITS, B36::BITS,
        B37::BITS, B38::BITS, B39::BITS, B40::BITS, B41::BITS, B42::BITS, B43::BITS,
        B44::BITS, B45::BITS, B46::BITS, B47::BITS, B48::BITS, B49::BITS, B50::BITS,
        B51::BITS, B52::BITS, B53::BITS, B54::BITS, B55::BITS, B56::BITS, B57::BITS,
        B58::BITS, B59::BITS, B60::BITS, B61::BITS, B62::BITS, B63::BITS, B64::BITS,
    ];
    assert_eq!(widths.len(), 64);
    for (index, width) in widths.iter().enumerate() {
        assert_eq!(*width as usize, index + 1);
    }
}
