use bitfield::{get_bits, mask_bits, reverse_bits, set_bits};

#[test]
fn mask_covers_the_zone() {
    assert_eq!(mask_bits(0, 8), 0b1111_1111);
    assert_eq!(mask_bits(3, 8), 0b1111_1000);
    assert_eq!(mask_bits(0, 3), 0b0000_0111);
    assert_eq!(mask_bits(2, 5), 0b0001_1100);
    assert_eq!(mask_bits(7, 8), 0b1000_0000);
    assert_eq!(mask_bits(4, 4), 0);
}

#[test]
fn mask_matches_its_formula() {
    for start in 0u8..8 {
        for end in start..=8 {
            let expected = (((1u32 << (end - start)) - 1) << start) as u8;
            assert_eq!(mask_bits(start, end), expected);
        }
    }
}

#[test]
fn reverse_bits_mirrors_the_low_bits() {
    assert_eq!(reverse_bits(0b110, 3), 0b011);
    assert_eq!(reverse_bits(0b1, 1), 0b1);
    assert_eq!(reverse_bits(0b0000_0001, 8), 0b1000_0000);
    assert_eq!(reverse_bits(0b1010101, 7), 0b1010101);
    assert_eq!(reverse_bits(0b1011, 4), 0b1101);
}

#[test]
fn reverse_bits_of_a_whole_word() {
    assert_eq!(reverse_bits(1, 64), 1 << 63);
    assert_eq!(reverse_bits(1 << 63, 64), 1);
    assert_eq!(reverse_bits(0x0123_4567_89ab_cdef, 64), 0xf7b3_d591_e6a2_c480);
    assert_eq!(reverse_bits(u64::MAX, 64), u64::MAX);
}

#[test]
fn reverse_bits_ignores_what_lies_above() {
    assert_eq!(reverse_bits(0b1111_1110, 3), 0b011);
    assert_eq!(reverse_bits(u64::MAX, 5), 0b11111);
    assert_eq!(reverse_bits(0xffff_ff00, 8), 0);
}

#[test]
fn reverse_bits_twice_is_the_low_bits() {
    for bits in 1usize..=64 {
        let value = 0x9e37_79b9_7f4a_7c15u64;
        let low = if bits == 64 { value } else { value & ((1u64 << bits) - 1) };
        assert_eq!(reverse_bits(reverse_bits(value, bits), bits), low);
    }
}

#[test]
fn get_bits_appends_the_zone() {
    let mut value = 0u64;
    get_bits(&0b1010_1101, 3, 8, &mut value);
    assert_eq!(value, 0b10101);
    get_bits(&0b0000_0001, 0, 2, &mut value);
    assert_eq!(value, 0b1010101);
}

#[test]
fn get_bits_keeps_what_was_read_before() {
    let mut value = 0b11u64;
    get_bits(&0b0101_0000, 4, 7, &mut value);
    assert_eq!(value, 0b11_101);
}

#[test]
fn get_bits_of_an_empty_zone_changes_nothing() {
    let mut value = 0x1234u64;
    get_bits(&0xff, 5, 5, &mut value);
    assert_eq!(value, 0x1234);
}

#[test]
fn get_bits_loses_what_leaves_the_word() {
    let mut value = u64::MAX;
    get_bits(&0b0000_0101, 0, 4, &mut value);
    assert_eq!(value, 0xffff_ffff_ffff_fff5);
}

#[test]
fn set_bits_writes_the_zone_and_consumes_the_value() {
    let mut byte = 0u8;
    let mut value = reverse_bits(0b1010101, 7);
    set_bits(&mut byte, 3, 8, &mut value);
    assert_eq!(byte, 0b1010_1000);
    assert_eq!(value, 0b10);
    let mut next = 0u8;
    set_bits(&mut next, 0, 2, &mut value);
    assert_eq!(next, 0b0000_0001);
    assert_eq!(value, 0);
}

#[test]
fn set_bits_keeps_the_rest_of_the_byte() {
    let mut byte = 0b1111_1111u8;
    let mut value = 0u64;
    set_bits(&mut byte, 2, 5, &mut value);
    assert_eq!(byte, 0b1110_0011);

    let mut byte = 0b0000_0101u8;
    let mut value = reverse_bits(0b11111, 5);
    set_bits(&mut byte, 3, 8, &mut value);
    assert_eq!(byte, 0b1111_1101);
}

#[test]
fn set_bits_then_get_bits_gives_the_chunk_back() {
    for start in 0u8..8 {
        for end in (start + 1)..=8 {
            let width = (end - start) as usize;
            for chunk in 0u64..(1 << width) {
                let mut byte = 0b0110_1001u8;
                let before = byte;
                let mut value = reverse_bits(chunk, width);
                set_bits(&mut byte, start, end, &mut value);
                let mut read = 0u64;
                get_bits(&byte, start, end, &mut read);
                assert_eq!(read, chunk);
                let mask = mask_bits(start, end);
                assert_eq!(byte & !mask, before & !mask);
            }
        }
    }
}
