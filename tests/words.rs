use fillings::stream::{read_at, write_at};
use fillings::word::{read_field, write_field};

#[test]
fn fields_count_from_the_top_bit() {
    assert_eq!(read_field(0b1010u64 << 60, 0, 4), 0b1010);
    assert_eq!(read_field(0xFF, 56, 8), 0xFF);
    assert_eq!(read_field(0xFF, 50, 8), 0x3);
    assert_eq!(read_field(u64::MAX, 10, 0), 0);
}

#[test]
fn writing_a_field_keeps_the_rest() {
    assert_eq!(write_field(0, 60, 4, 0xF), 0xF);
    assert_eq!(write_field(u64::MAX, 0, 8, 0), 0x00FF_FFFF_FFFF_FFFF);
    assert_eq!(write_field(0, 3, 3, 0b101), 0b101u64 << 58);
    assert_eq!(write_field(0x1234, 10, 0, 0), 0x1234);
}

#[test]
fn runs_straddle_two_words() {
    let mut s = vec![0u64, 0];
    write_at(&mut s, 62, 4, 0b1011);
    assert_eq!(s[0], 0b10);
    assert_eq!(s[1], 0b11u64 << 62);
    assert_eq!(read_at(&s, 62, 4), 0b1011);
    write_at(&mut s, 63, 2, 0);
    assert_eq!(s[0], 0b10);
    assert_eq!(s[1], 0b01u64 << 62);
    assert_eq!(read_at(&s, 60, 8), 0b0010_0100);
}
