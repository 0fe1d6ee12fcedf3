use rusty_mos::library::print::{integer_text, printnum_text};

fn text(v: Vec<u8>) -> String {
    String::from_utf8(v).unwrap()
}

#[test]
fn test_printnum() {
    assert_eq!(text(printnum_text(b"With no integer", &[], 10)), "With no integer");
    assert_eq!(text(printnum_text(b"With an integer:", &[1024], 10)), "With an integer: 1024");
    assert_eq!(text(printnum_text(b"With an integer:", &[1029], 16)), "With an integer: 0x405");
    assert_eq!(text(printnum_text(b"With an integer:", &[1029], 8)), "With an integer: 0o2005");
    assert_eq!(text(printnum_text(b"With an integer:", &[1029], 2)), "With an integer: 0b10000000101");
    assert_eq!(text(printnum_text(b"With an integer:", &[1029], 7)), "With an integer: (Base: 7)3000");
    assert_eq!(text(printnum_text(b"With a zero:", &[0], 10)), "With a zero: 0");
    assert_eq!(text(printnum_text(b"With a negetive:", &[-123], 10)), "With a negetive: -123");
    assert_eq!(
        text(printnum_text(b"With a lot of numbers:", &[123, 321, -666], 16)),
        "With a lot of numbers: 0x7B 0x141 0x-29A"
    );
}

#[test]
fn integer_text_in_bases() {
    assert_eq!(text(integer_text(0, 10)), "0");
    assert_eq!(text(integer_text(255, 16)), "FF");
    assert_eq!(text(integer_text(-8, 2)), "-1000");
    assert_eq!(text(integer_text(i32::MAX, 10)), "2147483647");
    assert_eq!(text(integer_text(35, 36)), "Z");
}
