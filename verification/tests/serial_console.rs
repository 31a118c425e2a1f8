use rust_os::console::{decimal_u64, hex_digit, hex_u64};
use rust_os::{HELLO_WORLD, KERNEL_SERIAL_BANNER, LOADER_SERIAL_BANNER};

#[test]
fn serial_console_visible_message_matches_spec() {
    assert_eq!(HELLO_WORLD, "hello world");
}

#[test]
fn serial_messages_have_expected_wire_format() {
    assert_eq!(LOADER_SERIAL_BANNER, b"loader boot info\r\n");
    assert_eq!(KERNEL_SERIAL_BANNER, b"kernel stub\r\n");
}

#[test]
fn hex_digits_are_lower_case() {
    assert_eq!(hex_digit(0), b'0');
    assert_eq!(hex_digit(9), b'9');
    assert_eq!(hex_digit(10), b'a');
    assert_eq!(hex_digit(15), b'f');
}

#[test]
fn hex_text_has_sixteen_digits() {
    assert_eq!(hex_u64(0x1234_abcd), b"0x000000001234abcd".to_vec());
    assert_eq!(hex_u64(u64::MAX), b"0xffffffffffffffff".to_vec());
}

#[test]
fn decimal_text_has_no_leading_zeros() {
    assert_eq!(decimal_u64(0), b"0".to_vec());
    assert_eq!(decimal_u64(7), b"7".to_vec());
    assert_eq!(decimal_u64(1024), b"1024".to_vec());
    assert_eq!(decimal_u64(u64::MAX), b"18446744073709551615".to_vec());
}
