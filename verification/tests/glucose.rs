use taurine::glucose::{memcmp, memcpy, memset};

#[test]
fn memset_fills_a_prefix_with_the_low_byte() {
    let mut buf = [1u8; 8];
    memset(&mut buf, 0x1_41, 5);
    assert_eq!(buf, [0x41, 0x41, 0x41, 0x41, 0x41, 1, 1, 1]);
}

#[test]
fn memset_of_negative_value_truncates() {
    let mut buf = [0u8; 3];
    memset(&mut buf, -1, 3);
    assert_eq!(buf, [0xff; 3]);
}

#[test]
fn memcpy_copies_a_prefix() {
    let mut dest = [0u8; 6];
    memcpy(&mut dest, b"kernel", 4);
    assert_eq!(&dest, b"kern\0\0");
}

#[test]
fn memcmp_reports_the_first_difference() {
    assert_eq!(memcmp(b"abcd", b"abzd", 4), b'c' as i32 - b'z' as i32);
    assert_eq!(memcmp(b"abzd", b"abcd", 4), b'z' as i32 - b'c' as i32);
    assert_eq!(memcmp(b"abcd", b"abzd", 2), 0);
    assert_eq!(memcmp(b"", b"", 0), 0);
}

#[test]
fn memcmp_of_a_buffer_with_itself_is_zero() {
    let data = [3u8, 1, 4, 1, 5, 9, 2, 6];
    assert_eq!(memcmp(&data, &data, data.len()), 0);
}

#[test]
fn memcmp_swapped_is_negated() {
    let a = [10u8, 200, 3];
    let b = [10u8, 100, 250];
    assert_eq!(memcmp(&a, &b, 3), -memcmp(&b, &a, 3));
    assert_eq!(memcmp(&a, &b, 3), 100);
}

#[test]
fn memcmp_after_memcpy_is_zero() {
    let src = [9u8, 8, 7, 6, 5];
    let mut dest = [0u8; 5];
    memcpy(&mut dest, &src, 5);
    assert_eq!(memcmp(&dest, &src, 5), 0);
}
