use taurine::{blink, blinking, chill, eyes_shut, text_row, u64_to_decimal, Id, Kernel};

#[test]
fn zero_is_a_single_digit_then_nul_bytes() {
    let (digits, first) = u64_to_decimal(0);
    assert_eq!(first, 0);
    let mut expected = [0u8; 20];
    expected[0] = b'0';
    assert_eq!(digits, expected);
}

#[test]
fn digits_are_right_aligned() {
    let (digits, first) = u64_to_decimal(12345);
    assert_eq!(first, 15);
    assert_eq!(&digits[first..], b"12345");
    assert!(digits[..first].iter().all(|&d| d == 0));
}

#[test]
fn single_digit_value() {
    let (digits, first) = u64_to_decimal(7);
    assert_eq!(first, 19);
    assert_eq!(&digits[first..], b"7");
}

#[test]
fn largest_value_fills_the_buffer() {
    let (digits, first) = u64_to_decimal(u64::MAX);
    assert_eq!(first, 0);
    assert_eq!(&digits[..], b"18446744073709551615");
}

#[test]
fn digits_read_back_to_the_value() {
    for value in [1u64, 9, 10, 99, 100, 4096, 1_000_000_007, u64::MAX / 3] {
        let (digits, first) = u64_to_decimal(value);
        let text = std::str::from_utf8(&digits[first..]).unwrap();
        assert_eq!(text.parse::<u64>().unwrap(), value);
        assert_ne!(digits[first], b'0');
    }
}

#[test]
fn id_sequence_from_the_boot_seed() {
    let mut id = Id::new(0x12345678);
    assert_eq!(&id.next(), b"T39");
    assert_eq!(&id.next(), b"B56");
    assert_eq!(&id.next(), b"M25");
}

#[test]
fn id_names_are_a_letter_and_two_digits() {
    let mut id = Id::new(1);
    for _ in 0..1000 {
        let name = id.next();
        assert!(name[0].is_ascii_uppercase());
        assert!(name[1].is_ascii_digit());
        assert!(name[2].is_ascii_digit());
    }
}

#[test]
fn id_seeded_with_zero_stays_at_zero() {
    let mut id = Id::new(0);
    assert_eq!(&id.next(), b"A00");
    assert_eq!(&id.next(), b"A00");
}

#[test]
fn blinking_mark_is_taken_once() {
    let mut kernel = Kernel::new();
    assert!(!eyes_shut(&mut kernel));
    blinking(&mut kernel);
    assert!(eyes_shut(&mut kernel));
    assert!(!eyes_shut(&mut kernel));
}

#[test]
fn chill_counts_ticks() {
    let mut kernel = Kernel::new();
    chill(&mut kernel);
    chill(&mut kernel);
    chill(&mut kernel);
    assert_eq!(kernel.lifetime, 3);
}

#[test]
fn text_rows_are_sixteen_pixels_apart() {
    assert_eq!(text_row(0), 120);
    assert_eq!(text_row(1), 136);
    assert_eq!(text_row(10), 280);
}

#[test]
fn blink_moves_the_prompt_when_asked() {
    let mut kernel = Kernel::new();
    assert_eq!(blink(&mut kernel, true), (136, 152));
    assert_eq!(kernel.cursor_line, 2);
    assert_eq!(blink(&mut kernel, false), (152, 152));
    assert_eq!(kernel.cursor_line, 2);
    assert!(kernel.printable.as_bytes().is_empty());
}
