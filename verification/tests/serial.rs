use taurine::serotonine::{
    check, data_ready, deliver, known_line, next_to_transmit, receive, send, send_bytes, welcome, Serial,
    DATA, FIFO_CONTROL, INTERRUPT_ENABLE, LINE_CONTROL, MODEM_CONTROL,
};
use taurine::{Kernel, PortWrite};

const READY: u8 = 0x20;

fn drain(serial: &mut Serial) -> Vec<u8> {
    let mut out = Vec::new();
    while let Some(byte) = next_to_transmit(serial, READY) {
        out.push(byte);
    }
    out
}

fn feed(kernel: &mut Kernel, bytes: &[u8]) {
    for &byte in bytes {
        receive(kernel, byte);
    }
}

#[test]
fn sent_bytes_leave_in_order() {
    let mut serial = Serial::new();
    send(&mut serial, b'a');
    send_bytes(&mut serial, b"bcd");
    assert_eq!(drain(&mut serial), b"abcd");
    assert_eq!(next_to_transmit(&mut serial, READY), None);
}

#[test]
fn transmit_queue_drops_bytes_beyond_its_capacity() {
    let mut serial = Serial::new();
    let bytes: Vec<u8> = (0..300u32).map(|i| (i % 256) as u8).collect();
    send_bytes(&mut serial, &bytes);
    let out = drain(&mut serial);
    assert_eq!(out.len(), 256);
    assert_eq!(&out[..], &bytes[..256]);
}

#[test]
fn busy_transmitter_takes_nothing() {
    let mut serial = Serial::new();
    send(&mut serial, b'x');
    assert_eq!(next_to_transmit(&mut serial, 0x00), None);
    assert_eq!(next_to_transmit(&mut serial, 0xDF), None);
    assert_eq!(next_to_transmit(&mut serial, 0x60), Some(b'x'));
}

#[test]
fn received_bytes_are_checked_in_order() {
    let mut serial = Serial::new();
    assert_eq!(check(&mut serial), None);
    deliver(&mut serial, 1);
    deliver(&mut serial, 2);
    assert_eq!(check(&mut serial), Some(1));
    assert_eq!(check(&mut serial), Some(2));
    assert_eq!(check(&mut serial), None);
}

#[test]
fn receive_queue_drops_bytes_beyond_its_capacity() {
    let mut serial = Serial::new();
    for i in 0..257u32 {
        deliver(&mut serial, (i % 200) as u8);
    }
    let mut count = 0;
    while check(&mut serial).is_some() {
        count += 1;
    }
    assert_eq!(count, 256);
}

#[test]
fn data_ready_reads_bit_zero() {
    assert!(data_ready(0x01));
    assert!(data_ready(0x61));
    assert!(!data_ready(0x60));
}

#[test]
fn welcome_sets_up_the_uart_and_says_handshake() {
    let mut serial = Serial::new();
    let writes = welcome(&mut serial, "T39");
    let expected = [
        PortWrite { port: INTERRUPT_ENABLE, value: 0x00 },
        PortWrite { port: LINE_CONTROL, value: 0x80 },
        PortWrite { port: DATA, value: 0x01 },
        PortWrite { port: INTERRUPT_ENABLE, value: 0x00 },
        PortWrite { port: LINE_CONTROL, value: 0x03 },
        PortWrite { port: FIFO_CONTROL, value: 0xC7 },
        PortWrite { port: MODEM_CONTROL, value: 0x0B },
        PortWrite { port: INTERRUPT_ENABLE, value: 0x00 },
    ];
    assert_eq!(writes, expected);
    assert_eq!(INTERRUPT_ENABLE, 0x3F9);
    assert_eq!(drain(&mut serial), b"HANDSHAKE\n");
}

#[test]
fn ping_line_is_answered_with_pong() {
    let mut kernel = Kernel::new();
    feed(&mut kernel, b"PING\n");
    assert_eq!(kernel.printable.as_bytes(), b"PONG");
    assert_eq!(kernel.last_command.as_bytes(), b"SEROTONINE");
    assert_eq!(kernel.cursor_line, 2);
    assert!(kernel.blinking);
    assert!(kernel.remote.as_bytes().is_empty());
}

#[test]
fn handshake_line_is_shown() {
    let mut kernel = Kernel::new();
    feed(&mut kernel, b"HANDSHAKE\n");
    assert_eq!(kernel.printable.as_bytes(), b"HANDSHAKE");
    assert_eq!(kernel.last_command.as_bytes(), b"SEROTONINE");
    assert_eq!(kernel.cursor_line, 2);
}

#[test]
fn unknown_line_is_discarded() {
    let mut kernel = Kernel::new();
    feed(&mut kernel, b"HELLO\n");
    assert!(kernel.printable.as_bytes().is_empty());
    assert!(kernel.last_command.as_bytes().is_empty());
    assert_eq!(kernel.cursor_line, 1);
    assert!(!kernel.blinking);
    assert!(kernel.remote.as_bytes().is_empty());
}

#[test]
fn partial_line_is_kept() {
    let mut kernel = Kernel::new();
    feed(&mut kernel, b"PIN");
    assert_eq!(kernel.remote.as_bytes(), b"PIN");
    assert!(kernel.printable.as_bytes().is_empty());
}

#[test]
fn overlong_line_is_dropped() {
    let mut kernel = Kernel::new();
    feed(&mut kernel, &[b'x'; 32]);
    assert_eq!(kernel.remote.as_bytes().len(), 32);
    receive(&mut kernel, b'y');
    assert!(kernel.remote.as_bytes().is_empty());
    feed(&mut kernel, b"PING\n");
    assert_eq!(kernel.printable.as_bytes(), b"PONG");
}

#[test]
fn high_bytes_take_two_bytes_of_room() {
    let mut kernel = Kernel::new();
    receive(&mut kernel, 0xE9);
    assert_eq!(kernel.remote.as_bytes(), "\u{e9}".as_bytes());
    feed(&mut kernel, &[b'a'; 30]);
    assert_eq!(kernel.remote.as_bytes().len(), 32);
    let mut kernel = Kernel::new();
    feed(&mut kernel, &[b'a'; 31]);
    receive(&mut kernel, 0xE9);
    assert!(kernel.remote.as_bytes().is_empty());
}

#[test]
fn known_lines_are_handshake_and_ping() {
    let mut kernel = Kernel::new();
    assert!(!known_line(&kernel.remote));
    feed(&mut kernel, b"PING");
    assert!(known_line(&kernel.remote));
    let mut kernel = Kernel::new();
    feed(&mut kernel, b"HANDSHAKE");
    assert!(known_line(&kernel.remote));
    receive(&mut kernel, b'!');
    assert!(!known_line(&kernel.remote));
}

#[test]
fn delivered_bytes_come_back_in_order_then_none() {
    let mut serial = Serial::new();
    let bytes: Vec<u8> = (0..256u32).map(|i| (255 - i) as u8).collect();
    for &b in &bytes {
        deliver(&mut serial, b);
    }
    for &b in &bytes {
        assert_eq!(check(&mut serial), Some(b));
    }
    assert_eq!(check(&mut serial), None);
}

#[test]
fn newline_is_never_stored_in_the_line() {
    let mut kernel = Kernel::new();
    feed(&mut kernel, b"AB\nCD\n\nE");
    assert_eq!(kernel.remote.as_bytes(), b"E");
}
