use taurine::nicotine::{
    classify, execute, memtotal, reset_ready, Command, MemoryRegion, MemoryRegionKind, Reply,
};
use taurine::serotonine::next_to_transmit;
use taurine::{chill, Kernel};

fn text(reply: &Reply) -> Vec<u8> {
    match reply {
        Reply::Text(t) => t.as_bytes().to_vec(),
        Reply::Faint => panic!("expected a text reply"),
    }
}

fn drain(kernel: &mut Kernel) -> Vec<u8> {
    let mut out = Vec::new();
    while let Some(byte) = next_to_transmit(&mut kernel.serial, 0x20) {
        out.push(byte);
    }
    out
}

fn regions() -> Vec<MemoryRegion> {
    vec![
        MemoryRegion { start: 0x1000, end: 0x9000, kind: MemoryRegionKind::Usable },
        MemoryRegion { start: 0x9000, end: 0xA000, kind: MemoryRegionKind::Bootloader },
        MemoryRegion { start: 0x10_0000, end: 0x20_0000, kind: MemoryRegionKind::Usable },
        MemoryRegion { start: 0xF000, end: 0xF100, kind: MemoryRegionKind::UnknownBios(2) },
        MemoryRegion { start: 0xE000, end: 0xE100, kind: MemoryRegionKind::UnknownUefi(7) },
    ]
}

#[test]
fn classify_reads_the_commands() {
    assert_eq!(classify(b"MSG=hi"), Command::Msg);
    assert_eq!(classify(b"MSG="), Command::Msg);
    assert_eq!(classify(b"MSG=a=b"), Command::Msg);
    assert_eq!(classify(b"MSX=hi"), Command::Unknown);
    assert_eq!(classify(b"=MSG"), Command::Unknown);
    assert_eq!(classify(b"FAINT"), Command::Faint);
    assert_eq!(classify(b"MEMTOTAL"), Command::MemTotal);
    assert_eq!(classify(b"UPTIME"), Command::Uptime);
    assert_eq!(classify(b"PING"), Command::Ping);
    assert_eq!(classify(b"PING=1"), Command::Unknown);
    assert_eq!(classify(b"MSG"), Command::Unknown);
    assert_eq!(classify(b"ping"), Command::Unknown);
    assert_eq!(classify(b""), Command::Unknown);
}

#[test]
fn msg_sends_the_whole_command_and_answers_sent() {
    let mut kernel = Kernel::new();
    let reply = execute(&mut kernel, &[], "MSG=hello");
    assert_eq!(text(&reply), b"SENT");
    assert_eq!(drain(&mut kernel), b"MSG=hello\n");
}

#[test]
fn ping_sends_ping_and_answers_pong() {
    let mut kernel = Kernel::new();
    let reply = execute(&mut kernel, &[], "PING");
    assert_eq!(text(&reply), b"PONG");
    assert_eq!(drain(&mut kernel), b"PING\n");
}

#[test]
fn faint_asks_for_a_reset() {
    let mut kernel = Kernel::new();
    assert!(matches!(execute(&mut kernel, &[], "FAINT"), Reply::Faint));
    assert!(drain(&mut kernel).is_empty());
}

#[test]
fn uptime_answers_the_ticks() {
    let mut kernel = Kernel::new();
    for _ in 0..42 {
        chill(&mut kernel);
    }
    assert_eq!(text(&execute(&mut kernel, &[], "UPTIME")), b"42");
}

#[test]
fn uptime_at_boot_is_zero_followed_by_nul_characters() {
    let mut kernel = Kernel::new();
    let mut expected = vec![b'0'];
    expected.extend_from_slice(&[0u8; 19]);
    assert_eq!(text(&execute(&mut kernel, &[], "UPTIME")), expected);
}

#[test]
fn memtotal_sums_the_usable_regions() {
    let mut kernel = Kernel::new();
    let total = 0x8000u64 + 0x10_0000;
    assert_eq!(memtotal(&regions()), total);
    assert_eq!(text(&execute(&mut kernel, &regions(), "MEMTOTAL")), total.to_string().as_bytes());
}

#[test]
fn memtotal_without_usable_memory() {
    assert_eq!(memtotal(&[]), 0);
    let only_boot = [MemoryRegion { start: 0, end: 10, kind: MemoryRegionKind::Bootloader }];
    assert_eq!(memtotal(&only_boot), 0);
}

#[test]
fn unknown_commands_get_an_empty_answer() {
    let mut kernel = Kernel::new();
    for command in ["HELLO", "MSGX=1", "", "ping", "UPTIME=3"] {
        assert!(text(&execute(&mut kernel, &[], command)).is_empty());
    }
    assert!(drain(&mut kernel).is_empty());
}

#[test]
fn reset_waits_for_an_empty_input_buffer() {
    assert!(reset_ready(0x00));
    assert!(reset_ready(0xFD));
    assert!(!reset_ready(0x02));
    assert!(!reset_ready(0xFF));
}
