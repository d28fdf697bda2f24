//! The commands the kernel answers: `MSG=...`, `FAINT`, `MEMTOTAL`,
//! `UPTIME` and `PING`.
use vstd::prelude::*;
use vstd::string::StringSliceAdditionalSpecFns;
use crate::buffers::{ascii_bytes, lemma_ascii_scalar, text_of, Text};
use crate::glucose::bytes_equal;
use crate::serotonine::{enqueue_all, ping_word, pong_word, send, send_bytes};
use crate::{decimal_digits, lemma_decimal_digits_are_digits, u64_to_decimal, Kernel};

verus! {

/// What a region of physical memory is used for.
#[derive(Clone, Copy, Debug, PartialEq, Eq, Structural)]
pub enum MemoryRegionKind {
    /// Free memory the kernel may use.
    Usable,
    /// Memory the bootloader set up (page tables, boot information).
    Bootloader,
    /// A region the UEFI firmware reported, with its memory type.
    UnknownUefi(u32),
    /// A region the BIOS reported, with its E820 type.
    UnknownBios(u32),
}

/// A region of physical memory, from `start` up to `end` (exclusive).
#[derive(Clone, Copy, Debug, PartialEq, Eq, Structural)]
pub struct MemoryRegion {
    pub start: u64,
    pub end: u64,
    pub kind: MemoryRegionKind,
}

/// How many bytes a region contributes to the usable total.
pub open spec fn usable_size(region: MemoryRegion) -> int {
    if region.kind is Usable {
        region.end - region.start
    } else {
        0
    }
}

/// The number of bytes in the usable regions.
pub open spec fn usable_total(regions: Seq<MemoryRegion>) -> int
    decreases regions.len(),
{
    if regions.len() == 0 {
        0
    } else {
        usable_total(regions.drop_last()) + usable_size(regions.last())
    }
}

/// The usable regions can be summed in 64 bits: none ends before it starts
/// and their total fits.
pub open spec fn usable_total_fits(regions: Seq<MemoryRegion>) -> bool {
    &&& forall|i: int|
        0 <= i < regions.len() && (#[trigger] regions[i]).kind is Usable ==> regions[i].start
            <= regions[i].end
    &&& usable_total(regions) <= u64::MAX
}

/// The commands.
#[derive(Clone, Copy, Debug, PartialEq, Eq, Structural)]
pub enum Command {
    /// `MSG=...`: send the whole command, then a newline, on the serial line.
    Msg,
    /// `FAINT`: reset the machine.
    Faint,
    /// `MEMTOTAL`: the number of bytes of usable memory.
    MemTotal,
    /// `UPTIME`: the number of timer ticks since boot.
    Uptime,
    /// `PING`: send `PING` on the serial line.
    Ping,
    /// Anything else.
    Unknown,
}

/// What the kernel answers a command with.
pub enum Reply {
    /// A text to show.
    Text(Text),
    /// Nothing: the machine is to be reset.
    Faint,
}

/// `"MSG"`.
pub open spec fn msg_word() -> Seq<u8> {
    seq![77u8, 83u8, 71u8]
}

/// `"SENT"`.
pub open spec fn sent_word() -> Seq<u8> {
    seq![83u8, 69u8, 78u8, 84u8]
}

/// `"FAINT"`.
pub open spec fn faint_word() -> Seq<u8> {
    seq![70u8, 65u8, 73u8, 78u8, 84u8]
}

/// `"MEMTOTAL"`.
pub open spec fn memtotal_word() -> Seq<u8> {
    seq![77u8, 69u8, 77u8, 84u8, 79u8, 84u8, 65u8, 76u8]
}

/// `"UPTIME"`.
pub open spec fn uptime_word() -> Seq<u8> {
    seq![85u8, 80u8, 84u8, 73u8, 77u8, 69u8]
}

/// `k` is the position of the first `'='` in `bytes`.
pub open spec fn first_equals_at(bytes: Seq<u8>, k: int) -> bool {
    &&& 0 <= k < bytes.len()
    &&& bytes[k] == 61u8
    &&& forall|j: int| 0 <= j < k ==> bytes[j] != 61u8
}

/// The command a line of text stands for. A line holding `'='` is a command
/// name, the `'='` and an argument; only the name `MSG` is known there.
/// Without `'='` the whole line is the name.
pub open spec fn command_of(bytes: Seq<u8>) -> Command {
    if exists|k: int| first_equals_at(bytes, k) {
        let k = choose|k: int| first_equals_at(bytes, k);
        if bytes.take(k) == msg_word() {
            Command::Msg
        } else {
            Command::Unknown
        }
    } else if bytes == faint_word() {
        Command::Faint
    } else if bytes == memtotal_word() {
        Command::MemTotal
    } else if bytes == uptime_word() {
        Command::Uptime
    } else if bytes == ping_word() {
        Command::Ping
    } else {
        Command::Unknown
    }
}

/// `"PING\n"`: what `PING` sends on the serial line.
pub open spec fn ping_line() -> Seq<u8> {
    ping_word().push(10u8)
}

/// The text a number is shown as: its decimal digits, or for zero the digit
/// `'0'` followed by nineteen NUL characters.
pub open spec fn decimal_text(n: nat) -> Seq<u8> {
    if n == 0 {
        seq![48u8] + Seq::new(19, |i: int| 0u8)
    } else {
        decimal_digits(n)
    }
}

/// Two kernel states that differ at most in the bytes waiting to be sent.
pub open spec fn same_but_transmit(a: Kernel, b: Kernel) -> bool {
    &&& a.serial.received@ == b.serial.received@
    &&& a.remote == b.remote
    &&& a.printable == b.printable
    &&& a.last_command == b.last_command
    &&& a.lifetime == b.lifetime
    &&& a.cursor_line == b.cursor_line
    &&& a.blinking == b.blinking
}

/// Reads which command a line of text stands for.
pub fn classify(bytes: &[u8]) -> (command: Command)
    ensures
        command == command_of(bytes@),
{
    let mut i: usize = 0;
    while i < bytes.len()
        invariant
            i <= bytes@.len(),
            forall|j: int| 0 <= j < i ==> bytes@[j] != 61u8,
        decreases bytes@.len() - i,
    {
        if bytes[i] == 61u8 {
            assert(first_equals_at(bytes@, i as int));
            proof {
                let k = choose|k: int| first_equals_at(bytes@, k);
                assert(first_equals_at(bytes@, k));
                if k < i {
                    assert(bytes@[k] != 61u8);
                }
                if k > i {
                    assert(bytes@[i as int] != 61u8);
                }
                assert(k == i);
            }
            let msg = "MSG";
            proof {
                reveal_strlit("MSG");
            }
            let msg_bytes = ascii_bytes(msg);
            assert(msg_bytes@ =~= msg_word());
            let name = vstd::slice::slice_subrange(bytes, 0, i);
            assert(name@ =~= bytes@.take(i as int));
            if bytes_equal(name, msg_bytes) {
                return Command::Msg;
            } else {
                return Command::Unknown;
            }
        }
        i += 1;
    }
    assert(!exists|k: int| first_equals_at(bytes@, k));
    let faint = "FAINT";
    let memtotal = "MEMTOTAL";
    let uptime = "UPTIME";
    let ping = "PING";
    proof {
        reveal_strlit("FAINT");
        reveal_strlit("MEMTOTAL");
        reveal_strlit("UPTIME");
        reveal_strlit("PING");
    }
    let faint_bytes = ascii_bytes(faint);
    let memtotal_bytes = ascii_bytes(memtotal);
    let uptime_bytes = ascii_bytes(uptime);
    let ping_bytes = ascii_bytes(ping);
    assert(faint_bytes@ =~= faint_word());
    assert(memtotal_bytes@ =~= memtotal_word());
    assert(uptime_bytes@ =~= uptime_word());
    assert(ping_bytes@ =~= ping_word());
    if bytes_equal(bytes, faint_bytes) {
        Command::Faint
    } else if bytes_equal(bytes, memtotal_bytes) {
        Command::MemTotal
    } else if bytes_equal(bytes, uptime_bytes) {
        Command::Uptime
    } else if bytes_equal(bytes, ping_bytes) {
        Command::Ping
    } else {
        Command::Unknown
    }
}

/// The total of a prefix of the regions is at most the total of all of them.
proof fn lemma_prefix_total(regions: Seq<MemoryRegion>, i: int)
    requires
        0 <= i <= regions.len(),
        forall|j: int|
            0 <= j < regions.len() && (#[trigger] regions[j]).kind is Usable ==> regions[j].start
                <= regions[j].end,
    ensures
        usable_total(regions.take(i)) <= usable_total(regions),
    decreases regions.len() - i,
{
    if i < regions.len() {
        lemma_prefix_total(regions, i + 1);
        assert(regions.take(i + 1).drop_last() =~= regions.take(i));
        assert(regions.take(i + 1).last() == regions[i]);
    } else {
        assert(regions.take(i) =~= regions);
    }
}

/// The number of bytes of usable memory.
pub fn memtotal(regions: &[MemoryRegion]) -> (total: u64)
    requires
        usable_total_fits(regions@),
    ensures
        total == usable_total(regions@),
{
    let mut total: u64 = 0;
    let mut i: usize = 0;
    while i < regions.len()
        invariant
            i <= regions@.len(),
            usable_total_fits(regions@),
            total == usable_total(regions@.take(i as int)),
        decreases regions@.len() - i,
    {
        proof {
            lemma_prefix_total(regions@, i + 1);
            assert(regions@.take(i + 1).drop_last() =~= regions@.take(i as int));
            assert(regions@.take(i + 1).last() == regions@[i as int]);
        }
        let region = regions[i];
        match region.kind {
            MemoryRegionKind::Usable => {
                total = total + (region.end - region.start);
            },
            _ => {},
        }
        i += 1;
    }
    assert(regions@.take(i as int) =~= regions@);
    total
}

/// The text a number is shown as, built from [`u64_to_decimal`].
pub fn decimal_text_of(value: u64) -> (text: Text)
    ensures
        text@ == decimal_text(value as nat),
{
    let (digits, first) = u64_to_decimal(value);
    proof {
        if value > 0 {
            lemma_decimal_digits_are_digits(value as nat);
        }
    }
    assert forall|j: int| first <= j < 20 implies digits@[j] < 128 by {
        if value == 0 {
            assert(digits@[j] == (seq![48u8] + Seq::new(19, |k: int| 0u8))[j]);
        } else {
            assert(digits@[j] == digits@.subrange(first as int, 20)[j - first]);
        }
    }
    let mut text = Text::new();
    let mut i: usize = first;
    while i < 20
        invariant
            first <= i <= 20,
            digits@.len() == 20,
            value == 0 ==> first == 0 && digits@ == seq![48u8] + Seq::new(19, |j: int| 0u8),
            value > 0 ==> digits@.subrange(first as int, 20) == decimal_digits(value as nat),
            forall|j: int| first <= j < 20 ==> digits@[j] < 128,
            text@ == digits@.subrange(first as int, i as int),
        decreases 20 - i,
    {
        proof {
            if value == 0 {
                assert(digits@[i as int] == (seq![48u8] + Seq::new(19, |j: int| 0u8))[i as int]);
            } else {
                assert(digits@[i as int] == decimal_digits(value as nat)[i - first]);
            }
        }
        let d = digits[i];
        proof {
            lemma_ascii_scalar(d);
        }
        let pushed = text.push(d as char);
        assert(pushed);
        assert(text@ =~= digits@.subrange(first as int, i + 1));
        i += 1;
    }
    assert(digits@.subrange(first as int, 20) =~= decimal_text(value as nat));
    text
}

/// Answers a command typed on the console.
///
/// `MSG=...` sends the whole command and a newline on the serial line and
/// answers `SENT`; `FAINT` asks for a reset; `MEMTOTAL` answers the bytes of
/// usable memory in `regions`; `UPTIME` the ticks since boot; `PING` sends
/// `PING` and a newline and answers `PONG`. Anything else gets an empty
/// answer.
pub fn execute(kernel: &mut Kernel, regions: &[MemoryRegion], command: &str) -> (reply: Reply)
    requires
        command_of(command.spec_bytes()) is Msg ==> command.spec_bytes().len() + 1 <= 64,
        command_of(command.spec_bytes()) is MemTotal ==> usable_total_fits(regions@),
    ensures
        command_of(command.spec_bytes()) is Msg ==> {
            &&& reply is Text
            &&& reply->Text_0@ == sent_word()
            &&& final(kernel).serial.transmit@ == enqueue_all(
                old(kernel).serial.transmit@,
                command.spec_bytes().push(10u8),
            )
            &&& same_but_transmit(*final(kernel), *old(kernel))
        },
        command_of(command.spec_bytes()) is Ping ==> {
            &&& reply is Text
            &&& reply->Text_0@ == pong_word()
            &&& final(kernel).serial.transmit@ == enqueue_all(
                old(kernel).serial.transmit@,
                ping_line(),
            )
            &&& same_but_transmit(*final(kernel), *old(kernel))
        },
        command_of(command.spec_bytes()) is Faint ==> reply is Faint,
        command_of(command.spec_bytes()) is MemTotal ==> reply is Text && reply->Text_0@
            == decimal_text(usable_total(regions@) as nat),
        command_of(command.spec_bytes()) is Uptime ==> reply is Text && reply->Text_0@
            == decimal_text(old(kernel).lifetime as nat),
        command_of(command.spec_bytes()) is Unknown ==> reply is Text && reply->Text_0@
            == Seq::<u8>::empty(),
        !(command_of(command.spec_bytes()) is Msg) && !(command_of(command.spec_bytes()) is Ping)
            ==> *final(kernel) == *old(kernel),
        old(kernel).wf() ==> final(kernel).wf(),
{
    let bytes = command.as_bytes();
    match classify(bytes) {
        Command::Msg => {
            send_bytes(&mut kernel.serial, bytes);
            send(&mut kernel.serial, 10u8);
            assert(bytes@.push(10u8).drop_last() =~= bytes@);
            let sent = "SENT";
            proof {
                reveal_strlit("SENT");
            }
            let text = text_of(sent);
            assert(text@ =~= sent_word());
            Reply::Text(text)
        },
        Command::Faint => Reply::Faint,
        Command::MemTotal => Reply::Text(decimal_text_of(memtotal(regions))),
        Command::Uptime => Reply::Text(decimal_text_of(kernel.lifetime)),
        Command::Ping => {
            let ping = "PING\n";
            proof {
                reveal_strlit("PING\n");
            }
            let line = ascii_bytes(ping);
            assert(line@ =~= ping_line());
            send_bytes(&mut kernel.serial, line);
            let pong = "PONG";
            proof {
                reveal_strlit("PONG");
            }
            let text = text_of(pong);
            assert(text@ =~= pong_word());
            Reply::Text(text)
        },
        Command::Unknown => Reply::Text(Text::new()),
    }
}

/// The keyboard controller's status and command port.
pub const KEYBOARD_CONTROLLER: u16 = 0x64;

/// The keyboard-controller command that pulses the CPU reset line.
pub const RESET_PULSE: u8 = 0xFE;

/// Whether the keyboard controller, given its status byte, can take a
/// command: its input buffer (status bit 1) is empty. `FAINT` waits for
/// this, then writes [`RESET_PULSE`] to [`KEYBOARD_CONTROLLER`].
pub fn reset_ready(status: u8) -> (ready: bool)
    ensures
        ready == (status & 0x02 == 0),
{
    status & 0x02 == 0
}

/// With no regions the usable total is zero; adding a region adds its size
/// when it is usable and nothing otherwise. So every region is counted once.
pub proof fn lemma_usable_total_append(regions: Seq<MemoryRegion>, region: MemoryRegion)
    ensures
        usable_total(Seq::empty()) == 0,
        region.kind is Usable ==> usable_total(regions.push(region)) == usable_total(regions)
            + (region.end - region.start),
        !(region.kind is Usable) ==> usable_total(regions.push(region)) == usable_total(regions),
        region.kind is Usable ==> usable_total(seq![region]) == region.end - region.start,
{
    assert(regions.push(region).drop_last() =~= regions);
    assert(seq![region].drop_last() =~= Seq::<MemoryRegion>::empty());
}

/// The usable total of two lists of regions, one after the other, is the sum
/// of their totals: the order and grouping of the regions do not matter.
pub proof fn lemma_usable_total_concat(first: Seq<MemoryRegion>, second: Seq<MemoryRegion>)
    ensures
        usable_total(first + second) == usable_total(first) + usable_total(second),
    decreases second.len(),
{
    if second.len() == 0 {
        assert(first + second =~= first);
    } else {
        let rest = second.drop_last();
        lemma_usable_total_concat(first, rest);
        assert((first + second).drop_last() =~= first + rest);
        assert((first + second).last() == second.last());
    }
}

/// A line without `'='` names a command only when it is exactly `FAINT`,
/// `MEMTOTAL`, `UPTIME` or `PING`; a line is `MSG` exactly when it begins
/// with `MSG=`; every other line (one that merely begins with a command word
/// included) is unknown.
pub proof fn lemma_command_words_exact(bytes: Seq<u8>)
    ensures
        command_of(bytes) is Faint <==> bytes == seq![70u8, 65u8, 73u8, 78u8, 84u8],
        command_of(bytes) is MemTotal <==> bytes == seq![
            77u8,
            69u8,
            77u8,
            84u8,
            79u8,
            84u8,
            65u8,
            76u8,
        ],
        command_of(bytes) is Uptime <==> bytes == seq![85u8, 80u8, 84u8, 73u8, 77u8, 69u8],
        command_of(bytes) is Ping <==> bytes == seq![80u8, 73u8, 78u8, 71u8],
        command_of(bytes) is Msg <==> bytes.len() >= 4 && bytes.take(4) == seq![
            77u8,
            83u8,
            71u8,
            61u8,
        ],
        command_of(bytes) is Unknown <==> !(command_of(bytes) is Faint) && !(command_of(
            bytes,
        ) is MemTotal) && !(command_of(bytes) is Uptime) && !(command_of(bytes) is Ping) && !(
        command_of(bytes) is Msg),
{
    let has_equals = exists|k: int| first_equals_at(bytes, k);
    if has_equals {
        let k = choose|k: int| first_equals_at(bytes, k);
        assert(first_equals_at(bytes, k));
        assert(bytes != faint_word()) by {
            if bytes == faint_word() {
                assert(bytes[k] == 61u8);
            }
        }
        assert(bytes != memtotal_word()) by {
            if bytes == memtotal_word() {
                assert(bytes[k] == 61u8);
            }
        }
        assert(bytes != uptime_word()) by {
            if bytes == uptime_word() {
                assert(bytes[k] == 61u8);
            }
        }
        assert(bytes != ping_word()) by {
            if bytes == ping_word() {
                assert(bytes[k] == 61u8);
            }
        }
        if bytes.take(k) == msg_word() {
            assert(bytes.take(k).len() == k);
            assert(msg_word().len() == 3);
            assert(k == 3);
            assert forall|j: int| 0 <= j < 3 implies bytes[j] == msg_word()[j] by {
                assert(bytes[j] == bytes.take(k)[j]);
            }
            assert(bytes.take(4) =~= seq![77u8, 83u8, 71u8, 61u8]);
        } else {
            if bytes.len() >= 4 && bytes.take(4) == seq![77u8, 83u8, 71u8, 61u8] {
                assert(bytes[3] == 61u8);
                if k < 3 {
                    assert(bytes[k] == bytes.take(4)[k]);
                }
                if k > 3 {
                    assert(bytes[3] != 61u8);
                }
                assert(k == 3);
                assert forall|j: int| 0 <= j < 3 implies bytes[j] == msg_word()[j] by {
                    assert(bytes[j] == bytes.take(4)[j]);
                }
                assert(bytes.take(k) =~= msg_word());
            }
        }
    } else {
        if bytes.len() >= 4 && bytes.take(4) == seq![77u8, 83u8, 71u8, 61u8] {
            assert(bytes[3] == bytes.take(4)[3]);
            assert forall|j: int| 0 <= j < 3 implies bytes[j] != 61u8 by {
                assert(bytes[j] == bytes.take(4)[j]);
            }
            assert(first_equals_at(bytes, 3));
        }
    }
}

/// The text a nonzero number is shown as reads back to the number itself:
/// ASCII digits, no leading `'0'`, and their value is the number.
pub proof fn lemma_decimal_text_reads_back(n: nat)
    ensures
        n > 0 ==> forall|i: int|
            0 <= i < decimal_text(n).len() ==> 48 <= #[trigger] decimal_text(n)[i] <= 57,
        n > 0 ==> decimal_text(n)[0] != 48,
        n > 0 ==> crate::decimal_value(decimal_text(n)) == n,
        n == 0 ==> decimal_text(n).len() == 20 && decimal_text(n)[0] == 48 && forall|i: int|
            1 <= i < 20 ==> #[trigger] decimal_text(n)[i] == 0,
{
    if n > 0 {
        lemma_decimal_digits_are_digits(n);
        crate::lemma_decimal_digits_round_trip(n);
    } else {
        assert forall|i: int| 1 <= i < 20 implies #[trigger] decimal_text(n)[i] == 0 by {
            assert(decimal_text(n)[i] == Seq::new(19, |j: int| 0u8)[i - 1]);
        }
    }
}

} // verus!
