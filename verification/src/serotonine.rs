//! The serial line (COM1): the queues of bytes waiting to be sent and bytes
//! received, the UART set-up, and the line protocol on received bytes.
use vstd::prelude::*;
use vstd::utf8::encode_scalar;
use crate::buffers::{ascii_bytes, text_of, ByteQueue, Text, QUEUE_CAPACITY, TEXT_CAPACITY};
use crate::glucose::bytes_equal;
use crate::{blinking, Kernel, PortWrite};

verus! {

/// Base I/O port of the first serial port.
pub const COM1: u16 = 0x3F8;

/// Data register: bytes to send are written here, received bytes read here.
pub const DATA: u16 = COM1;

/// Interrupt-enable register.
pub const INTERRUPT_ENABLE: u16 = COM1 + 1;

/// FIFO-control register.
pub const FIFO_CONTROL: u16 = COM1 + 2;

/// Line-control register.
pub const LINE_CONTROL: u16 = COM1 + 3;

/// Modem-control register.
pub const MODEM_CONTROL: u16 = COM1 + 4;

/// Line-status register.
pub const LINE_STATUS: u16 = COM1 + 5;

/// The two byte queues of the serial line.
pub struct Serial {
    /// Bytes read from the line and not yet taken by [`check`].
    pub received: ByteQueue,
    /// Bytes waiting to be written to the line.
    pub transmit: ByteQueue,
}

impl Serial {
    /// Neither queue holds more than its capacity.
    pub open spec fn wf(&self) -> bool {
        &&& self.received@.len() <= QUEUE_CAPACITY
        &&& self.transmit@.len() <= QUEUE_CAPACITY
    }

    /// Both queues empty.
    pub fn new() -> (serial: Serial)
        ensures
            serial.received@ == Seq::<u8>::empty(),
            serial.transmit@ == Seq::<u8>::empty(),
            serial.wf(),
    {
        Serial { received: ByteQueue::new(), transmit: ByteQueue::new() }
    }
}

/// A queue after an attempt to append `byte`: a full queue drops it.
pub open spec fn enqueue(queue: Seq<u8>, byte: u8) -> Seq<u8> {
    if queue.len() < QUEUE_CAPACITY {
        queue.push(byte)
    } else {
        queue
    }
}

/// A queue after attempts to append each of `bytes` in order.
pub open spec fn enqueue_all(queue: Seq<u8>, bytes: Seq<u8>) -> Seq<u8>
    decreases bytes.len(),
{
    if bytes.len() == 0 {
        queue
    } else {
        enqueue(enqueue_all(queue, bytes.drop_last()), bytes.last())
    }
}

/// The line the kernel announces itself with: `"HANDSHAKE\n"`.
pub open spec fn handshake_line() -> Seq<u8> {
    seq![72u8, 65u8, 78u8, 68u8, 83u8, 72u8, 65u8, 75u8, 69u8, 10u8]
}

/// The register writes that set COM1 up: interrupts off, divisor 1
/// (115200 baud), 8 data bits with no parity and one stop bit, FIFOs on and
/// cleared, modem lines raised, interrupts off.
pub open spec fn uart_setup() -> Seq<PortWrite> {
    seq![
        PortWrite { port: INTERRUPT_ENABLE, value: 0x00 },
        PortWrite { port: LINE_CONTROL, value: 0x80 },
        PortWrite { port: DATA, value: 0x01 },
        PortWrite { port: INTERRUPT_ENABLE, value: 0x00 },
        PortWrite { port: LINE_CONTROL, value: 0x03 },
        PortWrite { port: FIFO_CONTROL, value: 0xC7 },
        PortWrite { port: MODEM_CONTROL, value: 0x0B },
        PortWrite { port: INTERRUPT_ENABLE, value: 0x00 },
    ]
}

/// Queues `byte` for sending; a full queue drops it.
pub fn send(serial: &mut Serial, byte: u8)
    ensures
        final(serial).transmit@ == enqueue(old(serial).transmit@, byte),
        final(serial).transmit@.len() <= QUEUE_CAPACITY,
        final(serial).received@ == old(serial).received@,
        old(serial).wf() ==> final(serial).wf(),
{
    let _ = serial.transmit.push_back(byte);
}

/// Queues each of `bytes` for sending, in order; those that find the queue
/// full are dropped.
pub fn send_bytes(serial: &mut Serial, bytes: &[u8])
    ensures
        final(serial).transmit@ == enqueue_all(old(serial).transmit@, bytes@),
        final(serial).received@ == old(serial).received@,
        old(serial).transmit@.len() <= QUEUE_CAPACITY ==> final(serial).transmit@.len()
            <= QUEUE_CAPACITY,
        old(serial).wf() ==> final(serial).wf(),
{
    let mut i: usize = 0;
    while i < bytes.len()
        invariant
            i <= bytes@.len(),
            serial.transmit@ == enqueue_all(old(serial).transmit@, bytes@.take(i as int)),
            serial.received@ == old(serial).received@,
            old(serial).transmit@.len() <= QUEUE_CAPACITY ==> serial.transmit@.len()
                <= QUEUE_CAPACITY,
        decreases bytes@.len() - i,
    {
        assert(bytes@.take(i + 1).drop_last() =~= bytes@.take(i as int));
        send(serial, bytes[i]);
        i += 1;
    }
    assert(bytes@.take(i as int) =~= bytes@);
}

/// Takes the oldest received byte, if any.
pub fn check(serial: &mut Serial) -> (byte: Option<u8>)
    ensures
        old(serial).received@.len() == 0 ==> byte is None && final(serial).received@ == old(
            serial,
        ).received@,
        old(serial).received@.len() > 0 ==> byte == Some(old(serial).received@[0])
            && final(serial).received@ == old(serial).received@.drop_first(),
        final(serial).received@.len() <= QUEUE_CAPACITY,
        final(serial).transmit@ == old(serial).transmit@,
        old(serial).wf() ==> final(serial).wf(),
        forall|k: nat|
            #![trigger checks(old(serial).received@, k + 1)]
            checks(old(serial).received@, k + 1) == seq![byte] + checks(
                final(serial).received@,
                k,
            ),
{
    let byte = serial.received.pop_front();
    assert forall|k: nat|
        #![trigger checks(old(serial).received@, k + 1)]
        checks(old(serial).received@, k + 1) == seq![byte] + checks(serial.received@, k) by {
        assert(checks(old(serial).received@, k + 1) == if old(serial).received@.len() == 0 {
            seq![None::<u8>] + checks(old(serial).received@, k)
        } else {
            seq![Some(old(serial).received@[0])] + checks(old(serial).received@.drop_first(), k)
        });
    }
    byte
}

/// Stores a byte read from the line for [`check`]; a full queue drops it.
pub fn deliver(serial: &mut Serial, byte: u8)
    ensures
        final(serial).received@ == enqueue(old(serial).received@, byte),
        final(serial).received@.len() <= QUEUE_CAPACITY,
        final(serial).transmit@ == old(serial).transmit@,
        old(serial).wf() ==> final(serial).wf(),
{
    let _ = serial.received.push_back(byte);
}

/// Whether the line-status register says a received byte is waiting.
pub fn data_ready(line_status: u8) -> (ready: bool)
    ensures
        ready == (line_status & 0x01 != 0),
{
    line_status & 0x01 != 0
}

/// One step of flushing: when the line-status register says the
/// transmitter can take a byte and one is queued, takes the oldest queued
/// byte to be written to [`DATA`]; otherwise nothing is taken and flushing
/// stops.
pub fn next_to_transmit(serial: &mut Serial, line_status: u8) -> (byte: Option<u8>)
    ensures
        (line_status & 0x20 == 0 || old(serial).transmit@.len() == 0) ==> byte is None
            && final(serial).transmit@ == old(serial).transmit@,
        (line_status & 0x20 != 0 && old(serial).transmit@.len() > 0) ==> byte == Some(
            old(serial).transmit@[0],
        ) && final(serial).transmit@ == old(serial).transmit@.drop_first(),
        final(serial).received@ == old(serial).received@,
        old(serial).wf() ==> final(serial).wf(),
{
    if line_status & 0x20 == 0 {
        return None;
    }
    serial.transmit.pop_front()
}

/// Greets the other end of the line: returns the register writes that set
/// the UART up, to be made in order, and queues `"HANDSHAKE\n"` for sending.
pub fn welcome(serial: &mut Serial, _id_str: &str) -> (writes: [PortWrite; 8])
    ensures
        writes@ == uart_setup(),
        final(serial).transmit@ == enqueue_all(old(serial).transmit@, handshake_line()),
        final(serial).received@ == old(serial).received@,
        old(serial).wf() ==> final(serial).wf(),
{
    let writes = [
        PortWrite { port: INTERRUPT_ENABLE, value: 0x00 },
        PortWrite { port: LINE_CONTROL, value: 0x80 },
        PortWrite { port: DATA, value: 0x01 },
        PortWrite { port: INTERRUPT_ENABLE, value: 0x00 },
        PortWrite { port: LINE_CONTROL, value: 0x03 },
        PortWrite { port: FIFO_CONTROL, value: 0xC7 },
        PortWrite { port: MODEM_CONTROL, value: 0x0B },
        PortWrite { port: INTERRUPT_ENABLE, value: 0x00 },
    ];
    let line = "HANDSHAKE\n";
    proof {
        reveal_strlit("HANDSHAKE\n");
    }
    let bytes = ascii_bytes(line);
    assert(bytes@ =~= handshake_line());
    send_bytes(serial, bytes);
    assert(writes@ =~= uart_setup());
    writes
}

/// What a queue holds after attempts to append `bytes`: the bytes that
/// found room, in the order they were queued, after what it held before; the
/// rest are dropped. So bytes leave the queue in the order they were sent.
pub proof fn lemma_enqueue_all_keeps_order(queue: Seq<u8>, bytes: Seq<u8>)
    requires
        queue.len() <= QUEUE_CAPACITY,
    ensures
        bytes.len() <= QUEUE_CAPACITY - queue.len() ==> enqueue_all(queue, bytes) == queue + bytes,
        bytes.len() > QUEUE_CAPACITY - queue.len() ==> enqueue_all(queue, bytes) == queue
            + bytes.take(QUEUE_CAPACITY - queue.len()),
    decreases bytes.len(),
{
    if bytes.len() > 0 {
        let rest = bytes.drop_last();
        lemma_enqueue_all_keeps_order(queue, rest);
        let room: int = QUEUE_CAPACITY - queue.len();
        if rest.len() < room {
            assert((queue + rest).push(bytes.last()) =~= queue + bytes);
        } else {
            assert(rest.take(room) =~= bytes.take(room));
            if rest.len() == room {
                assert(rest =~= bytes.take(room));
            }
        }
    }
}

/// `"HANDSHAKE"`: the line the other end greets with, and the answer shown.
pub open spec fn handshake_word() -> Seq<u8> {
    seq![72u8, 65u8, 78u8, 68u8, 83u8, 72u8, 65u8, 75u8, 69u8]
}

/// `"PING"`.
pub open spec fn ping_word() -> Seq<u8> {
    seq![80u8, 73u8, 78u8, 71u8]
}

/// `"PONG"`.
pub open spec fn pong_word() -> Seq<u8> {
    seq![80u8, 79u8, 78u8, 71u8]
}

/// `"SEROTONINE"`: the name recorded as the handler of lines from the serial
/// port.
pub open spec fn serotonine_word() -> Seq<u8> {
    seq![83u8, 69u8, 82u8, 79u8, 84u8, 79u8, 78u8, 73u8, 78u8, 69u8]
}

/// The text shown for a complete line received on the serial port, if the
/// line is one the kernel knows.
pub open spec fn line_answer(line: Seq<u8>) -> Option<Seq<u8>> {
    if line == handshake_word() {
        Some(handshake_word())
    } else if line == ping_word() {
        Some(pong_word())
    } else {
        None
    }
}

/// The line being received after one more byte that is not a newline: the
/// byte, taken as a character, is appended while its UTF-8 fits, and the
/// line is dropped when it does not.
pub open spec fn line_after(line: Seq<u8>, byte: u8) -> Seq<u8> {
    if line.len() + encode_scalar(byte as u32).len() <= TEXT_CAPACITY {
        line + encode_scalar(byte as u32)
    } else {
        Seq::empty()
    }
}

/// Whether a line is one the kernel knows (`HANDSHAKE` or `PING`), so that a
/// newline ending it moves the prompt down.
pub fn known_line(line: &Text) -> (known: bool)
    ensures
        known == (line_answer(line@) is Some),
{
    let handshake = "HANDSHAKE";
    let ping = "PING";
    proof {
        reveal_strlit("HANDSHAKE");
        reveal_strlit("PING");
    }
    let handshake_bytes = ascii_bytes(handshake);
    let ping_bytes = ascii_bytes(ping);
    assert(handshake_bytes@ =~= handshake_word());
    assert(ping_bytes@ =~= ping_word());
    bytes_equal(line.as_bytes(), handshake_bytes) || bytes_equal(line.as_bytes(), ping_bytes)
}

/// Handles one byte received on the serial port. Bytes other than a newline
/// are collected into the current line. A newline ends the line: a known
/// line (`HANDSHAKE` or `PING`) sets the text to show (`HANDSHAKE` or
/// `PONG`), records `SEROTONINE` as its handler, moves the prompt down a
/// line and asks for the screen to be redrawn; any line is then discarded.
pub fn receive(kernel: &mut Kernel, byte: u8)
    requires
        byte == 10 && line_answer(old(kernel).remote@) is Some ==> old(kernel).cursor_line
            < usize::MAX,
    ensures
        byte == 10 ==> final(kernel).remote@ == Seq::<u8>::empty(),
        byte != 10 ==> final(kernel).remote@ == line_after(old(kernel).remote@, byte),
        byte == 10 && line_answer(old(kernel).remote@) is Some ==> {
            &&& final(kernel).printable@ == line_answer(old(kernel).remote@)->0
            &&& final(kernel).last_command@ == serotonine_word()
            &&& final(kernel).cursor_line == old(kernel).cursor_line + 1
            &&& final(kernel).blinking
        },
        !(byte == 10 && line_answer(old(kernel).remote@) is Some) ==> {
            &&& final(kernel).printable == old(kernel).printable
            &&& final(kernel).last_command == old(kernel).last_command
            &&& final(kernel).cursor_line == old(kernel).cursor_line
            &&& final(kernel).blinking == old(kernel).blinking
        },
        final(kernel).serial == old(kernel).serial,
        final(kernel).lifetime == old(kernel).lifetime,
        !old(kernel).remote@.contains(10u8) && old(kernel).remote@.len() <= TEXT_CAPACITY ==> {
            &&& !final(kernel).remote@.contains(10u8)
            &&& final(kernel).remote@.len() <= TEXT_CAPACITY
        },
        old(kernel).wf() ==> final(kernel).wf(),
{
    proof {
        if !kernel.remote@.contains(10u8) && kernel.remote@.len() <= TEXT_CAPACITY {
            lemma_line_never_holds_newline(kernel.remote@, byte);
        }
    }
    if byte == 10 {
        if known_line(&kernel.remote) {
            let handshake = "HANDSHAKE";
            proof {
                reveal_strlit("HANDSHAKE");
            }
            let handshake_bytes = ascii_bytes(handshake);
            assert(handshake_bytes@ =~= handshake_word());
            if bytes_equal(kernel.remote.as_bytes(), handshake_bytes) {
                kernel.printable = text_of(handshake);
                assert(kernel.printable@ =~= handshake_word());
            } else {
                let pong = "PONG";
                proof {
                    reveal_strlit("PONG");
                }
                kernel.printable = text_of(pong);
                assert(kernel.printable@ =~= pong_word());
            }
            let handler = "SEROTONINE";
            proof {
                reveal_strlit("SEROTONINE");
            }
            kernel.last_command = text_of(handler);
            assert(kernel.last_command@ =~= serotonine_word());
            kernel.cursor_line = kernel.cursor_line + 1;
            blinking(kernel);
        }
        kernel.remote.clear();
    } else if !kernel.remote.push(byte as char) {
        kernel.remote.clear();
    }
}

/// The line being received never holds more than 32 bytes.
pub proof fn lemma_line_after_fits(line: Seq<u8>, byte: u8)
    ensures
        line_after(line, byte).len() <= TEXT_CAPACITY,
{
}

/// What `k` successive calls of [`check`] return on a received queue that
/// holds `queue`: each takes the front byte, or `None` once it is empty.
pub open spec fn checks(queue: Seq<u8>, k: nat) -> Seq<Option<u8>>
    decreases k,
{
    if k == 0 {
        Seq::empty()
    } else if queue.len() == 0 {
        seq![None::<u8>] + checks(queue, (k - 1) as nat)
    } else {
        seq![Some(queue[0])] + checks(queue.drop_first(), (k - 1) as nat)
    }
}

/// Checking a queue once per byte it holds, and once more, returns its bytes
/// in order and then `None`.
pub proof fn lemma_checks_drain(queue: Seq<u8>)
    ensures
        checks(queue, queue.len() + 1) == queue.map_values(|b: u8| Some(b)) + seq![None::<u8>],
    decreases queue.len(),
{
    if queue.len() == 0 {
        reveal_with_fuel(checks, 2);
        assert(checks(queue, 1) =~= seq![None::<u8>]);
        assert(queue.map_values(|b: u8| Some(b)) + seq![None::<u8>] =~= seq![None::<u8>]);
    } else {
        let rest = queue.drop_first();
        lemma_checks_drain(rest);
        assert(queue.map_values(|b: u8| Some(b)) =~= seq![Some(queue[0])] + rest.map_values(
            |b: u8| Some(b),
        ));
        assert(checks(queue, queue.len() + 1) == seq![Some(queue[0])] + checks(
            rest,
            rest.len() + 1,
        ));
        assert((seq![Some(queue[0])] + rest.map_values(|b: u8| Some(b))) + seq![None::<u8>]
            =~= seq![Some(queue[0])] + (rest.map_values(|b: u8| Some(b)) + seq![None::<u8>]));
    }
}

/// First in, first out: when bytes `b1, ..., bn` (at most 256 of them) are
/// delivered to an empty received queue, the next `n` calls of [`check`]
/// return `Some(b1), ..., Some(bn)` in that order, and the call after them
/// returns `None`. ([`check`]'s contract says that one call returns the
/// first of what `checks` gives and leaves the rest to the following calls.)
pub proof fn lemma_deliver_then_check_in_order(bytes: Seq<u8>)
    requires
        bytes.len() <= QUEUE_CAPACITY,
    ensures
        enqueue_all(Seq::empty(), bytes) == bytes,
        checks(enqueue_all(Seq::empty(), bytes), bytes.len() + 1) == bytes.map_values(
            |b: u8| Some(b),
        ) + seq![None::<u8>],
{
    lemma_enqueue_all_keeps_order(Seq::empty(), bytes);
    assert(Seq::<u8>::empty() + bytes =~= bytes);
    lemma_checks_drain(bytes);
}

/// A byte other than a newline is encoded in UTF-8 without a newline byte.
proof fn lemma_encoding_has_no_newline(byte: u8)
    requires
        byte != 10,
    ensures
        !encode_scalar(byte as u32).contains(10u8),
{
    let x = byte as u32;
    if byte < 128 {
        crate::buffers::lemma_ascii_scalar(byte);
        assert(encode_scalar(x) == seq![byte]);
        if encode_scalar(x).contains(10u8) {
            let i = choose|i: int| 0 <= i < encode_scalar(x).len() && encode_scalar(x)[i] == 10u8;
            assert(i == 0);
        }
    } else {
        let lead = vstd::utf8::leading_byte_width_2(x);
        let cont = vstd::utf8::last_continuation_byte(x);
        assert(lead >= 128 && cont >= 128) by (bit_vector)
            requires
                lead == 0xC0u8 | (((x >> 6u32) & 0x1Fu32) as u8),
                cont == 0x80u8 | ((x & 0x3Fu32) as u8),
        ;
        assert(encode_scalar(x) == seq![lead, cont]);
        if encode_scalar(x).contains(10u8) {
            let i = choose|i: int| 0 <= i < encode_scalar(x).len() && encode_scalar(x)[i] == 10u8;
            assert(i == 0 || i == 1);
        }
    }
}

/// A newline is never stored in the line being received: it ends the line
/// instead. A line that holds no newline and fits in 32 bytes still does
/// after [`receive`] takes one more byte.
pub proof fn lemma_line_never_holds_newline(line: Seq<u8>, byte: u8)
    requires
        !line.contains(10u8),
        line.len() <= TEXT_CAPACITY,
    ensures
        byte == 10 ==> !Seq::<u8>::empty().contains(10u8),
        byte != 10 ==> !line_after(line, byte).contains(10u8),
        byte != 10 ==> line_after(line, byte).len() <= TEXT_CAPACITY,
{
    if byte != 10 {
        lemma_encoding_has_no_newline(byte);
        let enc = encode_scalar(byte as u32);
        let next = line_after(line, byte);
        if next.contains(10u8) {
            let i = choose|i: int| 0 <= i < next.len() && next[i] == 10u8;
            if line.len() + enc.len() <= TEXT_CAPACITY {
                assert(next == line + enc);
                if i < line.len() {
                    assert(line[i] == 10u8);
                } else {
                    assert(enc[i - line.len()] == 10u8);
                }
            }
        }
    }
}

/// A complete line is answered only when it is exactly `HANDSHAKE` (shown as
/// `HANDSHAKE`) or exactly `PING` (shown as `PONG`); every other line, one
/// that merely begins with `PING` included, gets no answer.
pub proof fn lemma_line_answer_exact(line: Seq<u8>)
    ensures
        line == seq![72u8, 65u8, 78u8, 68u8, 83u8, 72u8, 65u8, 75u8, 69u8] ==> line_answer(line)
            == Some(seq![72u8, 65u8, 78u8, 68u8, 83u8, 72u8, 65u8, 75u8, 69u8]),
        line == seq![80u8, 73u8, 78u8, 71u8] ==> line_answer(line) == Some(
            seq![80u8, 79u8, 78u8, 71u8],
        ),
        line != seq![72u8, 65u8, 78u8, 68u8, 83u8, 72u8, 65u8, 75u8, 69u8] && line != seq![
            80u8,
            73u8,
            78u8,
            71u8,
        ] ==> line_answer(line) is None,
{
    assert(handshake_word() =~= seq![72u8, 65u8, 78u8, 68u8, 83u8, 72u8, 65u8, 75u8, 69u8]);
    assert(ping_word() =~= seq![80u8, 73u8, 78u8, 71u8]);
}

} // verus!
