use vstd::prelude::*;

pub mod adrenaline;
pub mod buffers;
pub mod dopamine;
pub mod glucose;
pub mod nicotine;
pub mod serotonine;

use crate::buffers::Text;
use crate::serotonine::Serial;

verus! {

/// A byte to be written to an I/O port.
#[derive(Clone, Copy, Debug, PartialEq, Eq, Structural)]
pub struct PortWrite {
    pub port: u16,
    pub value: u8,
}

/// The ASCII digits of `n` in base ten, most significant first, with no
/// leading zero (zero itself is the single digit `'0'`).
pub open spec fn decimal_digits(n: nat) -> Seq<u8>
    decreases n,
{
    if n < 10 {
        seq![(48 + n) as u8]
    } else {
        decimal_digits(n / 10).push((48 + n % 10) as u8)
    }
}

/// Ten to the power `k`.
pub open spec fn pow10(k: nat) -> nat
    decreases k,
{
    if k == 0 {
        1
    } else {
        10 * pow10((k - 1) as nat)
    }
}

/// A number below `10^k` (with `k >= 1`) has at most `k` decimal digits.
pub proof fn lemma_decimal_digits_len(n: nat, k: nat)
    requires
        1 <= k,
        n < pow10(k),
    ensures
        1 <= decimal_digits(n).len() <= k,
    decreases k,
{
    if n >= 10 {
        assert(pow10(k) == 10 * pow10((k - 1) as nat));
        if k == 1 {
            assert(pow10(0) == 1);
        } else {
            lemma_decimal_digits_len(n / 10, (k - 1) as nat);
        }
    }
}

proof fn lemma_u64_fits_twenty_digits(n: u64)
    ensures
        1 <= decimal_digits(n as nat).len() <= 20,
{
    reveal_with_fuel(pow10, 21);
    assert(pow10(20) == 100000000000000000000nat);
    lemma_decimal_digits_len(n as nat, 20);
}

/// The number that a string of ASCII decimal digits spells.
pub open spec fn decimal_value(digits: Seq<u8>) -> nat
    decreases digits.len(),
{
    if digits.len() == 0 {
        0
    } else {
        10 * decimal_value(digits.drop_last()) + (digits.last() - 48) as nat
    }
}

/// Every byte of `decimal_digits(n)` is an ASCII digit, and the first one is
/// not `'0'` unless `n` is zero.
pub proof fn lemma_decimal_digits_are_digits(n: nat)
    ensures
        forall|i: int|
            0 <= i < decimal_digits(n).len() ==> 48 <= #[trigger] decimal_digits(n)[i] <= 57,
        n > 0 ==> decimal_digits(n)[0] != 48,
    decreases n,
{
    if n >= 10 {
        lemma_decimal_digits_are_digits(n / 10);
        let prefix = decimal_digits(n / 10);
        assert forall|i: int| 0 <= i < decimal_digits(n).len() implies 48
            <= #[trigger] decimal_digits(n)[i] <= 57 by {
            if i < prefix.len() {
                assert(decimal_digits(n)[i] == prefix[i]);
            }
        }
        assert(decimal_digits(n)[0] == prefix[0]);
    }
}

/// Reading the digits back gives the number: `decimal_digits` writes `n` in
/// base ten.
pub proof fn lemma_decimal_digits_round_trip(n: nat)
    ensures
        decimal_value(decimal_digits(n)) == n,
    decreases n,
{
    if n >= 10 {
        lemma_decimal_digits_round_trip(n / 10);
        let d = decimal_digits(n);
        assert(d.drop_last() =~= decimal_digits(n / 10));
        assert(d.last() == 48 + n % 10);
        assert(n == 10 * (n / 10) + n % 10);
        assert(decimal_value(d) == 10 * decimal_value(d.drop_last()) + (d.last() - 48) as nat);
        assert(decimal_value(d.drop_last()) == n / 10);
    } else {
        let d = decimal_digits(n);
        assert(d.drop_last() =~= Seq::<u8>::empty());
        assert(d.last() == 48 + n);
        assert(decimal_value(d) == 10 * decimal_value(d.drop_last()) + (d.last() - 48) as nat);
        assert(decimal_value(d.drop_last()) == 0);
    }
}

/// Writes the decimal digits of `value` right-aligned into a 20-byte buffer
/// and returns the buffer with the index of the first digit.
///
/// For `value == 0` the buffer holds `'0'` at index 0 followed by nineteen
/// zero bytes, and the returned index is 0.
pub fn u64_to_decimal(value: u64) -> (result: ([u8; 20], usize))
    ensures
        value == 0 ==> result.1 == 0 && result.0@ == seq![48u8] + Seq::new(19, |i: int| 0u8),
        value > 0 ==> {
            &&& result.1 + decimal_digits(value as nat).len() == 20
            &&& result.0@.subrange(result.1 as int, 20) == decimal_digits(value as nat)
            &&& forall|i: int| 0 <= i < result.1 ==> result.0@[i] == 0u8
        },
{
    let mut value = value;
    let mut digits = [0u8; 20];
    let mut first_digit: usize = 20;
    if value == 0 {
        digits[0] = 48u8;
        assert(digits@ =~= seq![48u8] + Seq::new(19, |i: int| 0u8));
        return (digits, 0);
    }
    let ghost original: nat = value as nat;
    proof {
        lemma_u64_fits_twenty_digits(value);
        assert(digits@.subrange(20, 20) =~= Seq::<u8>::empty());
        assert(decimal_digits(original) + digits@.subrange(20, 20) =~= decimal_digits(original));
    }
    while value > 0
        invariant
            first_digit <= 20,
            digits@.len() == 20,
            1 <= decimal_digits(original).len() <= 20,
            value > 0 ==> decimal_digits(value as nat) + digits@.subrange(first_digit as int, 20)
                == decimal_digits(original),
            value == 0 ==> digits@.subrange(first_digit as int, 20) == decimal_digits(original),
            forall|i: int| 0 <= i < first_digit ==> digits@[i] == 0u8,
        decreases value,
    {
        let ghost old_suffix = digits@.subrange(first_digit as int, 20);
        assert(first_digit > 0) by {
            assert((decimal_digits(value as nat) + old_suffix).len() == decimal_digits(
                original,
            ).len());
            if value >= 10 {
                lemma_u64_fits_twenty_digits(value / 10);
            }
        }
        first_digit -= 1;
        let d: u8 = (value % 10) as u8;
        digits[first_digit] = 48u8 + d;
        proof {
            let new_suffix = digits@.subrange(first_digit as int, 20);
            assert(new_suffix =~= seq![(48 + value % 10) as u8] + old_suffix);
            if value >= 10 {
                let dv = decimal_digits((value / 10) as nat);
                assert(decimal_digits(value as nat) == dv.push((48 + value % 10) as u8));
                assert(dv.push((48 + value % 10) as u8) + old_suffix =~= dv + new_suffix);
            } else {
                assert(decimal_digits(value as nat) =~= seq![(48 + value % 10) as u8]);
            }
        }
        value /= 10;
    }
    (digits, first_digit)
}

/// One round of the xorshift generator on 32 bits.
pub open spec fn xorshift32(x: u32) -> u32 {
    let a = x ^ (x << 13u32);
    let b = a ^ (a >> 17u32);
    b ^ (b << 5u32)
}

/// The three characters a state names: an upper-case letter and two digits.
pub open spec fn id_chars(x: u32) -> Seq<u8> {
    seq![(65 + x % 26) as u8, (48 + (x / 26) % 10) as u8, (48 + (x / 260) % 10) as u8]
}

/// A generator of short machine names.
pub struct Id {
    state: u32,
}

impl View for Id {
    type V = u32;

    closed spec fn view(&self) -> u32 {
        self.state
    }
}

impl Id {
    /// A generator whose state is `seed`.
    pub fn new(seed: u32) -> (id: Id)
        ensures
            id@ == seed,
    {
        Id { state: seed }
    }

    /// Advances the state by one xorshift round and names the new state.
    pub fn next(&mut self) -> (name: [u8; 3])
        ensures
            final(self)@ == xorshift32(old(self)@),
            name@ == id_chars(final(self)@),
            65 <= name@[0] <= 90,
            48 <= name@[1] <= 57,
            48 <= name@[2] <= 57,
    {
        let mut x = self.state;
        x ^= x << 13u32;
        x ^= x >> 17u32;
        x ^= x << 5u32;
        self.state = x;
        let name = [65u8 + (x % 26) as u8, 48u8 + ((x / 26) % 10) as u8, 48u8 + ((x / 260) % 10) as u8];
        assert(name@ =~= id_chars(x));
        name
    }
}

/// The xorshift round maps a nonzero state to a nonzero state, so a generator
/// seeded with a nonzero value never falls into the all-zero state.
pub proof fn lemma_xorshift32_nonzero(x: u32)
    requires
        x != 0,
    ensures
        xorshift32(x) != 0,
{
    let a = x ^ (x << 13u32);
    let b = a ^ (a >> 17u32);
    assert(a != 0) by (bit_vector)
        requires
            x != 0,
            a == x ^ (x << 13u32),
    ;
    assert(b != 0) by (bit_vector)
        requires
            a != 0,
            b == a ^ (a >> 17u32),
    ;
    assert(b ^ (b << 5u32) != 0) by (bit_vector)
        requires
            b != 0,
    ;
}

/// The kernel's global state.
pub struct Kernel {
    /// The serial line's queues.
    pub serial: Serial,
    /// The line being received on the serial port.
    pub remote: Text,
    /// The answer to the last recognised line, to be shown.
    pub printable: Text,
    /// Who handled the last recognised line.
    pub last_command: Text,
    /// Timer ticks since boot.
    pub lifetime: u64,
    /// The screen line the prompt stands on.
    pub cursor_line: usize,
    /// Whether the screen has something new to show.
    pub blinking: bool,
}

impl Kernel {
    /// The state the kernel keeps between calls: the serial queues within
    /// their capacity, and the line being received within 32 bytes and free
    /// of newlines.
    pub open spec fn wf(&self) -> bool {
        &&& self.serial.wf()
        &&& !self.remote@.contains(10u8)
        &&& self.remote@.len() <= crate::buffers::TEXT_CAPACITY
    }

    /// The state at boot: queues and texts empty, no tick yet, the prompt
    /// on line 1, nothing to show.
    pub fn new() -> (kernel: Kernel)
        ensures
            kernel.serial.received@ == Seq::<u8>::empty(),
            kernel.serial.transmit@ == Seq::<u8>::empty(),
            kernel.remote@ == Seq::<u8>::empty(),
            kernel.printable@ == Seq::<u8>::empty(),
            kernel.last_command@ == Seq::<u8>::empty(),
            kernel.lifetime == 0,
            kernel.cursor_line == 1,
            !kernel.blinking,
            kernel.wf(),
    {
        Kernel {
            serial: Serial::new(),
            remote: Text::new(),
            printable: Text::new(),
            last_command: Text::new(),
            lifetime: 0,
            cursor_line: 1,
            blinking: false,
        }
    }
}

/// Counts one timer tick.
pub fn chill(kernel: &mut Kernel)
    requires
        old(kernel).lifetime < u64::MAX,
    ensures
        final(kernel).lifetime == old(kernel).lifetime + 1,
        final(kernel).serial == old(kernel).serial,
        final(kernel).remote == old(kernel).remote,
        final(kernel).printable == old(kernel).printable,
        final(kernel).last_command == old(kernel).last_command,
        final(kernel).cursor_line == old(kernel).cursor_line,
        final(kernel).blinking == old(kernel).blinking,
        old(kernel).wf() ==> final(kernel).wf(),
{
    kernel.lifetime = kernel.lifetime + 1;
}

/// Marks the screen as having something new to show.
pub fn blinking(kernel: &mut Kernel)
    ensures
        final(kernel).blinking,
        final(kernel).serial == old(kernel).serial,
        final(kernel).remote == old(kernel).remote,
        final(kernel).printable == old(kernel).printable,
        final(kernel).last_command == old(kernel).last_command,
        final(kernel).lifetime == old(kernel).lifetime,
        final(kernel).cursor_line == old(kernel).cursor_line,
        old(kernel).wf() ==> final(kernel).wf(),
{
    kernel.blinking = true;
}

/// Takes the mark set by [`blinking`]: returns whether it was set and clears
/// it.
pub fn eyes_shut(kernel: &mut Kernel) -> (was_set: bool)
    ensures
        was_set == old(kernel).blinking,
        !final(kernel).blinking,
        final(kernel).serial == old(kernel).serial,
        final(kernel).remote == old(kernel).remote,
        final(kernel).printable == old(kernel).printable,
        final(kernel).last_command == old(kernel).last_command,
        final(kernel).lifetime == old(kernel).lifetime,
        final(kernel).cursor_line == old(kernel).cursor_line,
        old(kernel).wf() ==> final(kernel).wf(),
{
    let was_set = kernel.blinking;
    kernel.blinking = false;
    was_set
}

/// The pixel row of the text on screen line `line`.
pub open spec fn row_of(line: int) -> int {
    120 + 16 * line
}

/// The pixel row of the text on screen line `line`.
pub fn text_row(line: usize) -> (row: usize)
    requires
        row_of(line as int) <= usize::MAX,
    ensures
        row == row_of(line as int),
{
    120 + 16 * line
}

/// Shows what is new: returns the row to write the last command's text on
/// and the row to write the next prompt on; the prompt moves down a line when
/// `advance` holds, and the text to show is cleared.
pub fn blink(kernel: &mut Kernel, advance: bool) -> (rows: (usize, usize))
    requires
        row_of(old(kernel).cursor_line as int) <= usize::MAX,
        advance ==> row_of(old(kernel).cursor_line + 1) <= usize::MAX,
    ensures
        rows.0 == row_of(old(kernel).cursor_line as int),
        final(kernel).cursor_line == if advance {
            old(kernel).cursor_line + 1
        } else {
            old(kernel).cursor_line as int
        },
        rows.1 == row_of(final(kernel).cursor_line as int),
        final(kernel).printable@ == Seq::<u8>::empty(),
        final(kernel).serial == old(kernel).serial,
        final(kernel).remote == old(kernel).remote,
        final(kernel).last_command == old(kernel).last_command,
        final(kernel).lifetime == old(kernel).lifetime,
        final(kernel).blinking == old(kernel).blinking,
        old(kernel).wf() ==> final(kernel).wf(),
{
    let command_row = text_row(kernel.cursor_line);
    if advance {
        kernel.cursor_line = kernel.cursor_line + 1;
    }
    let prompt_row = text_row(kernel.cursor_line);
    kernel.printable.clear();
    (command_row, prompt_row)
}

} // verus!
