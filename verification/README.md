# taurine

The logic of the Taurine hobby kernel as a verified library, with the
kernel's hardware side around it.

- `src/` — the library, verified with Verus:
  - `lib.rs`: the kernel state (`Kernel`), decimal formatting
    (`u64_to_decimal`), the machine-name generator (`Id`), the tick counter
    and the redraw flag, and the prompt's screen rows.
  - `adrenaline.rs`: the register writes that start the interval timer.
  - `buffers.rs`: the `heapless` queue and string the kernel keeps its serial
    bytes and short texts in, behind small trusted wrappers.
  - `dopamine.rs`: the block-storage trait.
  - `glucose.rs`: `memset`, `memcpy`, `memcmp` on byte slices.
  - `nicotine.rs`: the console commands (`MSG=`, `FAINT`, `MEMTOTAL`,
    `UPTIME`, `PING`).
  - `serotonine.rs`: the serial line: send and receive queues, UART set-up
    and the line protocol on received bytes.
- `app/` — the kernel around the library: boot entry, port I/O, the
  interrupt table and controllers, and the main loop.
- `tests/` — tests of the library on concrete values.
