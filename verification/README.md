# litex_hal

Drivers for LiteX SoC peripherals: the litei2c I2C master, the SPI master, the UART and the
timer (as a delay source).

## Layout

- `src/` is the verified library. Each driver is a state machine: it names the next register
  access it needs (`action`) and is moved on with what that access gave (`advance`). The
  contracts state every transition over a view of the machine, and the laws describe whole
  runs against a well-behaved device.
  - `litei2cmaster.rs`: speed modes and errors; packing of bytes into bus words; the plan of
    bus transfers for a list of operations; the transaction state machine.
  - `spi.rs`: one exchange (read, write, transfer, in-place transfer) with the SPI master.
  - `uart.rs`: writing, reading and flushing the UART.
  - `timer.rs`: the countdown value for a delay and the timer programming sequence.
- `app/` holds the macros that generate a driver type per peripheral of a peripheral access
  crate: they perform the register accesses the machines ask for and implement the
  embedded-hal / embedded-io traits.
- `tests/` runs the machines against simulated devices.
