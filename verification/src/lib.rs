//! Drivers for the LiteX SoC peripherals (I2C master, SPI master, UART and timer).
//!
//! Each driver operation is written as a state machine: it announces the next register access
//! it wants performed, and is told what the register answered. The code that owns the
//! memory-mapped registers performs the accesses; every decision within an operation is made
//! here. Sequencing the operations of an SPI transaction (stopping at the first error, skipping
//! delay operations, handing in-place transfers to the transaction interface) is left to that
//! code.
pub mod litei2cmaster;
pub mod spi;
pub mod timer;
pub mod uart;
