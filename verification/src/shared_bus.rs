//! Errors of devices that sit on a shared bus, and how they are classified.
//!
//! A device on a shared I2C or SPI bus can fail in the bus itself or, for SPI,
//! in the chip-select line. Callers that do not know the concrete bus branch
//! on a small fixed set of error kinds instead.

use vstd::prelude::*;

verus! {

/// Which part of an I2C transfer was not acknowledged.
#[derive(Clone, Copy, Debug, PartialEq, Eq, Structural)]
pub enum NoAcknowledgeSource {
    /// The device did not acknowledge its address.
    Address,
    /// The device did not acknowledge the data.
    Data,
    /// It is not known which of the two was not acknowledged.
    Unknown,
}

/// Kinds of I2C errors that generic code can act on.
#[derive(Clone, Copy, Debug, PartialEq, Eq, Structural)]
pub enum I2cErrorKind {
    /// A start or stop condition came at the wrong place.
    Bus,
    /// Arbitration was lost.
    ArbitrationLoss,
    /// A bus operation was not acknowledged.
    NoAcknowledge(NoAcknowledgeSource),
    /// The receive buffer was overrun.
    Overrun,
    /// Any other error.
    Other,
}

/// Kinds of SPI errors that generic code can act on.
#[derive(Clone, Copy, Debug, PartialEq, Eq, Structural)]
pub enum SpiErrorKind {
    /// The receive buffer was overrun.
    Overrun,
    /// Several devices tried to drive the select line.
    ModeFault,
    /// Received data does not fit the configured frame format.
    FrameFormat,
    /// Asserting or deasserting chip select failed in the bus itself.
    ChipSelectFault,
    /// Any other error.
    Other,
}

/// Error of an I2C device on a shared bus.
#[derive(Copy, Clone, Eq, PartialEq, Debug)]
pub enum I2cDeviceError<BUS> {
    /// An operation on the inner I2C bus failed.
    I2c(BUS),
}

/// Error of an SPI device on a shared bus.
#[derive(Copy, Clone, Eq, PartialEq, Debug)]
pub enum SpiDeviceError<BUS, CS> {
    /// An operation on the inner SPI bus failed.
    Spi(BUS),
    /// Setting the chip-select pin failed.
    Cs(CS),
}

impl<BUS> I2cDeviceError<BUS> {
    /// The kind of this error: whatever `bus_kind` makes of the bus error.
    pub fn kind<F: FnOnce(&BUS) -> I2cErrorKind>(&self, bus_kind: F) -> (kind: I2cErrorKind)
        requires
            self matches I2cDeviceError::I2c(e) ==> call_requires(bus_kind, (&e,)),
        ensures
            self matches I2cDeviceError::I2c(e) && call_ensures(bus_kind, (&e,), kind),
    {
        match self {
            Self::I2c(e) => bus_kind(e),
        }
    }
}

impl<BUS, CS> SpiDeviceError<BUS, CS> {
    /// The kind of this error: a bus failure is what `bus_kind` makes of it,
    /// and a chip-select failure is `Other`. `bus_kind` is called for a bus
    /// failure only.
    pub fn kind<F: FnOnce(&BUS) -> SpiErrorKind>(&self, bus_kind: F) -> (kind: SpiErrorKind)
        requires
            self matches SpiDeviceError::Spi(e) ==> call_requires(bus_kind, (&e,)),
        ensures
            match self {
                SpiDeviceError::Spi(e) => call_ensures(bus_kind, (&e,), kind),
                SpiDeviceError::Cs(_) => kind == SpiErrorKind::Other,
            },
    {
        match self {
            Self::Spi(e) => bus_kind(e),
            Self::Cs(_) => SpiErrorKind::Other,
        }
    }
}

} // verus!
