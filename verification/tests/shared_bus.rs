use coop_executor::shared_bus::{
    I2cDeviceError, I2cErrorKind, NoAcknowledgeSource, SpiDeviceError, SpiErrorKind,
};

#[derive(Debug, Clone, Copy, PartialEq, Eq)]
enum BusFault {
    Nack,
    Lost,
    Overrun,
}

fn i2c_kind(e: &BusFault) -> I2cErrorKind {
    match e {
        BusFault::Nack => I2cErrorKind::NoAcknowledge(NoAcknowledgeSource::Address),
        BusFault::Lost => I2cErrorKind::ArbitrationLoss,
        BusFault::Overrun => I2cErrorKind::Overrun,
    }
}

fn spi_kind(e: &BusFault) -> SpiErrorKind {
    match e {
        BusFault::Overrun => SpiErrorKind::Overrun,
        _ => SpiErrorKind::ModeFault,
    }
}

#[test]
fn i2c_kind_is_the_bus_kind() {
    let e = I2cDeviceError::I2c(BusFault::Nack);
    assert_eq!(e.kind(i2c_kind), I2cErrorKind::NoAcknowledge(NoAcknowledgeSource::Address));
    assert_eq!(I2cDeviceError::I2c(BusFault::Lost).kind(i2c_kind), I2cErrorKind::ArbitrationLoss);
    assert_eq!(I2cDeviceError::I2c(BusFault::Overrun).kind(i2c_kind), I2cErrorKind::Overrun);
}

#[test]
fn spi_bus_kind_passes_through() {
    let e: SpiDeviceError<BusFault, u8> = SpiDeviceError::Spi(BusFault::Overrun);
    assert_eq!(e.kind(spi_kind), SpiErrorKind::Overrun);
    let e: SpiDeviceError<BusFault, u8> = SpiDeviceError::Spi(BusFault::Lost);
    assert_eq!(e.kind(spi_kind), SpiErrorKind::ModeFault);
}

#[test]
fn spi_chip_select_failure_is_other() {
    let e: SpiDeviceError<BusFault, u8> = SpiDeviceError::Cs(3);
    let mut asked = false;
    let kind = e.kind(|_bus: &BusFault| {
        asked = true;
        SpiErrorKind::ChipSelectFault
    });
    assert_eq!(kind, SpiErrorKind::Other);
    assert!(!asked);
}

#[test]
fn device_errors_compare_and_copy() {
    let a: SpiDeviceError<BusFault, u8> = SpiDeviceError::Cs(1);
    let b = a;
    assert_eq!(a, b);
    assert_ne!(a, SpiDeviceError::Spi(BusFault::Nack));
    let c = I2cDeviceError::I2c(BusFault::Nack);
    assert_eq!(c, c.clone());
}
