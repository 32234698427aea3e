use core::convert::Infallible;

use olivaw::hal::I2c;
use olivaw::mpu6050::{AccelRange, Error, GyroRange, Mpu6050, ADDR_DEFAULT, REG_PWR_MGMT_1, REG_WHO_AM_I};

/// Register-level I2C mock: a tiny register file plus a write log.
struct MockBus {
    regs: [u8; 128],
    writes: Vec<(u8, u8)>,
}

impl MockBus {
    fn new(who_am_i: u8) -> Self {
        let mut regs = [0u8; 128];
        regs[REG_WHO_AM_I as usize] = who_am_i;
        Self { regs, writes: Vec::new() }
    }
}

impl I2c for MockBus {
    type Error = Infallible;

    fn write(&mut self, _address: u8, bytes: &[u8]) -> Result<(), Infallible> {
        if bytes.len() > 1 {
            self.regs[bytes[0] as usize] = bytes[1];
            self.writes.push((bytes[0], bytes[1]));
        }
        Ok(())
    }

    fn write_read(&mut self, _address: u8, bytes: &[u8], buf: &mut [u8]) -> Result<(), Infallible> {
        let reg_ptr = bytes[0] as usize;
        for (i, slot) in buf.iter_mut().enumerate() {
            *slot = self.regs[reg_ptr + i];
        }
        Ok(())
    }
}

#[test]
fn init_wakes_a_recognized_chip() {
    let mut imu = Mpu6050::new(MockBus::new(0x68), ADDR_DEFAULT);
    imu.init().unwrap();
    let bus = imu.release();
    assert!(bus.writes.contains(&(REG_PWR_MGMT_1, 0x01)), "must wake from sleep");
}

#[test]
fn init_rejects_unknown_chips() {
    let mut imu = Mpu6050::new(MockBus::new(0x42), ADDR_DEFAULT);
    assert_eq!(imu.init(), Err(Error::UnknownDevice(0x42)));
}

#[test]
fn init_writes_the_documented_sequence() {
    let mut imu = Mpu6050::new(MockBus::new(0x70), ADDR_DEFAULT);
    imu.init().unwrap();
    let bus = imu.release();
    assert_eq!(bus.writes, vec![(0x6B, 0x01), (0x19, 0x00), (0x1A, 0x03), (0x1C, 0x00), (0x1B, 0x00)]);
}

#[test]
fn range_changes_write_the_config_registers() {
    let mut imu = Mpu6050::new(MockBus::new(0x68), ADDR_DEFAULT);
    imu.set_accel_range(AccelRange::G16).unwrap();
    imu.set_gyro_range(GyroRange::Dps500).unwrap();
    let bus = imu.release();
    assert_eq!(bus.writes, vec![(0x1C, 0x18), (0x1B, 0x08)]);
}

#[test]
fn raw_burst_decodes_big_endian_words() {
    let mut bus = MockBus::new(0x68);
    bus.regs[0x3F] = 0x40; // ACCEL_ZOUT_H: +16384
    let neg = (-131i16).to_be_bytes();
    bus.regs[0x43] = neg[0];
    bus.regs[0x44] = neg[1];
    let mut imu = Mpu6050::new(bus, ADDR_DEFAULT);
    imu.init().unwrap();
    let s = imu.read_raw().unwrap();
    assert_eq!(s.accel, [0, 0, 16384]);
    assert_eq!(s.temp, 0);
    assert_eq!(s.gyro, [-131, 0, 0]);
}

#[test]
fn range_bits_select_the_full_scale() {
    assert_eq!(AccelRange::G2.bits(), 0);
    assert_eq!(AccelRange::G4.bits(), 8);
    assert_eq!(AccelRange::G8.bits(), 16);
    assert_eq!(AccelRange::G16.bits(), 24);
    assert_eq!(GyroRange::Dps2000.bits(), 24);
}

/// A bus whose every transfer fails.
struct DeadBus;

impl I2c for DeadBus {
    type Error = ();

    fn write(&mut self, _address: u8, _bytes: &[u8]) -> Result<(), ()> {
        Err(())
    }

    fn write_read(&mut self, _address: u8, _bytes: &[u8], _buf: &mut [u8]) -> Result<(), ()> {
        Err(())
    }
}

#[test]
fn an_accepted_range_change_is_kept() {
    let mut imu = Mpu6050::new(MockBus::new(0x68), ADDR_DEFAULT);
    imu.set_accel_range(AccelRange::G4).unwrap();
    assert_eq!(imu.accel_range(), AccelRange::G4);
    let bus = imu.release();
    assert_eq!(bus.writes, vec![(0x1C, 0x08)]);
}

#[test]
fn a_refused_range_change_keeps_the_old_range() {
    let mut imu = Mpu6050::new(DeadBus, ADDR_DEFAULT);
    let before = imu.accel_range();
    assert_eq!(imu.set_accel_range(AccelRange::G16), Err(Error::I2c(())));
    assert_eq!(imu.accel_range(), before);
}
