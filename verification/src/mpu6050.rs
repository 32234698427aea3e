//! MPU-6050 / MPU-6500 6-axis IMU driver (I2C): identity check, wake-up,
//! range configuration and the 14-byte burst read.
//!
//! Register map: InvenSense MPU-6000/6050 Register Map rev 4.2. Conversion of
//! the raw words to g, °/s and °C is floating point and lives with the
//! callers; the driver hands back the raw signed words.
use vstd::prelude::*;

use crate::hal::I2c;

verus! {

/// Default I2C address (AD0 low).
pub const ADDR_DEFAULT: u8 = 0x68;
/// I2C address when the AD0 pin is pulled high.
pub const ADDR_AD0_HIGH: u8 = 0x69;

pub const REG_SMPLRT_DIV: u8 = 0x19;
pub const REG_CONFIG: u8 = 0x1A;
pub const REG_GYRO_CONFIG: u8 = 0x1B;
pub const REG_ACCEL_CONFIG: u8 = 0x1C;
pub const REG_ACCEL_XOUT_H: u8 = 0x3B;
pub const REG_PWR_MGMT_1: u8 = 0x6B;
pub const REG_WHO_AM_I: u8 = 0x75;

/// WHO_AM_I values this driver recognizes.
pub const WHO_AM_I_MPU6050: u8 = 0x68;
pub const WHO_AM_I_MPU6500: u8 = 0x70;

/// Driver failure.
#[derive(Debug, Clone, Copy, PartialEq, Eq)]
pub enum Error<E> {
    /// The underlying I2C transaction failed.
    I2c(E),
    /// WHO_AM_I returned a value this driver does not recognize: wrong
    /// address, wrong chip, or a wiring problem. Payload is the byte read.
    UnknownDevice(u8),
}

/// Accelerometer full-scale range. Wider range = coarser resolution.
#[derive(Debug, Clone, Copy, PartialEq, Eq, Structural)]
pub enum AccelRange {
    /// ±2 g (16384 LSB/g), the default.
    G2,
    /// ±4 g (8192 LSB/g).
    G4,
    /// ±8 g (4096 LSB/g).
    G8,
    /// ±16 g (2048 LSB/g).
    G16,
}

/// Gyroscope full-scale range. Wider range = coarser resolution.
#[derive(Debug, Clone, Copy, PartialEq, Eq, Structural)]
pub enum GyroRange {
    /// ±250 °/s (131 LSB/(°/s)), the default.
    Dps250,
    /// ±500 °/s (65.5 LSB/(°/s)).
    Dps500,
    /// ±1000 °/s (32.8 LSB/(°/s)).
    Dps1000,
    /// ±2000 °/s (16.4 LSB/(°/s)).
    Dps2000,
}

impl Default for AccelRange {
    fn default() -> (r: AccelRange)
        ensures
            r == AccelRange::G2,
    {
        AccelRange::G2
    }
}

impl Default for GyroRange {
    fn default() -> (r: GyroRange)
        ensures
            r == GyroRange::Dps250,
    {
        GyroRange::Dps250
    }
}

/// The FS_SEL field of ACCEL_CONFIG for `r` (bits 4:3).
pub open spec fn accel_bits(r: AccelRange) -> u8 {
    match r {
        AccelRange::G2 => 0,
        AccelRange::G4 => 8,
        AccelRange::G8 => 16,
        AccelRange::G16 => 24,
    }
}

/// The FS_SEL field of GYRO_CONFIG for `r` (bits 4:3).
pub open spec fn gyro_bits(r: GyroRange) -> u8 {
    match r {
        GyroRange::Dps250 => 0,
        GyroRange::Dps500 => 8,
        GyroRange::Dps1000 => 16,
        GyroRange::Dps2000 => 24,
    }
}

/// The full scale of an accelerometer range, in g.
pub open spec fn accel_full_scale_g(r: AccelRange) -> nat {
    match r {
        AccelRange::G2 => 2,
        AccelRange::G4 => 4,
        AccelRange::G8 => 8,
        AccelRange::G16 => 16,
    }
}

/// The full scale of a gyroscope range, in °/s.
pub open spec fn gyro_full_scale_dps(r: GyroRange) -> nat {
    match r {
        GyroRange::Dps250 => 250,
        GyroRange::Dps500 => 500,
        GyroRange::Dps1000 => 1000,
        GyroRange::Dps2000 => 2000,
    }
}

/// Two to the power `k`.
pub open spec fn two_to(k: nat) -> nat
    decreases k,
{
    if k == 0 { 1 } else { 2 * two_to((k - 1) as nat) }
}

/// The register value of a range is its FS_SEL index shifted left by 3,
/// where FS_SEL counts the doublings of the full scale over the smallest
/// one (±2 g, ±250 °/s): the full scale is the smallest one times two to
/// the FS_SEL. Distinct ranges therefore get distinct register values,
/// and nothing outside bits 4:3 is set.
pub proof fn law_range_bits_select_the_full_scale(a: AccelRange, b: AccelRange, g: GyroRange, h: GyroRange)
    ensures
        accel_bits(a) % 8 == 0,
        accel_bits(a) / 8 < 4,
        accel_full_scale_g(a) == 2 * two_to((accel_bits(a) / 8) as nat),
        gyro_bits(g) % 8 == 0,
        gyro_bits(g) / 8 < 4,
        gyro_full_scale_dps(g) == 250 * two_to((gyro_bits(g) / 8) as nat),
        a != b ==> accel_bits(a) != accel_bits(b),
        g != h ==> gyro_bits(g) != gyro_bits(h),
{
    assert(two_to(0) == 1 && two_to(1) == 2 && two_to(2) == 4 && two_to(3) == 8) by {
        reveal_with_fuel(two_to, 4);
    }
}

impl AccelRange {
    /// The ACCEL_CONFIG register value selecting this range.
    pub fn bits(self) -> (b: u8)
        ensures
            b == accel_bits(self),
    {
        let sel: u8 = match self {
            AccelRange::G2 => 0,
            AccelRange::G4 => 1,
            AccelRange::G8 => 2,
            AccelRange::G16 => 3,
        };
        sel * 8
    }
}

impl GyroRange {
    /// The GYRO_CONFIG register value selecting this range.
    pub fn bits(self) -> (b: u8)
        ensures
            b == gyro_bits(self),
    {
        let sel: u8 = match self {
            GyroRange::Dps250 => 0,
            GyroRange::Dps500 => 1,
            GyroRange::Dps1000 => 2,
            GyroRange::Dps2000 => 3,
        };
        sel * 8
    }
}

/// The register writes `init` hands the chip after the identity check:
/// wake with the X-gyro PLL clock, 1 kHz sample rate, ~44 Hz low-pass
/// filter, then both full-scale ranges.
pub open spec fn init_writes(accel: AccelRange, gyro: GyroRange) -> Seq<(u8, u8)> {
    seq![
        (REG_PWR_MGMT_1, 0x01u8),
        (REG_SMPLRT_DIV, 0x00u8),
        (REG_CONFIG, 0x03u8),
        (REG_ACCEL_CONFIG, accel_bits(accel)),
        (REG_GYRO_CONFIG, gyro_bits(gyro)),
    ]
}

/// The signed big-endian word of two register bytes.
pub open spec fn be_word(hi: u8, lo: u8) -> i16 {
    (hi as int * 256 + lo as int) as i16
}

/// One burst of raw readings: acceleration, temperature, angular rate.
#[derive(Debug, Clone, Copy, PartialEq, Eq)]
pub struct RawSample {
    pub accel: [i16; 3],
    pub temp: i16,
    pub gyro: [i16; 3],
}

/// The driver. Owns the bus handle (or a shared-bus proxy).
pub struct Mpu6050<I2C> {
    i2c: I2C,
    address: u8,
    accel_range: AccelRange,
    gyro_range: GyroRange,
}

/// `s` holds the seven signed big-endian words of the 14 burst bytes `raw`.
pub open spec fn is_sample_of(s: RawSample, raw: Seq<u8>) -> bool {
    &&& raw.len() == 14
    &&& s.accel[0] == be_word(raw[0], raw[1])
    &&& s.accel[1] == be_word(raw[2], raw[3])
    &&& s.accel[2] == be_word(raw[4], raw[5])
    &&& s.temp == be_word(raw[6], raw[7])
    &&& s.gyro[0] == be_word(raw[8], raw[9])
    &&& s.gyro[1] == be_word(raw[10], raw[11])
    &&& s.gyro[2] == be_word(raw[12], raw[13])
}

/// The chip identities [`Mpu6050::init`] accepts.
pub open spec fn is_known_device(who: u8) -> bool {
    who == WHO_AM_I_MPU6050 || who == WHO_AM_I_MPU6500
}

/// The bus transaction that writes `value` to register `reg` of the device
/// at `address`, with what the bus answered.
pub open spec fn reg_write<E>(address: u8, reg: u8, value: u8, outcome: Result<(), E>) -> (u8, Seq<u8>, Option<Seq<u8>>, Result<(), E>) {
    (address, seq![reg, value], None, outcome)
}

/// `calls` are register writes of the device at `address`, in the order
/// of `plan`, stopping at the first the bus refused (or at the end): every
/// one but the last succeeded.
pub open spec fn is_write_run<E>(calls: Seq<(u8, Seq<u8>, Option<Seq<u8>>, Result<(), E>)>, address: u8, plan: Seq<(u8, u8)>) -> bool {
    &&& calls.len() <= plan.len()
    &&& forall|i: int| 0 <= i < calls.len() ==> #[trigger] calls[i] == reg_write(address, plan[i].0, plan[i].1, calls[i].3)
    &&& forall|i: int| 0 <= i < calls.len() - 1 ==> (#[trigger] calls[i]).3 is Ok
    &&& calls.len() < plan.len() ==> calls.len() > 0 && calls.last().3 is Err
}

/// The whole run went through.
pub open spec fn run_complete<E>(calls: Seq<(u8, Seq<u8>, Option<Seq<u8>>, Result<(), E>)>, plan: Seq<(u8, u8)>) -> bool {
    calls.len() == plan.len() && (calls.len() == 0 || calls.last().3 is Ok)
}

impl<I2C: I2c> Mpu6050<I2C> {
    /// The I2C address the driver talks to.
    pub closed spec fn spec_address(&self) -> u8 {
        self.address
    }

    /// The accelerometer range last set successfully.
    pub closed spec fn spec_accel_range(&self) -> AccelRange {
        self.accel_range
    }

    /// The gyroscope range last set successfully.
    pub closed spec fn spec_gyro_range(&self) -> GyroRange {
        self.gyro_range
    }

    /// The bus handle.
    pub closed spec fn spec_bus(&self) -> I2C {
        self.i2c
    }

    /// The transactions made on the bus so far.
    pub open spec fn spec_calls(&self) -> Seq<(u8, Seq<u8>, Option<Seq<u8>>, Result<(), I2C::Error>)> {
        self.spec_bus().calls()
    }

    /// Create the driver at `address` ([`ADDR_DEFAULT`] or
    /// [`ADDR_AD0_HIGH`]), with the power-on ranges (±2 g, ±250 °/s). The
    /// bus is not used. Call [`init`](Self::init) before reading.
    pub fn new(i2c: I2C, address: u8) -> (s: Self)
        ensures
            s.spec_address() == address,
            s.spec_accel_range() == AccelRange::G2,
            s.spec_gyro_range() == GyroRange::Dps250,
            s.spec_bus() == i2c,
    {
        Mpu6050 { i2c, address, accel_range: AccelRange::default(), gyro_range: GyroRange::default() }
    }

    /// Read one register: one write-then-read of a single byte.
    fn read_reg(&mut self, reg: u8) -> (res: Result<u8, Error<I2C::Error>>)
        ensures
            final(self).spec_address() == old(self).spec_address(),
            final(self).spec_accel_range() == old(self).spec_accel_range(),
            final(self).spec_gyro_range() == old(self).spec_gyro_range(),
            final(self).spec_calls().drop_last() == old(self).spec_calls(),
            final(self).spec_calls().len() == old(self).spec_calls().len() + 1,
            ({
                let c = final(self).spec_calls().last();
                &&& c.0 == old(self).spec_address() && c.1 == seq![reg]
                &&& (c.2 matches Some(b) && b.len() == 1)
                &&& (res is Ok <==> c.3 is Ok)
                &&& (res matches Ok(v) ==> v == c.2->Some_0[0])
                &&& (res is Ok || res == Err::<u8, Error<I2C::Error>>(Error::I2c(c.3->Err_0)))
            }),
    {
        let mut buf: Vec<u8> = vec![0u8];
        let addr = [reg];
        let r = self.i2c.write_read(self.address, addr.as_slice(), buf.as_mut_slice());
        assert(self.spec_calls().drop_last() =~= old(self).spec_calls());
        match r {
            Ok(()) => Ok(buf[0]),
            Err(e) => Err(Error::I2c(e)),
        }
    }

    /// Write one register: one two-byte write.
    fn write_reg(&mut self, reg: u8, value: u8) -> (res: Result<(), Error<I2C::Error>>)
        ensures
            final(self).spec_address() == old(self).spec_address(),
            final(self).spec_accel_range() == old(self).spec_accel_range(),
            final(self).spec_gyro_range() == old(self).spec_gyro_range(),
            final(self).spec_calls().drop_last() == old(self).spec_calls(),
            final(self).spec_calls().len() == old(self).spec_calls().len() + 1,
            final(self).spec_calls().last() == reg_write(old(self).spec_address(), reg, value, final(self).spec_calls().last().3),
            res is Ok <==> final(self).spec_calls().last().3 is Ok,
            res is Ok || res == Err::<(), Error<I2C::Error>>(Error::I2c(final(self).spec_calls().last().3->Err_0)),
    {
        let bytes = [reg, value];
        let r = self.i2c.write(self.address, bytes.as_slice());
        assert(bytes@ =~= seq![reg, value]);
        match r {
            Ok(()) => Ok(()),
            Err(e) => Err(Error::I2c(e)),
        }
    }

    /// Verify the chip identity and wake it from sleep (the power-on
    /// default is sleep mode: skipping this reads all zeros).
    ///
    /// Reads WHO_AM_I in one transaction; anything but an MPU-6050 (0x68)
    /// or MPU-6500 (0x70) is `UnknownDevice` with the byte read, and nothing
    /// is written. A recognized chip gets exactly the register writes of
    /// [`init_writes`], in order, stopping at the first the bus refuses.
    pub fn init(&mut self) -> (res: Result<(), Error<I2C::Error>>)
        ensures
            final(self).spec_address() == old(self).spec_address(),
            final(self).spec_accel_range() == old(self).spec_accel_range(),
            final(self).spec_gyro_range() == old(self).spec_gyro_range(),
            ({
                let c0 = old(self).spec_calls();
                let c = final(self).spec_calls();
                let a = old(self).spec_address();
                let plan = init_writes(old(self).spec_accel_range(), old(self).spec_gyro_range());
                let who = c[c0.len() as int];
                &&& c.len() > c0.len() && c.take(c0.len() as int) == c0
                &&& who.0 == a && who.1 == seq![REG_WHO_AM_I]
                &&& (who.2 matches Some(b) && b.len() == 1)
                &&& who.3 is Err ==> c.len() == c0.len() + 1
                        && res == Err::<(), Error<I2C::Error>>(Error::I2c(who.3->Err_0))
                &&& who.3 is Ok && !is_known_device(who.2->Some_0[0]) ==> c.len() == c0.len() + 1
                        && res == Err::<(), Error<I2C::Error>>(Error::UnknownDevice(who.2->Some_0[0]))
                &&& who.3 is Ok && is_known_device(who.2->Some_0[0]) ==> {
                        let run = c.skip(c0.len() + 1int);
                        &&& is_write_run(run, a, plan)
                        &&& (res is Ok <==> run_complete(run, plan))
                        &&& (res is Ok || res == Err::<(), Error<I2C::Error>>(Error::I2c(c.last().3->Err_0)))
                    }
            }),
    {
        let ghost c0 = self.spec_calls();
        let ghost a = self.address;
        let ghost plan = init_writes(self.accel_range, self.gyro_range);
        let who = self.read_reg(REG_WHO_AM_I);
        let ghost c1 = self.spec_calls();
        assert(c1.take(c0.len() as int) =~= c0);
        assert(c1[c0.len() as int] == c1.last());
        let who = match who {
            Ok(b) => b,
            Err(e) => { return Err(e); },
        };
        if who != WHO_AM_I_MPU6050 && who != WHO_AM_I_MPU6500 {
            return Err(Error::UnknownDevice(who));
        }
        let r1 = self.write_reg(REG_PWR_MGMT_1, 0x01);
        assert(self.spec_calls().take(c1.len() as int) =~= c1);
        proof { lemma_run_step(c1, self.spec_calls(), a, plan, 0); }
        if r1.is_err() { return r1; }
        let ghost c2 = self.spec_calls();
        let r2 = self.write_reg(REG_SMPLRT_DIV, 0x00);
        assert(self.spec_calls().take(c1.len() as int) =~= c1);
        proof { lemma_run_step(c1, self.spec_calls(), a, plan, 1); }
        if r2.is_err() { return r2; }
        let r3 = self.write_reg(REG_CONFIG, 0x03);
        assert(self.spec_calls().take(c1.len() as int) =~= c1);
        proof { lemma_run_step(c1, self.spec_calls(), a, plan, 2); }
        if r3.is_err() { return r3; }
        let acc = self.accel_range;
        let r4 = self.set_accel_range(acc);
        assert(self.spec_calls().take(c1.len() as int) =~= c1);
        proof { lemma_run_step(c1, self.spec_calls(), a, plan, 3); }
        if r4.is_err() { return r4; }
        let gy = self.gyro_range;
        let r5 = self.set_gyro_range(gy);
        assert(self.spec_calls().take(c1.len() as int) =~= c1);
        proof { lemma_run_step(c1, self.spec_calls(), a, plan, 4); }
        assert(self.spec_calls()[c0.len() as int] == c1.last());
        r5
    }

    /// Change the accelerometer full-scale range: one write of
    /// ACCEL_CONFIG; the range is recorded once the bus accepted it.
    pub fn set_accel_range(&mut self, range: AccelRange) -> (res: Result<(), Error<I2C::Error>>)
        ensures
            final(self).spec_calls().drop_last() == old(self).spec_calls(),
            final(self).spec_calls().len() == old(self).spec_calls().len() + 1,
            final(self).spec_calls().last() == reg_write(old(self).spec_address(), REG_ACCEL_CONFIG, accel_bits(range), final(self).spec_calls().last().3),
            res is Ok <==> final(self).spec_calls().last().3 is Ok,
            res is Ok || res == Err::<(), Error<I2C::Error>>(Error::I2c(final(self).spec_calls().last().3->Err_0)),
            final(self).spec_accel_range() == if res is Ok { range } else { old(self).spec_accel_range() },
            final(self).spec_gyro_range() == old(self).spec_gyro_range(),
            final(self).spec_address() == old(self).spec_address(),
    {
        let bits = range.bits();
        self.write_reg(REG_ACCEL_CONFIG, bits)?;
        self.accel_range = range;
        Ok(())
    }

    /// Change the gyroscope full-scale range: one write of GYRO_CONFIG; the
    /// range is recorded once the bus accepted it.
    pub fn set_gyro_range(&mut self, range: GyroRange) -> (res: Result<(), Error<I2C::Error>>)
        ensures
            final(self).spec_calls().drop_last() == old(self).spec_calls(),
            final(self).spec_calls().len() == old(self).spec_calls().len() + 1,
            final(self).spec_calls().last() == reg_write(old(self).spec_address(), REG_GYRO_CONFIG, gyro_bits(range), final(self).spec_calls().last().3),
            res is Ok <==> final(self).spec_calls().last().3 is Ok,
            res is Ok || res == Err::<(), Error<I2C::Error>>(Error::I2c(final(self).spec_calls().last().3->Err_0)),
            final(self).spec_gyro_range() == if res is Ok { range } else { old(self).spec_gyro_range() },
            final(self).spec_accel_range() == old(self).spec_accel_range(),
            final(self).spec_address() == old(self).spec_address(),
    {
        let bits = range.bits();
        self.write_reg(REG_GYRO_CONFIG, bits)?;
        self.gyro_range = range;
        Ok(())
    }

    /// Read everything in one 14-byte burst from ACCEL_XOUT_H (accel,
    /// temperature, gyro are contiguous in the register map), as signed
    /// big-endian words.
    pub fn read_raw(&mut self) -> (res: Result<RawSample, Error<I2C::Error>>)
        ensures
            final(self).spec_address() == old(self).spec_address(),
            final(self).spec_accel_range() == old(self).spec_accel_range(),
            final(self).spec_gyro_range() == old(self).spec_gyro_range(),
            final(self).spec_calls().drop_last() == old(self).spec_calls(),
            final(self).spec_calls().len() == old(self).spec_calls().len() + 1,
            ({
                let c = final(self).spec_calls().last();
                &&& c.0 == old(self).spec_address() && c.1 == seq![REG_ACCEL_XOUT_H]
                &&& (c.2 matches Some(b) && b.len() == 14)
                &&& (res is Ok <==> c.3 is Ok)
                &&& (res matches Ok(s) ==> is_sample_of(s, c.2->Some_0))
                &&& (res is Ok || res == Err::<RawSample, Error<I2C::Error>>(Error::I2c(c.3->Err_0)))
            }),
    {
        let mut raw: Vec<u8> = vec![0u8; 14];
        let start = [REG_ACCEL_XOUT_H];
        let r = self.i2c.write_read(self.address, start.as_slice(), raw.as_mut_slice());
        assert(self.spec_calls().drop_last() =~= old(self).spec_calls());
        match r {
            Ok(()) => {},
            Err(e) => { return Err(Error::I2c(e)); },
        }
        let s = RawSample {
            accel: [word(raw[0], raw[1]), word(raw[2], raw[3]), word(raw[4], raw[5])],
            temp: word(raw[6], raw[7]),
            gyro: [word(raw[8], raw[9]), word(raw[10], raw[11]), word(raw[12], raw[13])],
        };
        Ok(s)
    }

    /// The accelerometer range readings are scaled by.
    pub fn accel_range(&self) -> (r: AccelRange)
        ensures
            r == self.spec_accel_range(),
    {
        self.accel_range
    }

    /// The gyroscope range readings are scaled by.
    pub fn gyro_range(&self) -> (r: GyroRange)
        ensures
            r == self.spec_gyro_range(),
    {
        self.gyro_range
    }

    /// Release the bus handle, consuming the driver.
    pub fn release(self) -> (bus: I2C)
        ensures
            bus == self.spec_bus(),
    {
        self.i2c
    }
}

/// One more write of the run: when the calls after `c1` before the last
/// one were the first `k` writes of `plan`, all accepted, and the last call
/// is write `k`, then the accepted writes so far are the first `k + 1`,
/// and at a stop (a refusal, or the last write) the calls are a write run.
proof fn lemma_run_step<E>(c1: Seq<(u8, Seq<u8>, Option<Seq<u8>>, Result<(), E>)>, c: Seq<(u8, Seq<u8>, Option<Seq<u8>>, Result<(), E>)>, a: u8, plan: Seq<(u8, u8)>, k: int)
    requires
        0 <= k < plan.len(),
        c.len() == c1.len() + k + 1,
        c.take(c1.len() as int) == c1,
        forall|i: int| 0 <= i < k ==> #[trigger] c[c1.len() + i] == reg_write(a, plan[i].0, plan[i].1, Ok::<(), E>(())),
        c.last() == reg_write(a, plan[k].0, plan[k].1, c.last().3),
    ensures
        c.last().3 is Ok ==> forall|i: int| 0 <= i < k + 1 ==> #[trigger] c[c1.len() + i] == reg_write(a, plan[i].0, plan[i].1, Ok::<(), E>(())),
        (c.last().3 is Err || k + 1 == plan.len()) ==> is_write_run(c.skip(c1.len() as int), a, plan),
        run_complete(c.skip(c1.len() as int), plan) <==> (c.last().3 is Ok && k + 1 == plan.len()),
{
    let run = c.skip(c1.len() as int);
    if c.last().3 is Ok {
        let u: () = c.last().3->Ok_0;
        assert(c.last().3 == Ok::<(), E>(u));
        assert(c[c1.len() + k] == c.last());
    }
    assert(run.len() == k + 1);
    assert(run.last() == c.last());
    assert forall|i: int| 0 <= i < run.len() implies #[trigger] run[i] == reg_write(a, plan[i].0, plan[i].1, run[i].3) by {
        assert(run[i] == c[c1.len() + i]);
    }
    assert forall|i: int| 0 <= i < run.len() - 1 implies (#[trigger] run[i]).3 is Ok by {
        assert(run[i] == c[c1.len() + i]);
    }
}

/// `i16::from_be_bytes([hi, lo])`.
pub fn word(hi: u8, lo: u8) -> (w: i16)
    ensures
        w == be_word(hi, lo),
{
    let u: u16 = (hi as u16) * 256 + (lo as u16);
    u as i16
}

} // verus!
