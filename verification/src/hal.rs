//! The hardware interface the vendored drivers are generic over: a digital
//! output, a digital input, a microsecond delay and an I2C bus. Implement
//! these for your HAL's types (`app/` adapts any `embedded-hal 1.0` type).
//!
//! Each trait keeps a log of the calls made on it: what was handed to the
//! hardware and what it answered. The drivers' contracts are stated over
//! these logs, so they say what the pins, the delay and the bus receive. An
//! implementation promises only that each call extends its log as stated;
//! what the hardware answers is left to it. Each log has a default body (no
//! calls) only so that implementations outside Verus, which no proof reads,
//! need not name it; an implementation checked by Verus defines its log,
//! since the default cannot meet the methods' `ensures`. Proofs about a
//! driver generic over these traits never see the default.
use vstd::prelude::*;

verus! {

/// A push-pull digital output.
pub trait OutputPin {
    type Error;

    /// Every level handed to the pin so far (`true` for high), oldest
    /// first, each with what the pin answered.
    closed spec fn writes(&self) -> Seq<(bool, Result<(), Self::Error>)> {
        Seq::empty()
    }

    /// Drive the pin low.
    fn set_low(&mut self) -> (r: Result<(), Self::Error>)
        ensures
            final(self).writes() == old(self).writes().push((false, r)),
    ;

    /// Drive the pin high.
    fn set_high(&mut self) -> (r: Result<(), Self::Error>)
        ensures
            final(self).writes() == old(self).writes().push((true, r)),
    ;
}

/// A digital input.
pub trait InputPin {
    type Error;

    /// Every read so far, oldest first: the level read (`true` for high),
    /// or the pin's error.
    closed spec fn reads(&self) -> Seq<Result<bool, Self::Error>> {
        Seq::empty()
    }

    /// Whether the pin reads high.
    fn is_high(&mut self) -> (r: Result<bool, Self::Error>)
        ensures
            final(self).reads() == old(self).reads().push(r),
    ;

    /// Whether the pin reads low.
    fn is_low(&mut self) -> (r: Result<bool, Self::Error>)
        ensures
            final(self).reads() == old(self).reads().push(match r {
                Ok(low) => Ok(!low),
                Err(e) => Err(e),
            }),
    ;
}

/// A blocking delay.
pub trait DelayUs {
    /// Every pause asked for so far, in microseconds, oldest first.
    closed spec fn waits(&self) -> Seq<u32> {
        Seq::empty()
    }

    /// Pause for at least `us` microseconds.
    fn delay_us(&mut self, us: u32)
        ensures
            final(self).waits() == old(self).waits().push(us),
    ;
}

/// A blocking I2C bus master.
pub trait I2c {
    type Error;

    /// Every transaction so far, oldest first: the device address, the
    /// bytes written, for a write-then-read the bytes read back (`None` for
    /// a plain write), and what the bus answered.
    closed spec fn calls(&self) -> Seq<(u8, Seq<u8>, Option<Seq<u8>>, Result<(), Self::Error>)> {
        Seq::empty()
    }

    /// Write `bytes` to the device at `address`.
    fn write(&mut self, address: u8, bytes: &[u8]) -> (r: Result<(), Self::Error>)
        ensures
            final(self).calls() == old(self).calls().push((address, bytes@, None, r)),
    ;

    /// Write `bytes`, then read `buf.len()` bytes back, in one transaction.
    fn write_read(&mut self, address: u8, bytes: &[u8], buf: &mut [u8]) -> (r: Result<(), Self::Error>)
        ensures
            final(buf)@.len() == old(buf)@.len(),
            final(self).calls() == old(self).calls().push((address, bytes@, Some(final(buf)@), r)),
    ;
}

} // verus!
