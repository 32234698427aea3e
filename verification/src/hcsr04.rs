//! HC-SR04 ultrasonic distance sensor driver: the trigger pulse and the
//! polling that times the echo.
//!
//! Protocol (datasheet): a 10 µs high pulse on TRIG makes the module emit
//! an 8-cycle 40 kHz burst; ECHO then goes high for a time proportional to
//! the round trip. Blocking and poll-based, portable to any HAL.
use vstd::prelude::*;

use crate::hal::{DelayUs, InputPin, OutputPin};

verus! {

/// How long the echo may take to start, in microseconds (the burst itself
/// takes ~450 µs; nothing after 5 ms means no module answered).
pub const ECHO_START_BUDGET_US: u32 = 5_000;

/// How long the echo may last, in microseconds (4 m is ~23.3 ms round trip).
pub const ECHO_LENGTH_BUDGET_US: u32 = 30_000;

/// Measurement failure.
#[derive(Debug, Clone, Copy, PartialEq, Eq)]
pub enum Error<E> {
    /// A pin operation failed.
    Pin(E),
    /// Echo never started: no module, wrong wiring, or a missed pulse.
    NoEcho,
    /// Echo ran past the maximum range: nothing to bounce off.
    OutOfRange,
}

/// The driver. `poll_interval_us` sets the measurement granularity.
pub struct Hcsr04<Trig, Echo, Delay> {
    trig: Trig,
    echo: Echo,
    delay: Delay,
    poll_interval_us: u32,
}

/// `n` samples all at `level`.
pub open spec fn levels(n: nat, level: bool) -> Seq<bool> {
    Seq::new(n, |i: int| level)
}

/// `n` pauses of `us` microseconds.
pub open spec fn pauses(n: nat, us: u32) -> Seq<u32> {
    Seq::new(n, |i: int| us)
}

/// Levels as successful reads.
pub open spec fn read_ok<E>(bs: Seq<bool>) -> Seq<Result<bool, E>> {
    Seq::new(bs.len(), |i: int| Ok::<bool, E>(bs[i]))
}

/// Polls allowed while waiting for the echo to start.
pub open spec fn start_polls(interval: u32) -> nat {
    (ECHO_START_BUDGET_US / interval) as nat
}

/// Polls allowed while the echo lasts.
pub open spec fn echo_polls(interval: u32) -> nat {
    (ECHO_LENGTH_BUDGET_US / interval) as nat
}

/// The levels of the trigger pulse, in order.
pub open spec fn pulse() -> Seq<bool> {
    seq![false, true, false]
}

/// What a measurement hands the trigger pin: the pulse levels in order,
/// stopping at the first write the pin refuses.
pub open spec fn is_pulse<E>(tw: Seq<(bool, Result<(), E>)>) -> bool {
    &&& 1 <= tw.len() <= 3
    &&& forall|i: int| 0 <= i < tw.len() ==> (#[trigger] tw[i]).0 == pulse()[i]
    &&& forall|i: int| 0 <= i < tw.len() - 1 ==> (#[trigger] tw[i]).1 is Ok
    &&& tw.len() < 3 ==> tw.last().1 is Err
}

/// The whole pulse was accepted.
pub open spec fn pulse_sent<E>(tw: Seq<(bool, Result<(), E>)>) -> bool {
    tw.len() == 3 && tw[2].1 is Ok
}

/// The echo polling of one measurement: `samples` is what the echo pin
/// read (`true` for high), `waits` the pauses between the polls, and `res`
/// what was concluded. `w` low reads while waiting (at most the start
/// budget, a poll interval after each) and the high one that ends the wait,
/// then `p` high reads (at most the echo budget, a poll interval after
/// each) and the low one that ends the echo give `p` times the interval;
/// one low read more than the start budget is `NoEcho`; one high read more
/// than the echo budget after the start is `OutOfRange`; a read the pin
/// refuses ends the polling with its error.
pub open spec fn is_echo_reading<E>(samples: Seq<Result<bool, E>>, waits: Seq<u32>, interval: u32, res: Result<u32, Error<E>>) -> bool {
    match res {
        Ok(us) => exists|w: nat, p: nat| #![trigger levels(w, false), levels(p, true)]
            w <= start_polls(interval) && p <= echo_polls(interval) && us == p * interval
            && samples == read_ok::<E>(levels(w, false) + seq![true] + levels(p, true) + seq![false])
            && waits == pauses(w + p, interval),
        Err(Error::NoEcho) => samples == read_ok::<E>(levels(start_polls(interval) + 1, false))
            && waits == pauses(start_polls(interval), interval),
        Err(Error::OutOfRange) => exists|w: nat| #![trigger levels(w, false)]
            w <= start_polls(interval)
            && samples == read_ok::<E>(levels(w, false) + seq![true] + levels(echo_polls(interval) + 1, true))
            && waits == pauses(w + echo_polls(interval), interval),
        Err(Error::Pin(e)) => {
            ||| exists|w: nat| #![trigger levels(w, false)]
                w <= start_polls(interval)
                && samples == read_ok::<E>(levels(w, false)).push(Err(e))
                && waits == pauses(w, interval)
            ||| exists|w: nat, p: nat| #![trigger levels(w, false), levels(p, true)]
                w <= start_polls(interval) && p <= echo_polls(interval)
                && samples == read_ok::<E>(levels(w, false) + seq![true] + levels(p, true)).push(Err(e))
                && waits == pauses(w + p, interval)
        },
    }
}

/// Every pause between echo polls lasts the polling interval, whatever the
/// echo pin reads and however the polling ends.
pub proof fn law_echo_pauses_are_the_interval<E>(samples: Seq<Result<bool, E>>, waits: Seq<u32>, interval: u32, res: Result<u32, Error<E>>)
    requires
        is_echo_reading(samples, waits, interval, res),
    ensures
        forall|i: int| 0 <= i < waits.len() ==> #[trigger] waits[i] == interval,
{
    match res {
        Ok(_) => {
            let (w, p) = choose|w: nat, p: nat| #![trigger levels(w, false), levels(p, true)]
                w <= start_polls(interval) && p <= echo_polls(interval) && res->Ok_0 == p * interval
                && samples == read_ok::<E>(levels(w, false) + seq![true] + levels(p, true) + seq![false])
                && waits == pauses(w + p, interval);
            assert(waits == pauses(w + p, interval));
        },
        Err(Error::NoEcho) => {},
        Err(Error::OutOfRange) => {
            let w = choose|w: nat| #![trigger levels(w, false)]
                w <= start_polls(interval)
                && samples == read_ok::<E>(levels(w, false) + seq![true] + levels(echo_polls(interval) + 1, true))
                && waits == pauses(w + echo_polls(interval), interval);
            assert(waits == pauses(w + echo_polls(interval), interval));
        },
        Err(Error::Pin(e)) => {
            if exists|w: nat| #![trigger levels(w, false)]
                w <= start_polls(interval)
                && samples == read_ok::<E>(levels(w, false)).push(Err(e))
                && waits == pauses(w, interval) {
                let w = choose|w: nat| #![trigger levels(w, false)]
                    w <= start_polls(interval)
                    && samples == read_ok::<E>(levels(w, false)).push(Err(e))
                    && waits == pauses(w, interval);
                assert(waits == pauses(w, interval));
            } else {
                let (w, p) = choose|w: nat, p: nat| #![trigger levels(w, false), levels(p, true)]
                    w <= start_polls(interval) && p <= echo_polls(interval)
                    && samples == read_ok::<E>(levels(w, false) + seq![true] + levels(p, true)).push(Err(e))
                    && waits == pauses(w + p, interval);
                assert(waits == pauses(w + p, interval));
            }
        },
    }
}

impl<Trig, Echo, Delay> Hcsr04<Trig, Echo, Delay> {
    /// The polling interval is at least 1 µs (every constructor sees to it).
    pub open spec fn wf(&self) -> bool {
        self.spec_poll_interval_us() >= 1
    }

    /// The echo polling granularity in microseconds.
    pub closed spec fn spec_poll_interval_us(&self) -> u32 {
        self.poll_interval_us
    }

    /// The pins and delay the driver owns.
    pub closed spec fn spec_parts(&self) -> (Trig, Echo, Delay) {
        (self.trig, self.echo, self.delay)
    }
}

impl<E, Trig: OutputPin<Error = E>, Echo: InputPin<Error = E>, Delay: DelayUs> Hcsr04<Trig, Echo, Delay> {
    /// Default polling granularity: 5 µs (about 0.9 mm of range resolution,
    /// finer than the sensor's ±3 mm accuracy). No pin or delay is used.
    pub fn new(trig: Trig, echo: Echo, delay: Delay) -> (s: Self)
        ensures
            s.spec_poll_interval_us() == 5,
            s.wf(),
            s.spec_parts() == (trig, echo, delay),
    {
        Hcsr04 { trig, echo, delay, poll_interval_us: 5 }
    }

    /// Override the echo polling granularity (µs); 0 is taken as 1. Every
    /// pause between echo polls of [`measure_echo_us`](Self::measure_echo_us)
    /// then lasts this interval. No pin or delay is used.
    pub fn with_poll_interval(self, interval_us: u32) -> (s: Self)
        ensures
            s.spec_poll_interval_us() == if interval_us >= 1 { interval_us } else { 1 },
            s.wf(),
            s.spec_parts() == self.spec_parts(),
    {
        let interval = if interval_us >= 1 { interval_us } else { 1 };
        Hcsr04 { trig: self.trig, echo: self.echo, delay: self.delay, poll_interval_us: interval }
    }

    /// Hand `high` to the trigger pin; its error, if any, as a pin failure.
    fn drive_trig(&mut self, high: bool) -> (res: Result<(), Error<E>>)
        ensures
            final(self).trig.writes() == old(self).trig.writes().push((high, final(self).trig.writes().last().1)),
            res == match final(self).trig.writes().last().1 {
                Ok(()) => Ok::<(), Error<E>>(()),
                Err(e) => Err(Error::Pin(e)),
            },
            final(self).echo == old(self).echo,
            final(self).delay == old(self).delay,
            final(self).poll_interval_us == old(self).poll_interval_us,
    {
        let r = if high { self.trig.set_high() } else { self.trig.set_low() };
        match r {
            Ok(()) => Ok(()),
            Err(e) => Err(Error::Pin(e)),
        }
    }

    /// One blocking measurement: the echo's high time in microseconds, as
    /// a whole number of polling intervals.
    ///
    /// First hands the trigger the pulse low, high, low, pausing 2 µs and
    /// then 10 µs between them; a refused write ends the measurement with
    /// the pin's error. Then polls the echo, pausing one polling interval
    /// between polls: `NoEcho` when it has not gone high within 5 ms,
    /// `OutOfRange` when it stays high past 30 ms; otherwise the number of
    /// high polls times the interval.
    pub fn measure_echo_us(&mut self) -> (res: Result<u32, Error<E>>)
        requires
            old(self).wf(),
        ensures
            final(self).spec_poll_interval_us() == old(self).spec_poll_interval_us(),
            ({
                let t0 = old(self).spec_parts().0.writes();
                let e0 = old(self).spec_parts().1.reads();
                let d0 = old(self).spec_parts().2.waits();
                let t = final(self).spec_parts().0.writes();
                let e = final(self).spec_parts().1.reads();
                let d = final(self).spec_parts().2.waits();
                let tw = t.skip(t0.len() as int);
                let es = e.skip(e0.len() as int);
                let dw = d.skip(d0.len() as int);
                &&& t.len() >= t0.len() && t.take(t0.len() as int) == t0
                &&& e.len() >= e0.len() && e.take(e0.len() as int) == e0
                &&& d.len() >= d0.len() && d.take(d0.len() as int) == d0
                &&& is_pulse(tw)
                &&& !pulse_sent(tw) ==> res == Err::<u32, Error<E>>(Error::Pin(tw.last().1->Err_0))
                        && es.len() == 0 && dw == seq![2u32, 10u32].take(tw.len() - 1)
                &&& pulse_sent(tw) ==> dw.len() >= 2 && dw.take(2) == seq![2u32, 10u32]
                        && is_echo_reading(es, dw.skip(2), old(self).spec_poll_interval_us(), res)
            }),
            res matches Ok(us) ==> us <= ECHO_LENGTH_BUDGET_US && us % old(self).spec_poll_interval_us() == 0,
    {
        let ghost t0 = self.trig.writes();
        let ghost e0 = self.echo.reads();
        let ghost d0 = self.delay.waits();
        let interval = self.poll_interval_us;
        match self.drive_trig(false) {
            Ok(()) => {},
            Err(e) => {
                assert(self.trig.writes().skip(t0.len() as int) =~= seq![self.trig.writes().last()]);
                assert(self.echo.reads().skip(e0.len() as int) =~= Seq::<Result<bool, E>>::empty());
                assert(self.delay.waits().skip(d0.len() as int) =~= Seq::<u32>::empty());
                assert(self.trig.writes().take(t0.len() as int) =~= t0);
                assert(self.echo.reads().take(e0.len() as int) =~= e0);
                assert(self.delay.waits().take(d0.len() as int) =~= d0);
                return Err(e);
            },
        }
        let ghost t1 = self.trig.writes();
        self.delay.delay_us(2);
        match self.drive_trig(true) {
            Ok(()) => {},
            Err(e) => {
                assert(self.trig.writes().skip(t0.len() as int) =~= seq![t1.last(), self.trig.writes().last()]);
                assert(self.echo.reads().skip(e0.len() as int) =~= Seq::<Result<bool, E>>::empty());
                assert(self.delay.waits().skip(d0.len() as int) =~= seq![2u32]);
                assert(self.trig.writes().take(t0.len() as int) =~= t0);
                assert(self.echo.reads().take(e0.len() as int) =~= e0);
                assert(self.delay.waits().take(d0.len() as int) =~= d0);
                return Err(e);
            },
        }
        let ghost t2 = self.trig.writes();
        self.delay.delay_us(10);
        match self.drive_trig(false) {
            Ok(()) => {},
            Err(e) => {
                assert(self.trig.writes().skip(t0.len() as int) =~= seq![t1.last(), t2.last(), self.trig.writes().last()]);
                assert(self.echo.reads().skip(e0.len() as int) =~= Seq::<Result<bool, E>>::empty());
                assert(self.delay.waits().skip(d0.len() as int) =~= seq![2u32, 10u32]);
                assert(self.trig.writes().take(t0.len() as int) =~= t0);
                assert(self.echo.reads().take(e0.len() as int) =~= e0);
                assert(self.delay.waits().take(d0.len() as int) =~= d0);
                return Err(e);
            },
        }
        let ghost tf = self.trig.writes();
        assert(tf.skip(t0.len() as int) =~= seq![t1.last(), t2.last(), tf.last()]);
        assert(tf.take(t0.len() as int) =~= t0);
        assert(tf.len() == t0.len() + 3);
        let ghost d2 = self.delay.waits();
        assert(d2 =~= d0 + seq![2u32, 10u32]);
        let start_budget_polls = ECHO_START_BUDGET_US / interval;
        let mut waited: u32 = 0;
        assert(self.echo.reads() =~= e0 + read_ok::<E>(levels(0, false)));
        assert(self.delay.waits() =~= d2 + pauses(0, interval));
        loop
            invariant_except_break
                self.echo.reads() == e0 + read_ok::<E>(levels(waited as nat, false)),
                self.delay.waits() == d2 + pauses(waited as nat, interval),
            invariant
                self.poll_interval_us == interval,
                interval >= 1,
                waited <= start_budget_polls,
                start_budget_polls == ECHO_START_BUDGET_US / interval,
                self.trig.writes() == tf,
                t0 == old(self).spec_parts().0.writes(),
                e0 == old(self).spec_parts().1.reads(),
                d0 == old(self).spec_parts().2.waits(),
                interval == old(self).spec_poll_interval_us(),
                tf.skip(t0.len() as int) == seq![t1.last(), t2.last(), tf.last()],
                tf.take(t0.len() as int) == t0,
                tf.len() == t0.len() + 3,
                pulse_sent(tf.skip(t0.len() as int)),
                is_pulse(tf.skip(t0.len() as int)),
                d2 == d0 + seq![2u32, 10u32],
            ensures
                self.echo.reads() == e0 + read_ok::<E>(levels(waited as nat, false) + seq![true]),
                self.delay.waits() == d2 + pauses(waited as nat, interval),
            decreases start_budget_polls - waited,
        {
            let r = self.echo.is_low();
            let low = match r {
                Ok(b) => b,
                Err(e) => {
                    proof {
                        let es = self.echo.reads().skip(e0.len() as int);
                        assert(es =~= read_ok::<E>(levels(waited as nat, false)).push(Err(e)));
                        assert(self.delay.waits().skip(d0.len() as int).skip(2) =~= pauses(waited as nat, interval));
                        assert(self.delay.waits().skip(d0.len() as int).take(2) =~= seq![2u32, 10u32]);
                        assert(self.echo.reads().take(e0.len() as int) =~= e0);
                        assert(self.delay.waits().take(d0.len() as int) =~= d0);
                    }
                    return Err(Error::Pin(e));
                },
            };
            if !low {
                assert(self.echo.reads() =~= e0 + read_ok::<E>(levels(waited as nat, false) + seq![true]));
                break;
            }
            if waited >= start_budget_polls {
                proof {
                    let es = self.echo.reads().skip(e0.len() as int);
                    assert(es =~= read_ok::<E>(levels(start_polls(interval) + 1, false)));
                    assert(self.delay.waits().skip(d0.len() as int).skip(2) =~= pauses(start_polls(interval), interval));
                    assert(self.delay.waits().skip(d0.len() as int).take(2) =~= seq![2u32, 10u32]);
                    assert(self.echo.reads().take(e0.len() as int) =~= e0);
                    assert(self.delay.waits().take(d0.len() as int) =~= d0);
                }
                return Err(Error::NoEcho);
            }
            waited = waited + 1;
            assert(self.echo.reads() =~= e0 + read_ok::<E>(levels(waited as nat, false)));
            self.delay.delay_us(interval);
            assert(self.delay.waits() =~= d2 + pauses(waited as nat, interval));
        }
        let ghost start = levels(waited as nat, false) + seq![true];
        let echo_budget_polls = ECHO_LENGTH_BUDGET_US / interval;
        let mut polls: u32 = 0;
        assert(self.echo.reads() =~= e0 + read_ok::<E>(start + levels(0, true)));
        assert(self.delay.waits() =~= d2 + pauses(waited as nat, interval));
        loop
            invariant_except_break
                self.echo.reads() == e0 + read_ok::<E>(start + levels(polls as nat, true)),
                self.delay.waits() == d2 + pauses((waited + polls) as nat, interval),
            invariant
                self.poll_interval_us == interval,
                interval >= 1,
                polls <= echo_budget_polls,
                echo_budget_polls == ECHO_LENGTH_BUDGET_US / interval,
                waited <= ECHO_START_BUDGET_US / interval,
                self.trig.writes() == tf,
                t0 == old(self).spec_parts().0.writes(),
                e0 == old(self).spec_parts().1.reads(),
                d0 == old(self).spec_parts().2.waits(),
                interval == old(self).spec_poll_interval_us(),
                start == levels(waited as nat, false) + seq![true],
                tf.skip(t0.len() as int) == seq![t1.last(), t2.last(), tf.last()],
                tf.take(t0.len() as int) == t0,
                tf.len() == t0.len() + 3,
                pulse_sent(tf.skip(t0.len() as int)),
                is_pulse(tf.skip(t0.len() as int)),
                d2 == d0 + seq![2u32, 10u32],
            ensures
                self.echo.reads() == e0 + read_ok::<E>(start + levels(polls as nat, true) + seq![false]),
                self.delay.waits() == d2 + pauses((waited + polls) as nat, interval),
            decreases echo_budget_polls - polls,
        {
            let r = self.echo.is_high();
            let high = match r {
                Ok(b) => b,
                Err(e) => {
                    proof {
                        let es = self.echo.reads().skip(e0.len() as int);
                        assert(es =~= read_ok::<E>(levels(waited as nat, false) + seq![true] + levels(polls as nat, true)).push(Err(e)));
                        assert(self.delay.waits().skip(d0.len() as int).skip(2) =~= pauses((waited + polls) as nat, interval));
                        assert(self.delay.waits().skip(d0.len() as int).take(2) =~= seq![2u32, 10u32]);
                        assert(self.echo.reads().take(e0.len() as int) =~= e0);
                        assert(self.delay.waits().take(d0.len() as int) =~= d0);
                    }
                    return Err(Error::Pin(e));
                },
            };
            if !high {
                assert(self.echo.reads() =~= e0 + read_ok::<E>(start + levels(polls as nat, true) + seq![false]));
                break;
            }
            if polls >= echo_budget_polls {
                proof {
                    let es = self.echo.reads().skip(e0.len() as int);
                    assert(es =~= read_ok::<E>(levels(waited as nat, false) + seq![true] + levels(echo_polls(interval) + 1, true)));
                    assert(self.delay.waits().skip(d0.len() as int).skip(2) =~= pauses((waited as nat + echo_polls(interval)) as nat, interval));
                    assert(self.delay.waits().skip(d0.len() as int).take(2) =~= seq![2u32, 10u32]);
                    assert(self.echo.reads().take(e0.len() as int) =~= e0);
                    assert(self.delay.waits().take(d0.len() as int) =~= d0);
                }
                return Err(Error::OutOfRange);
            }
            polls = polls + 1;
            assert(self.echo.reads() =~= e0 + read_ok::<E>(start + levels(polls as nat, true)));
            self.delay.delay_us(interval);
            assert(self.delay.waits() =~= d2 + pauses((waited + polls) as nat, interval));
        }
        assert(polls * interval <= ECHO_LENGTH_BUDGET_US) by (nonlinear_arith)
            requires
                polls <= echo_budget_polls,
                echo_budget_polls == ECHO_LENGTH_BUDGET_US / interval,
                interval >= 1,
        ;
        assert((polls * interval) % (interval as int) == 0) by (nonlinear_arith)
            requires
                interval >= 1,
        ;
        let us = polls * interval;
        proof {
            let es = self.echo.reads().skip(e0.len() as int);
            assert(es =~= read_ok::<E>(levels(waited as nat, false) + seq![true] + levels(polls as nat, true) + seq![false]));
            assert(self.delay.waits().skip(d0.len() as int).skip(2) =~= pauses((waited + polls) as nat, interval));
            assert(self.delay.waits().skip(d0.len() as int).take(2) =~= seq![2u32, 10u32]);
            assert(self.echo.reads().take(e0.len() as int) =~= e0);
            assert(self.delay.waits().take(d0.len() as int) =~= d0);
        }
        Ok(us)
    }

    /// Release the pins and delay, consuming the driver.
    pub fn release(self) -> (parts: (Trig, Echo, Delay))
        ensures
            parts == self.spec_parts(),
    {
        (self.trig, self.echo, self.delay)
    }
}

} // verus!
