use core::convert::Infallible;
use std::cell::RefCell;
use std::rc::Rc;

use olivaw::hal::{DelayUs, InputPin, OutputPin};
use olivaw::hcsr04::{Error, Hcsr04, ECHO_LENGTH_BUDGET_US};

/// Simulated time and echo window, shared by the echo pin and the delay.
#[derive(Default)]
struct Bench {
    now_us: u64,
    echo_start_us: u64,
    echo_end_us: u64,
    trig_levels: Vec<bool>,
}

#[derive(Clone, Default)]
struct Shared(Rc<RefCell<Bench>>);

struct FakeTrig(Shared);
impl OutputPin for FakeTrig {
    type Error = Infallible;
    fn set_low(&mut self) -> Result<(), Infallible> {
        self.0 .0.borrow_mut().trig_levels.push(false);
        Ok(())
    }
    fn set_high(&mut self) -> Result<(), Infallible> {
        self.0 .0.borrow_mut().trig_levels.push(true);
        Ok(())
    }
}

struct FakeEcho(Shared);
impl InputPin for FakeEcho {
    type Error = Infallible;
    fn is_high(&mut self) -> Result<bool, Infallible> {
        let b = self.0 .0.borrow();
        Ok(b.now_us >= b.echo_start_us && b.now_us < b.echo_end_us)
    }
    fn is_low(&mut self) -> Result<bool, Infallible> {
        self.is_high().map(|h| !h)
    }
}

struct FakeDelay(Shared);
impl DelayUs for FakeDelay {
    fn delay_us(&mut self, us: u32) {
        self.0 .0.borrow_mut().now_us += u64::from(us);
    }
}

fn sensor_with_pulse(start_us: u32, width_us: u32) -> (Hcsr04<FakeTrig, FakeEcho, FakeDelay>, Shared) {
    let shared = Shared::default();
    {
        let mut b = shared.0.borrow_mut();
        b.echo_start_us = u64::from(start_us);
        b.echo_end_us = u64::from(start_us) + u64::from(width_us);
    }
    let s = Hcsr04::new(FakeTrig(shared.clone()), FakeEcho(shared.clone()), FakeDelay(shared.clone()));
    (s, shared)
}

#[test]
fn missing_module_reports_no_echo() {
    let (mut s, _) = sensor_with_pulse(u32::MAX, 0);
    assert_eq!(s.measure_echo_us(), Err(Error::NoEcho));
}

#[test]
fn endless_echo_reports_out_of_range() {
    let (mut s, _) = sensor_with_pulse(500, 10_000_000);
    assert_eq!(s.measure_echo_us(), Err(Error::OutOfRange));
}

#[test]
fn echo_of_a_1m_target_is_timed_to_the_poll_interval() {
    // 1 m → 2 m round trip → 5831 µs echo.
    let (mut s, _) = sensor_with_pulse(500, 5831);
    let us = s.measure_echo_us().unwrap();
    assert_eq!(us % 5, 0);
    assert!(us >= 5825 && us <= 5840, "got {us} µs");
}

#[test]
fn close_range_echo_is_short() {
    // 50 mm → 292 µs echo.
    let (mut s, _) = sensor_with_pulse(500, 292);
    let us = s.measure_echo_us().unwrap();
    assert!(us >= 285 && us <= 300, "got {us} µs");
}

#[test]
fn trigger_pulse_is_low_high_low() {
    let (mut s, shared) = sensor_with_pulse(500, 1000);
    s.measure_echo_us().unwrap();
    assert_eq!(shared.0.borrow().trig_levels, vec![false, true, false]);
}

#[test]
fn custom_poll_interval_quantizes_the_echo() {
    let (s, _) = sensor_with_pulse(100, 1234);
    let mut s = s.with_poll_interval(100);
    let us = s.measure_echo_us().unwrap();
    assert_eq!(us % 100, 0);
    assert!(us <= ECHO_LENGTH_BUDGET_US);
}

#[test]
fn zero_poll_interval_is_raised_to_one() {
    let (s, _) = sensor_with_pulse(20, 7);
    let mut s = s.with_poll_interval(0);
    assert_eq!(s.measure_echo_us(), Ok(7));
}
