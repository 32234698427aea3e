use core::convert::Infallible;

use olivaw::hal::OutputPin;
use olivaw::led::{Blinker, Mode};

#[derive(Default)]
struct MockPin {
    high: bool,
    transitions: usize,
}

impl OutputPin for MockPin {
    type Error = Infallible;
    fn set_low(&mut self) -> Result<(), Infallible> {
        self.high = false;
        self.transitions += 1;
        Ok(())
    }
    fn set_high(&mut self) -> Result<(), Infallible> {
        self.high = true;
        self.transitions += 1;
        Ok(())
    }
}

/// A pin whose writes always fail.
struct BrokenPin;

impl OutputPin for BrokenPin {
    type Error = ();
    fn set_low(&mut self) -> Result<(), ()> {
        Err(())
    }
    fn set_high(&mut self) -> Result<(), ()> {
        Err(())
    }
}

#[test]
fn mode_from_byte_defaults_unknown_to_off() {
    assert_eq!(Mode::from_byte(0), Mode::Off);
    assert_eq!(Mode::from_byte(1), Mode::On);
    assert_eq!(Mode::from_byte(2), Mode::Slow);
    assert_eq!(Mode::from_byte(3), Mode::Fast);
    assert_eq!(Mode::from_byte(200), Mode::Off);
}

#[test]
fn steady_modes_do_not_retrigger_the_pin() {
    let mut b = Blinker::new(MockPin::default());
    b.set_mode(Mode::On, 0);
    for t in 0..100 {
        b.tick(t).unwrap();
    }
    let pin = b.release();
    assert!(pin.high);
    assert_eq!(pin.transitions, 1, "only the initial low→high write");
}

#[test]
fn slow_blink_toggles_every_half_period() {
    let level = std::rc::Rc::new(std::cell::Cell::new((false, 0usize)));
    let mut b = Blinker::new(SharedPin(level.clone()));
    b.set_mode(Mode::Slow, 0);
    let mut states = Vec::new();
    for t in (0..2000).step_by(10) {
        b.tick(t).unwrap();
        states.push(level.get().0);
    }
    // Toggles due at t = 500, 1000, 1500; the t = 2000 one is just past
    // the sampled window.
    assert_eq!(level.get().1, 3);
    assert!(states.iter().any(|s| *s) && states.iter().any(|s| !*s));
}

/// A pin whose level and write count stay observable outside the driver.
struct SharedPin(std::rc::Rc<std::cell::Cell<(bool, usize)>>);

impl OutputPin for SharedPin {
    type Error = Infallible;
    fn set_low(&mut self) -> Result<(), Infallible> {
        let (_, n) = self.0.get();
        self.0.set((false, n + 1));
        Ok(())
    }
    fn set_high(&mut self) -> Result<(), Infallible> {
        let (_, n) = self.0.get();
        self.0.set((true, n + 1));
        Ok(())
    }
}

#[test]
fn survives_u32_millisecond_rollover() {
    let mut b = Blinker::new(MockPin::default());
    let start = u32::MAX - 250;
    b.set_mode(Mode::Slow, start);
    b.tick(start).unwrap();
    // 500 ms later, across the wrap.
    b.tick(start.wrapping_add(500)).unwrap();
    let pin = b.release();
    assert_eq!(pin.transitions, 1);
}

#[test]
fn half_periods_match_the_modes() {
    assert_eq!(Mode::Slow.half_period_ms(), Some(500));
    assert_eq!(Mode::Fast.half_period_ms(), Some(100));
    assert_eq!(Mode::On.half_period_ms(), None);
    assert_eq!(Mode::Off.half_period_ms(), None);
    assert_eq!(Mode::default(), Mode::Off);
}

#[test]
fn a_new_blinker_drives_the_pin_low_on_its_first_tick_only() {
    let mut b = Blinker::new(MockPin { high: true, transitions: 0 });
    for t in 0..50 {
        b.tick(t).unwrap();
    }
    let pin = b.release();
    assert!(!pin.high);
    assert_eq!(pin.transitions, 1);
}

#[test]
fn failed_write_is_retried_on_the_next_tick() {
    let mut b = Blinker::new(BrokenPin);
    b.set_mode(Mode::On, 0);
    assert_eq!(b.tick(0), Err(()));
    assert_eq!(b.tick(1), Err(()));
    assert_eq!(b.mode(), Mode::On);
}

#[test]
fn fast_blink_toggles_every_hundred_ms() {
    let mut b = Blinker::new(MockPin::default());
    b.set_mode(Mode::Fast, 0);
    for t in (0..=1000).step_by(10) {
        b.tick(t).unwrap();
    }
    assert_eq!(b.release().transitions, 10);
}
