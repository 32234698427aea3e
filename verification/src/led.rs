//! Non-blocking LED blinker state machine.
//!
//! Generic over [`OutputPin`]; time comes from you. Call [`Blinker::tick`]
//! from your main loop with a monotonic millisecond count and it drives the
//! pin: no delays, no timers, so your loop stays free for radio, serial and
//! sensor work. Mode values 0–3 match the reference firmware's one-byte wire
//! protocol, so `comms` layers can turn bytes straight into a [`Mode`].
use vstd::prelude::*;

use crate::hal::OutputPin;

verus! {

/// What the LED should be doing. Wire values 0–3.
#[derive(Debug, Clone, Copy, PartialEq, Eq, Structural)]
pub enum Mode {
    /// Steady off.
    Off,
    /// Steady on.
    On,
    /// Blink with a 500 ms half-period (1 Hz).
    Slow,
    /// Blink with a 100 ms half-period (5 Hz).
    Fast,
}

impl Default for Mode {
    fn default() -> (m: Mode)
        ensures
            m == Mode::Off,
    {
        Mode::Off
    }
}

/// The mode a wire byte stands for; unknown bytes are `Off`.
pub open spec fn mode_of_byte(byte: u8) -> Mode {
    if byte == 1 {
        Mode::On
    } else if byte == 2 {
        Mode::Slow
    } else if byte == 3 {
        Mode::Fast
    } else {
        Mode::Off
    }
}

/// The half-period of the blinking modes, in milliseconds.
pub open spec fn half_period_of(m: Mode) -> Option<u32> {
    match m {
        Mode::Slow => Some(500),
        Mode::Fast => Some(100),
        Mode::Off | Mode::On => None,
    }
}

impl Mode {
    /// Decode a wire byte; anything out of range is the safe default
    /// ([`Mode::Off`]), matching the reference firmware.
    pub fn from_byte(byte: u8) -> (m: Mode)
        ensures
            m == mode_of_byte(byte),
    {
        match byte {
            1 => Mode::On,
            2 => Mode::Slow,
            3 => Mode::Fast,
            _ => Mode::Off,
        }
    }

    /// Half-period in milliseconds for the blinking modes, `None` for the
    /// steady ones.
    pub fn half_period_ms(self) -> (p: Option<u32>)
        ensures
            p == half_period_of(self),
    {
        match self {
            Mode::Slow => Some(500),
            Mode::Fast => Some(100),
            Mode::Off | Mode::On => None,
        }
    }
}

/// The wire bytes 1, 2 and 3 select the three distinct active modes (on,
/// slow blink, fast blink) and every other byte is off; the blinking modes
/// alone have a half-period, the slow one longer than the fast one.
pub proof fn law_mode_bytes(b: u8, c: u8)
    ensures
        (mode_of_byte(b) == Mode::Off) <==> !(1 <= b <= 3),
        (1 <= b <= 3 && 1 <= c <= 3 && b != c) ==> mode_of_byte(b) != mode_of_byte(c),
        mode_of_byte(1) == Mode::On,
        half_period_of(mode_of_byte(b)) is Some <==> (b == 2 || b == 3),
        half_period_of(Mode::Slow)->Some_0 > half_period_of(Mode::Fast)->Some_0,
{
}

/// Milliseconds from `since` to `now` on a wrapping 32-bit clock.
pub open spec fn elapsed_ms(now: u32, since: u32) -> int {
    (now as int - since as int) % 0x1_0000_0000
}

/// Whether a tick at `now` in mode `m` is due to act: always for the
/// steady modes, once a half-period has passed since the phase started for
/// the blinking ones.
pub open spec fn tick_due(m: Mode, last: u32, now: u32) -> bool {
    match half_period_of(m) {
        Some(h) => elapsed_ms(now, last) >= h,
        None => true,
    }
}

/// The level a due tick aims at: the steady level, or when blinking the
/// opposite of the recorded one (a pin not driven yet counts as low).
pub open spec fn tick_target(m: Mode, level: Option<bool>) -> bool {
    match m {
        Mode::Off => false,
        Mode::On => true,
        _ => level != Some(true),
    }
}

/// The level a tick at `now` hands the pin, if any: the target, when the
/// tick is due and the pin is not known to be there already.
pub open spec fn tick_write(m: Mode, level: Option<bool>, last: u32, now: u32) -> Option<bool> {
    if tick_due(m, last, now) && level != Some(tick_target(m, level)) {
        Some(tick_target(m, level))
    } else {
        None
    }
}

/// The recorded level and phase start after a tick at `now`; `ok` says
/// whether the pin accepted the write, when one was made. A failed write
/// is not recorded, so the next tick tries it again.
pub open spec fn tick_next(m: Mode, level: Option<bool>, last: u32, now: u32, ok: bool) -> (Option<bool>, u32) {
    let last2 = if half_period_of(m) is Some && tick_due(m, last, now) { now } else { last };
    match tick_write(m, level, last, now) {
        Some(t) => (if ok { Some(t) } else { level }, last2),
        None => (level, last2),
    }
}

/// The blinker: owns the pin, tracks toggle timing.
pub struct Blinker<Pin> {
    pin: Pin,
    mode: Mode,
    /// The level the pin was last driven to successfully; `None` before
    /// the first successful write.
    led: Option<bool>,
    last_toggle_ms: u32,
}

impl<Pin: OutputPin> Blinker<Pin> {
    /// The current mode.
    pub closed spec fn spec_mode(&self) -> Mode {
        self.mode
    }

    /// The level the blinker last drove the pin to successfully, if any.
    pub closed spec fn spec_level(&self) -> Option<bool> {
        self.led
    }

    /// When the current blink phase started.
    pub closed spec fn spec_last_toggle_ms(&self) -> u32 {
        self.last_toggle_ms
    }

    /// The pin the blinker owns.
    pub closed spec fn spec_pin(&self) -> Pin {
        self.pin
    }

    /// Take ownership of the pin. It is driven low on the first
    /// [`tick`](Self::tick) (mode starts as [`Mode::Off`]).
    pub fn new(pin: Pin) -> (b: Self)
        ensures
            b.spec_mode() == Mode::Off,
            b.spec_level() is None,
            b.spec_last_toggle_ms() == 0,
            b.spec_pin() == pin,
    {
        Blinker { pin, mode: Mode::Off, led: None, last_toggle_ms: 0 }
    }

    /// Change what the LED does. Takes effect on the next
    /// [`tick`](Self::tick); switching to another mode restarts its phase
    /// at `now_ms`. The pin is not touched.
    pub fn set_mode(&mut self, mode: Mode, now_ms: u32)
        ensures
            final(self).spec_mode() == mode,
            final(self).spec_level() == old(self).spec_level(),
            final(self).spec_pin() == old(self).spec_pin(),
            final(self).spec_last_toggle_ms() == if mode != old(self).spec_mode() {
                now_ms
            } else {
                old(self).spec_last_toggle_ms()
            },
    {
        if mode != self.mode {
            self.mode = mode;
            self.last_toggle_ms = now_ms;
        }
    }

    /// The current mode.
    pub fn mode(&self) -> (m: Mode)
        ensures
            m == self.spec_mode(),
    {
        self.mode
    }

    /// Advance the state machine. `now_ms` is any monotonic millisecond
    /// counter (wrapping is handled). Steady modes drive the pin to their
    /// level unless it is known to be there; blink modes toggle it once at
    /// least a half-period has passed since the phase started, and then
    /// restart the phase at `now_ms`. At most one level is handed to the
    /// pin, and the pin's error, if any, is returned unchanged; a failed
    /// write is not recorded, so the next tick tries it again.
    pub fn tick(&mut self, now_ms: u32) -> (res: Result<(), Pin::Error>)
        ensures
            final(self).spec_mode() == old(self).spec_mode(),
            (final(self).spec_level(), final(self).spec_last_toggle_ms()) == tick_next(
                old(self).spec_mode(), old(self).spec_level(), old(self).spec_last_toggle_ms(), now_ms, res is Ok),
            match tick_write(old(self).spec_mode(), old(self).spec_level(), old(self).spec_last_toggle_ms(), now_ms) {
                Some(t) => final(self).spec_pin().writes() == old(self).spec_pin().writes().push((t, res)),
                None => final(self).spec_pin().writes() == old(self).spec_pin().writes() && res is Ok,
            },
    {
        match self.mode {
            Mode::Off => self.set_led(false),
            Mode::On => self.set_led(true),
            Mode::Slow | Mode::Fast => {
                let half = match self.mode.half_period_ms() {
                    Some(h) => h,
                    None => 500,
                };
                let last = self.last_toggle_ms;
                let elapsed = now_ms.wrapping_sub(last);
                assert(elapsed == elapsed_ms(now_ms, last));
                if elapsed >= half {
                    self.last_toggle_ms = now_ms;
                    let next = match self.led {
                        Some(true) => false,
                        _ => true,
                    };
                    self.set_led(next)
                } else {
                    Ok(())
                }
            },
        }
    }

    /// Drive the pin to `high` unless it is known to be there; record the
    /// level only when the write succeeds.
    fn set_led(&mut self, high: bool) -> (res: Result<(), Pin::Error>)
        ensures
            final(self).spec_mode() == old(self).spec_mode(),
            final(self).spec_last_toggle_ms() == old(self).spec_last_toggle_ms(),
            if old(self).spec_level() != Some(high) {
                &&& final(self).spec_pin().writes() == old(self).spec_pin().writes().push((high, res))
                &&& final(self).spec_level() == if res is Ok { Some(high) } else { old(self).spec_level() }
            } else {
                &&& res is Ok
                &&& final(self).spec_pin().writes() == old(self).spec_pin().writes()
                &&& final(self).spec_level() == old(self).spec_level()
            },
    {
        match self.led {
            Some(l) => {
                if l == high {
                    return Ok(());
                }
            },
            None => {},
        }
        let r = if high { self.pin.set_high() } else { self.pin.set_low() };
        if r.is_ok() {
            self.led = Some(high);
        }
        r
    }

    /// Release the pin, consuming the blinker.
    pub fn release(self) -> (pin: Pin)
        ensures
            pin == self.spec_pin(),
    {
        self.pin
    }
}

/// A new blinker's first tick drives the pin low, whenever it comes.
pub proof fn law_first_tick_drives_low(now: u32)
    ensures
        tick_write(Mode::Off, None, 0, now) == Some(false),
{
}

/// Once a steady mode has driven the pin to its level, later ticks leave
/// the pin alone, whenever they come.
pub proof fn law_steady_mode_writes_once(m: Mode, level: Option<bool>, last: u32, t1: u32, t2: u32, ok2: bool)
    requires
        m == Mode::Off || m == Mode::On,
    ensures
        ({
            let (l1, p1) = tick_next(m, level, last, t1, true);
            &&& l1 == Some(tick_target(m, level))
            &&& tick_write(m, l1, p1, t2) is None
            &&& tick_next(m, l1, p1, t2, ok2) == (l1, p1)
        }),
{
}

/// A blinking LED keeps its level until a half-period has passed since
/// the phase started; then it is handed the opposite level and the phase
/// restarts at that tick.
pub proof fn law_blink_toggles_each_half_period(m: Mode, high: bool, last: u32, now: u32)
    requires
        half_period_of(m) is Some,
    ensures
        elapsed_ms(now, last) < half_period_of(m)->Some_0 ==> tick_write(m, Some(high), last, now) is None
            && tick_next(m, Some(high), last, now, true) == (Some(high), last),
        elapsed_ms(now, last) >= half_period_of(m)->Some_0 ==> tick_write(m, Some(high), last, now) == Some(!high)
            && tick_next(m, Some(high), last, now, true) == (Some(!high), now),
{
}

/// The phase clock survives the 32-bit millisecond wrap: `d` milliseconds
/// after `last`, on the wrapping clock, always reads as `d` elapsed.
pub proof fn law_elapsed_survives_rollover(last: u32, d: u32)
    ensures
        elapsed_ms(((last as int + d as int) % 0x1_0000_0000) as u32, last) == d,
{
    let now = ((last as int + d as int) % 0x1_0000_0000) as u32;
    if last as int + d as int >= 0x1_0000_0000 {
        assert(now as int == last as int + d as int - 0x1_0000_0000);
        assert((now as int - last as int) == d as int - 0x1_0000_0000);
        assert((d as int - 0x1_0000_0000) % 0x1_0000_0000 == d as int);
    } else {
        assert(now as int == last as int + d as int);
    }
}
} // verus!
