//! Pressing the key, and telling the time.

use vstd::prelude::*;

verus! {

/// An error of the operating system, as a keyboard backend hands it on.
#[verifier::external_type_specification]
#[verifier::external_body]
pub struct ExIoError(std::io::Error);

/// A way to press the space bar.
pub trait InputEmulatorBackend {
    fn press_space(&mut self) -> Result<(), std::io::Error>;
}

/// A clock that counts nanoseconds.
pub trait Clock {
    fn nanos(&mut self) -> u64;
}

/// Calls a function on a device: the device is handed over as it is, and is
/// then what the call made of it.
fn call_once<E, R, F: FnOnce(&mut E) -> R>(function: F, device: &mut E) -> (result: R)
    requires
        forall|device: &mut E| call_requires(function, (device,)),
    ensures
        exists|called: &mut E| #[trigger]
            call_ensures(function, (called,), result) && *called == *old(device)
                && *final(called) == *final(device),
{
    function(device)
}

/// Asks a backend to press the space bar, once.
pub fn press_key<E: InputEmulatorBackend>(backend: &mut E) -> (result: Result<(), std::io::Error>)
    ensures
        exists|called: &mut E| #[trigger]
            call_ensures(E::press_space, (called,), result) && *called == *old(backend)
                && *final(called) == *final(backend),
{
    call_once(E::press_space, backend)
}

/// Reads a clock, once.
pub fn read_clock<E: Clock>(clock: &mut E) -> (nanos: u64)
    ensures
        exists|called: &mut E| #[trigger]
            call_ensures(E::nanos, (called,), nanos) && *called == *old(clock) && *final(called)
                == *final(clock),
{
    call_once(E::nanos, clock)
}

/// The scan code of the space bar.
pub const SPACE_SCAN_CODE: u16 = 0x39;

/// One event of a key, by the key's scan code: games read these rather than
/// virtual key codes.
#[derive(Clone, Copy, PartialEq, Eq, Structural, Debug)]
pub struct KeyInput {
    pub scan_code: u16,
    pub release: bool,
}

/// A key press: down, held for `hold_ms` milliseconds, up.
#[derive(Clone, Copy, PartialEq, Eq, Structural, Debug)]
pub struct KeyPress {
    pub down: KeyInput,
    pub up: KeyInput,
    pub hold_ms: u64,
}

/// The press of the space bar, held for 10 to 50 milliseconds as a random
/// number picks it.
pub open spec fn space_press_of(random: u64) -> KeyPress {
    KeyPress {
        down: KeyInput { scan_code: SPACE_SCAN_CODE, release: false },
        up: KeyInput { scan_code: SPACE_SCAN_CODE, release: true },
        hold_ms: (10 + random % 41) as u64,
    }
}

/// The press of the space bar that a random number picks.
pub fn space_press(random: u64) -> (press: KeyPress)
    ensures
        press == space_press_of(random),
{
    KeyPress {
        down: KeyInput { scan_code: SPACE_SCAN_CODE, release: false },
        up: KeyInput { scan_code: SPACE_SCAN_CODE, release: true },
        hold_ms: 10 + random % 41,
    }
}

/// `rand::random::<u64>`: some 64-bit number. Any number may come, so nothing
/// is claimed of it. It takes a working source of entropy in the operating
/// system.
#[verifier::external_body]
fn random_number() -> (number: u64) {
    rand::random::<u64>()
}

/// The next press of the space bar, held for a random time.
pub fn next_space_press() -> (press: KeyPress)
    ensures
        exists|random: u64| press == #[trigger] space_press_of(random),
        10 <= press.hold_ms <= 50,
{
    let random: u64 = random_number();
    let press: KeyPress = space_press(random);
    assert(press == space_press_of(random));
    press
}

/// The keyboard of Windows, which takes input events without being opened first.
#[derive(Debug)]
pub struct WindowsKeyboardEmulator;

impl WindowsKeyboardEmulator {
    /// The keyboard; it has no name and no ids of its own, so it is always there.
    pub fn new(_name: &str, _vendor_id: u16, _product_id: u16) -> (result: Result<
        Self,
        std::io::Error,
    >)
        ensures
            result == Ok::<Self, std::io::Error>(WindowsKeyboardEmulator),
    {
        Ok(WindowsKeyboardEmulator)
    }
}

/// A press is held for 10 to 50 milliseconds, and each of these comes up.
pub proof fn lemma_hold_times(hold_ms: u64)
    ensures
        (exists|random: u64| (#[trigger] space_press_of(random)).hold_ms == hold_ms) <==> 10
            <= hold_ms <= 50,
{
    if 10 <= hold_ms <= 50 {
        assert(space_press_of((hold_ms - 10) as u64).hold_ms == hold_ms);
    }
}

} // verus!
