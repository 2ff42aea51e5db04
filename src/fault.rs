use vstd::prelude::*;

use crate::keypad;
use crate::screen;

verus! {

/// The coarse failure categories a driver loop reacts to, without pin-level detail.
#[derive(Debug, Clone, Copy, PartialEq, Eq, Structural)]
pub enum DriverError {
    Keypad,
    Screen,
}

impl From<keypad::Error> for DriverError {
    fn from(e: keypad::Error) -> (r: DriverError)
        ensures
            r == DriverError::Keypad,
    {
        DriverError::Keypad
    }
}

impl vstd::std_specs::convert::FromSpecImpl<keypad::Error> for DriverError {
    open spec fn obeys_from_spec() -> bool {
        true
    }

    open spec fn from_spec(v: keypad::Error) -> DriverError {
        DriverError::Keypad
    }
}

impl From<screen::Error> for DriverError {
    fn from(e: screen::Error) -> (r: DriverError)
        ensures
            r == DriverError::Screen,
    {
        DriverError::Screen
    }
}

impl vstd::std_specs::convert::FromSpecImpl<screen::Error> for DriverError {
    open spec fn obeys_from_spec() -> bool {
        true
    }

    open spec fn from_spec(v: screen::Error) -> DriverError {
        DriverError::Screen
    }
}

} // verus!
