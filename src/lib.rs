//! Peripheral layer of a hand-held CHIP-8 console: a 4x4 keypad scanner and
//! an SH1106 display compositor, both written against small capability traits
//! so that the scan and the wire protocol can be checked against a model.

pub mod keypad;
pub mod screen;
pub mod fault;

