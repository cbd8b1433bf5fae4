use std::io::{Error, ErrorKind};

use zipchord::kbd::{KbdOut, OutAction};
use zipchord::zipchord::ZchState;

/// A key-injection sink whose every operation fails, standing in for an OS
/// error surfacing from the capability.
struct FailingKbdOut;

impl KbdOut for FailingKbdOut {
    fn emitted(&self) -> vstd::seq::Seq<OutAction> {
        panic!()
    }

    fn press_key(&mut self, _osc: u16) -> Result<(), Error> {
        Err(Error::new(ErrorKind::Other, "injection failed"))
    }

    fn release_key(&mut self, _osc: u16) -> Result<(), Error> {
        Err(Error::new(ErrorKind::Other, "injection failed"))
    }

    fn delete_backspace(&mut self) -> Result<(), Error> {
        Err(Error::new(ErrorKind::Other, "injection failed"))
    }

    fn type_text(&mut self, _text: &str) -> Result<(), Error> {
        Err(Error::new(ErrorKind::Other, "injection failed"))
    }
}

#[test]
fn injection_errors_propagate_to_the_caller() {
    let mut engine = ZchState::default();
    let mut kb = FailingKbdOut;
    assert!(engine.zch_press_key(&mut kb, 7).is_err());
    assert!(engine.zch_release_key(&mut kb, 7).is_err());
}
