//! The key-injection capability consumed by the engine: an abstract "emit
//! key down/up" sink through which every side effect of chord handling
//! flows, plus a recording implementation so the emitted actions can be
//! observed.

use vstd::prelude::*;

verus! {

#[verifier::external_type_specification]
#[verifier::external_body]
pub struct ExIoError(std::io::Error);

/// One observable action performed through the capability, as contracts
/// speak of it.
pub enum OutAction {
    Press(u16),
    Release(u16),
    Backspace,
    Text(Seq<char>),
}

/// The key-injection capability: performs the OS-level key event, or, on
/// chord activation, the backspace-equivalent deletion and the typing of
/// the replacement text. `emitted` is the history of actions performed so
/// far; each method appends one action on success, leaves the history
/// unchanged on failure, and surfaces the OS error unmodified.
pub trait KbdOut {
    spec fn emitted(&self) -> Seq<OutAction>;

    fn press_key(&mut self, osc: u16) -> (r: Result<(), std::io::Error>)
        ensures
            r is Ok ==> final(self).emitted() == old(self).emitted().push(OutAction::Press(osc)),
            r is Err ==> final(self).emitted() == old(self).emitted(),
    ;

    fn release_key(&mut self, osc: u16) -> (r: Result<(), std::io::Error>)
        ensures
            r is Ok ==> final(self).emitted() == old(self).emitted().push(OutAction::Release(osc)),
            r is Err ==> final(self).emitted() == old(self).emitted(),
    ;

    fn delete_backspace(&mut self) -> (r: Result<(), std::io::Error>)
        ensures
            r is Ok ==> final(self).emitted() == old(self).emitted().push(OutAction::Backspace),
            r is Err ==> final(self).emitted() == old(self).emitted(),
    ;

    fn type_text(&mut self, text: &str) -> (r: Result<(), std::io::Error>)
        ensures
            r is Ok ==> final(self).emitted() == old(self).emitted().push(
                OutAction::Text(text@),
            ),
            r is Err ==> final(self).emitted() == old(self).emitted(),
    ;
}

/// One recorded action, as held by the recording implementation.
#[derive(Debug, Clone, PartialEq, Eq)]
pub enum KbdEvent {
    Press(u16),
    Release(u16),
    Backspace,
    Text(String),
}

impl View for KbdEvent {
    type V = OutAction;

    open spec fn view(&self) -> OutAction {
        match self {
            KbdEvent::Press(k) => OutAction::Press(*k),
            KbdEvent::Release(k) => OutAction::Release(*k),
            KbdEvent::Backspace => OutAction::Backspace,
            KbdEvent::Text(s) => OutAction::Text(s@),
        }
    }
}

/// Records actions instead of performing them; its operations always
/// succeed. Tests use it to observe exactly what the engine emitted.
pub struct RecordingKbdOut {
    pub events: Vec<KbdEvent>,
}

impl RecordingKbdOut {
    pub fn new() -> (r: Self)
        ensures
            r.emitted() == Seq::<OutAction>::empty(),
    {
        let r = RecordingKbdOut { events: Vec::new() };
        proof {
            assert(r.emitted() =~= Seq::<OutAction>::empty());
        }
        r
    }
}

impl KbdOut for RecordingKbdOut {
    open spec fn emitted(&self) -> Seq<OutAction> {
        self.events@.map_values(|e: KbdEvent| e@)
    }

    fn press_key(&mut self, osc: u16) -> (r: Result<(), std::io::Error>) {
        self.events.push(KbdEvent::Press(osc));
        proof {
            assert(self.emitted() =~= old(self).emitted().push(OutAction::Press(osc)));
        }
        Ok(())
    }

    fn release_key(&mut self, osc: u16) -> (r: Result<(), std::io::Error>) {
        self.events.push(KbdEvent::Release(osc));
        proof {
            assert(self.emitted() =~= old(self).emitted().push(OutAction::Release(osc)));
        }
        Ok(())
    }

    fn delete_backspace(&mut self) -> (r: Result<(), std::io::Error>) {
        self.events.push(KbdEvent::Backspace);
        proof {
            assert(self.emitted() =~= old(self).emitted().push(OutAction::Backspace));
        }
        Ok(())
    }

    fn type_text(&mut self, text: &str) -> (r: Result<(), std::io::Error>) {
        self.events.push(KbdEvent::Text(text.to_owned()));
        proof {
            assert(self.emitted() =~= old(self).emitted().push(OutAction::Text(text@)));
        }
        Ok(())
    }
}

} // verus!
