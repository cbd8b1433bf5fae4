use zipchord::chords::ZchPossibleChords;
use zipchord::kbd::{KbdEvent, RecordingKbdOut};
use zipchord::zipchord::{ZchConfig, ZchSortedChord, ZchState};

const KEY_D: u16 = 11;
const KEY_Y: u16 = 21;
const KEY_1: u16 = 2;
const KEY_2: u16 = 3;
const KEY_X: u16 = 45;

fn day_table() -> ZchPossibleChords {
    // {D,Y} -> "day", no follow-ups
    let mut chords = ZchPossibleChords::new();
    chords.add_chord(0, vec![KEY_D, KEY_Y], "day".to_string(), None);
    chords
}

fn day_table_with_followups() -> ZchPossibleChords {
    // {D,Y} -> "day", follow-ups {1} -> "Monday", {2} -> "Tuesday"
    let mut chords = ZchPossibleChords::new();
    let followups = chords.add_followup_table();
    chords.add_chord(followups, vec![KEY_1], "Monday".to_string(), None);
    chords.add_chord(followups, vec![KEY_2], "Tuesday".to_string(), None);
    chords.add_chord(0, vec![KEY_D, KEY_Y], "day".to_string(), Some(followups));
    chords
}

#[test]
fn accumulator_keeps_ascending_order() {
    let mut c = ZchSortedChord::new();
    c.zch_insert(5);
    c.zch_insert(2);
    c.zch_insert(9);
    c.zch_insert(7);
    assert_eq!(c.zch_keys, vec![2, 5, 7, 9]);
}

#[test]
fn accumulator_reinsert_is_idempotent() {
    let mut c = ZchSortedChord::new();
    c.zch_insert(5);
    c.zch_insert(2);
    let before = c.clone();
    c.zch_insert(5);
    assert_eq!(c, before);
    assert_eq!(c.zch_keys.len(), 2);
    c.zch_insert(2);
    c.zch_insert(2);
    assert_eq!(c.zch_keys, vec![2, 5]);
}

#[test]
fn two_key_chord_activates_on_the_second_press() {
    let mut engine = ZchState::new(day_table(), ZchConfig::default());
    let mut kb = RecordingKbdOut::new();
    engine.zch_press_key(&mut kb, KEY_D).unwrap();
    engine.zch_press_key(&mut kb, KEY_Y).unwrap();
    assert_eq!(
        kb.events,
        vec![
            KbdEvent::Press(KEY_D),
            KbdEvent::Press(KEY_Y),
            KbdEvent::Backspace,
            KbdEvent::Backspace,
            KbdEvent::Text("day".to_string()),
        ]
    );
    // accumulator and pressed set are cleared: the engine is idle again
    assert!(engine.zch_is_idle());
}

#[test]
fn higher_coded_key_first_cannot_start_a_chord() {
    // the canonical chord key is kept ascending and matched by prefix, so
    // an accumulation that starts with the higher-coded key of a chord can
    // never reach it: the press passes through and chording is disabled
    let mut engine = ZchState::new(day_table(), ZchConfig::default());
    let mut kb = RecordingKbdOut::new();
    engine.zch_press_key(&mut kb, KEY_Y).unwrap();
    engine.zch_press_key(&mut kb, KEY_D).unwrap();
    assert_eq!(
        kb.events,
        vec![KbdEvent::Press(KEY_Y), KbdEvent::Press(KEY_D)]
    );
}

#[test]
fn followup_chord_uses_the_followup_table() {
    let mut engine = ZchState::new(day_table_with_followups(), ZchConfig::default());
    let mut kb = RecordingKbdOut::new();
    engine.zch_press_key(&mut kb, KEY_D).unwrap();
    engine.zch_press_key(&mut kb, KEY_Y).unwrap();
    // "day" has activated; pressing 1 selects the follow-up "Monday" with
    // exactly one deletion (the follow-up key itself)
    engine.zch_press_key(&mut kb, KEY_1).unwrap();
    assert_eq!(
        kb.events[5..].to_vec(),
        vec![
            KbdEvent::Press(KEY_1),
            KbdEvent::Backspace,
            KbdEvent::Text("Monday".to_string()),
        ]
    );
}

#[test]
fn followup_miss_with_no_root_match_disables_and_passes_through() {
    let mut engine = ZchState::new(day_table_with_followups(), ZchConfig::default());
    let mut kb = RecordingKbdOut::new();
    engine.zch_press_key(&mut kb, KEY_D).unwrap();
    engine.zch_press_key(&mut kb, KEY_Y).unwrap();
    // 45 matches nothing in the follow-up table nor in the root table:
    // chording is disabled and the key passes through unmodified
    engine.zch_press_key(&mut kb, KEY_X).unwrap();
    assert_eq!(kb.events[5..].to_vec(), vec![KbdEvent::Press(KEY_X)]);
    assert!(!engine.zch_is_idle());
    // while disabled, further presses pass through untouched
    engine.zch_press_key(&mut kb, KEY_D).unwrap();
    assert_eq!(kb.events[6..].to_vec(), vec![KbdEvent::Press(KEY_D)]);
}

#[test]
fn partial_release_aborts_the_attempt() {
    let mut engine = ZchState::new(day_table(), ZchConfig::default());
    let mut kb = RecordingKbdOut::new();
    engine.zch_press_key(&mut kb, KEY_D).unwrap();
    engine.zch_press_key(&mut kb, KEY_X).unwrap();
    // D is still held, X's press disabled chording; release D: the release
    // passes through and chording stays off until everything is released
    engine.zch_release_key(&mut kb, KEY_X).unwrap();
    assert_eq!(kb.events[2..].to_vec(), vec![KbdEvent::Release(KEY_X)]);
    assert!(!engine.zch_is_idle());
}

#[test]
fn release_before_completion_reenables_after_the_configured_wait() {
    let mut engine = ZchState::new(day_table(), ZchConfig::default());
    let mut kb = RecordingKbdOut::new();
    engine.zch_press_key(&mut kb, KEY_D).unwrap();
    engine.zch_release_key(&mut kb, KEY_D).unwrap();
    // the release is passed through
    assert_eq!(
        kb.events,
        vec![KbdEvent::Press(KEY_D), KbdEvent::Release(KEY_D)]
    );
    // all keys are up: the engine waits the configured 50 ticks before
    // enabling — not one tick earlier
    for _ in 0..49 {
        engine.zch_tick();
        assert!(!engine.zch_is_idle());
    }
    engine.zch_tick();
    assert!(engine.zch_is_idle());
}

#[test]
fn empty_table_passes_everything_through() {
    let mut engine = ZchState::default();
    let mut kb = RecordingKbdOut::new();
    assert!(engine.zch_is_idle());
    engine.zch_press_key(&mut kb, 7).unwrap();
    engine.zch_press_key(&mut kb, 8).unwrap();
    engine.zch_release_key(&mut kb, 7).unwrap();
    engine.zch_release_key(&mut kb, 8).unwrap();
    assert_eq!(
        kb.events,
        vec![
            KbdEvent::Press(7),
            KbdEvent::Press(8),
            KbdEvent::Release(7),
            KbdEvent::Release(8),
        ]
    );
    // no key is held and no bookkeeping is pending
    assert!(engine.zch_is_idle());
}

#[test]
fn stale_state_is_reset_by_the_tick_after_the_threshold() {
    let mut engine = ZchState::new(day_table(), ZchConfig::default());
    let mut kb = RecordingKbdOut::new();
    // D is held and the engine waits for a chord: not idle
    engine.zch_press_key(&mut kb, KEY_D).unwrap();
    assert!(!engine.zch_is_idle());
    // the staleness threshold is 10000 ticks since the last state change;
    // up to and including the 10000th tick nothing is reset
    for _ in 0..10000 {
        engine.zch_tick();
        assert!(!engine.zch_is_idle());
    }
    // one more tick exceeds the threshold and forces the full reset
    engine.zch_tick();
    assert!(engine.zch_is_idle());
}

#[test]
fn reconfiguration_resets_the_dynamic_state() {
    let mut engine = ZchState::new(day_table(), ZchConfig::default());
    let mut kb = RecordingKbdOut::new();
    engine.zch_press_key(&mut kb, KEY_D).unwrap();
    assert!(!engine.zch_is_idle());
    engine.zch_configure(day_table_with_followups(), ZchConfig::default());
    assert!(engine.zch_is_idle());
}

#[test]
fn default_config_waits_fifty_ticks() {
    assert_eq!(ZchConfig::default().zch_cfg_ticks_wait_enable, 50);
}

#[test]
fn exact_match_defers_while_a_longer_chord_is_possible() {
    // {D,Y} -> "day" and {D,Y,X} -> "dayx": after D and Y the exact match
    // defers, because the longer chord could still complete; pressing X
    // commits the longer chord, deleting all three keystrokes
    let mut chords = ZchPossibleChords::new();
    chords.add_chord(0, vec![KEY_D, KEY_Y], "day".to_string(), None);
    chords.add_chord(0, vec![KEY_D, KEY_Y, KEY_X], "dayx".to_string(), None);
    let mut engine = ZchState::new(chords, ZchConfig::default());
    let mut kb = RecordingKbdOut::new();
    engine.zch_press_key(&mut kb, KEY_D).unwrap();
    engine.zch_press_key(&mut kb, KEY_Y).unwrap();
    // deferred: nothing emitted beyond the pass-throughs
    assert_eq!(
        kb.events,
        vec![KbdEvent::Press(KEY_D), KbdEvent::Press(KEY_Y)]
    );
    engine.zch_press_key(&mut kb, KEY_X).unwrap();
    assert_eq!(
        kb.events[2..].to_vec(),
        vec![
            KbdEvent::Press(KEY_X),
            KbdEvent::Backspace,
            KbdEvent::Backspace,
            KbdEvent::Backspace,
            KbdEvent::Text("dayx".to_string()),
        ]
    );
}

#[test]
fn ticking_emits_nothing() {
    let mut engine = ZchState::new(day_table(), ZchConfig::default());
    engine.zch_tick();
    engine.zch_tick();
    assert!(engine.zch_is_idle());
}

#[test]
fn pressed_set_never_keeps_a_released_key() {
    // two keys go down and both come up: once the cooldown elapses the
    // engine is idle again, so no released key was left behind in the
    // pressed set, and while one key was still held it was not
    let mut engine = ZchState::new(day_table(), ZchConfig::default());
    let mut kb = RecordingKbdOut::new();
    engine.zch_press_key(&mut kb, KEY_D).unwrap();
    engine.zch_press_key(&mut kb, KEY_X).unwrap();
    engine.zch_release_key(&mut kb, KEY_D).unwrap();
    // X is still held: not idle, in any state
    assert!(!engine.zch_is_idle());
    engine.zch_release_key(&mut kb, KEY_X).unwrap();
    for _ in 0..50 {
        engine.zch_tick();
    }
    assert!(engine.zch_is_idle());
}

#[test]
fn accumulator_is_insertion_order_independent() {
    let mut forward = ZchSortedChord::new();
    forward.zch_insert(9);
    forward.zch_insert(4);
    forward.zch_insert(30);
    let mut backward = ZchSortedChord::new();
    backward.zch_insert(30);
    backward.zch_insert(4);
    backward.zch_insert(9);
    assert_eq!(forward, backward);
}
