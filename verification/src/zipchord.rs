//! The chord-recognition engine: feeds key press/release events and a
//! periodic tick through a state machine that accumulates a canonical chord
//! key, matches it against the chord tables, and on activation deletes the
//! keystrokes already sent and types the substitute output through the
//! key-injection capability.

use vstd::prelude::*;

use std::collections::HashSet;

use crate::chords::{ChordTablesView, ZchPossibleChords};
use crate::kbd::{KbdOut, OutAction};
use crate::trie::{GetOrDescendentExistsResult, TrieKey};

verus! {

/// Ticks with no state change after which the dynamic state is assumed
/// stale (release events may have been missed) and is forcibly reset.
pub const TICKS_UNTIL_FORCE_STATE_RESET: u16 = 10000;

/// Strictly ascending: sorted with no duplicate.
pub open spec fn strictly_sorted(s: Seq<u16>) -> bool {
    forall|i: int, j: int| 0 <= i < j < s.len() ==> s[i] < s[j]
}

/// Where inserting `k` into the ascending `s` lands: `s` itself when `k` is
/// already present, else `s` with `k` spliced in before the first larger
/// element.
pub open spec fn sorted_insert(s: Seq<u16>, k: u16) -> Seq<u16>
    decreases s.len(),
{
    if s.len() == 0 {
        seq![k]
    } else if k < s[0] {
        seq![k] + s
    } else if k == s[0] {
        s
    } else {
        seq![s[0]] + sorted_insert(s.drop_first(), k)
    }
}

proof fn lemma_sorted_insert_at(s: Seq<u16>, k: u16, i: int)
    requires
        strictly_sorted(s),
        0 <= i <= s.len(),
        forall|j: int| 0 <= j < i ==> s[j] < k,
        forall|j: int| i <= j < s.len() ==> k <= s[j],
    ensures
        i < s.len() && s[i] == k ==> sorted_insert(s, k) == s,
        !(i < s.len() && s[i] == k) ==> sorted_insert(s, k) == s.insert(i, k),
    decreases s.len(),
{
    if s.len() == 0 {
        assert(sorted_insert(s, k) =~= s.insert(0, k));
    } else if k < s[0] {
        assert(i == 0);
        assert(sorted_insert(s, k) =~= s.insert(0, k));
    } else if k == s[0] {
        assert(i == 0);
    } else {
        assert(i >= 1);
        let s2 = s.drop_first();
        assert(forall|j: int| 0 <= j < i - 1 ==> s2[j] < k);
        assert(forall|j: int| i - 1 <= j < s2.len() ==> k <= s2[j]);
        lemma_sorted_insert_at(s2, k, i - 1);
        if i < s.len() && s[i] == k {
            assert(s2[i - 1] == k);
            assert(sorted_insert(s, k) =~= s);
        } else {
            assert(sorted_insert(s2, k) == s2.insert(i - 1, k));
            assert(sorted_insert(s, k) =~= s.insert(i, k));
        }
    }
}

/// Tracks current input to check against possible chords.
///
/// This does not store by the input order; instead it is by ascending key
/// code, a consistent ordering for lookup in the chord tables.
#[derive(Debug, Clone, PartialEq, Eq)]
pub struct ZchSortedChord {
    pub zch_keys: Vec<u16>,
}

impl View for ZchSortedChord {
    type V = Seq<u16>;

    open spec fn view(&self) -> Seq<u16> {
        self.zch_keys@
    }
}

impl ZchSortedChord {
    pub open spec fn wf(self) -> bool {
        strictly_sorted(self@)
    }

    pub fn new() -> (r: Self)
        ensures
            r.wf(),
            r@ == Seq::<u16>::empty(),
    {
        ZchSortedChord { zch_keys: Vec::new() }
    }

    /// Records one key code, keeping the ascending order. Inserting a code
    /// that is already present leaves the chord unchanged — key-repeat
    /// events may resubmit a code that is already accumulated.
    pub fn zch_insert(&mut self, key: u16)
        requires
            old(self).wf(),
        ensures
            final(self).wf(),
            final(self)@ == sorted_insert(old(self)@, key),
            old(self)@.contains(key) ==> final(self)@ == old(self)@,
    {
        let mut lo: usize = 0;
        let mut hi: usize = self.zch_keys.len();
        while lo < hi
            invariant
                lo <= hi <= self.zch_keys@.len(),
                strictly_sorted(self.zch_keys@),
                forall|j: int| 0 <= j < lo ==> self.zch_keys@[j] < key,
                forall|j: int| hi <= j < self.zch_keys@.len() ==> key <= self.zch_keys@[j],
            decreases hi - lo,
        {
            let mid = lo + (hi - lo) / 2;
            if self.zch_keys[mid] < key {
                proof {
                    assert forall|j: int| 0 <= j < mid + 1 implies self.zch_keys@[j] < key by {
                        if j < mid {
                            assert(self.zch_keys@[j] < self.zch_keys@[mid as int]);
                        }
                    }
                }
                lo = mid + 1;
            } else {
                proof {
                    assert forall|j: int| mid <= j < self.zch_keys@.len() implies key
                        <= self.zch_keys@[j] by {
                        if j > mid {
                            assert(self.zch_keys@[mid as int] < self.zch_keys@[j]);
                        }
                    }
                }
                hi = mid;
            }
        }
        proof {
            lemma_sorted_insert_at(self.zch_keys@, key, lo as int);
        }
        if lo < self.zch_keys.len() && self.zch_keys[lo] == key {
            proof {
                assert(final(self)@ == old(self)@);
                assert(old(self)@.contains(key));
            }
        } else {
            let ghost pre = self.zch_keys@;
            self.zch_keys.insert(lo, key);
            proof {
                assert(self.zch_keys@ == pre.insert(lo as int, key));
                assert forall|i: int, j: int|
                    0 <= i < j < self.zch_keys@.len() implies self.zch_keys@[i]
                    < self.zch_keys@[j] by {
                    let s2 = self.zch_keys@;
                    if j < lo {
                        assert(s2[i] == pre[i] && s2[j] == pre[j]);
                    } else if i > lo {
                        assert(s2[i] == pre[i - 1] && s2[j] == pre[j - 1]);
                    } else if i == lo {
                        assert(s2[i] == key && s2[j] == pre[j - 1] && lo <= j - 1);
                    } else if j == lo {
                        assert(s2[i] == pre[i] && s2[j] == key && i < lo);
                    } else {
                        assert(i < lo && j > lo);
                        assert(s2[i] == pre[i] && s2[j] == pre[j - 1]);
                        assert(pre[i] < key && key <= pre[j - 1]);
                    }
                }
                if old(self)@.contains(key) {
                    let w = choose|w: int| 0 <= w < pre.len() && pre[w] == key;
                    if w < lo {
                        assert(pre[w] < key);
                    } else {
                        assert(key <= pre[w]);
                    }
                    assert(false);
                }
            }
        }
    }
}

/// The in-progress canonical chord key: the set of key codes accumulated
/// since the current chord attempt began, in canonical ascending order.
#[derive(Debug, Clone, PartialEq, Eq)]
pub struct ZchSortedInputs {
    pub zch_inputs: ZchSortedChord,
}

impl ZchSortedInputs {
    pub fn new() -> (r: Self)
        ensures
            r.zch_inputs.wf(),
            r.zch_inputs@ == Seq::<u16>::empty(),
    {
        ZchSortedInputs { zch_inputs: ZchSortedChord::new() }
    }

    /// Records one pressed key code in the canonical chord key.
    pub fn zchsi_insert(&mut self, osc: u16)
        requires
            old(self).zch_inputs.wf(),
        ensures
            final(self).zch_inputs.wf(),
            final(self).zch_inputs@ == sorted_insert(old(self).zch_inputs@, osc),
    {
        self.zch_inputs.zch_insert(osc);
    }
}

/// Whether chording is live, cooling down, or given up until all keys are
/// released.
#[derive(Debug, Clone, Copy, PartialEq, Eq, Structural)]
pub enum ZchEnabledState {
    ZchEnabled,
    ZchWaitEnable,
    ZchDisabled,
}

impl Default for ZchEnabledState {
    fn default() -> (r: Self)
        ensures
            r is ZchEnabled,
    {
        ZchEnabledState::ZchEnabled
    }
}

/// Options to configure behaviour.
#[derive(Debug, Clone, Copy, PartialEq, Eq, Structural)]
pub struct ZchConfig {
    /// Ticks spent in the wait-enable cooldown before chording is re-enabled
    /// after all keys were released, so the next press is not misread as a
    /// continuation.
    pub zch_cfg_ticks_wait_enable: u16,
}

impl Default for ZchConfig {
    fn default() -> (r: Self)
        ensures
            r.zch_cfg_ticks_wait_enable == 50,
    {
        ZchConfig { zch_cfg_ticks_wait_enable: 50 }
    }
}

/// Spec-level picture of the dynamic state.
pub struct ZchDynView {
    /// The canonical chord key accumulated so far.
    pub inputs: Seq<u16>,
    pub enabled: ZchEnabledState,
    /// The active follow-up table, as an index into the chord table arena.
    pub prioritized: Option<int>,
    pub ticks_since: int,
    pub ticks_until: int,
    /// The physically pressed keys.
    pub pressed: Set<u16>,
}

/// The dynamic state a fresh engine starts in.
pub open spec fn default_dyn_view() -> ZchDynView {
    ZchDynView {
        inputs: Seq::empty(),
        enabled: ZchEnabledState::ZchEnabled,
        prioritized: None,
        ticks_since: 0,
        ticks_until: 0,
        pressed: Set::empty(),
    }
}

/// The known-good state forced by a staleness or recovery reset: enabled,
/// nothing accumulated, nothing pressed, no follow-up table; only the
/// cooldown countdown is left as it was.
pub open spec fn reset_view(d: ZchDynView) -> ZchDynView {
    ZchDynView {
        inputs: Seq::empty(),
        enabled: ZchEnabledState::ZchEnabled,
        prioritized: None,
        ticks_since: 0,
        ticks_until: d.ticks_until,
        pressed: Set::empty(),
    }
}

/// The mutable runtime state of the engine.
#[derive(Debug)]
pub struct ZchDynamicState {
    /// Input sorted not by input order but by ascending key code, so that
    /// it can be compared against the chord tables.
    pub zchd_sorted_inputs: ZchSortedInputs,
    /// Whether chording is enabled, cooling down or disabled. Chording is
    /// disabled when further presses cannot possibly activate a chord or a
    /// release aborts an attempt; once disabled it is re-enabled when all
    /// keys have been released and the cooldown has elapsed.
    pub zchd_enabled_state: ZchEnabledState,
    /// `Some` when a chord with follow-up chords has just activated: the
    /// arena index of the table its follow-ups live in. Cleared when the
    /// input can no longer activate anything in that table.
    pub zchd_prioritized_chords: Option<usize>,
    /// Ticks since the previous state change, to know when potentially
    /// stale state should be cleared.
    pub zchd_ticks_since_state_change: u16,
    /// Ticks left in the disabled -> pending-enabled -> truly-enabled
    /// delay, which mitigates unintended activations.
    pub zchd_ticks_until_enabled: u16,
    /// The actually pressed keys, to know when state can be reset.
    pub zchd_pressed_keys: HashSet<u16>,
}

impl View for ZchDynamicState {
    type V = ZchDynView;

    open spec fn view(&self) -> ZchDynView {
        ZchDynView {
            inputs: self.zchd_sorted_inputs.zch_inputs@,
            enabled: self.zchd_enabled_state,
            prioritized: match self.zchd_prioritized_chords {
                Option::Some(p) => Option::Some(p as int),
                Option::None => Option::None,
            },
            ticks_since: self.zchd_ticks_since_state_change as int,
            ticks_until: self.zchd_ticks_until_enabled as int,
            pressed: self.zchd_pressed_keys@,
        }
    }
}

/// One tick: bump the staleness counter, run the cooldown down while
/// waiting to re-enable, and force the full reset once the staleness
/// threshold is exceeded.
pub open spec fn spec_tick(d: ZchDynView) -> ZchDynView {
    let ts = d.ticks_since + 1;
    let cooled = if d.enabled is ZchWaitEnable {
        let tu = if d.ticks_until <= 1 {
            0
        } else {
            d.ticks_until - 1
        };
        ZchDynView {
            enabled: if tu == 0 {
                ZchEnabledState::ZchEnabled
            } else {
                ZchEnabledState::ZchWaitEnable
            },
            ticks_until: tu,
            ticks_since: ts,
            inputs: d.inputs,
            prioritized: d.prioritized,
            pressed: d.pressed,
        }
    } else {
        ZchDynView {
            ticks_since: ts,
            inputs: d.inputs,
            enabled: d.enabled,
            prioritized: d.prioritized,
            ticks_until: d.ticks_until,
            pressed: d.pressed,
        }
    };
    if ts > TICKS_UNTIL_FORCE_STATE_RESET as int {
        reset_view(cooled)
    } else {
        cooled
    }
}

/// The engine reports idle exactly when chording is enabled and no key is
/// physically held: no chord bookkeeping is pending.
pub open spec fn spec_is_idle(d: ZchDynView) -> bool {
    d.enabled is ZchEnabled && d.pressed.is_empty()
}

/// What one event does: the dynamic state after it, and the actions emitted
/// through the key-injection capability while handling it.
pub struct ZchStep {
    pub d: ZchDynView,
    pub actions: Seq<OutAction>,
}

/// The follow-up table the accumulated input is still matched against:
/// the active one while it can still be completed, else none — matching
/// falls back to the root table and the follow-up window is over.
pub open spec fn active_prioritized(
    tables: ChordTablesView,
    prioritized: Option<int>,
    inputs: Seq<u16>,
) -> Option<int> {
    match prioritized {
        Option::Some(p) => if tables.has_descendant(p, inputs) {
            Option::Some(p)
        } else {
            Option::None
        },
        Option::None => Option::None,
    }
}

/// One key press, per the transition rules: pass through untouched when no
/// chord is configured or chording is disabled; otherwise accumulate the
/// key and either give up (no chord can complete), activate (exact match
/// with no longer completion possible), or keep accumulating.
pub open spec fn spec_press(tables: ChordTablesView, cfg: u16, d: ZchDynView, osc: u16) -> ZchStep {
    if tables.root_is_empty() || d.enabled is ZchDisabled {
        ZchStep { d: d, actions: seq![OutAction::Press(osc)] }
    } else {
        let inputs = sorted_insert(d.inputs, osc);
        let pressed = d.pressed.insert(osc);
        let prio = active_prioritized(tables, d.prioritized, inputs);
        let t = match prio {
            Option::Some(p) => p,
            Option::None => 0,
        };
        if !tables.has_descendant(t, inputs) {
            // no chord exists that the current input could grow into
            ZchStep {
                d: ZchDynView {
                    inputs: Seq::empty(),
                    enabled: ZchEnabledState::ZchDisabled,
                    prioritized: None,
                    ticks_since: 0,
                    ticks_until: cfg as int,
                    pressed: pressed,
                },
                actions: seq![OutAction::Press(osc)],
            }
        } else if tables.tries[t].contains_key(inputs) && !tables.has_multiple_descendants(
            t,
            inputs,
        ) {
            // exact match and no longer completion remains: activate now
            let chord = tables.chord_at(t, inputs);
            ZchStep {
                d: ZchDynView {
                    inputs: Seq::empty(),
                    enabled: d.enabled,
                    prioritized: chord.followups,
                    ticks_since: 0,
                    ticks_until: cfg as int,
                    pressed: Set::empty(),
                },
                actions: seq![OutAction::Press(osc)] + Seq::new(
                    inputs.len(),
                    |i: int| OutAction::Backspace,
                ) + seq![OutAction::Text(chord.output)],
            }
        } else {
            // keep accumulating; an exact match defers to a possibly longer
            // one until no longer completion is possible
            ZchStep {
                d: ZchDynView {
                    inputs: inputs,
                    enabled: d.enabled,
                    prioritized: prio,
                    ticks_since: 0,
                    ticks_until: cfg as int,
                    pressed: pressed,
                },
                actions: seq![OutAction::Press(osc)],
            }
        }
    }
}

/// One key release: pass through untouched when no chord is configured;
/// otherwise drop the key from the pressed set, discard the chord attempt,
/// and cool down (all keys up) or disable (a partial release aborts the
/// attempt, since a chord's keys must resolve together).
pub open spec fn spec_release(tables: ChordTablesView, cfg: u16, d: ZchDynView, osc: u16) -> ZchStep {
    if tables.root_is_empty() {
        ZchStep { d: d, actions: seq![OutAction::Release(osc)] }
    } else {
        let pressed = d.pressed.remove(osc);
        ZchStep {
            d: ZchDynView {
                inputs: Seq::empty(),
                enabled: if pressed.is_empty() {
                    ZchEnabledState::ZchWaitEnable
                } else {
                    ZchEnabledState::ZchDisabled
                },
                prioritized: d.prioritized,
                ticks_since: 0,
                ticks_until: cfg as int,
                pressed: pressed,
            },
            actions: seq![OutAction::Release(osc)],
        }
    }
}

impl ZchDynamicState {
    /// Ascending accumulator and a staleness counter within its bound.
    pub open spec fn wf(self) -> bool {
        &&& self.zchd_sorted_inputs.zch_inputs.wf()
        &&& self.zchd_ticks_since_state_change <= TICKS_UNTIL_FORCE_STATE_RESET
    }

    pub fn new() -> (r: Self)
        ensures
            r.wf(),
            r@ == default_dyn_view(),
    {
        let r = ZchDynamicState {
            zchd_sorted_inputs: ZchSortedInputs::new(),
            zchd_enabled_state: ZchEnabledState::ZchEnabled,
            zchd_prioritized_chords: None,
            zchd_ticks_since_state_change: 0,
            zchd_ticks_until_enabled: 0,
            zchd_pressed_keys: HashSet::new(),
        };
        proof {
            assert(r@ == default_dyn_view());
        }
        r
    }

    pub fn zchd_is_disabled(&self) -> (r: bool)
        ensures
            r == (self@.enabled is ZchDisabled),
    {
        self.zchd_enabled_state == ZchEnabledState::ZchDisabled
    }

    /// Bumps the staleness counter, runs the wait-enable cooldown, and
    /// forces the full reset once the staleness threshold is exceeded.
    pub fn zchd_tick(&mut self)
        requires
            old(self).wf(),
        ensures
            final(self).wf(),
            final(self)@ == spec_tick(old(self)@),
    {
        self.zchd_ticks_since_state_change = self.zchd_ticks_since_state_change + 1;
        if self.zchd_enabled_state == ZchEnabledState::ZchWaitEnable {
            self.zchd_ticks_until_enabled = if self.zchd_ticks_until_enabled <= 1 {
                0
            } else {
                self.zchd_ticks_until_enabled - 1
            };
            if self.zchd_ticks_until_enabled == 0 {
                self.zchd_enabled_state = ZchEnabledState::ZchEnabled;
            }
        }
        if self.zchd_ticks_since_state_change > TICKS_UNTIL_FORCE_STATE_RESET {
            self.zchd_reset();
        }
    }

    /// A press or release arrived: the state is changing now, so restart
    /// the staleness counter and the cooldown countdown.
    pub fn zchd_state_change(&mut self, cfg: &ZchConfig)
        ensures
            final(self)@ == (ZchDynView {
                ticks_since: 0,
                ticks_until: cfg.zch_cfg_ticks_wait_enable as int,
                ..old(self)@
            }),
            final(self).zchd_sorted_inputs == old(self).zchd_sorted_inputs,
            old(self).wf() ==> final(self).wf(),
    {
        self.zchd_ticks_since_state_change = 0;
        self.zchd_ticks_until_enabled = cfg.zch_cfg_ticks_wait_enable;
    }

    /// Clean up the state: back to the known-good default. Called on
    /// staleness and on recovery after a failed holder of the engine.
    pub fn zchd_reset(&mut self)
        ensures
            final(self).wf(),
            final(self)@ == reset_view(old(self)@),
    {
        self.zchd_enabled_state = ZchEnabledState::ZchEnabled;
        self.zchd_pressed_keys.clear();
        self.zchd_sorted_inputs.zch_inputs.zch_keys.clear();
        self.zchd_prioritized_chords = None;
        self.zchd_ticks_since_state_change = 0;
    }

    /// True if the dynamic state is such that the idling optimization can
    /// activate.
    pub fn zchd_is_idle(&self) -> (r: bool)
        ensures
            r == spec_is_idle(self@),
    {
        self.zchd_enabled_state == ZchEnabledState::ZchEnabled && self.zchd_pressed_keys.is_empty()
    }

    /// Records a press in the pressed set and the canonical chord key.
    pub fn zchd_press_key(&mut self, osc: u16)
        requires
            old(self).wf(),
        ensures
            final(self).wf(),
            final(self)@ == (ZchDynView {
                inputs: sorted_insert(old(self)@.inputs, osc),
                pressed: old(self)@.pressed.insert(osc),
                ..old(self)@
            }),
    {
        self.zchd_pressed_keys.insert(osc);
        self.zchd_sorted_inputs.zchsi_insert(osc);
    }

    /// Records a release: the key leaves the pressed set, the in-progress
    /// chord attempt is discarded, and chording cools down (nothing held
    /// any more) or is disabled (a partial release aborts the attempt).
    pub fn zchd_release_key(&mut self, osc: u16)
        requires
            old(self).wf(),
        ensures
            final(self).wf(),
            final(self)@ == (ZchDynView {
                inputs: Seq::empty(),
                enabled: if old(self)@.pressed.remove(osc).is_empty() {
                    ZchEnabledState::ZchWaitEnable
                } else {
                    ZchEnabledState::ZchDisabled
                },
                pressed: old(self)@.pressed.remove(osc),
                ..old(self)@
            }),
    {
        self.zchd_pressed_keys.remove(&osc);
        self.zchd_sorted_inputs.zch_inputs.zch_keys.clear();
        self.zchd_enabled_state = if self.zchd_pressed_keys.is_empty() {
            ZchEnabledState::ZchWaitEnable
        } else {
            ZchEnabledState::ZchDisabled
        };
    }
}

impl Default for ZchDynamicState {
    fn default() -> (r: Self)
        ensures
            r.wf(),
            r@ == default_dyn_view(),
    {
        Self::new()
    }
}

/// The engine: the dynamic state, the chords configured by the user (fixed
/// at runtime other than a reconfiguration replacing them wholesale), and
/// the behaviour options.
#[derive(Debug)]
pub struct ZchState {
    pub zchd: ZchDynamicState,
    pub zch_chords: ZchPossibleChords,
    pub zch_cfg: ZchConfig,
}

/// What `zch_press_key` does to the engine given its starting state.
pub open spec fn press_step(s: ZchState, osc: u16) -> ZchStep {
    spec_press(s.zch_chords@, s.zch_cfg.zch_cfg_ticks_wait_enable, s.zchd@, osc)
}

/// What `zch_release_key` does to the engine given its starting state.
pub open spec fn release_step(s: ZchState, osc: u16) -> ZchStep {
    spec_release(s.zch_chords@, s.zch_cfg.zch_cfg_ticks_wait_enable, s.zchd@, osc)
}

impl ZchState {
    /// The parts are well formed and the active follow-up table, if any,
    /// exists in the arena.
    pub open spec fn wf(self) -> bool {
        &&& self.zchd.wf()
        &&& self.zch_chords.wf()
        &&& match self.zchd@.prioritized {
            Option::Some(p) => 0 <= p < self.zch_chords@.tries.len(),
            Option::None => true,
        }
    }

    /// An engine over the given chord table and options, in the default
    /// dynamic state.
    pub fn new(chords: ZchPossibleChords, cfg: ZchConfig) -> (r: Self)
        requires
            chords.wf(),
        ensures
            r.wf(),
            r.zch_chords@ == chords@,
            r.zch_cfg == cfg,
            r.zchd@ == default_dyn_view(),
    {
        ZchState { zchd: ZchDynamicState::new(), zch_chords: chords, zch_cfg: cfg }
    }

    /// Atomically installs a newly built chord table and options, resetting
    /// the dynamic state to its known-good default.
    pub fn zch_configure(&mut self, chords: ZchPossibleChords, cfg: ZchConfig)
        requires
            chords.wf(),
        ensures
            final(self).wf(),
            final(self).zch_chords@ == chords@,
            final(self).zch_cfg == cfg,
            final(self).zchd@ == reset_view(old(self).zchd@),
    {
        self.zch_chords = chords;
        self.zch_cfg = cfg;
        self.zchd.zchd_reset();
    }

    /// Zch handling for key presses.
    pub fn zch_press_key<K: KbdOut>(&mut self, kb: &mut K, osc: u16) -> (r: Result<
        (),
        std::io::Error,
    >)
        requires
            old(self).wf(),
        ensures
            final(self).wf(),
            final(self).zch_chords == old(self).zch_chords,
            final(self).zch_cfg == old(self).zch_cfg,
            final(self).zchd@ == press_step(*old(self), osc).d,
            r is Ok ==> final(kb).emitted() == old(kb).emitted() + press_step(*old(self), osc).actions,
            r is Err ==> (exists|n: int|
                0 <= n <= press_step(*old(self), osc).actions.len() && final(kb).emitted() == old(
                    kb,
                ).emitted() + press_step(*old(self), osc).actions.take(n)),
    {
        let ghost step = press_step(*old(self), osc);
        proof {
            self.zch_chords.view_wf();
        }
        if self.zch_chords.is_empty() || self.zchd.zchd_is_disabled() {
            let r = kb.press_key(osc);
            proof {
                if r is Ok {
                    assert(final(kb).emitted() =~= old(kb).emitted() + step.actions);
                } else {
                    assert(final(kb).emitted() =~= old(kb).emitted() + step.actions.take(0));
                }
            }
            return r;
        }
        self.zchd.zchd_state_change(&self.zch_cfg);
        self.zchd.zchd_press_key(osc);
        let key: TrieKey = copy_key(&self.zchd.zchd_sorted_inputs.zch_inputs.zch_keys);
        let ghost tv = self.zch_chords@;
        let ghost inputs = key@;
        proof {
            assert(inputs == sorted_insert(old(self).zchd@.inputs, osc));
            assert(inputs.is_prefix_of(inputs)) by {
                assert(inputs =~= inputs.subrange(0, inputs.len() as int));
            }
        }
        let prio = self.zchd.zchd_prioritized_chords;
        let mut table: usize = 0;
        let q = match prio {
            Some(p) => {
                let r0 = self.zch_chords.get_or_descendant_exists(p, &key);
                match r0 {
                    GetOrDescendentExistsResult::NotInTrie => {
                        // the active follow-up table cannot be completed any
                        // more: the follow-up window is over, fall back to
                        // the root table
                        self.zchd.zchd_prioritized_chords = None;
                        self.zch_chords.get_or_descendant_exists(0, &key)
                    },
                    _ => {
                        table = p;
                        r0
                    },
                }
            },
            None => self.zch_chords.get_or_descendant_exists(0, &key),
        };
        proof {
            assert(table as int == (match active_prioritized(tv, old(self).zchd@.prioritized, inputs) {
                Option::Some(p) => p,
                Option::None => 0int,
            }));
        }
        match q {
            GetOrDescendentExistsResult::NotInTrie => {
                // no chord exists that the current input could grow into:
                // give up and pass the key through unchanged
                self.zchd.zchd_prioritized_chords = None;
                self.zchd.zchd_enabled_state = ZchEnabledState::ZchDisabled;
                self.zchd.zchd_sorted_inputs.zch_inputs.zch_keys.clear();
                let r = kb.press_key(osc);
                proof {
                    assert(final(self).zchd@ == step.d);
                    if r is Ok {
                        assert(final(kb).emitted() =~= old(kb).emitted() + step.actions);
                    } else {
                        assert(final(kb).emitted() =~= old(kb).emitted() + step.actions.take(0));
                    }
                }
                r
            },
            GetOrDescendentExistsResult::HasValue(idx) => {
                if self.zch_chords.multiple_descendants_exist(table, &key) {
                    // a longer chord still shares this prefix: defer the
                    // exact match and keep accumulating
                    let r = kb.press_key(osc);
                    proof {
                        assert(final(self).zchd@ == step.d);
                        if r is Ok {
                            assert(final(kb).emitted() =~= old(kb).emitted() + step.actions);
                        } else {
                            assert(final(kb).emitted() =~= old(kb).emitted() + step.actions.take(
                                0,
                            ));
                        }
                    }
                    r
                } else {
                    // activate: delete the keystrokes already sent, type the
                    // output, and start a fresh accumulation, with the
                    // chord's follow-up table (if any) active
                    proof {
                        assert(tv.tries[table as int].contains_key(inputs));
                        assert(tv.tries[table as int][inputs] == idx && idx < tv.outputs.len());
                    }
                    let followups = self.zch_chords.chord(idx).zch_followups;
                    self.zchd.zchd_prioritized_chords = followups;
                    self.zchd.zchd_sorted_inputs.zch_inputs.zch_keys.clear();
                    self.zchd.zchd_pressed_keys.clear();
                    proof {
                        assert(tv.outputs[idx as int] == tv.chord_at(table as int, inputs));
                        assert(match tv.outputs[idx as int].followups {
                            Option::Some(f) => 0 <= f < tv.tries.len(),
                            Option::None => true,
                        });
                        assert(final(self).zchd@ == step.d);
                        assert(self.wf());
                        assert(step.actions =~= seq![OutAction::Press(osc)] + Seq::new(
                            inputs.len(),
                            |j: int| OutAction::Backspace,
                        ) + seq![OutAction::Text(tv.chord_at(table as int, inputs).output)]);
                    }
                    let ghost base = kb.emitted();
                    let total = key.len();
                    match kb.press_key(osc) {
                        Ok(()) => {},
                        Err(e) => {
                            proof {
                                assert(kb.emitted() =~= base + step.actions.take(0));
                            }
                            return Err(e);
                        },
                    }
                    let mut i: usize = 0;
                    while i < total
                        invariant
                            i <= total,
                            total == inputs.len(),
                            base == old(kb).emitted(),
                            self.wf(),
                            self.zchd@ == step.d,
                            self.zch_chords == old(self).zch_chords,
                            self.zch_cfg == old(self).zch_cfg,
                            step == press_step(*old(self), osc),
                            step.actions =~= seq![OutAction::Press(osc)] + Seq::new(
                                inputs.len(),
                                |j: int| OutAction::Backspace,
                            ) + seq![OutAction::Text(tv.chord_at(table as int, inputs).output)],
                            kb.emitted() =~= base + seq![OutAction::Press(osc)] + Seq::new(
                                i as nat,
                                |j: int| OutAction::Backspace,
                            ),
                        decreases total - i,
                    {
                        match kb.delete_backspace() {
                            Ok(()) => {},
                            Err(e) => {
                                proof {
                                    assert(step.actions.take(1 + i as int) =~= seq![
                                        OutAction::Press(osc),
                                    ] + Seq::new(i as nat, |j: int| OutAction::Backspace));
                                    assert(kb.emitted() =~= base + step.actions.take(1 + i as int));
                                }
                                return Err(e);
                            },
                        }
                        i = i + 1;
                        proof {
                            assert(kb.emitted() =~= base + seq![OutAction::Press(osc)] + Seq::new(
                                i as nat,
                                |j: int| OutAction::Backspace,
                            ));
                        }
                    }
                    let r = kb.type_text(self.zch_chords.chord(idx).zch_output.as_str());
                    proof {
                        if r is Ok {
                            assert(kb.emitted() =~= base + step.actions);
                        } else {
                            assert(step.actions.take(1 + total as int) =~= seq![
                                OutAction::Press(osc),
                            ] + Seq::new(total as nat, |j: int| OutAction::Backspace));
                            assert(kb.emitted() =~= base + step.actions.take(
                                1 + total as int,
                            ));
                        }
                    }
                    match r {
                        Ok(()) => Ok(()),
                        Err(e) => Err(e),
                    }
                }
            },
            GetOrDescendentExistsResult::InTrie => {
                // no exact match yet, but a chord can still complete: keep
                // accumulating, no output yet
                let r = kb.press_key(osc);
                proof {
                    assert(final(self).zchd@ == step.d);
                    if r is Ok {
                        assert(final(kb).emitted() =~= old(kb).emitted() + step.actions);
                    } else {
                        assert(final(kb).emitted() =~= old(kb).emitted() + step.actions.take(0));
                    }
                }
                r
            },
        }
    }

    /// Zch handling for key releases.
    pub fn zch_release_key<K: KbdOut>(&mut self, kb: &mut K, osc: u16) -> (r: Result<
        (),
        std::io::Error,
    >)
        requires
            old(self).wf(),
        ensures
            final(self).wf(),
            final(self).zch_chords == old(self).zch_chords,
            final(self).zch_cfg == old(self).zch_cfg,
            final(self).zchd@ == release_step(*old(self), osc).d,
            r is Ok ==> final(kb).emitted() == old(kb).emitted() + release_step(
                *old(self),
                osc,
            ).actions,
            r is Err ==> final(kb).emitted() == old(kb).emitted(),
    {
        let ghost step = release_step(*old(self), osc);
        if self.zch_chords.is_empty() {
            let r = kb.release_key(osc);
            proof {
                if r is Ok {
                    assert(final(kb).emitted() =~= old(kb).emitted() + step.actions);
                }
            }
            return r;
        }
        self.zchd.zchd_state_change(&self.zch_cfg);
        self.zchd.zchd_release_key(osc);
        let r = kb.release_key(osc);
        proof {
            assert(final(self).zchd@ == step.d);
            if r is Ok {
                assert(final(kb).emitted() =~= old(kb).emitted() + step.actions);
            }
        }
        r
    }

    /// Tick the zch output state.
    pub fn zch_tick(&mut self)
        requires
            old(self).wf(),
        ensures
            final(self).wf(),
            final(self).zch_chords == old(self).zch_chords,
            final(self).zch_cfg == old(self).zch_cfg,
            final(self).zchd@ == spec_tick(old(self).zchd@),
    {
        self.zchd.zchd_tick();
    }

    /// True if zch state has no further processing so the idling
    /// optimization can activate.
    pub fn zch_is_idle(&self) -> (r: bool)
        ensures
            r == spec_is_idle(self.zchd@),
    {
        self.zchd.zchd_is_idle()
    }
}

impl Default for ZchState {
    fn default() -> (r: Self)
        ensures
            r.wf(),
            r.zch_chords@ == ChordTablesView::empty(),
            r.zch_cfg.zch_cfg_ticks_wait_enable == 50,
            r.zchd@ == default_dyn_view(),
    {
        ZchState::new(ZchPossibleChords::new(), ZchConfig::default())
    }
}

/// An owned copy of the accumulated canonical chord key, used as the trie
/// lookup key.
fn copy_key(v: &Vec<u16>) -> (r: TrieKey)
    ensures
        r@ == v@,
{
    let mut r: Vec<u16> = Vec::new();
    let mut i: usize = 0;
    while i < v.len()
        invariant
            i <= v@.len(),
            r@ == v@.take(i as int),
        decreases v@.len() - i,
    {
        let x = v[i];
        r.push(x);
        proof {
            assert(r@ =~= v@.take(i + 1));
        }
        i = i + 1;
    }
    proof {
        assert(r@ =~= v@);
    }
    r
}

/// A key press or release, as the pressed-set bookkeeping sees it.
pub enum ZchKeyEvent {
    Press(u16),
    Release(u16),
}

/// The pressed-set bookkeeping of one event: insert on press, remove on
/// release, exactly what `zchd_press_key` and `zchd_release_key` do to the
/// pressed set.
pub open spec fn apply_key_event(s: Set<u16>, e: ZchKeyEvent) -> Set<u16> {
    match e {
        ZchKeyEvent::Press(k) => s.insert(k),
        ZchKeyEvent::Release(k) => s.remove(k),
    }
}

pub open spec fn apply_key_events(s: Set<u16>, evs: Seq<ZchKeyEvent>) -> Set<u16>
    decreases evs.len(),
{
    if evs.len() == 0 {
        s
    } else {
        apply_key_event(apply_key_events(s, evs.drop_last()), evs.last())
    }
}

/// Whether `k` is held after `evs`: pressed at some point and not released
/// since.
pub open spec fn held_after(evs: Seq<ZchKeyEvent>, k: u16) -> bool
    decreases evs.len(),
{
    if evs.len() == 0 {
        false
    } else {
        match evs.last() {
            ZchKeyEvent::Press(p) => p == k || held_after(evs.drop_last(), k),
            ZchKeyEvent::Release(p) => p != k && held_after(evs.drop_last(), k),
        }
    }
}

/// Law: under the insert-on-press, remove-on-release bookkeeping, the
/// physically-pressed set always equals exactly the set of keys whose last
/// event is a press: no key is missing, no released key goes negative or
/// stays behind stale.
pub proof fn lemma_pressed_tracks_events(evs: Seq<ZchKeyEvent>)
    ensures
        apply_key_events(Set::empty(), evs) =~= Set::new(|k: u16| held_after(evs, k)),
    decreases evs.len(),
{
    if evs.len() == 0 {
    } else {
        lemma_pressed_tracks_events(evs.drop_last());
    }
}

/// `n` ticks in a row with no other event in between.
pub open spec fn iterate_tick(d: ZchDynView, n: int) -> ZchDynView
    decreases n,
{
    if n <= 0 {
        d
    } else {
        spec_tick(iterate_tick(d, n - 1))
    }
}

proof fn lemma_wait_enable_countdown(d: ZchDynView, m: int)
    requires
        d.enabled is ZchWaitEnable,
        0 <= m < d.ticks_until,
        d.ticks_since + d.ticks_until <= TICKS_UNTIL_FORCE_STATE_RESET as int,
    ensures
        iterate_tick(d, m).enabled is ZchWaitEnable,
        iterate_tick(d, m).ticks_until == d.ticks_until - m,
        iterate_tick(d, m).ticks_since == d.ticks_since + m,
    decreases m,
{
    if m > 0 {
        lemma_wait_enable_countdown(d, m - 1);
    }
}

/// Law: from the wait-enable cooldown with `n` ticks left on the countdown
/// (and the staleness guard not due to fire first), chording is still
/// cooling down strictly before the `n`th tick and becomes enabled exactly
/// at it — not one tick earlier or later.
pub proof fn lemma_wait_enable_exact(d: ZchDynView, n: int)
    requires
        d.enabled is ZchWaitEnable,
        d.ticks_until == n,
        1 <= n,
        d.ticks_since + n <= TICKS_UNTIL_FORCE_STATE_RESET as int,
    ensures
        forall|m: int| 0 <= m < n ==> (#[trigger] iterate_tick(d, m)).enabled is ZchWaitEnable,
        iterate_tick(d, n).enabled is ZchEnabled,
{
    assert forall|m: int| 0 <= m < n implies (#[trigger] iterate_tick(
        d,
        m,
    )).enabled is ZchWaitEnable by {
        lemma_wait_enable_countdown(d, m);
    }
    lemma_wait_enable_countdown(d, n - 1);
    assert(iterate_tick(d, n) == spec_tick(iterate_tick(d, n - 1)));
}

/// Any input event the engine can see.
pub enum ZchEvent {
    Press(u16),
    Release(u16),
    Tick,
}

/// What one event does to the dynamic state.
pub open spec fn apply_event(tables: ChordTablesView, cfg: u16, d: ZchDynView, e: ZchEvent) -> ZchDynView {
    match e {
        ZchEvent::Press(k) => spec_press(tables, cfg, d, k).d,
        ZchEvent::Release(k) => spec_release(tables, cfg, d, k).d,
        ZchEvent::Tick => spec_tick(d),
    }
}

/// The dynamic state after a whole sequence of events.
pub open spec fn run_events(
    tables: ChordTablesView,
    cfg: u16,
    d: ZchDynView,
    evs: Seq<ZchEvent>,
) -> ZchDynView
    decreases evs.len(),
{
    if evs.len() == 0 {
        d
    } else {
        apply_event(tables, cfg, run_events(tables, cfg, d, evs.drop_last()), evs.last())
    }
}

/// Law: with no chord configured, a press or a release passes through
/// unmodified — one action, the key event itself — and leaves the dynamic
/// state untouched.
pub proof fn lemma_empty_table_passthrough(
    tables: ChordTablesView,
    cfg: u16,
    d: ZchDynView,
    osc: u16,
)
    requires
        tables.root_is_empty(),
    ensures
        spec_press(tables, cfg, d, osc) == (ZchStep { d: d, actions: seq![OutAction::Press(osc)] }),
        spec_release(tables, cfg, d, osc) == (ZchStep {
            d: d,
            actions: seq![OutAction::Release(osc)],
        }),
{
}

/// Law: with no chord configured the engine never leaves the enabled state
/// and never tracks a key, so it reports idle after any sequence of
/// events.
pub proof fn lemma_empty_table_idle(tables: ChordTablesView, cfg: u16, evs: Seq<ZchEvent>)
    requires
        tables.root_is_empty(),
    ensures
        ({
            let d = run_events(tables, cfg, default_dyn_view(), evs);
            &&& d.enabled is ZchEnabled
            &&& d.pressed =~= Set::<u16>::empty()
            &&& spec_is_idle(d)
        }),
    decreases evs.len(),
{
    if evs.len() > 0 {
        lemma_empty_table_idle(tables, cfg, evs.drop_last());
    }
}

/// Law: once at least the staleness threshold has elapsed since the last
/// recorded state change, the next tick forces the full reset: enabled,
/// with empty pressed, accumulator and follow-up state and the counter
/// restarted.
pub proof fn lemma_stale_tick_resets(d: ZchDynView)
    requires
        d.ticks_since >= TICKS_UNTIL_FORCE_STATE_RESET as int,
    ensures
        ({
            let d2 = spec_tick(d);
            &&& d2.enabled is ZchEnabled
            &&& d2.inputs =~= Seq::<u16>::empty()
            &&& d2.pressed =~= Set::<u16>::empty()
            &&& d2.prioritized is None
            &&& d2.ticks_since == 0
        }),
{
}

proof fn lemma_sorted_insert_membership(s: Seq<u16>, k: u16)
    ensures
        forall|v: u16| #[trigger] sorted_insert(s, k).contains(v) <==> s.contains(v) || v == k,
    decreases s.len(),
{
    if s.len() == 0 {
        assert forall|v: u16| sorted_insert(s, k).contains(v) <==> s.contains(v) || v == k by {
            assert(sorted_insert(s, k) =~= seq![k]);
            if v == k {
                assert(sorted_insert(s, k)[0] == v);
            }
        }
    } else if k < s[0] {
        assert forall|v: u16| sorted_insert(s, k).contains(v) <==> s.contains(v) || v == k by {
            let r = sorted_insert(s, k);
            assert(r =~= seq![k] + s);
            if v == k {
                assert(r[0] == v);
            }
            if s.contains(v) {
                let i = choose|i: int| 0 <= i < s.len() && s[i] == v;
                assert(r[i + 1] == v);
            }
            if r.contains(v) {
                let i = choose|i: int| 0 <= i < r.len() && r[i] == v;
                if i > 0 {
                    assert(s[i - 1] == v);
                }
            }
        }
    } else if k == s[0] {
        assert forall|v: u16| sorted_insert(s, k).contains(v) <==> s.contains(v) || v == k by {
            if v == k {
                assert(s[0] == v);
            }
        }
    } else {
        lemma_sorted_insert_membership(s.drop_first(), k);
        let r = sorted_insert(s, k);
        let r2 = sorted_insert(s.drop_first(), k);
        assert(r =~= seq![s[0]] + r2);
        assert forall|v: u16| r.contains(v) implies s.contains(v) || v == k by {
            let i = choose|i: int| 0 <= i < r.len() && r[i] == v;
            if i == 0 {
                assert(s[0] == v);
                assert(s.contains(v));
            } else {
                assert(r2[i - 1] == v);
                assert(r2.contains(v));
                assert(sorted_insert(s.drop_first(), k).contains(v) <==> s.drop_first().contains(v)
                    || v == k);
                if s.drop_first().contains(v) {
                    let j = choose|j: int| 0 <= j < s.drop_first().len() && s.drop_first()[j] == v;
                    assert(s[j + 1] == v);
                    assert(s.contains(v));
                }
            }
        }
        assert forall|v: u16| s.contains(v) || v == k implies r.contains(v) by {
            assert(sorted_insert(s.drop_first(), k).contains(v) <==> s.drop_first().contains(v)
                || v == k);
            if s.contains(v) {
                let i = choose|i: int| 0 <= i < s.len() && s[i] == v;
                if i == 0 {
                    assert(r[0] == v);
                } else {
                    assert(s.drop_first()[i - 1] == v);
                    assert(s.drop_first().contains(v));
                    assert(r2.contains(v));
                    let j = choose|j: int| 0 <= j < r2.len() && r2[j] == v;
                    assert(r[j + 1] == v);
                }
                assert(r.contains(v));
            } else {
                assert(r2.contains(v));
                let j = choose|j: int| 0 <= j < r2.len() && r2[j] == v;
                assert(r[j + 1] == v);
                assert(r.contains(v));
            }
        }
    }
}

proof fn lemma_sorted_insert_keeps_sorted(s: Seq<u16>, k: u16)
    requires
        strictly_sorted(s),
    ensures
        strictly_sorted(sorted_insert(s, k)),
    decreases s.len(),
{
    if s.len() == 0 {
    } else if k < s[0] {
        let r = sorted_insert(s, k);
        assert(r =~= seq![k] + s);
        assert forall|i: int, j: int| 0 <= i < j < r.len() implies r[i] < r[j] by {
            if i > 0 {
                assert(s[i - 1] < s[j - 1]);
            } else if j > 1 {
                assert(s[0] <= s[j - 1]) by {
                    if j > 1 {
                        assert(s[0] < s[j - 1]);
                    }
                }
            }
        }
    } else if k == s[0] {
    } else {
        lemma_sorted_insert_keeps_sorted(s.drop_first(), k);
        lemma_sorted_insert_membership(s.drop_first(), k);
        let r = sorted_insert(s, k);
        let r2 = sorted_insert(s.drop_first(), k);
        assert(r =~= seq![s[0]] + r2);
        assert forall|i: int, j: int| 0 <= i < j < r.len() implies r[i] < r[j] by {
            if i > 0 {
                assert(r2[i - 1] < r2[j - 1]);
            } else {
                // the head is below everything in the inserted tail
                assert(r2.contains(r2[j - 1]));
                assert(s.drop_first().contains(r2[j - 1]) || r2[j - 1] == k);
                if s.drop_first().contains(r2[j - 1]) {
                    let w = choose|w: int|
                        0 <= w < s.drop_first().len() && s.drop_first()[w] == r2[j - 1];
                    assert(s[0] < s[w + 1]);
                }
            }
        }
    }
}

proof fn lemma_strictly_sorted_equal(x: Seq<u16>, y: Seq<u16>)
    requires
        strictly_sorted(x),
        strictly_sorted(y),
        forall|v: u16| x.contains(v) <==> y.contains(v),
    ensures
        x == y,
    decreases x.len(),
{
    if x.len() == 0 {
        if y.len() > 0 {
            assert(y.contains(y[0]));
            assert(false);
        }
        assert(x =~= y);
    } else {
        assert(x.contains(x[0]));
        assert(y.len() > 0) by {
            assert(y.contains(x[0]));
        }
        // both heads are the least member, so they agree
        assert(y.contains(x[0]));
        let iy = choose|i: int| 0 <= i < y.len() && y[i] == x[0];
        assert(y[0] <= y[iy]) by {
            if iy > 0 {
                assert(y[0] < y[iy]);
            }
        }
        assert(x.contains(y[0]));
        let ix = choose|i: int| 0 <= i < x.len() && x[i] == y[0];
        assert(x[0] <= x[ix]) by {
            if ix > 0 {
                assert(x[0] < x[ix]);
            }
        }
        assert(x[0] == y[0]);
        assert forall|v: u16| x.drop_first().contains(v) <==> y.drop_first().contains(v) by {
            lemma_strict_tail_membership(x, v);
            lemma_strict_tail_membership(y, v);
        }
        lemma_strictly_sorted_equal(x.drop_first(), y.drop_first());
        assert(x.len() == y.len()) by {
            assert(x.drop_first().len() == y.drop_first().len());
        }
        assert forall|i: int| 0 <= i < x.len() implies x[i] == y[i] by {
            if i > 0 {
                assert(x.drop_first()[i - 1] == y.drop_first()[i - 1]);
            }
        }
        assert(x =~= y);
    }
}

proof fn lemma_strict_tail_membership(x: Seq<u16>, v: u16)
    requires
        strictly_sorted(x),
        x.len() > 0,
    ensures
        x.drop_first().contains(v) <==> x.contains(v) && v != x[0],
{
    if x.drop_first().contains(v) {
        let i = choose|i: int| 0 <= i < x.drop_first().len() && x.drop_first()[i] == v;
        assert(x[i + 1] == v);
        assert(x[0] < x[i + 1]);
    }
    if x.contains(v) && v != x[0] {
        let i = choose|i: int| 0 <= i < x.len() && x[i] == v;
        assert(i > 0);
        assert(x.drop_first()[i - 1] == v);
    }
}

/// Law: the canonical chord key is insertion-order independent — recording
/// the same two key codes in either order leaves the accumulator in the
/// same canonical ascending state.
pub proof fn lemma_canonical_order_independent(s: Seq<u16>, a: u16, b: u16)
    requires
        strictly_sorted(s),
    ensures
        sorted_insert(sorted_insert(s, a), b) == sorted_insert(sorted_insert(s, b), a),
{
    lemma_sorted_insert_keeps_sorted(s, a);
    lemma_sorted_insert_keeps_sorted(s, b);
    lemma_sorted_insert_keeps_sorted(sorted_insert(s, a), b);
    lemma_sorted_insert_keeps_sorted(sorted_insert(s, b), a);
    lemma_sorted_insert_membership(s, a);
    lemma_sorted_insert_membership(s, b);
    lemma_sorted_insert_membership(sorted_insert(s, a), b);
    lemma_sorted_insert_membership(sorted_insert(s, b), a);
    assert forall|v: u16|
        sorted_insert(sorted_insert(s, a), b).contains(v) <==> sorted_insert(
            sorted_insert(s, b),
            a,
        ).contains(v) by {
        assert(sorted_insert(sorted_insert(s, a), b).contains(v) <==> sorted_insert(
            s,
            a,
        ).contains(v) || v == b);
        assert(sorted_insert(s, a).contains(v) <==> s.contains(v) || v == a);
        assert(sorted_insert(sorted_insert(s, b), a).contains(v) <==> sorted_insert(
            s,
            b,
        ).contains(v) || v == a);
        assert(sorted_insert(s, b).contains(v) <==> s.contains(v) || v == b);
    }
    lemma_strictly_sorted_equal(
        sorted_insert(sorted_insert(s, a), b),
        sorted_insert(sorted_insert(s, b), a),
    );
}

} // verus!
