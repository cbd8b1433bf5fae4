//! The chord table: an immutable arena of tries mapping canonical chord
//! keys to an output string plus an optional nested table of follow-up
//! chords. Tables are built once from configuration and never edited;
//! reconfiguration builds a whole new arena. Follow-up tables are shared by
//! arena index, so runtime snapshots of "currently active follow-up table"
//! can point at the same immutable table without copying.

use vstd::prelude::*;

use crate::trie::{no_entries, GetOrDescendentExistsResult, Trie, TrieKey};

verus! {

/// A chord.
///
/// If any followups exist it will be `Some`. E.g. with:
///   - dy   -> day
///   - dy 1 -> Monday
///   - dy 2 -> Tuesday
/// the output will be "day" and the Monday+Tuesday chords will be in the
/// table whose arena index `zch_followups` holds.
#[derive(Debug)]
pub struct ZchChordOutput {
    pub zch_output: String,
    pub zch_followups: Option<usize>,
}

/// Spec-level picture of one chord definition.
pub struct ChordView {
    pub output: Seq<char>,
    pub followups: Option<int>,
}

impl View for ZchChordOutput {
    type V = ChordView;

    open spec fn view(&self) -> ChordView {
        ChordView {
            output: self.zch_output@,
            followups: match self.zch_followups {
                Option::Some(t) => Option::Some(t as int),
                Option::None => Option::None,
            },
        }
    }
}

/// Spec-level picture of the whole arena: per table the stored keys with
/// the arena index of their chord, and the arena of chord definitions.
pub struct ChordTablesView {
    pub tries: Seq<Map<Seq<u16>, usize>>,
    pub outputs: Seq<ChordView>,
}

impl ChordTablesView {
    /// Indices stored in the tries point into the output arena, follow-up
    /// indices point at existing tables, and the root table exists.
    pub open spec fn wf(self) -> bool {
        &&& self.tries.len() >= 1
        &&& forall|t: int, k: Seq<u16>|
            0 <= t < self.tries.len() && self.tries[t].contains_key(k)
                ==> self.tries[t][k] < self.outputs.len()
        &&& forall|i: int|
            0 <= i < self.outputs.len() ==> (match #[trigger] self.outputs[i].followups {
                Option::Some(f) => 0 <= f < self.tries.len(),
                Option::None => true,
            })
    }

    /// The arena of a freshly built configuration: one empty root table.
    pub open spec fn empty() -> ChordTablesView {
        ChordTablesView { tries: seq![no_entries()], outputs: Seq::empty() }
    }

    /// No chord at all is stored in the root table.
    pub open spec fn root_is_empty(self) -> bool {
        forall|k: Seq<u16>| !self.tries[0].contains_key(k)
    }

    /// Some key stored in table `t` has `key` as a prefix: the accumulated
    /// input could still grow into a chord of that table.
    pub open spec fn has_descendant(self, t: int, key: Seq<u16>) -> bool {
        exists|k: Seq<u16>| self.tries[t].contains_key(k) && key.is_prefix_of(k)
    }

    /// At least two distinct keys stored in table `t` have `key` as a
    /// prefix: when `key` itself is stored, a strictly longer chord still
    /// extends it.
    pub open spec fn has_multiple_descendants(self, t: int, key: Seq<u16>) -> bool {
        exists|k1: Seq<u16>, k2: Seq<u16>|
            k1 != k2 && self.tries[t].contains_key(k1) && self.tries[t].contains_key(k2)
                && key.is_prefix_of(k1) && key.is_prefix_of(k2)
    }

    /// The chord stored under `key` in table `t`.
    pub open spec fn chord_at(self, t: int, key: Seq<u16>) -> ChordView {
        self.outputs[self.tries[t][key] as int]
    }
}

/// All possible chords: the root table at arena index 0, follow-up tables
/// behind it, and the arena of chord definitions the tries point into.
#[derive(Debug)]
pub struct ZchPossibleChords {
    tries: Vec<Trie>,
    outputs: Vec<ZchChordOutput>,
}

impl View for ZchPossibleChords {
    type V = ChordTablesView;

    closed spec fn view(&self) -> ChordTablesView {
        ChordTablesView {
            tries: self.tries@.map_values(|t: Trie| t@),
            outputs: self.outputs@.map_values(|o: ZchChordOutput| o@),
        }
    }
}

impl ZchPossibleChords {
    /// The view is internally consistent and every trie is usable.
    pub closed spec fn wf(self) -> bool {
        &&& self@.wf()
        &&& forall|i: int| 0 <= i < self.tries@.len() ==> self.tries@[i].wf()
    }

    /// A well-formed table set has a well-formed view; callers reason over
    /// the view through this.
    pub proof fn view_wf(&self)
        requires
            self.wf(),
        ensures
            self@.wf(),
    {
    }

    /// A table set with an empty root table and no follow-up tables.
    pub fn new() -> (r: Self)
        ensures
            r.wf(),
            r@ == ChordTablesView::empty(),
    {
        let mut tries: Vec<Trie> = Vec::new();
        tries.push(Trie::new());
        let r = ZchPossibleChords { tries, outputs: Vec::new() };
        proof {
            assert(r@.tries =~= seq![no_entries()]);
            assert(r@.outputs =~= Seq::<ChordView>::empty());
            assert(r@ =~= ChordTablesView::empty());
        }
        r
    }

    /// True iff the root table holds no chord at all.
    pub fn is_empty(&self) -> (r: bool)
        requires
            self.wf(),
        ensures
            r == self@.root_is_empty(),
    {
        let r = self.tries[0].is_empty();
        proof {
            assert(self@.tries[0] == self.tries@[0]@);
            if r {
                assert forall|k: Seq<u16>| !self@.tries[0].contains_key(k) by {
                    assert(!self.tries@[0]@.contains_key(k));
                }
            } else {
                let k = choose|k: Seq<u16>| self.tries@[0]@.contains_key(k);
                assert(self@.tries[0].contains_key(k));
            }
        }
        r
    }

    /// How many tables the arena holds.
    pub fn table_count(&self) -> (r: usize)
        ensures
            r == self@.tries.len(),
    {
        self.tries.len()
    }

    /// Adds a fresh empty follow-up table to the arena and hands back its
    /// index, to be referenced by `zch_followups` of the chords that lead
    /// into it.
    pub fn add_followup_table(&mut self) -> (t: usize)
        requires
            old(self).wf(),
        ensures
            final(self).wf(),
            t == old(self)@.tries.len(),
            final(self)@.tries == old(self)@.tries.push(no_entries()),
            final(self)@.outputs == old(self)@.outputs,
    {
        let t = self.tries.len();
        self.tries.push(Trie::new());
        proof {
            assert(final(self)@.tries =~= old(self)@.tries.push(no_entries()));
            assert(final(self)@.outputs =~= old(self)@.outputs);
        }
        t
    }

    /// Adds one chord to table `table`: the canonical `key` maps to
    /// `output`, with `followups` naming the table of its follow-up chords
    /// if it has any.
    pub fn add_chord(&mut self, table: usize, key: TrieKey, output: String, followups: Option<
        usize,
    >)
        requires
            old(self).wf(),
            table < old(self)@.tries.len(),
            followups matches Some(f) ==> f < old(self)@.tries.len(),
        ensures
            final(self).wf(),
            final(self)@.tries == old(self)@.tries.update(
                table as int,
                old(self)@.tries[table as int].insert(key@, old(self)@.outputs.len() as usize),
            ),
            final(self)@.outputs == old(self)@.outputs.push(
                ChordView {
                    output: output@,
                    followups: match followups {
                        Option::Some(f) => Option::Some(f as int),
                        Option::None => Option::None,
                    },
                },
            ),
    {
        let idx = self.outputs.len();
        self.outputs.push(ZchChordOutput { zch_output: output, zch_followups: followups });
        let mut t = self.tries.remove(table);
        t.insert(key, idx);
        self.tries.insert(table, t);
        proof {
            assert(final(self)@.tries =~= old(self)@.tries.update(
                table as int,
                old(self)@.tries[table as int].insert(key@, idx),
            ));
            assert(final(self)@.outputs =~= old(self)@.outputs.push(
                ChordView {
                    output: output@,
                    followups: match followups {
                        Option::Some(f) => Option::Some(f as int),
                        Option::None => Option::None,
                    },
                },
            ));
        }
    }

    /// The combined exact-or-prefix query of table `table`, handing back
    /// the arena index of the chord on an exact match.
    pub fn get_or_descendant_exists(&self, table: usize, key: &TrieKey) -> (r:
        GetOrDescendentExistsResult)
        requires
            self.wf(),
            table < self@.tries.len(),
        ensures
            crate::trie::god_result_matches(self@.tries[table as int], key@, r),
    {
        self.tries[table].get_or_descendant_exists(key)
    }

    /// Whether at least two stored keys of table `table` extend `key`.
    pub fn multiple_descendants_exist(&self, table: usize, key: &TrieKey) -> (r: bool)
        requires
            self.wf(),
            table < self@.tries.len(),
        ensures
            r == self@.has_multiple_descendants(table as int, key@),
    {
        self.tries[table].multiple_descendants_exist(key)
    }

    /// The chord definition stored at arena index `idx`.
    pub fn chord(&self, idx: usize) -> (r: &ZchChordOutput)
        requires
            self.wf(),
            idx < self@.outputs.len(),
        ensures
            r@ == self@.outputs[idx as int],
    {
        &self.outputs[idx]
    }
}

impl Default for ZchPossibleChords {
    fn default() -> (r: Self)
        ensures
            r.wf(),
            r@ == ChordTablesView::empty(),
    {
        Self::new()
    }
}

} // verus!
