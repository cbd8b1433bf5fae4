//! Wrapper around a trie type for (hopefully) easier swapping of libraries if
//! desired.
//!
//! Keys are ordered sequences of fixed-width codes; the backing map stores
//! them byte-packed, two bytes per code, so every stored key has an even byte
//! length and prefix questions asked at code granularity coincide with prefix
//! questions asked at byte granularity.

use vstd::prelude::*;

use patricia_tree::map::PatriciaMap;

verus! {

/// Fixed-width code out of which trie keys are built.
pub type TrieKeyElement = u16;

/// A trie key: an ordered sequence of fixed-width key codes.
pub type TrieKey = Vec<TrieKeyElement>;

#[verifier::external_type_specification]
#[verifier::external_body]
#[verifier::reject_recursive_types(K)]
#[verifier::reject_recursive_types(V)]
pub struct ExGenericPatriciaMap<K, V>(patricia_tree::map::GenericPatriciaMap<K, V>);

/// The entries of a byte-keyed patricia map, read back at code granularity:
/// the key sequences of 16-bit codes whose byte packing the map holds, each
/// with its stored value.
pub uninterp spec fn patricia_entries(m: PatriciaMap<usize>) -> Map<Seq<u16>, usize>;

/// Whether every key held by the map is the byte packing of a sequence of
/// 16-bit codes (an even number of bytes). The trusted methods below only
/// ever insert such keys, so the queries can be read at code granularity.
pub uninterp spec fn patricia_code_aligned(m: PatriciaMap<usize>) -> bool;

/// No entries at all: the contents of a freshly made trie.
pub open spec fn no_entries() -> Map<Seq<u16>, usize> {
    Map::empty()
}

/// Relies on `PatriciaMap::insert`, keyed by the codes' byte packing (via
/// `bytemuck::cast_slice`): it adds or replaces exactly the given entry and
/// leaves every other key alone.
#[verifier::external_body]
fn pm_insert(m: &mut PatriciaMap<usize>, key: &TrieKey, value: usize)
    requires
        patricia_code_aligned(*old(m)),
    ensures
        patricia_code_aligned(*final(m)),
        patricia_entries(*final(m)) == patricia_entries(*old(m)).insert(key@, value),
{
    m.insert(bytemuck::cast_slice::<u16, u8>(key.as_slice()), value);
}

/// Relies on `PatriciaMap::get`: `Some` exactly at a stored key, returning
/// the value stored under it.
#[verifier::external_body]
fn pm_get(m: &PatriciaMap<usize>, key: &TrieKey) -> (r: Option<usize>)
    requires
        patricia_code_aligned(*m),
    ensures
        r matches Some(v) ==> patricia_entries(*m).contains_key(key@) && patricia_entries(*m)[key@]
            == v,
        r is None ==> !patricia_entries(*m).contains_key(key@),
{
    m.get(bytemuck::cast_slice::<u16, u8>(key.as_slice())).copied()
}

/// Byte length of a key's packed form: two bytes for each 16-bit code.
pub fn key_len(k: &TrieKey) -> (r: usize)
    requires
        2 * k@.len() <= usize::MAX,
    ensures
        r == 2 * k@.len(),
{
    k.len() * 2
}

/// Prefix-indexed map from key-code sequences to payload values, supporting
/// exact, ancestor and descendant queries. Values are indices chosen by the
/// caller (an index into an arena of chord outputs, in this crate).
#[derive(Debug)]
pub struct Trie {
    inner: PatriciaMap<usize>,
}

impl View for Trie {
    type V = Map<Seq<u16>, usize>;

    closed spec fn view(&self) -> Map<Seq<u16>, usize> {
        patricia_entries(self.inner)
    }
}

/// What the combined exact-or-prefix query may answer, given the trie's
/// entries `m` and the queried `key`. The three cases are mutually exclusive
/// and exhaustive, so they pin the answer down.
pub open spec fn god_result_matches(
    m: Map<Seq<u16>, usize>,
    key: Seq<u16>,
    r: GetOrDescendentExistsResult,
) -> bool {
    match r {
        GetOrDescendentExistsResult::NotInTrie => forall|k: Seq<u16>|
            m.contains_key(k) ==> !key.is_prefix_of(k),
        GetOrDescendentExistsResult::InTrie => !m.contains_key(key) && exists|k: Seq<u16>|
            m.contains_key(k) && key.is_prefix_of(k),
        GetOrDescendentExistsResult::HasValue(v) => m.contains_key(key) && m[key] == v,
    }
}

/// Answer of `Trie::get_or_descendant_exists`: no stored key shares the
/// queried prefix at all; some longer key does but the query itself is not
/// stored; or the query is stored, with its value.
#[derive(Debug, Clone, Copy, PartialEq, Eq, Structural)]
pub enum GetOrDescendentExistsResult {
    NotInTrie,
    InTrie,
    HasValue(usize),
}

impl Trie {
    /// All stored keys are code aligned in the backing byte-keyed map.
    pub closed spec fn wf(self) -> bool {
        patricia_code_aligned(self.inner)
    }

    /// Relies on `patricia_tree`'s `PatriciaMap::new`: a fresh map holds no
    /// entries at all.
    #[verifier::external_body]
    pub fn new() -> (r: Self)
        ensures
            r.wf(),
            r@ == no_entries(),
    {
        Self { inner: PatriciaMap::new() }
    }

    /// Relies on `PatriciaMap::get_longest_common_prefix`: it answers `Some`
    /// exactly when some stored key is a prefix of the query. Since every
    /// stored key is code aligned, a byte-level prefix of the query's byte
    /// packing is a code-level prefix of the query.
    #[verifier::external_body]
    pub fn ancestor_exists(&self, key: &TrieKey) -> (r: bool)
        requires
            self.wf(),
        ensures
            r <==> (exists|k: Seq<u16>| self@.contains_key(k) && k.is_prefix_of(key@)),
    {
        self.inner.get_longest_common_prefix(bytemuck::cast_slice::<u16, u8>(key.as_slice()))
            .is_some()
    }

    /// Relies on `PatriciaMap::iter_prefix`: it yields exactly the entries
    /// whose key extends the query, so a first element exists iff some
    /// stored key has the query as a prefix.
    #[verifier::external_body]
    pub fn descendant_exists(&self, key: &TrieKey) -> (r: bool)
        requires
            self.wf(),
        ensures
            r <==> (exists|k: Seq<u16>| self@.contains_key(k) && key@.is_prefix_of(k)),
    {
        self.inner.iter_prefix(bytemuck::cast_slice::<u16, u8>(key.as_slice())).next().is_some()
    }

    /// True iff at least two distinct inserted keys have `key` as a prefix;
    /// when `key` is itself inserted, this says a strictly longer key still
    /// extends it. Relies on `PatriciaMap::iter_prefix`: it yields one entry
    /// per stored key extending the query, so a second element exists iff
    /// two distinct such keys are stored.
    #[verifier::external_body]
    pub fn multiple_descendants_exist(&self, key: &TrieKey) -> (r: bool)
        requires
            self.wf(),
        ensures
            r <==> (exists|k1: Seq<u16>, k2: Seq<u16>|
                k1 != k2 && self@.contains_key(k1) && self@.contains_key(k2) && key@.is_prefix_of(
                    k1,
                ) && key@.is_prefix_of(k2)),
    {
        self.inner.iter_prefix(bytemuck::cast_slice::<u16, u8>(key.as_slice())).nth(1).is_some()
    }

    /// Relies on `PatriciaMap::is_empty`: true exactly when the map holds no
    /// entries at all.
    #[verifier::external_body]
    pub fn is_empty(&self) -> (r: bool)
        requires
            self.wf(),
        ensures
            r <==> (forall|k: Seq<u16>| !self@.contains_key(k)),
    {
        self.inner.is_empty()
    }

    /// Adds a complete key with its value; an existing entry under the same
    /// key is replaced.
    pub fn insert(&mut self, key: TrieKey, val: usize)
        requires
            old(self).wf(),
        ensures
            final(self).wf(),
            final(self)@ == old(self)@.insert(key@, val),
    {
        pm_insert(&mut self.inner, &key, val);
    }

    /// Exact lookup of a single stored key.
    fn get_value(&self, key: &TrieKey) -> (r: Option<usize>)
        requires
            self.wf(),
        ensures
            r matches Some(v) ==> self@.contains_key(key@) && self@[key@] == v,
            r is None ==> !self@.contains_key(key@),
    {
        pm_get(&self.inner, key)
    }

    /// The combined query: `NotInTrie` when no inserted key shares this
    /// prefix at all, `HasValue` when `key` is itself inserted, `InTrie`
    /// when only longer keys extend it.
    pub fn get_or_descendant_exists(&self, key: &TrieKey) -> (r: GetOrDescendentExistsResult)
        requires
            self.wf(),
        ensures
            god_result_matches(self@, key@, r),
    {
        match self.get_value(key) {
            Some(v) => GetOrDescendentExistsResult::HasValue(v),
            None => {
                if self.descendant_exists(key) {
                    GetOrDescendentExistsResult::InTrie
                } else {
                    GetOrDescendentExistsResult::NotInTrie
                }
            },
        }
    }
}

impl Default for Trie {
    fn default() -> (r: Self)
        ensures
            r.wf(),
            r@ == no_entries(),
    {
        Self::new()
    }
}

/// Law: on an empty trie the combined query can only answer `NotInTrie`.
pub proof fn lemma_empty_trie_not_present(key: Seq<u16>, r: GetOrDescendentExistsResult)
    requires
        god_result_matches(no_entries(), key, r),
    ensures
        r is NotInTrie,
{
}

} // verus!
