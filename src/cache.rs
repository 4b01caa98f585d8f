//! A transposition table: search results memoized by the content key of a
//! position, each stamped with the depth it was computed at.
use vstd::prelude::*;

use std::collections::HashMap;

use crate::environment::Environment;
use crate::values::{is_best_move, is_first_best_move, minmax_value};

verus! {

broadcast use vstd::std_specs::hash::group_hash_axioms;

/// The depth stamp of a result that holds at every depth: the position has ended.
pub const DEPTH_TERMINAL: u64 = 0xFFFF_FFFF_FFFF_FFFFu64;

/// A memoized search result.
#[derive(Clone, Copy, Debug)]
pub struct CacheEntry<A> {
    /// The value found.
    pub value: i64,
    /// The depth it was found at, or `DEPTH_TERMINAL`.
    pub depth: u64,
    /// The best move found, if the search looked at moves.
    pub action: Option<A>,
}

impl<A: Copy> CacheEntry<A> {
    /// Whether this entry answers a query at depth `depth`: the entry was
    /// computed at that very depth, or it records an ended game. An entry
    /// computed deeper is not reused: it holds the value at its own depth, and
    /// mixing depths inside one search would make the result depend on what
    /// earlier searches left in the table rather than on the position and depth.
    pub open spec fn spec_answers(&self, depth: u64) -> bool {
        self.depth == depth || self.depth == DEPTH_TERMINAL
    }

    /// Whether this entry may answer a query at depth `depth`.
    pub fn answers(&self, depth: u64) -> (r: bool)
        ensures
            r == self.spec_answers(depth),
    {
        self.depth == depth || self.depth == DEPTH_TERMINAL
    }
}

/// An entry answers no query deeper than the depth it was computed at.
pub proof fn lemma_answers_no_deeper<A: Copy>(e: CacheEntry<A>, depth: u64)
    requires
        e.spec_answers(depth),
    ensures
        e.depth >= depth,
{
}

/// Whether table `m` holds, under the key of `s`, an entry that answers a
/// query at depth `d` with value `v` and move `a`, stamped `DEPTH_TERMINAL`
/// if `s` has ended.
pub open spec fn holds_result<T: Environment>(
    m: Map<u64, CacheEntry<T::Action>>,
    s: T,
    d: u64,
    v: i64,
    a: Option<T::Action>,
) -> bool {
    &&& m.contains_key(s.spec_key())
    &&& m[s.spec_key()].spec_answers(d)
    &&& m[s.spec_key()].value == v
    &&& m[s.spec_key()].action == a
    &&& s.spec_terminal() ==> m[s.spec_key()].depth == DEPTH_TERMINAL
}

/// Whether table `m` holds an entry for `s` that answers a query at depth `d`.
pub open spec fn answered<T: Environment>(m: Map<u64, CacheEntry<T::Action>>, s: T, d: u64) -> bool {
    m.contains_key(s.spec_key()) && m[s.spec_key()].spec_answers(d)
}

/// A search result for position `s` that is exactly what minmax gives at the
/// entry's depth; exactly the entries of ended games are stamped `DEPTH_TERMINAL`.
pub open spec fn entry_sound<T: Environment>(
    e: CacheEntry<T::Action>,
    s: T,
    agent: T::AgentId,
    rf: spec_fn(T, T::AgentId) -> i64,
) -> bool {
    &&& e.value == minmax_value(s, agent, rf, e.depth as nat)
    &&& e.depth == DEPTH_TERMINAL <==> s.spec_terminal()
    &&& e.action.is_some() <==> (!s.spec_terminal() && e.depth > 0 && s.spec_actions().len() > 0)
    &&& match e.action {
        Some(a) => is_best_move(s, agent, rf, e.depth as nat, a),
        None => true,
    }
}

/// Every entry of the table is sound for the position whose key it is stored under.
pub open spec fn cache_sound<T: Environment>(
    m: Map<u64, CacheEntry<T::Action>>,
    agent: T::AgentId,
    rf: spec_fn(T, T::AgentId) -> i64,
) -> bool {
    forall|s: T| #[trigger]
        m.contains_key(s.spec_key()) ==> entry_sound(m[s.spec_key()], s, agent, rf)
}

/// Every move stored in the table is the first best move, in enumeration
/// order, of the position whose key it is stored under.
pub open spec fn cache_first_best<T: Environment>(
    m: Map<u64, CacheEntry<T::Action>>,
    agent: T::AgentId,
    rf: spec_fn(T, T::AgentId) -> i64,
) -> bool {
    forall|s: T| #[trigger]
        m.contains_key(s.spec_key()) ==> match m[s.spec_key()].action {
            Some(a) => is_first_best_move(s, agent, rf, m[s.spec_key()].depth as nat, a),
            None => true,
        }
}

/// A table from position keys to search results.
pub struct TranspositionTable<A> {
    entries: HashMap<u64, CacheEntry<A>>,
}

impl<A: Copy> View for TranspositionTable<A> {
    type V = Map<u64, CacheEntry<A>>;

    closed spec fn view(&self) -> Map<u64, CacheEntry<A>> {
        self.entries@
    }
}

impl<A: Copy> TranspositionTable<A> {
    /// An empty table.
    pub fn new() -> (r: Self)
        ensures
            r@ == Map::<u64, CacheEntry<A>>::empty(),
    {
        TranspositionTable { entries: HashMap::new() }
    }

    /// The number of entries.
    pub fn len(&self) -> (r: usize)
        ensures
            r == self@.len(),
    {
        self.entries.len()
    }

    /// The entry stored under `key`, if any.
    pub fn get(&self, key: u64) -> (r: Option<CacheEntry<A>>)
        ensures
            match r {
                Some(e) => self@.contains_key(key) && e == self@[key],
                None => !self@.contains_key(key),
            },
    {
        match self.entries.get(&key) {
            Some(e) => Some(*e),
            None => None,
        }
    }

    /// Stores `e` under `key`, replacing what was there.
    pub fn insert(&mut self, key: u64, e: CacheEntry<A>)
        ensures
            final(self)@ == old(self)@.insert(key, e),
    {
        self.entries.insert(key, e);
    }

    /// Removes every entry.
    pub fn clear(&mut self)
        ensures
            final(self)@ == Map::<u64, CacheEntry<A>>::empty(),
    {
        self.entries.clear();
    }
}

/// Storing a sound entry for `s` under its key keeps a sound table sound.
pub proof fn lemma_insert_sound<T: Environment>(
    m: Map<u64, CacheEntry<T::Action>>,
    agent: T::AgentId,
    rf: spec_fn(T, T::AgentId) -> i64,
    s: T,
    e: CacheEntry<T::Action>,
)
    requires
        cache_sound::<T>(m, agent, rf),
        entry_sound(e, s, agent, rf),
    ensures
        cache_sound::<T>(m.insert(s.spec_key(), e), agent, rf),
{
    let m2 = m.insert(s.spec_key(), e);
    assert forall|t: T| #[trigger] m2.contains_key(t.spec_key()) implies entry_sound(
        m2[t.spec_key()],
        t,
        agent,
        rf,
    ) by {
        if t.spec_key() == s.spec_key() {
            T::lemma_key_injective(s, t);
        } else {
            assert(m.contains_key(t.spec_key()));
        }
    }
}

/// Storing an entry for `s` whose move, if any, is the first best move keeps
/// every stored move a first best move.
pub proof fn lemma_insert_first_best<T: Environment>(
    m: Map<u64, CacheEntry<T::Action>>,
    agent: T::AgentId,
    rf: spec_fn(T, T::AgentId) -> i64,
    s: T,
    e: CacheEntry<T::Action>,
)
    requires
        cache_first_best::<T>(m, agent, rf),
        match e.action {
            Some(a) => is_first_best_move(s, agent, rf, e.depth as nat, a),
            None => true,
        },
    ensures
        cache_first_best::<T>(m.insert(s.spec_key(), e), agent, rf),
{
    let m2 = m.insert(s.spec_key(), e);
    assert forall|t: T| #[trigger] m2.contains_key(t.spec_key()) implies match m2[t.spec_key()].action {
        Some(a) => is_first_best_move(t, agent, rf, m2[t.spec_key()].depth as nat, a),
        None => true,
    } by {
        if t.spec_key() == s.spec_key() {
            T::lemma_key_injective(s, t);
        } else {
            assert(m.contains_key(t.spec_key()));
        }
    }
}

} // verus!
