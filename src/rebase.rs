//! Rebasing a transposition table after a real move: entries of positions
//! still reachable from the new root are kept, the rest are dropped.
use vstd::prelude::*;

use crate::cache::{cache_first_best, cache_sound, CacheEntry, TranspositionTable};
use crate::environment::Environment;

verus! {

/// Whether key `k` belongs to a position reachable from `s` in at most `d` moves.
pub open spec fn reaches<T: Environment>(s: T, d: nat, k: u64) -> bool
    decreases d, 0nat,
{
    k == s.spec_key() || (d > 0 && !s.spec_terminal() && reaches_via(
        s,
        (d - 1) as nat,
        k,
        s.spec_actions().len(),
    ))
}

/// Whether key `k` belongs to a position reachable in at most `cd` moves from
/// one of the children of `s` reached by its first `j` actions.
pub open spec fn reaches_via<T: Environment>(s: T, cd: nat, k: u64, j: nat) -> bool
    decreases cd, j + 1,
{
    if j == 0 {
        false
    } else {
        reaches(s.spec_next(s.spec_actions()[j - 1]), cd, k) || reaches_via(s, cd, k, (j - 1) as nat)
    }
}

/// The keys of the positions reachable from `env` in at most `depth` moves
/// (a key may be listed more than once).
pub fn find_descendants<T: Environment>(env: &T, depth: u64) -> (r: Vec<u64>)
    ensures
        forall|k: u64| r@.contains(k) <==> reaches(*env, depth as nat, k),
    decreases depth,
{
    let mut visited: Vec<u64> = Vec::new();
    visited.push(env.key());
    if depth == 0 || env.is_terminal() {
        proof {
            assert forall|k: u64| visited@.contains(k) <==> reaches(*env, depth as nat, k) by {
                if visited@.contains(k) {
                    assert(visited@[0] == env.spec_key());
                }
                if reaches(*env, depth as nat, k) {
                    assert(visited@[0] == k);
                }
            }
        }
        return visited;
    }
    let actions = env.valid_actions();
    let ghost d1 = ((depth as nat) - 1) as nat;
    proof {
        assert forall|k: u64| visited@.contains(k) <==> k == env.spec_key() by {
            if visited@.contains(k) {
                let p = choose|p: int| 0 <= p < visited@.len() && visited@[p] == k;
                assert(p == 0);
            }
            if k == env.spec_key() {
                assert(visited@[0] == k);
            }
        }
    }
    let mut i: usize = 0;
    while i < actions.len()
        invariant
            i <= actions.len(),
            actions@ == env.spec_actions(),
            depth > 0,
            d1 == depth - 1,
            !env.spec_terminal(),
            forall|k: u64|
                visited@.contains(k) <==> (k == env.spec_key() || reaches_via(
                    *env,
                    d1,
                    k,
                    i as nat,
                )),
        decreases actions.len() - i,
    {
        let child = env.what_if(&actions[i]);
        let below = find_descendants(&child, depth - 1);
        let ghost before = visited@;
        let mut t: usize = 0;
        while t < below.len()
            invariant
                t <= below.len(),
                i < actions.len(),
                actions@ == env.spec_actions(),
                depth > 0,
                d1 == depth - 1,
                !env.spec_terminal(),
                child == env.spec_next(env.spec_actions()[i as int]),
                forall|k: u64| below@.contains(k) <==> reaches(child, d1, k),
                forall|k: u64|
                    before.contains(k) <==> (k == env.spec_key() || reaches_via(
                        *env,
                        d1,
                        k,
                        i as nat,
                    )),
                forall|k: u64|
                    visited@.contains(k) <==> (before.contains(k) || below@.subrange(
                        0,
                        t as int,
                    ).contains(k)),
            decreases below.len() - t,
        {
            let ghost prev = visited@;
            visited.push(below[t]);
            proof {
                let cur = below@.subrange(0, t as int);
                let nxt = below@.subrange(0, t + 1);
                assert(nxt =~= cur.push(below@[t as int]));
                assert(visited@ =~= prev.push(below@[t as int]));
                assert forall|k: u64|
                    visited@.contains(k) <==> (before.contains(k) || nxt.contains(k)) by {
                    lemma_push_contains(prev, below@[t as int], k);
                    lemma_push_contains(cur, below@[t as int], k);
                }
            }
            t += 1;
        }
        proof {
            assert(below@.subrange(0, below@.len() as int) =~= below@);
            assert(env.spec_actions()[i as int] == actions@[i as int]);
            assert forall|k: u64|
                visited@.contains(k) <==> (k == env.spec_key() || reaches_via(
                    *env,
                    d1,
                    k,
                    (i + 1) as nat,
                )) by {
                assert(visited@.contains(k) <==> (before.contains(k) || below@.subrange(
                    0,
                    t as int,
                ).contains(k)));
                assert(reaches_via(*env, d1, k, (i + 1) as nat) == (reaches(child, d1, k)
                    || reaches_via(*env, d1, k, i as nat)));
            }
        }
        i += 1;
    }
    visited
}

/// Keeps in `cache` only the entries of positions reachable from `env` in at
/// most `depth` moves; those keep their values.
pub fn update_tree<T: Environment>(
    env: &T,
    depth: u64,
    cache: &mut TranspositionTable<T::Action>,
)
    ensures
        forall|k: u64|
            #[trigger] final(cache)@.contains_key(k) <==> (old(cache)@.contains_key(k) && reaches(
                *env,
                depth as nat,
                k,
            )),
        forall|k: u64| #[trigger] final(cache)@.contains_key(k) ==> final(cache)@[k] == old(cache)@[k],
{
    let keys = find_descendants(env, depth);
    let mut kept: TranspositionTable<T::Action> = TranspositionTable::new();
    let mut i: usize = 0;
    while i < keys.len()
        invariant
            i <= keys.len(),
            forall|k: u64|
                #[trigger] kept@.contains_key(k) <==> (cache@.contains_key(k) && keys@.subrange(
                    0,
                    i as int,
                ).contains(k)),
            forall|k: u64| #[trigger] kept@.contains_key(k) ==> kept@[k] == cache@[k],
        decreases keys.len() - i,
    {
        let k = keys[i];
        match cache.get(k) {
            Some(e) => kept.insert(k, e),
            None => {},
        }
        proof {
            let cur = keys@.subrange(0, i as int);
            assert(keys@.subrange(0, i + 1) =~= cur.push(k));
            assert forall|q: u64|
                #[trigger] kept@.contains_key(q) <==> (cache@.contains_key(q) && keys@.subrange(
                    0,
                    i + 1,
                ).contains(q)) by {
                lemma_push_contains(cur, k, q);
            }
        }
        i += 1;
    }
    assert(keys@.subrange(0, keys@.len() as int) =~= keys@);
    *cache = kept;
}

/// Keeping only some entries of a sound table leaves it sound.
pub proof fn lemma_submap_sound<T: Environment>(
    m: Map<u64, CacheEntry<T::Action>>,
    sub: Map<u64, CacheEntry<T::Action>>,
    agent: T::AgentId,
    rf: spec_fn(T, T::AgentId) -> i64,
)
    requires
        cache_sound::<T>(m, agent, rf),
        forall|k: u64| #[trigger] sub.contains_key(k) ==> m.contains_key(k) && sub[k] == m[k],
    ensures
        cache_sound::<T>(sub, agent, rf),
{
    assert forall|s: T| #[trigger] sub.contains_key(s.spec_key()) implies crate::cache::entry_sound(
        sub[s.spec_key()],
        s,
        agent,
        rf,
    ) by {
        assert(m.contains_key(s.spec_key()));
    }
}

proof fn lemma_push_contains<A>(s: Seq<A>, x: A, k: A)
    ensures
        s.push(x).contains(k) <==> (s.contains(k) || k == x),
{
    if s.push(x).contains(k) {
        let p = choose|p: int| 0 <= p < s.push(x).len() && s.push(x)[p] == k;
        if p < s.len() {
            assert(s[p] == k);
        }
    }
    if s.contains(k) {
        let p = choose|p: int| 0 <= p < s.len() && s[p] == k;
        assert(s.push(x)[p] == k);
    }
    if k == x {
        assert(s.push(x)[s.len() as int] == k);
    }
}

/// Keeping only some entries keeps every stored move a first best move.
pub proof fn lemma_submap_first_best<T: Environment>(
    m: Map<u64, CacheEntry<T::Action>>,
    sub: Map<u64, CacheEntry<T::Action>>,
    agent: T::AgentId,
    rf: spec_fn(T, T::AgentId) -> i64,
)
    requires
        cache_first_best::<T>(m, agent, rf),
        forall|k: u64| #[trigger] sub.contains_key(k) ==> m.contains_key(k) && sub[k] == m[k],
    ensures
        cache_first_best::<T>(sub, agent, rf),
{
    assert forall|s: T| #[trigger] sub.contains_key(s.spec_key()) implies match sub[s.spec_key()].action {
        Some(a) => crate::values::is_first_best_move(s, agent, rf, sub[s.spec_key()].depth as nat, a),
        None => true,
    } by {
        assert(m.contains_key(s.spec_key()));
    }
}

} // verus!
