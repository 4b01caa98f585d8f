//! Depth-limited minmax search with a transposition table, and the
//! exhaustive search that gives the exact value of a position.
use vstd::prelude::*;

use crate::cache::{
    answered, cache_first_best, cache_sound, holds_result, lemma_insert_first_best, entry_sound, lemma_insert_sound, CacheEntry, TranspositionTable, DEPTH_TERMINAL,
};
use crate::environment::{Environment, Identity};
use crate::values::{
    best_of, child_value, game_value, is_best_move, is_first_best_move, lemma_height_positive,
    lemma_minmax_stable, maximizing, minmax_value, terminal_score, zero_reward, Reward,
};

verus! {

/// The minmax value of `env` for `agent_id`, looking `depth` moves ahead and
/// scoring the frontier with `reward`, and a best move when the search looked
/// at moves. Results are memoized in `cache`; an entry is reused only for a
/// query at the depth it was computed at, or when it records an ended game.
/// Afterwards the table holds this result for `env` at `depth`.
/// Among moves of equal value the first in enumeration order is chosen: when
/// the table does not answer the query, the move is the first best move.
pub fn minmax<T: Environment, R: Reward<T>>(
    env: &T,
    agent_id: &T::AgentId,
    reward: &R,
    depth: u64,
    cache: &mut TranspositionTable<T::Action>,
) -> (r: (i64, Option<T::Action>))
    requires
        depth < DEPTH_TERMINAL,
        cache_sound::<T>(old(cache)@, *agent_id, reward.spec_reward()),
    ensures
        cache_sound::<T>(final(cache)@, *agent_id, reward.spec_reward()),
        holds_result(final(cache)@, *env, depth, r.0, r.1),
        r.0 == minmax_value(*env, *agent_id, reward.spec_reward(), depth as nat),
        r.1.is_some() <==> (!env.spec_terminal() && depth > 0 && env.spec_actions().len() > 0),
        match r.1 {
            Some(a) => is_best_move(*env, *agent_id, reward.spec_reward(), depth as nat, a),
            None => true,
        },
        cache_first_best::<T>(old(cache)@, *agent_id, reward.spec_reward()) ==> cache_first_best::<T>(
            final(cache)@,
            *agent_id,
            reward.spec_reward(),
        ),
        (!answered(old(cache)@, *env, depth) || cache_first_best::<T>(
            old(cache)@,
            *agent_id,
            reward.spec_reward(),
        )) ==> match r.1 {
            Some(a) => is_first_best_move(*env, *agent_id, reward.spec_reward(), depth as nat, a),
            None => true,
        },
    decreases depth,
{
    let ghost rf = reward.spec_reward();
    let ghost fb = cache_first_best::<T>(cache@, *agent_id, rf);
    let key = env.key();
    match cache.get(key) {
        Some(e) => {
            if e.answers(depth) {
                assert(entry_sound(e, *env, *agent_id, rf));
                return (e.value, e.action);
            }
        },
        None => {},
    }
    if env.is_terminal() {
        let v = terminal_score(env, agent_id);
        let e = CacheEntry { value: v, depth: DEPTH_TERMINAL, action: None };
        proof {
            lemma_insert_sound(cache@, *agent_id, rf, *env, e);
            if fb {
                lemma_insert_first_best(cache@, *agent_id, rf, *env, e);
            }
        }
        cache.insert(key, e);
        return (v, None);
    }
    if depth == 0 {
        let v = reward.reward(env, agent_id);
        let e = CacheEntry { value: v, depth: 0, action: None };
        proof {
            lemma_insert_sound(cache@, *agent_id, rf, *env, e);
            if fb {
                lemma_insert_first_best(cache@, *agent_id, rf, *env, e);
            }
        }
        cache.insert(key, e);
        return (v, None);
    }
    let maximize = agent_id.same(&env.turn());
    let actions = env.valid_actions();
    let ghost cd = (depth - 1) as nat;
    proof {
    }
    let mut value: i64 = if maximize { i64::MIN } else { i64::MAX };
    let mut best: Option<T::Action> = None;
    let ghost mut bi: int = 0;
    let mut i: usize = 0;
    while i < actions.len()
        invariant
            i <= actions.len(),
            actions@ == env.spec_actions(),
            i > 0 ==> 0 <= bi < i && best == Some(env.spec_actions()[bi]) && child_value(
                *env,
                *agent_id,
                rf,
                cd,
                bi,
            ) == value && forall|j: int|
                0 <= j < bi ==> #[trigger] child_value(*env, *agent_id, rf, cd, j) != value,
            i > 0 ==> forall|j: int|
                0 <= j < i ==> if maximize {
                    #[trigger] child_value(*env, *agent_id, rf, cd, j) <= value
                } else {
                    child_value(*env, *agent_id, rf, cd, j) >= value
                },
            maximize == maximizing(*env, *agent_id),
            !env.spec_terminal(),
            depth > 0,
            cd == depth - 1,
            rf == reward.spec_reward(),
            cache_sound::<T>(cache@, *agent_id, rf),
            fb ==> cache_first_best::<T>(cache@, *agent_id, rf),
            value == best_of(*env, *agent_id, rf, cd, i as nat),
            i > 0 <==> best.is_some(),
            match best {
                Some(a) => env.spec_actions().contains(a) && minmax_value(
                    env.spec_next(a),
                    *agent_id,
                    rf,
                    cd,
                ) == value,
                None => true,
            },
        decreases actions.len() - i,
    {
        let a = actions[i];
        let child = env.what_if(&a);
        let (v, _) = minmax(&child, agent_id, reward, depth - 1, cache);
        assert(env.spec_actions().contains(a)) by {
            assert(env.spec_actions()[i as int] == a);
        }
        assert(v == child_value(*env, *agent_id, rf, cd, i as int));
        if best.is_none() || (maximize && v > value) || (!maximize && v < value) {
            value = v;
            best = Some(a);
            proof {
                bi = i as int;
            }
        }
        i += 1;
    }
    proof {
        if i > 0 {
            assert(exists|k: int|
                0 <= k < env.spec_actions().len() && env.spec_actions()[k] == env.spec_actions()[bi]
                    && #[trigger] child_value(*env, *agent_id, rf, cd, k) == value && forall|j: int|
                    0 <= j < k ==> #[trigger] child_value(*env, *agent_id, rf, cd, j) != value) by {
                assert(child_value(*env, *agent_id, rf, cd, bi) == value);
            }
            assert(is_first_best_move(*env, *agent_id, rf, depth as nat, env.spec_actions()[bi]));
        }
    }
    let e = CacheEntry { value, depth, action: best };
    proof {
        assert(value == minmax_value(*env, *agent_id, rf, depth as nat));
        lemma_insert_sound(cache@, *agent_id, rf, *env, e);
        if fb {
            lemma_insert_first_best(cache@, *agent_id, rf, *env, e);
        }
    }
    cache.insert(key, e);
    (value, best)
}

/// The exact game-theoretic value of `env` for `agent`, found by searching
/// every line of play to its end.
pub fn depth_first<T: Environment>(env: &T, agent: &T::AgentId) -> (r: i64)
    ensures
        r == game_value(*env, *agent),
    decreases env.height(),
{
    if env.is_terminal() {
        return terminal_score(env, agent);
    }
    let ghost rf = zero_reward::<T>();
    let ghost h = env.height();
    proof {
        lemma_height_positive(*env);
    }
    let ghost cd = (h - 1) as nat;
    let maximize = agent.same(&env.turn());
    let actions = env.valid_actions();
    let mut value: i64 = if maximize { i64::MIN } else { i64::MAX };
    let mut i: usize = 0;
    while i < actions.len()
        invariant
            i <= actions.len(),
            actions@ == env.spec_actions(),
            maximize == maximizing(*env, *agent),
            !env.spec_terminal(),
            h == env.height(),
            h > 0,
            cd == h - 1,
            rf == zero_reward::<T>(),
            value == best_of(*env, *agent, rf, cd, i as nat),
        decreases actions.len() - i,
    {
        let a = actions[i];
        assert(env.spec_actions().contains(a)) by {
            assert(env.spec_actions()[i as int] == a);
        }
        proof {
            T::lemma_progress(*env, a);
        }
        let child = env.what_if(&a);
        let v = depth_first(&child, agent);
        proof {
            lemma_minmax_stable(child, *agent, rf, child.height(), cd);
        }
        if (maximize && v > value) || (!maximize && v < value) {
            value = v;
        }
        i += 1;
    }
    value
}

/// The scoring that searches every line of play to its end: the exact
/// game-theoretic value.
pub struct DepthFirst;

impl<T: Environment> Reward<T> for DepthFirst {
    open spec fn spec_reward(&self) -> spec_fn(T, T::AgentId) -> i64 {
        |s: T, agent: T::AgentId| game_value(s, agent)
    }

    fn reward(&self, s: &T, agent: &T::AgentId) -> (r: i64) {
        depth_first(s, agent)
    }
}

} // verus!
