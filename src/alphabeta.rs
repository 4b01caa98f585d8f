//! Alpha-beta search: minmax with pruning bounds, move ordering by cached
//! values, and a transposition table that keeps exact results only.
use vstd::prelude::*;

use crate::cache::{
    cache_sound, holds_result, entry_sound, lemma_insert_sound, CacheEntry, TranspositionTable, DEPTH_TERMINAL,
};
use crate::environment::{Environment, Identity};
use crate::ordering::{is_ranking, sort_children};
use crate::values::{
    best_of, child_value, is_best_move, is_first_best_move, lemma_best_of_bounds, maximizing, minmax_value,
    terminal_score, terminal_value, Reward,
};

verus! {

/// What a fail-soft search with window `(alpha, beta)` promises of its result
/// `v` when the true value is `m`: below the window `v` bounds `m` from above,
/// above it from below, and inside it `v` is `m`.
pub open spec fn fail_soft(m: i64, alpha: i64, beta: i64, v: i64) -> bool {
    &&& v <= alpha ==> m <= v
    &&& v >= beta ==> m >= v
    &&& alpha < v < beta ==> m == v
}

/// The window that excludes no value.
pub open spec fn full_window(alpha: i64, beta: i64) -> bool {
    alpha == i64::MIN && beta == i64::MAX
}

/// With the full window, fail-soft alpha-beta returns exactly the minmax
/// value: pruning changes the work done, never the value.
pub proof fn lemma_alphabeta_agrees_with_minmax<T: Environment>(
    s: T,
    agent: T::AgentId,
    rf: spec_fn(T, T::AgentId) -> i64,
    d: nat,
    v: i64,
)
    requires
        fail_soft(minmax_value(s, agent, rf, d), i64::MIN, i64::MAX, v),
    ensures
        v == minmax_value(s, agent, rf, d),
{
}

/// Alpha-beta search of `env` for `agent_id`, `depth` moves ahead, within the
/// window `(alpha, beta)`. The value returned is fail-soft with respect to the
/// minmax value; with the full window it is the minmax value and the move is
/// a best move. Children are visited best first by their cached values.
/// Only exact results are stored in `cache`: a result inside the window, or
/// any result with the full window, or the score of an ended game.
pub fn alphabeta<T: Environment, R: Reward<T>>(
    env: &T,
    agent_id: &T::AgentId,
    reward: &R,
    depth: u64,
    alpha: i64,
    beta: i64,
    cache: &mut TranspositionTable<T::Action>,
) -> (r: (i64, Option<T::Action>))
    requires
        depth < DEPTH_TERMINAL,
        alpha < beta,
        cache_sound::<T>(old(cache)@, *agent_id, reward.spec_reward()),
    ensures
        cache_sound::<T>(final(cache)@, *agent_id, reward.spec_reward()),
        fail_soft(minmax_value(*env, *agent_id, reward.spec_reward(), depth as nat), alpha, beta, r.0),
        r.1.is_some() <==> (!env.spec_terminal() && depth > 0 && env.spec_actions().len() > 0),
        env.spec_terminal() ==> r.0 == terminal_value(*env, *agent_id),
        (alpha < r.0 < beta || full_window(alpha, beta) || env.spec_terminal()) ==> holds_result(
            final(cache)@,
            *env,
            depth,
            r.0,
            r.1,
        ),
        (alpha < r.0 < beta || full_window(alpha, beta)) ==> match r.1 {
            Some(a) => is_best_move(*env, *agent_id, reward.spec_reward(), depth as nat, a),
            None => true,
        },
    decreases depth,
{
    let ghost rf = reward.spec_reward();
    let key = env.key();
    match cache.get(key) {
        Some(e) => {
            if e.answers(depth) {
                assert(entry_sound(e, *env, *agent_id, rf));
                return (e.value, e.action);
            }
        },
        None => {},
    }
    if env.is_terminal() {
        let v = terminal_score(env, agent_id);
        let e = CacheEntry { value: v, depth: DEPTH_TERMINAL, action: None };
        proof {
            lemma_insert_sound(cache@, *agent_id, rf, *env, e);
        }
        cache.insert(key, e);
        return (v, None);
    }
    if depth == 0 {
        let v = reward.reward(env, agent_id);
        let e = CacheEntry { value: v, depth: 0, action: None };
        proof {
            lemma_insert_sound(cache@, *agent_id, rf, *env, e);
        }
        cache.insert(key, e);
        return (v, None);
    }
    let maximize = agent_id.same(&env.turn());
    let actions = env.valid_actions();
    let ghost cd = (depth - 1) as nat;
    let ghost n = actions@.len();
    if actions.len() == 0 {
        // A forced pass: no child to look at.
        let v: i64 = if maximize { i64::MIN } else { i64::MAX };
        let e = CacheEntry { value: v, depth, action: None };
        proof {
            assert(v == minmax_value(*env, *agent_id, rf, depth as nat));
            lemma_insert_sound(cache@, *agent_id, rf, *env, e);
        }
        cache.insert(key, e);
        return (v, None);
    }
    // Cached values of the children, for move ordering only.
    let mut keys: Vec<Option<i64>> = Vec::new();
    let mut k: usize = 0;
    while k < actions.len()
        invariant
            k <= actions.len(),
            keys.len() == k,
        decreases actions.len() - k,
    {
        let child = env.what_if(&actions[k]);
        match cache.get(child.key()) {
            Some(e) => keys.push(Some(e.value)),
            None => keys.push(None),
        }
        k += 1;
    }
    let order = sort_children(&keys, maximize);
    let mut value: i64 = if maximize { i64::MIN } else { i64::MAX };
    let mut best: Option<T::Action> = None;
    let ghost mut bi: int = 0;
    let mut cutoff = false;
    let mut i: usize = 0;
    while i < order.len() && !cutoff
        invariant
            i <= order.len(),
            order.len() == n,
            n == env.spec_actions().len(),
            n > 0,
            actions@ == env.spec_actions(),
            is_ranking(keys@, order@, maximize),
            keys@.len() == n,
            maximize == maximizing(*env, *agent_id),
            !env.spec_terminal(),
            depth > 0,
            cd == depth - 1,
            alpha < beta,
            rf == reward.spec_reward(),
            cache_sound::<T>(cache@, *agent_id, rf),
            i > 0 <==> best.is_some(),
            i == 0 ==> value == if maximize {
                i64::MIN
            } else {
                i64::MAX
            },
            i > 0 ==> 0 <= bi < n && best == Some(env.spec_actions()[bi]),
            !cutoff ==> if maximize {
                &&& value < beta
                &&& forall|p: int|
                    0 <= p < i ==> #[trigger] child_value(*env, *agent_id, rf, cd, order@[p] as int)
                        <= value
                &&& i > 0 ==> child_value(*env, *agent_id, rf, cd, bi) <= value
                &&& i > 0 && value > alpha ==> child_value(*env, *agent_id, rf, cd, bi) == value
            } else {
                &&& value > alpha
                &&& forall|p: int|
                    0 <= p < i ==> #[trigger] child_value(*env, *agent_id, rf, cd, order@[p] as int)
                        >= value
                &&& i > 0 ==> child_value(*env, *agent_id, rf, cd, bi) >= value
                &&& i > 0 && value < beta ==> child_value(*env, *agent_id, rf, cd, bi) == value
            },
            cutoff ==> i > 0 && if maximize {
                &&& value >= beta
                &&& child_value(*env, *agent_id, rf, cd, bi) >= value
            } else {
                &&& value <= alpha
                &&& child_value(*env, *agent_id, rf, cd, bi) <= value
            },
        decreases order.len() - i,
    {
        let j = order[i];
        let a = actions[j];
        let child = env.what_if(&a);
        let (lo, hi) = if maximize {
            (if value > alpha { value } else { alpha }, beta)
        } else {
            (alpha, if value < beta { value } else { beta })
        };
        let (v, _) = alphabeta(&child, agent_id, reward, depth - 1, lo, hi, cache);
        let ghost m = child_value(*env, *agent_id, rf, cd, j as int);
        assert(m == minmax_value(child, *agent_id, rf, cd));
        assert(fail_soft(m, lo, hi, v));
        let ghost old_value = value;
        if best.is_none() || (maximize && v > value) || (!maximize && v < value) {
            value = v;
            best = Some(a);
            proof {
                bi = j as int;
            }
        }
        if maximize && value >= beta {
            cutoff = true;
        }
        if !maximize && value <= alpha {
            cutoff = true;
        }
        proof {
            if !cutoff {
                if maximize {
                    assert(v < beta);
                    assert(m <= v);
                    assert(old_value <= value);
                } else {
                    assert(v > alpha);
                    assert(m >= v);
                    assert(old_value >= value);
                }
                assert forall|p: int| 0 <= p < i + 1 implies if maximize {
                    #[trigger] child_value(*env, *agent_id, rf, cd, order@[p] as int) <= value
                } else {
                    child_value(*env, *agent_id, rf, cd, order@[p] as int) >= value
                } by {
                    if p == i {
                        assert(order@[p] == j);
                    }
                }
            }
        }
        i += 1;
    }
    proof {
        let mm = minmax_value(*env, *agent_id, rf, depth as nat);
        assert(mm == best_of(*env, *agent_id, rf, cd, n));
        lemma_best_of_bounds(*env, *agent_id, rf, cd, n);
        if !cutoff {
            // Every child was visited.
            assert forall|jj: int| 0 <= jj < n implies if maximize {
                #[trigger] child_value(*env, *agent_id, rf, cd, jj) <= value
            } else {
                child_value(*env, *agent_id, rf, cd, jj) >= value
            } by {
                assert(order@.contains(jj as usize));
                let p = choose|p: int| 0 <= p < order@.len() && order@[p] == jj as usize;
                assert(child_value(*env, *agent_id, rf, cd, order@[p] as int) == child_value(
                    *env,
                    *agent_id,
                    rf,
                    cd,
                    jj,
                ));
            }
        }
        assert(env.spec_actions().contains(env.spec_actions()[bi]));
    }
    let exact = (alpha < value && value < beta) || (alpha == i64::MIN && beta == i64::MAX);
    if exact {
        let e = CacheEntry { value, depth, action: best };
        proof {
            lemma_insert_sound(cache@, *agent_id, rf, *env, e);
        }
        cache.insert(key, e);
    }
    (value, best)
}

/// Alpha-beta search with the full window: the minmax value of `env` for
/// `agent_id` at depth `depth`, and the first best move in enumeration order
/// when the search looked at moves. Each earlier move is ruled out by a search
/// of its child with a window just around the value.
pub fn alphabeta_search<T: Environment, R: Reward<T>>(
    env: &T,
    agent_id: &T::AgentId,
    reward: &R,
    depth: u64,
    cache: &mut TranspositionTable<T::Action>,
) -> (r: (i64, Option<T::Action>))
    requires
        depth < DEPTH_TERMINAL,
        cache_sound::<T>(old(cache)@, *agent_id, reward.spec_reward()),
    ensures
        cache_sound::<T>(final(cache)@, *agent_id, reward.spec_reward()),
        r.0 == minmax_value(*env, *agent_id, reward.spec_reward(), depth as nat),
        r.1.is_some() <==> (!env.spec_terminal() && depth > 0 && env.spec_actions().len() > 0),
        match r.1 {
            Some(a) => is_first_best_move(*env, *agent_id, reward.spec_reward(), depth as nat, a),
            None => true,
        },
{
    let ghost rf = reward.spec_reward();
    let (value, best) = alphabeta(env, agent_id, reward, depth, i64::MIN, i64::MAX, cache);
    if best.is_none() {
        return (value, best);
    }
    let ghost cd = (depth - 1) as nat;
    let ghost n = env.spec_actions().len();
    proof {
        lemma_best_of_bounds(*env, *agent_id, rf, cd, n);
    }
    let actions = env.valid_actions();
    let (lo, hi) = if value == i64::MIN {
        (i64::MIN, i64::MIN + 1)
    } else if value == i64::MAX {
        (i64::MAX - 1, i64::MAX)
    } else {
        (value - 1, value + 1)
    };
    let mut i: usize = 0;
    while i < actions.len()
        invariant
            i <= actions.len(),
            actions@ == env.spec_actions(),
            n == actions@.len(),
            !env.spec_terminal(),
            depth > 0,
            depth < DEPTH_TERMINAL,
            cd == depth - 1,
            rf == reward.spec_reward(),
            value == minmax_value(*env, *agent_id, rf, depth as nat),
            value == best_of(*env, *agent_id, rf, cd, n),
            exists|j: int| 0 <= j < n && #[trigger] child_value(*env, *agent_id, rf, cd, j) == value,
            lo < hi,
            lo == value || lo == value - 1,
            hi == value || hi == value + 1,
            lo == value ==> value == i64::MIN,
            hi == value ==> value == i64::MAX,
            cache_sound::<T>(cache@, *agent_id, rf),
            forall|j: int| 0 <= j < i ==> #[trigger] child_value(*env, *agent_id, rf, cd, j) != value,
        decreases actions.len() - i,
    {
        let a = actions[i];
        let child = env.what_if(&a);
        let (w, _) = alphabeta(&child, agent_id, reward, depth - 1, lo, hi, cache);
        let ghost m = child_value(*env, *agent_id, rf, cd, i as int);
        assert(m == minmax_value(child, *agent_id, rf, cd));
        if w == value {
            proof {
                assert(env.spec_actions()[i as int] == a);
                assert(m == value);
                assert(is_first_best_move(*env, *agent_id, rf, depth as nat, a));
            }
            return (value, Some(a));
        }
        assert(m != value);
        i += 1;
    }
    proof {
        let j = choose|j: int| 0 <= j < n && #[trigger] child_value(*env, *agent_id, rf, cd, j) == value;
        assert(child_value(*env, *agent_id, rf, cd, j) != value);
    }
    (value, best)
}

} // verus!
