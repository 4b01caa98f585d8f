//! Agents that answer "what move in this position": minmax and alpha-beta
//! agents that keep a transposition table across moves, a Monte-Carlo agent,
//! and the identity of a human player.
use vstd::prelude::*;

use crate::alphabeta::alphabeta_search;
use crate::cache::{cache_first_best, cache_sound, CacheEntry, TranspositionTable, DEPTH_TERMINAL};
use crate::environment::Environment;
use crate::mcts::{
    after_simulation, child_stats, is_uct_choice, mcts, simulated, on_line, plus, stats_at, stats_bounded, sum_visits, uct, uct_choice, unchanged_or_added,
    StatsTable, Statistics, Uct, VISIT_CAP,
};
use crate::intmath::log2_floor;
use crate::minmax::minmax;
use crate::play::Agent;
use crate::rebase::{lemma_submap_first_best, lemma_submap_sound, update_tree};
use crate::values::{is_first_best_move, maximizing, Reward};

verus! {

/// Drops the entries of positions not reachable from `env` within `depth`
/// moves; a sound table stays sound.
fn rebase_cache<T: Environment, R: Reward<T>>(
    env: &T,
    depth: u64,
    agent_id: &T::AgentId,
    reward: &R,
    cache: &mut TranspositionTable<T::Action>,
)
    requires
        cache_sound::<T>(old(cache)@, *agent_id, reward.spec_reward()),
    ensures
        cache_sound::<T>(final(cache)@, *agent_id, reward.spec_reward()),
        cache_first_best::<T>(old(cache)@, *agent_id, reward.spec_reward()) ==> cache_first_best::<T>(
            final(cache)@,
            *agent_id,
            reward.spec_reward(),
        ),
{
    let ghost before = cache@;
    update_tree(env, depth, cache);
    proof {
        lemma_submap_sound::<T>(before, cache@, *agent_id, reward.spec_reward());
        if cache_first_best::<T>(before, *agent_id, reward.spec_reward()) {
            lemma_submap_first_best::<T>(before, cache@, *agent_id, reward.spec_reward());
        }
    }
}

/// An agent that plays the move found by minmax search to a fixed depth,
/// keeping its transposition table from move to move.
pub struct MinmaxAgent<T: Environment, R: Reward<T>> {
    agent_id: T::AgentId,
    reward: R,
    depth: u64,
    cache: TranspositionTable<T::Action>,
}

impl<T: Environment, R: Reward<T>> MinmaxAgent<T, R> {
    #[verifier::type_invariant]
    spec fn inv(&self) -> bool {
        &&& self.depth < DEPTH_TERMINAL
        &&& cache_sound::<T>(self.cache@, self.agent_id, self.reward.spec_reward())
        &&& cache_first_best::<T>(self.cache@, self.agent_id, self.reward.spec_reward())
    }

    /// The party this agent plays.
    pub closed spec fn spec_agent(&self) -> T::AgentId {
        self.agent_id
    }

    /// The depth this agent searches to.
    pub closed spec fn spec_depth(&self) -> nat {
        self.depth as nat
    }

    /// The scoring this agent uses at the frontier.
    pub closed spec fn spec_scoring(&self) -> spec_fn(T, T::AgentId) -> i64 {
        self.reward.spec_reward()
    }

    /// An agent for `agent_id` that searches `depth` moves ahead, its own
    /// move included; with depth 0 it offers no move.
    pub fn new(agent_id: T::AgentId, reward: R, depth: u64) -> (r: Self)
        requires
            depth < DEPTH_TERMINAL,
        ensures
            r.spec_agent() == agent_id,
            r.spec_depth() == depth,
            r.spec_scoring() == reward.spec_reward(),
    {
        MinmaxAgent { agent_id, reward, depth, cache: TranspositionTable::new() }
    }

    /// The first best move, in enumeration order, for this agent's party in
    /// `env` by minmax at its depth; none when the game has ended.
    pub fn best_action(&mut self, env: &T) -> (r: Option<T::Action>)
        ensures
            final(self).spec_agent() == old(self).spec_agent(),
            final(self).spec_depth() == old(self).spec_depth(),
            final(self).spec_scoring() == old(self).spec_scoring(),
            r.is_some() <==> (!env.spec_terminal() && old(self).spec_depth() > 0
                && env.spec_actions().len() > 0),
            match r {
                Some(a) => is_first_best_move(
                    *env,
                    old(self).spec_agent(),
                    old(self).spec_scoring(),
                    old(self).spec_depth(),
                    a,
                ),
                None => true,
            },
    {
        proof {
            use_type_invariant(&*self);
        }
        let mut cache = TranspositionTable::new();
        std::mem::swap(&mut cache, &mut self.cache);
        rebase_cache(env, self.depth, &self.agent_id, &self.reward, &mut cache);
        let (_, action) = minmax(env, &self.agent_id, &self.reward, self.depth, &mut cache);
        self.cache = cache;
        action
    }
}

impl<T: Environment, R: Reward<T>> Agent<T> for MinmaxAgent<T, R> {
    fn identity(&self) -> T::AgentId {
        self.agent_id
    }

    fn action(&mut self, env: &T) -> (r: Option<T::Action>)
        ensures
            r.is_some() <==> (!env.spec_terminal() && old(self).spec_depth() > 0
                && env.spec_actions().len() > 0),
            match r {
                Some(a) => is_first_best_move(
                    *env,
                    old(self).spec_agent(),
                    old(self).spec_scoring(),
                    old(self).spec_depth(),
                    a,
                ),
                None => true,
            },
    {
        self.best_action(env)
    }
}

/// An agent that plays the move found by alpha-beta search to a fixed depth,
/// keeping its transposition table from move to move.
pub struct AlphabetaAgent<T: Environment, R: Reward<T>> {
    agent_id: T::AgentId,
    reward: R,
    depth: u64,
    cache: TranspositionTable<T::Action>,
}

impl<T: Environment, R: Reward<T>> AlphabetaAgent<T, R> {
    #[verifier::type_invariant]
    spec fn inv(&self) -> bool {
        &&& self.depth < DEPTH_TERMINAL
        &&& cache_sound::<T>(self.cache@, self.agent_id, self.reward.spec_reward())
    }

    /// The party this agent plays.
    pub closed spec fn spec_agent(&self) -> T::AgentId {
        self.agent_id
    }

    /// The depth this agent searches to.
    pub closed spec fn spec_depth(&self) -> nat {
        self.depth as nat
    }

    /// The scoring this agent uses at the frontier.
    pub closed spec fn spec_scoring(&self) -> spec_fn(T, T::AgentId) -> i64 {
        self.reward.spec_reward()
    }

    /// The entries of this agent's transposition table.
    pub closed spec fn spec_table(&self) -> Map<u64, CacheEntry<T::Action>> {
        self.cache@
    }

    /// The number of entries in this agent's transposition table.
    pub fn cache_len(&self) -> (r: usize)
        ensures
            r == self.spec_table().len(),
    {
        self.cache.len()
    }

    /// An agent for `agent_id` that searches `depth` moves ahead, its own
    /// move included; with depth 0 it offers no move.
    pub fn new(agent_id: T::AgentId, reward: R, depth: u64) -> (r: Self)
        requires
            depth < DEPTH_TERMINAL,
        ensures
            r.spec_agent() == agent_id,
            r.spec_depth() == depth,
            r.spec_scoring() == reward.spec_reward(),
    {
        AlphabetaAgent { agent_id, reward, depth, cache: TranspositionTable::new() }
    }

    /// Makes `env` the root of the transposition table: entries of positions
    /// that cannot be reached from it within the search depth are dropped.
    fn update_root(&mut self, env: &T)
        ensures
            final(self).spec_agent() == old(self).spec_agent(),
            final(self).spec_depth() == old(self).spec_depth(),
            final(self).spec_scoring() == old(self).spec_scoring(),
    {
        proof {
            use_type_invariant(&*self);
        }
        let mut cache = TranspositionTable::new();
        std::mem::swap(&mut cache, &mut self.cache);
        rebase_cache(env, self.depth, &self.agent_id, &self.reward, &mut cache);
        self.cache = cache;
    }

    /// The first best move, in enumeration order, for this agent's party in
    /// `env` by alpha-beta search at its depth; none when the game has ended.
    pub fn best_action(&mut self, env: &T) -> (r: Option<T::Action>)
        ensures
            final(self).spec_agent() == old(self).spec_agent(),
            final(self).spec_depth() == old(self).spec_depth(),
            final(self).spec_scoring() == old(self).spec_scoring(),
            r.is_some() <==> (!env.spec_terminal() && old(self).spec_depth() > 0
                && env.spec_actions().len() > 0),
            match r {
                Some(a) => is_first_best_move(
                    *env,
                    old(self).spec_agent(),
                    old(self).spec_scoring(),
                    old(self).spec_depth(),
                    a,
                ),
                None => true,
            },
    {
        self.update_root(env);
        proof {
            use_type_invariant(&*self);
        }
        let mut cache = TranspositionTable::new();
        std::mem::swap(&mut cache, &mut self.cache);
        let (_, action) = alphabeta_search(env, &self.agent_id, &self.reward, self.depth, &mut cache);
        self.cache = cache;
        action
    }
}

impl<T: Environment, R: Reward<T>> Agent<T> for AlphabetaAgent<T, R> {
    fn identity(&self) -> T::AgentId {
        self.agent_id
    }

    fn action(&mut self, env: &T) -> (r: Option<T::Action>)
        ensures
            r.is_some() <==> (!env.spec_terminal() && old(self).spec_depth() > 0
                && env.spec_actions().len() > 0),
            match r {
                Some(a) => is_first_best_move(
                    *env,
                    old(self).spec_agent(),
                    old(self).spec_scoring(),
                    old(self).spec_depth(),
                    a,
                ),
                None => true,
            },
    {
        self.best_action(env)
    }
}

/// After one simulation, a table bounded by `cap` is bounded by `cap + 1`.
proof fn lemma_simulation_bound(
    before: Map<u64, Statistics>,
    after: Map<u64, Statistics>,
    r: Statistics,
    cap: nat,
)
    requires
        stats_bounded(before, cap),
        cap < VISIT_CAP,
        r.visits == 1,
        -1 <= r.score <= 1,
        forall|k: u64| #[trigger] unchanged_or_added(before, after, k, r),
    ensures
        stats_bounded(after, cap + 1),
{
    assert forall|k: u64| #[trigger] after.contains_key(k) implies after[k].visits <= cap + 1 && -(
    after[k].visits as int) <= after[k].score <= after[k].visits by {
        assert(unchanged_or_added(before, after, k, r));
        assert(stats_at(after, k) == after[k]);
        if before.contains_key(k) {
            assert(stats_at(before, k) == before[k]);
        }
    }
}

proof fn lemma_bound_weaken(m: Map<u64, Statistics>, a: nat, b: nat)
    requires
        stats_bounded(m, a),
        a <= b,
    ensures
        stats_bounded(m, b),
{
}

/// An agent that runs Monte-Carlo simulations guided by UCT from the current
/// position, then plays the move of best mean score.
pub struct MctsUctAgent<T: Environment> {
    agent_id: T::AgentId,
    exploration: u32,
    mc_runs: u16,
    cache: StatsTable,
}

impl<T: Environment> MctsUctAgent<T> {
    /// The party this agent plays.
    pub closed spec fn spec_agent(&self) -> T::AgentId {
        self.agent_id
    }

    /// The statistics gathered for the last move.
    pub closed spec fn spec_stats(&self) -> Map<u64, Statistics> {
        self.cache@
    }

    /// The exploration weight of the simulations, in units of `1 / WEIGHT_SCALE`.
    pub closed spec fn spec_exploration(&self) -> u32 {
        self.exploration
    }

    /// The number of simulations per move.
    pub closed spec fn spec_runs(&self) -> u16 {
        self.mc_runs
    }

    /// An agent for `agent_id` that runs `mc_runs` simulations per move with
    /// exploration weight `exploration` (in units of `1 / WEIGHT_SCALE`).
    pub fn new(agent_id: T::AgentId, exploration: u32, mc_runs: u16) -> (r: Self)
        ensures
            r.spec_agent() == agent_id,
            r.spec_exploration() == exploration,
            r.spec_runs() == mc_runs,
    {
        MctsUctAgent { agent_id, exploration, mc_runs, cache: StatsTable::new() }
    }

    /// Runs one simulation from `env`, adding its outcome to the statistics.
    fn learn(&mut self, env: &T)
        requires
            stats_bounded(old(self).cache@, VISIT_CAP as nat),
        ensures
            final(self).agent_id == old(self).agent_id,
            final(self).mc_runs == old(self).mc_runs,
            final(self).exploration == old(self).exploration,
            final(self).cache@ == after_simulation(
                (Uct { exploration: old(self).exploration }),
                *env,
                old(self).agent_id,
                old(self).cache@,
            ),
            stats_at(old(self).cache@, env.spec_key()).visits < VISIT_CAP ==> stats_at(
                final(self).cache@,
                env.spec_key(),
            ).visits == stats_at(old(self).cache@, env.spec_key()).visits + 1,
            forall|cap: nat|
                cap < VISIT_CAP && stats_bounded(old(self).cache@, cap) ==> #[trigger] stats_bounded(
                    final(self).cache@,
                    cap + 1,
                ),
    {
        let selection = Uct { exploration: self.exploration };
        let ghost before = self.cache@;
        let r = mcts(env, &self.agent_id, &selection, &mut self.cache);
        proof {
            assert(on_line(selection, *env, self.agent_id, before, env.spec_key()));
            assert(stats_at(self.cache@, env.spec_key()) == plus(stats_at(before, env.spec_key()), r));
            assert forall|cap: nat| cap < VISIT_CAP && stats_bounded(before, cap) implies #[trigger] stats_bounded(
                self.cache@,
                cap + 1,
            ) by {
                lemma_simulation_bound(before, self.cache@, r, cap);
            }
        }
    }

    /// The move of `env` whose child has the best mean score (an unvisited
    /// child first) after this agent's `mc_runs` fresh simulations from `env`,
    /// each of which reaches `env`; none when there is no legal move.
    pub fn best_action(&mut self, env: &T) -> (r: Option<T::Action>)
        ensures
            final(self).spec_agent() == old(self).spec_agent(),
            final(self).spec_exploration() == old(self).spec_exploration(),
            final(self).spec_runs() == old(self).spec_runs(),
            stats_at(final(self).spec_stats(), env.spec_key()).visits == old(self).spec_runs(),
            final(self).spec_stats() == simulated(
                (Uct { exploration: old(self).spec_exploration() }),
                *env,
                old(self).spec_agent(),
                old(self).spec_runs() as nat,
            ),
            r == uct_choice(*env, old(self).spec_agent(), final(self).spec_stats(), 0),
            r.is_none() <==> env.spec_actions().len() == 0,
            match r {
                Some(a) => exists|k: int|
                    #![trigger env.spec_actions()[k]]
                    0 <= k < env.spec_actions().len() && env.spec_actions()[k] == a
                        && is_uct_choice(
                        child_stats(*env, final(self).spec_stats()),
                        k,
                        maximizing(*env, old(self).spec_agent()),
                        log2_floor(
                            sum_visits(
                                child_stats(*env, final(self).spec_stats()),
                                env.spec_actions().len(),
                            ),
                        ),
                        0,
                    ),
                None => true,
            },
    {
        self.cache.clear();
        let mut n: u16 = 0;
        while n < self.mc_runs
            invariant
                n <= self.mc_runs,
                stats_bounded(self.cache@, n as nat),
                stats_at(self.cache@, env.spec_key()).visits == n,
                self.cache@ == simulated(
                    (Uct { exploration: self.exploration }),
                    *env,
                    self.agent_id,
                    n as nat,
                ),
                self.agent_id == old(self).agent_id,
                self.mc_runs == old(self).mc_runs,
                self.exploration == old(self).exploration,
            decreases self.mc_runs - n,
        {
            proof {
                lemma_bound_weaken(self.cache@, n as nat, VISIT_CAP as nat);
            }
            self.learn(env);
            assert(stats_bounded(self.cache@, (n as nat) + 1));
            n += 1;
        }
        uct(env, &self.agent_id, &self.cache, 0)
    }
}

impl<T: Environment> Agent<T> for MctsUctAgent<T> {
    fn identity(&self) -> T::AgentId {
        self.agent_id
    }

    fn action(&mut self, env: &T) -> (r: Option<T::Action>)
        ensures
            final(self).spec_stats() == simulated(
                (Uct { exploration: old(self).spec_exploration() }),
                *env,
                old(self).spec_agent(),
                old(self).spec_runs() as nat,
            ),
            r == uct_choice(*env, old(self).spec_agent(), final(self).spec_stats(), 0),
            r.is_none() <==> env.spec_actions().len() == 0,
    {
        self.best_action(env)
    }
}

/// The identity of a human player; the moves come from outside the library.
pub struct HumanPlayer<I> {
    agent_id: I,
}

impl<I: Copy> HumanPlayer<I> {
    /// The party this player plays.
    pub closed spec fn spec_agent(&self) -> I {
        self.agent_id
    }

    /// A human player for `agent_id`.
    pub fn new(agent_id: I) -> (r: Self)
        ensures
            r.spec_agent() == agent_id,
    {
        HumanPlayer { agent_id }
    }

    /// The party this player plays.
    pub fn identity(&self) -> (r: I)
        ensures
            r == self.spec_agent(),
    {
        self.agent_id
    }
}

} // verus!
