//! Monte-Carlo tree search: simulations that select moves from the current
//! statistics, sample the outcome of an ended game, and add it to every
//! position on the way; and UCT, the upper-confidence-bound selection.
use vstd::prelude::*;

use std::collections::HashMap;

use crate::environment::{Environment, Identity};
use crate::intmath::{ilog2, isqrt, log2_floor, sqrt_floor};
use crate::values::{maximizing, outcome};

verus! {

broadcast use vstd::std_specs::hash::group_hash_axioms;

/// Accumulated outcomes at a position: the sum of the sampled scores and the
/// number of samples.
#[derive(Clone, Copy, Debug, PartialEq, Eq, Structural)]
pub struct Statistics {
    /// The sum of the sampled scores (+1 win, -1 loss, 0 draw).
    pub score: i64,
    /// The number of samples.
    pub visits: u64,
}

/// The largest number of visits that UCT scores.
pub const VISIT_CAP: u64 = 0x1_0000_0000u64;

/// The fixed-point scale of UCT scores.
pub const UCT_SCALE: u64 = 0x1_0000u64;

/// The natural logarithm of 2 on the fixed-point scale `UCT_SCALE`.
pub const LN2_SCALED: u64 = 45426u64;

/// The exploration weight is given in units of `1 / WEIGHT_SCALE`.
pub const WEIGHT_SCALE: u64 = 0x100u64;

/// The statistics of a position never seen: no score, no visit.
pub open spec fn unseen() -> Statistics {
    Statistics { score: 0, visits: 0 }
}

/// The statistics stored under `k`, or none.
pub open spec fn stats_at(m: Map<u64, Statistics>, k: u64) -> Statistics {
    if m.contains_key(k) {
        m[k]
    } else {
        unseen()
    }
}

/// The sample of an ended game for `agent`: its outcome (1, -1 or 0), one visit.
pub open spec fn terminal_sample<T: Environment>(s: T, agent: T::AgentId) -> Statistics {
    Statistics { score: outcome(s, agent), visits: 1 }
}

/// `a` with `b` added to it.
pub open spec fn plus(a: Statistics, b: Statistics) -> Statistics {
    Statistics { score: (a.score + b.score) as i64, visits: (a.visits + b.visits) as u64 }
}

/// Every entry has at most `cap` visits.
pub open spec fn visits_bounded(m: Map<u64, Statistics>, cap: nat) -> bool {
    forall|k: u64| #[trigger] m.contains_key(k) ==> m[k].visits <= cap
}

proof fn lemma_visits_bounded(m: Map<u64, Statistics>, cap: nat)
    requires
        stats_bounded(m, cap),
    ensures
        visits_bounded(m, cap),
{
}

/// Every entry has at most `cap` visits and a score no larger in size than its visits.
pub open spec fn stats_bounded(m: Map<u64, Statistics>, cap: nat) -> bool {
    forall|k: u64| #[trigger]
        m.contains_key(k) ==> m[k].visits <= cap && -(m[k].visits as int) <= m[k].score
            <= m[k].visits
}

/// A table from position keys to statistics.
pub struct StatsTable {
    entries: HashMap<u64, Statistics>,
}

impl View for StatsTable {
    type V = Map<u64, Statistics>;

    closed spec fn view(&self) -> Map<u64, Statistics> {
        self.entries@
    }
}

impl StatsTable {
    /// An empty table.
    pub fn new() -> (r: Self)
        ensures
            r@ == Map::<u64, Statistics>::empty(),
    {
        StatsTable { entries: HashMap::new() }
    }

    /// The number of entries.
    pub fn len(&self) -> (r: usize)
        ensures
            r == self@.len(),
    {
        self.entries.len()
    }

    /// Removes every entry.
    pub fn clear(&mut self)
        ensures
            final(self)@ == Map::<u64, Statistics>::empty(),
    {
        self.entries.clear();
    }

    /// The statistics stored under `key`; no score and no visit if there are none.
    pub fn read(&self, key: u64) -> (r: Statistics)
        ensures
            r == stats_at(self@, key),
    {
        match self.entries.get(&key) {
            Some(st) => *st,
            None => Statistics { score: 0, visits: 0 },
        }
    }

    /// Adds `st` to the statistics stored under `key`.
    pub fn add(&mut self, key: u64, st: Statistics)
        requires
            stats_at(old(self)@, key).visits + st.visits <= u64::MAX,
            i64::MIN <= stats_at(old(self)@, key).score + st.score <= i64::MAX,
        ensures
            final(self)@ == old(self)@.insert(key, plus(stats_at(old(self)@, key), st)),
    {
        let cur = self.read(key);
        let next = Statistics { score: cur.score + st.score, visits: cur.visits + st.visits };
        self.entries.insert(key, next);
    }
}

/// The statistics of a position read from a table; none if it is not there.
pub fn read_cache<T: Environment>(env: &T, cache: &StatsTable) -> (r: Statistics)
    ensures
        r == stats_at(cache@, env.spec_key()),
{
    cache.read(env.key())
}

/// Adds `value` to the statistics of `env` in the table.
pub fn add_value<T: Environment>(env: &T, value: &Statistics, cache: &mut StatsTable)
    requires
        stats_at(old(cache)@, env.spec_key()).visits + value.visits <= u64::MAX,
        i64::MIN <= stats_at(old(cache)@, env.spec_key()).score + value.score <= i64::MAX,
    ensures
        final(cache)@ == old(cache)@.insert(
            env.spec_key(),
            plus(stats_at(old(cache)@, env.spec_key()), *value),
        ),
{
    cache.add(env.key(), *value);
}

/// The sample of an ended game for `agent_id`: (1, 1) for a win, (-1, 1) for
/// a loss, (0, 1) for a draw.
pub fn find_terminal_value<T: Environment>(env: &T, agent_id: &T::AgentId) -> (r: Statistics)
    ensures
        r == terminal_sample(*env, *agent_id),
{
    match env.winner() {
        Some(w) => if w.same(agent_id) {
            Statistics { score: 1, visits: 1 }
        } else {
            Statistics { score: -1, visits: 1 }
        },
        None => Statistics { score: 0, visits: 1 },
    }
}

/// A rule that picks the move to simulate from the statistics gathered so far.
pub trait Selection<T: Environment> {
    /// The move this rule picks at `env` for `agent` from the statistics `m`.
    spec fn spec_select(&self, env: T, agent: T::AgentId, m: Map<u64, Statistics>) -> Option<
        T::Action,
    >;

    /// A legal move of `env`, or none when the game has ended or lists no move.
    fn select(&self, env: &T, agent: &T::AgentId, cache: &StatsTable) -> (r: Option<T::Action>)
        requires
            visits_bounded(cache@, VISIT_CAP as nat),
        ensures
            r == self.spec_select(*env, *agent, cache@),
            match r {
                Some(a) => !env.spec_terminal() && env.spec_actions().contains(a),
                None => env.spec_terminal() || env.spec_actions().len() == 0,
            },
    ;
}

/// The move `sel` picks at `s`, if it is a legal move of a game that goes on.
pub open spec fn legal_pick<T: Environment, S: Selection<T>>(
    sel: S,
    s: T,
    agent: T::AgentId,
    m: Map<u64, Statistics>,
) -> Option<T::Action> {
    match sel.spec_select(s, agent, m) {
        Some(a) => if !s.spec_terminal() && s.spec_actions().contains(a) {
            Some(a)
        } else {
            None
        },
        None => None,
    }
}

/// The position where the line of play that `sel` picks from `s` on the
/// statistics `m` stops.
pub open spec fn line_end<T: Environment, S: Selection<T>>(
    sel: S,
    s: T,
    agent: T::AgentId,
    m: Map<u64, Statistics>,
) -> T
    decreases s.height(),
    via lemma_line_end_decreases::<T, S>
{
    match legal_pick(sel, s, agent, m) {
        Some(a) => line_end(sel, s.spec_next(a), agent, m),
        None => s,
    }
}

#[via_fn]
proof fn lemma_line_end_decreases<T: Environment, S: Selection<T>>(
    sel: S,
    s: T,
    agent: T::AgentId,
    m: Map<u64, Statistics>,
) {
    if let Some(a) = legal_pick(sel, s, agent, m) {
        T::lemma_progress(s, a);
    }
}

/// Whether key `k` belongs to a position on the line of play that `sel`
/// picks from `s` on the statistics `m`, `s` included.
pub open spec fn on_line<T: Environment, S: Selection<T>>(
    sel: S,
    s: T,
    agent: T::AgentId,
    m: Map<u64, Statistics>,
    k: u64,
) -> bool
    decreases s.height(),
    via lemma_on_line_decreases::<T, S>
{
    k == s.spec_key() || match legal_pick(sel, s, agent, m) {
        Some(a) => on_line(sel, s.spec_next(a), agent, m, k),
        None => false,
    }
}

#[via_fn]
proof fn lemma_on_line_decreases<T: Environment, S: Selection<T>>(
    sel: S,
    s: T,
    agent: T::AgentId,
    m: Map<u64, Statistics>,
    k: u64,
) {
    if let Some(a) = legal_pick(sel, s, agent, m) {
        T::lemma_progress(s, a);
    }
}

/// Every key on a line belongs to a position no higher than its start.
proof fn lemma_on_line_height<T: Environment, S: Selection<T>>(
    sel: S,
    s: T,
    agent: T::AgentId,
    m: Map<u64, Statistics>,
    k: u64,
)
    requires
        on_line(sel, s, agent, m, k),
    ensures
        exists|t: T| #[trigger] t.spec_key() == k && t.height() <= s.height(),
    decreases s.height(),
{
    if k == s.spec_key() {
        assert(s.spec_key() == k);
    } else if let Some(a) = legal_pick(sel, s, agent, m) {
        T::lemma_progress(s, a);
        lemma_on_line_height(sel, s.spec_next(a), agent, m, k);
    }
}

/// The statistics `m` after one simulation from `s` with `sel`: the sample of
/// the ended game where the line stops is added at every position of the line.
pub open spec fn after_simulation<T: Environment, S: Selection<T>>(
    sel: S,
    s: T,
    agent: T::AgentId,
    m: Map<u64, Statistics>,
) -> Map<u64, Statistics> {
    Map::new(
        |k: u64| m.contains_key(k) || on_line(sel, s, agent, m, k),
        |k: u64|
            if on_line(sel, s, agent, m, k) {
                plus(stats_at(m, k), terminal_sample(line_end(sel, s, agent, m), agent))
            } else {
                m[k]
            },
    )
}

/// The statistics after `n` simulations from `s` with `sel`, starting from an
/// empty table.
pub open spec fn simulated<T: Environment, S: Selection<T>>(
    sel: S,
    s: T,
    agent: T::AgentId,
    n: nat,
) -> Map<u64, Statistics>
    decreases n,
{
    if n == 0 {
        Map::empty()
    } else {
        after_simulation(sel, s, agent, simulated(sel, s, agent, (n - 1) as nat))
    }
}

/// Key `k` holds the statistics it held before, or those plus `r`.
pub open spec fn unchanged_or_added(
    before: Map<u64, Statistics>,
    after: Map<u64, Statistics>,
    k: u64,
    r: Statistics,
) -> bool {
    stats_at(after, k) == stats_at(before, k) || stats_at(after, k) == plus(stats_at(before, k), r)
}

/// Runs one simulation from `env`: the moves that `selection` picks on the
/// statistics as they were are played until the game ends (or no move is
/// left), and the sample of the last position is added to the statistics of
/// every position on that line.
/// Returns the sample.
pub fn mcts<T: Environment, S: Selection<T>>(
    env: &T,
    agent_id: &T::AgentId,
    selection: &S,
    cache: &mut StatsTable,
) -> (r: Statistics)
    requires
        stats_bounded(old(cache)@, VISIT_CAP as nat),
    ensures
        line_end(*selection, *env, *agent_id, old(cache)@).spec_terminal() || line_end(
            *selection,
            *env,
            *agent_id,
            old(cache)@,
        ).spec_actions().len() == 0,
        r == terminal_sample(line_end(*selection, *env, *agent_id, old(cache)@), *agent_id),
        final(cache)@ == after_simulation(*selection, *env, *agent_id, old(cache)@),
        forall|k: u64|
            #[trigger] stats_at(final(cache)@, k) == if on_line(
                *selection,
                *env,
                *agent_id,
                old(cache)@,
                k,
            ) {
                plus(stats_at(old(cache)@, k), r)
            } else {
                stats_at(old(cache)@, k)
            },
    decreases env.height(),
{
    let ghost m = cache@;
    proof {
        lemma_visits_bounded(m, VISIT_CAP as nat);
    }
    match selection.select(env, agent_id, cache) {
        Some(action) => {
            proof {
                T::lemma_progress(*env, action);
            }
            let next_env = env.what_if(&action);
            let r = mcts(&next_env, agent_id, selection, cache);
            let ghost mid = cache@;
            let ghost k0 = env.spec_key();
            proof {
                if on_line(*selection, next_env, *agent_id, m, k0) {
                    lemma_on_line_height(*selection, next_env, *agent_id, m, k0);
                    let t = choose|t: T| #[trigger] t.spec_key() == k0 && t.height() <= next_env.height();
                    T::lemma_key_injective(t, *env);
                }
                assert(stats_at(mid, k0) == stats_at(m, k0));
            }
            add_value(env, &r, cache);
            proof {
                let am = after_simulation(*selection, *env, *agent_id, m);
                assert(legal_pick(*selection, *env, *agent_id, m) == Some(action));
                assert forall|k: u64|
                    on_line(*selection, *env, *agent_id, m, k) == (k == k0 || on_line(
                        *selection,
                        next_env,
                        *agent_id,
                        m,
                        k,
                    )) by {}
                assert(cache@ =~= am);
                assert forall|k: u64|
                    #[trigger] stats_at(cache@, k) == if on_line(*selection, *env, *agent_id, m, k) {
                        plus(stats_at(m, k), r)
                    } else {
                        stats_at(m, k)
                    } by {
                    if k != k0 {
                        assert(stats_at(mid, k) == stats_at(cache@, k));
                    }
                }
            }
            r
        },
        None => {
            let value = find_terminal_value(env, agent_id);
            add_value(env, &value, cache);
            proof {
                let am = after_simulation(*selection, *env, *agent_id, m);
                assert(legal_pick(*selection, *env, *agent_id, m).is_none());
                assert forall|k: u64|
                    on_line(*selection, *env, *agent_id, m, k) == (k == env.spec_key()) by {}
                assert(cache@ =~= am);
            }
            value
        },
    }
}

/// The statistics of the children of `s`, in the order of its actions.
pub open spec fn child_stats<T: Environment>(s: T, m: Map<u64, Statistics>) -> Seq<Statistics> {
    Seq::new(s.spec_actions().len(), |i: int| stats_at(m, s.spec_next(s.spec_actions()[i]).spec_key()))
}

/// The visits of the first `k` statistics, added up.
pub open spec fn sum_visits(st: Seq<Statistics>, k: nat) -> nat
    decreases k,
{
    if k == 0 || k > st.len() {
        0
    } else {
        sum_visits(st, (k - 1) as nat) + st[k - 1].visits as nat
    }
}

/// The score from the point of view of the party choosing: flipped when it
/// is not `agent`'s turn.
pub open spec fn signed_score(st: Statistics, maximize: bool) -> int {
    if maximize {
        st.score as int
    } else {
        -st.score
    }
}

/// The exploration bonus of a visited child, scaled by `UCT_SCALE * WEIGHT_SCALE`:
/// `(c / WEIGHT_SCALE) * sqrt(ln(total) / visits)`. The natural logarithm is
/// taken as `floor(log2(total)) * ln 2`, and the quotient and the square root
/// are rounded down on the fixed-point scale `UCT_SCALE`.
pub open spec fn exploration_bonus(st: Statistics, log_total: nat, c: nat) -> nat {
    c * sqrt_floor(((log_total * LN2_SCALED * UCT_SCALE) as int / (st.visits as int)) as nat)
}

/// The UCT score of a visited child times `UCT_SCALE * WEIGHT_SCALE * visits`:
/// the mean score plus the exploration bonus.
pub open spec fn uct_numerator(st: Statistics, maximize: bool, log_total: nat, c: nat) -> int {
    signed_score(st, maximize) * UCT_SCALE * WEIGHT_SCALE + exploration_bonus(st, log_total, c)
        * st.visits
}

/// Whether visited child `a` has a strictly higher UCT score than visited child `b`.
pub open spec fn uct_greater(
    a: Statistics,
    b: Statistics,
    maximize: bool,
    log_total: nat,
    c: nat,
) -> bool {
    uct_numerator(a, maximize, log_total, c) * b.visits > uct_numerator(b, maximize, log_total, c)
        * a.visits
}

/// Whether index `k` is the UCT choice among `st`: the first unvisited child
/// if there is one, else the first child of highest UCT score.
pub open spec fn is_uct_choice(
    st: Seq<Statistics>,
    k: int,
    maximize: bool,
    log_total: nat,
    c: nat,
) -> bool {
    &&& 0 <= k < st.len()
    &&& if exists|j: int| 0 <= j < st.len() && #[trigger] st[j].visits == 0 {
        &&& st[k].visits == 0
        &&& forall|j: int| 0 <= j < k ==> #[trigger] st[j].visits > 0
    } else {
        &&& forall|j: int| 0 <= j < st.len() ==> !uct_greater(#[trigger] st[j], st[k], maximize, log_total, c)
        &&& forall|j: int| 0 <= j < k ==> uct_greater(st[k], #[trigger] st[j], maximize, log_total, c)
    }
}

/// The move that UCT picks at `s` for `agent` from the statistics `m` with
/// exploration weight `c`; none when there is no legal move.
pub open spec fn uct_choice<T: Environment>(
    s: T,
    agent: T::AgentId,
    m: Map<u64, Statistics>,
    c: u32,
) -> Option<T::Action> {
    let st = child_stats(s, m);
    let lt = log2_floor(sum_visits(st, s.spec_actions().len()));
    if s.spec_actions().len() == 0 {
        None
    } else {
        Some(
            s.spec_actions()[choose|k: int| is_uct_choice(st, k, maximizing(s, agent), lt, c as nat)],
        )
    }
}

/// At most one index is the UCT choice.
proof fn lemma_uct_choice_unique(
    st: Seq<Statistics>,
    k1: int,
    k2: int,
    maximize: bool,
    log_total: nat,
    c: nat,
)
    requires
        is_uct_choice(st, k1, maximize, log_total, c),
        is_uct_choice(st, k2, maximize, log_total, c),
    ensures
        k1 == k2,
{
    if k1 < k2 {
        assert(st[k1].visits > 0 || !uct_greater(st[k2], st[k1], maximize, log_total, c));
    } else if k2 < k1 {
        assert(st[k2].visits > 0 || !uct_greater(st[k1], st[k2], maximize, log_total, c));
    }
}

/// The index `k` that is the UCT choice makes `uct_choice` pick its action.
proof fn lemma_uct_choice_at<T: Environment>(s: T, agent: T::AgentId, m: Map<u64, Statistics>, c: u32, k: int)
    requires
        is_uct_choice(
            child_stats(s, m),
            k,
            maximizing(s, agent),
            log2_floor(sum_visits(child_stats(s, m), s.spec_actions().len())),
            c as nat,
        ),
    ensures
        uct_choice(s, agent, m, c) == Some(s.spec_actions()[k]),
{
    let st = child_stats(s, m);
    let lt = log2_floor(sum_visits(st, s.spec_actions().len()));
    let k2 = choose|k: int| is_uct_choice(st, k, maximizing(s, agent), lt, c as nat);
    lemma_uct_choice_unique(st, k, k2, maximizing(s, agent), lt, c as nat);
}

proof fn lemma_ratio_order(a: int, na: int, b: int, nb: int, x: int, nx: int)
    requires
        na > 0,
        nb > 0,
        nx > 0,
    ensures
        (a * nb >= b * na && b * nx > x * nb) ==> a * nx > x * na,
        (a * nb > b * na && b * nx >= x * nb) ==> a * nx > x * na,
{
    if a * nb >= b * na && b * nx > x * nb {
        assert(a * nx > x * na) by (nonlinear_arith)
            requires
                na > 0,
                nb > 0,
                nx > 0,
                a * nb >= b * na,
                b * nx > x * nb,
        ;
    }
    if a * nb > b * na && b * nx >= x * nb {
        assert(a * nx > x * na) by (nonlinear_arith)
            requires
                na > 0,
                nb > 0,
                nx > 0,
                a * nb > b * na,
                b * nx >= x * nb,
        ;
    }
}

/// The UCT numerator of a visited child.
fn numerator(st: Statistics, maximize: bool, log_total: u32, c: u32) -> (r: i128)
    requires
        0 < st.visits <= VISIT_CAP,
        log_total <= 127,
    ensures
        r == uct_numerator(st, maximize, log_total as nat, c as nat),
        -0x100_0000_0000_0000_0000_0000 < r < 0x100_0000_0000_0000_0000_0000,
{
    let x: u64 = (log_total as u64) * LN2_SCALED * UCT_SCALE / st.visits;
    assert(x <= 127 * 0x1_0000_0000) by (nonlinear_arith)
        requires
            x as int == ((log_total as int) * LN2_SCALED * UCT_SCALE) / (st.visits as int),
            log_total <= 127,
            st.visits > 0,
            UCT_SCALE == 0x1_0000,
            LN2_SCALED == 45426,
    ;
    let sq = isqrt(x);
    assert(sq < 0x10_0000) by (nonlinear_arith)
        requires
            sq * sq <= x,
            x <= 127 * 0x1_0000_0000,
    ;
    assert((c as u128) * (sq as u128) <= 0x10_0000_0000_0000) by (nonlinear_arith)
        requires
            c <= 0xFFFF_FFFF,
            sq < 0x10_0000,
    ;
    let bonus: u128 = (c as u128) * (sq as u128);
    let signed: i128 = if maximize { st.score as i128 } else { -(st.score as i128) };
    assert(0 <= (bonus as i128) * (st.visits as i128) <= 0x10_0000_0000_0000 * 0x1_0000_0000)
        by (nonlinear_arith)
        requires
            0 <= bonus <= 0x10_0000_0000_0000,
            0 < st.visits <= 0x1_0000_0000,
    ;
    let part: i128 = (bonus as i128) * (st.visits as i128);
    assert(-0x8000_0000_0000_0000 <= signed <= 0x8000_0000_0000_0000);
    let scaled: i128 = signed * 0x100_0000i128;
    scaled + part
}

/// The move of `env` chosen by the upper confidence bound: a move whose child
/// was never visited if there is one (the first such), else the first move of
/// highest mean score plus `exploration / WEIGHT_SCALE` times the confidence
/// term `sqrt(ln(total visits) / visits)` (see `exploration_bonus`), where the
/// mean is taken from the point of view of the party to move. None when there
/// is no legal move.
pub fn uct<T: Environment>(
    env: &T,
    agent_id: &T::AgentId,
    cache: &StatsTable,
    exploration: u32,
) -> (r: Option<T::Action>)
    requires
        visits_bounded(cache@, VISIT_CAP as nat),
    ensures
        r == uct_choice(*env, *agent_id, cache@, exploration),
        r.is_none() <==> env.spec_actions().len() == 0,
        match r {
            Some(a) => exists|k: int|
                #![trigger env.spec_actions()[k]]
                0 <= k < env.spec_actions().len() && env.spec_actions()[k] == a && is_uct_choice(
                    child_stats(*env, cache@),
                    k,
                    maximizing(*env, *agent_id),
                    log2_floor(sum_visits(child_stats(*env, cache@), env.spec_actions().len())),
                    exploration as nat,
                ),
            None => true,
        },
{
    let actions = env.valid_actions();
    let ghost n = actions@.len();
    let ghost cs = child_stats(*env, cache@);
    let mut stats: Vec<Statistics> = Vec::new();
    let mut total: u128 = 0;
    let mut i: usize = 0;
    while i < actions.len()
        invariant
            i <= actions.len(),
            actions@ == env.spec_actions(),
            n == actions@.len(),
            cs == child_stats(*env, cache@),
            visits_bounded(cache@, VISIT_CAP as nat),
            stats@.len() == i,
            forall|j: int| 0 <= j < i ==> #[trigger] stats@[j] == cs[j],
            total == sum_visits(stats@, i as nat),
            total <= i * VISIT_CAP,
        decreases actions.len() - i,
    {
        let child = env.what_if(&actions[i]);
        let st = read_cache(&child, cache);
        assert(st == cs[i as int]);
        assert(st.visits <= VISIT_CAP) by {
            if cache@.contains_key(child.spec_key()) {
            }
        }
        let ghost before = stats@;
        stats.push(st);
        proof {
            assert(sum_visits(before, i as nat) == sum_visits(stats@, i as nat)) by {
                lemma_sum_prefix(before, stats@, i as nat);
            }
        }
        total = total + st.visits as u128;
        i += 1;
    }
    assert(stats@ =~= cs);
    if actions.len() == 0 {
        return None;
    }
    let mut j: usize = 0;
    while j < stats.len()
        invariant
            j <= stats.len(),
            stats@ == cs,
            cs == child_stats(*env, cache@),
            stats.len() == n,
            n == actions@.len(),
            actions@ == env.spec_actions(),
            forall|jj: int| 0 <= jj < j ==> #[trigger] stats@[jj].visits > 0,
        decreases stats.len() - j,
    {
        if stats[j].visits == 0 {
            assert(env.spec_actions()[j as int] == actions[j as int]);
            assert(cs[j as int].visits == 0);
            assert(is_uct_choice(
                cs,
                j as int,
                maximizing(*env, *agent_id),
                log2_floor(sum_visits(cs, n)),
                exploration as nat,
            ));
            let a = actions[j];
            proof {
                lemma_uct_choice_at(*env, *agent_id, cache@, exploration, j as int);
            }
            return Some(a);
        }
        j += 1;
    }
    let maximize = agent_id.same(&env.turn());
    let log_total = ilog2(total);
    let ghost lt = log_total as nat;
    let ghost c = exploration as nat;
    proof {
        assert forall|jj: int| 0 <= jj < n implies 0 < #[trigger] stats@[jj].visits <= VISIT_CAP by {
            let k = env.spec_next(env.spec_actions()[jj]).spec_key();
            assert(stats@[jj].visits > 0);
            assert(cs[jj] == stats_at(cache@, k));
            assert(stats@[jj] == stats_at(cache@, k));
            assert(cache@.contains_key(k));
        }
    }
    let mut b: usize = 0;
    let mut nb: i128 = numerator(stats[0], maximize, log_total, exploration);
    let mut i: usize = 1;
    while i < stats.len()
        invariant
            1 <= i <= stats.len(),
            stats@ == cs,
            cs == child_stats(*env, cache@),
            n == actions@.len(),
            actions@ == env.spec_actions(),
            total == sum_visits(cs, n),
            stats.len() == n,
            log_total <= 127,
            lt == log_total,
            c == exploration,
            maximize == maximizing(*env, *agent_id),
            forall|jj: int| 0 <= jj < n ==> 0 < #[trigger] stats@[jj].visits <= VISIT_CAP,
            b < i,
            nb == uct_numerator(stats@[b as int], maximize, lt, c),
            -0x100_0000_0000_0000_0000_0000 < nb < 0x100_0000_0000_0000_0000_0000,
            forall|jj: int| 0 <= jj < i ==> !uct_greater(#[trigger] stats@[jj], stats@[b as int], maximize, lt, c),
            forall|jj: int| 0 <= jj < b ==> uct_greater(stats@[b as int], #[trigger] stats@[jj], maximize, lt, c),
        decreases stats.len() - i,
    {
        let ni = numerator(stats[i], maximize, log_total, exploration);
        let vb = stats[b].visits as i128;
        let vi = stats[i].visits as i128;
        assert(-0x1000_0000_0000_0000_0000_0000_0000_0000 < ni * vb < 0x1000_0000_0000_0000_0000_0000_0000_0000) by (nonlinear_arith)
            requires
                -0x100_0000_0000_0000_0000_0000 < ni < 0x100_0000_0000_0000_0000_0000,
                0 < vb <= 0x1_0000_0000,
        ;
        assert(-0x1000_0000_0000_0000_0000_0000_0000_0000 < nb * vi < 0x1000_0000_0000_0000_0000_0000_0000_0000) by (nonlinear_arith)
            requires
                -0x100_0000_0000_0000_0000_0000 < nb < 0x100_0000_0000_0000_0000_0000,
                0 < vi <= 0x1_0000_0000,
        ;
        let ghost old_b = b as int;
        if ni * vb > nb * vi {
            proof {
                let si = stats@[i as int];
                let sb = stats@[old_b];
                assert forall|jj: int| 0 <= jj < i implies uct_greater(si, #[trigger] stats@[jj], maximize, lt, c) by {
                    let sj = stats@[jj];
                    lemma_ratio_order(
                        uct_numerator(si, maximize, lt, c), si.visits as int,
                        uct_numerator(sb, maximize, lt, c), sb.visits as int,
                        uct_numerator(sj, maximize, lt, c), sj.visits as int,
                    );
                }
                assert forall|jj: int| 0 <= jj < i + 1 implies !uct_greater(#[trigger] stats@[jj], si, maximize, lt, c) by {
                }
            }
            b = i;
            nb = ni;
        }
        i += 1;
    }
    assert(env.spec_actions()[b as int] == actions[b as int]);
    proof {
        assert(is_uct_choice(cs, b as int, maximize, lt, c));
        lemma_uct_choice_at(*env, *agent_id, cache@, exploration, b as int);
    }
    Some(actions[b])
}

proof fn lemma_sum_prefix(a: Seq<Statistics>, b: Seq<Statistics>, k: nat)
    requires
        k <= a.len(),
        k <= b.len(),
        forall|j: int| 0 <= j < k ==> a[j] == b[j],
    ensures
        sum_visits(a, k) == sum_visits(b, k),
    decreases k,
{
    if k > 0 {
        lemma_sum_prefix(a, b, (k - 1) as nat);
    }
}

/// Selection by the upper confidence bound with a given exploration weight.
pub struct Uct {
    /// The weight of the exploration term, in units of `1 / WEIGHT_SCALE`;
    /// 0 picks the best mean score.
    pub exploration: u32,
}

impl<T: Environment> Selection<T> for Uct {
    open spec fn spec_select(&self, env: T, agent: T::AgentId, m: Map<u64, Statistics>) -> Option<
        T::Action,
    > {
        uct_choice(env, agent, m, self.exploration)
    }

    fn select(&self, env: &T, agent: &T::AgentId, cache: &StatsTable) -> (r: Option<T::Action>) {
        let r = uct(env, agent, cache, self.exploration);
        proof {
            if env.spec_terminal() {
                T::lemma_ended(*env);
            }
            if let Some(a) = r {
                let k = choose|k: int|
                    #![trigger env.spec_actions()[k]]
                    0 <= k < env.spec_actions().len() && env.spec_actions()[k] == a && is_uct_choice(
                        child_stats(*env, cache@),
                        k,
                        maximizing(*env, *agent),
                        log2_floor(sum_visits(child_stats(*env, cache@), env.spec_actions().len())),
                        self.exploration as nat,
                    );
                assert(env.spec_actions().contains(a));
            }
        }
        r
    }
}

} // verus!
