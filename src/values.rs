//! The values that search assigns to positions: the score of an ended game,
//! depth-limited minmax values, and the exact game-theoretic value.
use vstd::prelude::*;

use crate::environment::{Environment, Identity};

verus! {

/// A scoring of positions for a party, used at the search frontier.
pub trait Reward<T: Environment> {
    /// The score that `reward` gives.
    spec fn spec_reward(&self) -> spec_fn(T, T::AgentId) -> i64;

    /// Scores `s` from the point of view of `agent`.
    fn reward(&self, s: &T, agent: &T::AgentId) -> (r: i64)
        ensures
            r == (self.spec_reward())(*s, *agent),
    ;
}

/// The score of a won game: above every other score.
pub const WIN_SCORE: i64 = 0x7FFF_FFFF_FFFF_FFFFi64;

/// The score of a lost game: the opposite of `WIN_SCORE`, and below every
/// score but `i64::MIN`.
pub const LOSS_SCORE: i64 = -0x7FFF_FFFF_FFFF_FFFFi64;

/// The score of an ended game for `agent`: `WIN_SCORE` for a win,
/// `LOSS_SCORE` for a loss, 0 for a draw.
pub open spec fn terminal_value<T: Environment>(s: T, agent: T::AgentId) -> i64 {
    match s.spec_winner() {
        Some(w) => if w == agent {
            WIN_SCORE
        } else {
            LOSS_SCORE
        },
        None => 0i64,
    }
}

/// Scores are zero-sum: where the winner, if any, is one of two parties, the
/// score of one is the opposite of the score of the other.
pub proof fn lemma_terminal_zero_sum<T: Environment>(s: T, a: T::AgentId, b: T::AgentId)
    requires
        a != b,
        match s.spec_winner() {
            Some(w) => w == a || w == b,
            None => true,
        },
    ensures
        terminal_value(s, a) == -terminal_value(s, b),
{
}

/// The outcome of an ended game for `agent`: 1 for a win, -1 for a loss, 0 for a draw.
pub open spec fn outcome<T: Environment>(s: T, agent: T::AgentId) -> i64 {
    match s.spec_winner() {
        Some(w) => if w == agent {
            1i64
        } else {
            -1i64
        },
        None => 0i64,
    }
}

/// Whether `agent` picks the largest value at `s` (it is its turn).
pub open spec fn maximizing<T: Environment>(s: T, agent: T::AgentId) -> bool {
    s.spec_turn() == agent
}

/// The minmax value of `s` for `agent` looking `d` moves ahead, with `rf`
/// scoring the positions where the look-ahead stops.
pub open spec fn minmax_value<T: Environment>(
    s: T,
    agent: T::AgentId,
    rf: spec_fn(T, T::AgentId) -> i64,
    d: nat,
) -> i64
    decreases d, 0nat,
{
    if s.spec_terminal() {
        terminal_value(s, agent)
    } else if d == 0 {
        rf(s, agent)
    } else {
        best_of(s, agent, rf, (d - 1) as nat, s.spec_actions().len())
    }
}

/// The best of the values at depth `cd` of the first `k` children of `s`:
/// the largest when `agent` is to move, else the smallest.
pub open spec fn best_of<T: Environment>(
    s: T,
    agent: T::AgentId,
    rf: spec_fn(T, T::AgentId) -> i64,
    cd: nat,
    k: nat,
) -> i64
    decreases cd, k + 1,
{
    if k == 0 {
        if maximizing(s, agent) {
            i64::MIN
        } else {
            i64::MAX
        }
    } else {
        let v = minmax_value(s.spec_next(s.spec_actions()[k - 1]), agent, rf, cd);
        let b = best_of(s, agent, rf, cd, (k - 1) as nat);
        if maximizing(s, agent) {
            if v > b {
                v
            } else {
                b
            }
        } else {
            if v < b {
                v
            } else {
                b
            }
        }
    }
}

/// The value at depth `cd` of the child of `s` reached by its `k`-th action.
pub open spec fn child_value<T: Environment>(
    s: T,
    agent: T::AgentId,
    rf: spec_fn(T, T::AgentId) -> i64,
    cd: nat,
    k: int,
) -> i64 {
    minmax_value(s.spec_next(s.spec_actions()[k]), agent, rf, cd)
}

/// `a` is a legal move at `s` whose child has the minmax value of `s` at depth `d`.
pub open spec fn is_best_move<T: Environment>(
    s: T,
    agent: T::AgentId,
    rf: spec_fn(T, T::AgentId) -> i64,
    d: nat,
    a: T::Action,
) -> bool {
    &&& d > 0
    &&& !s.spec_terminal()
    &&& s.spec_actions().contains(a)
    &&& minmax_value(s.spec_next(a), agent, rf, (d - 1) as nat) == minmax_value(s, agent, rf, d)
}

/// `a` is the first legal move at `s`, in enumeration order, whose child has
/// the minmax value of `s` at depth `d`.
pub open spec fn is_first_best_move<T: Environment>(
    s: T,
    agent: T::AgentId,
    rf: spec_fn(T, T::AgentId) -> i64,
    d: nat,
    a: T::Action,
) -> bool {
    &&& d > 0
    &&& !s.spec_terminal()
    &&& exists|k: int|
        0 <= k < s.spec_actions().len() && s.spec_actions()[k] == a && #[trigger] child_value(
            s,
            agent,
            rf,
            (d - 1) as nat,
            k,
        ) == minmax_value(s, agent, rf, d) && forall|j: int|
            0 <= j < k ==> #[trigger] child_value(s, agent, rf, (d - 1) as nat, j) != minmax_value(
                s,
                agent,
                rf,
                d,
            )
}

/// The scoring that gives 0 everywhere.
pub open spec fn zero_reward<T: Environment>() -> spec_fn(T, T::AgentId) -> i64 {
    |t: T, a: T::AgentId| 0i64
}

/// The game-theoretic value of `s` for `agent` under optimal play by both sides.
pub open spec fn game_value<T: Environment>(s: T, agent: T::AgentId) -> i64 {
    minmax_value(s, agent, zero_reward::<T>(), s.height())
}

/// A position that goes on has a positive height.
pub proof fn lemma_height_positive<T: Environment>(s: T)
    requires
        !s.spec_terminal(),
    ensures
        s.height() > 0,
{
    T::lemma_goes_on(s);
}

/// The best of the first `k` children dominates each of them and is one of them.
pub proof fn lemma_best_of_bounds<T: Environment>(
    s: T,
    agent: T::AgentId,
    rf: spec_fn(T, T::AgentId) -> i64,
    cd: nat,
    k: nat,
)
    requires
        1 <= k <= s.spec_actions().len(),
    ensures
        forall|j: int|
            0 <= j < k ==> if maximizing(s, agent) {
                #[trigger] child_value(s, agent, rf, cd, j) <= best_of(s, agent, rf, cd, k)
            } else {
                child_value(s, agent, rf, cd, j) >= best_of(s, agent, rf, cd, k)
            },
        exists|j: int| 0 <= j < k && #[trigger] child_value(s, agent, rf, cd, j) == best_of(s, agent, rf, cd, k),
    decreases k,
{
    if k > 1 {
        lemma_best_of_bounds(s, agent, rf, cd, (k - 1) as nat);
        let j0 = choose|j: int|
            0 <= j < k - 1 && #[trigger] child_value(s, agent, rf, cd, j) == best_of(
                s,
                agent,
                rf,
                cd,
                (k - 1) as nat,
            );
        if best_of(s, agent, rf, cd, k) == best_of(s, agent, rf, cd, (k - 1) as nat) {
            assert(child_value(s, agent, rf, cd, j0) == best_of(s, agent, rf, cd, k));
        } else {
            assert(child_value(s, agent, rf, cd, k - 1) == best_of(s, agent, rf, cd, k));
        }
    } else {
        let b0 = best_of(s, agent, rf, cd, 0);
        assert(b0 == if maximizing(s, agent) { i64::MIN } else { i64::MAX });
        assert(child_value(s, agent, rf, cd, 0) == best_of(s, agent, rf, cd, k));
    }
}

/// The value of a position is the same at every depth once the depth reaches
/// its height: looking deeper than the game lasts changes nothing.
pub proof fn lemma_minmax_stable<T: Environment>(
    s: T,
    agent: T::AgentId,
    rf: spec_fn(T, T::AgentId) -> i64,
    d1: nat,
    d2: nat,
)
    requires
        d1 >= s.height(),
        d2 >= s.height(),
    ensures
        minmax_value(s, agent, rf, d1) == minmax_value(s, agent, rf, d2),
    decreases s.height(),
{
    if !s.spec_terminal() {
        lemma_height_positive(s);
        lemma_best_of_stable(s, agent, rf, (d1 - 1) as nat, (d2 - 1) as nat, s.spec_actions().len());
    }
}

proof fn lemma_best_of_stable<T: Environment>(
    s: T,
    agent: T::AgentId,
    rf: spec_fn(T, T::AgentId) -> i64,
    c1: nat,
    c2: nat,
    k: nat,
)
    requires
        !s.spec_terminal(),
        c1 + 1 >= s.height(),
        c2 + 1 >= s.height(),
        k <= s.spec_actions().len(),
    ensures
        best_of(s, agent, rf, c1, k) == best_of(s, agent, rf, c2, k),
    decreases s.height(), k,
{
    if k > 0 {
        lemma_best_of_stable(s, agent, rf, c1, c2, (k - 1) as nat);
        let a = s.spec_actions()[k - 1];
        assert(s.spec_actions().contains(a));
        T::lemma_progress(s, a);
        lemma_minmax_stable(s.spec_next(a), agent, rf, c1, c2);
    }
}

/// Once the depth reaches the height of a position, minmax computes its exact
/// game-theoretic value, whatever the scoring at the frontier.
pub proof fn lemma_minmax_exact_at_full_depth<T: Environment>(
    s: T,
    agent: T::AgentId,
    rf: spec_fn(T, T::AgentId) -> i64,
    d: nat,
)
    requires
        d >= s.height(),
    ensures
        minmax_value(s, agent, rf, d) == game_value(s, agent),
    decreases s.height(),
{
    lemma_minmax_stable(s, agent, rf, d, s.height());
    lemma_same_scoring_above_height(s, agent, rf, zero_reward::<T>(), s.height());
}

/// Above the height the frontier is never reached, so the scoring does not matter.
proof fn lemma_same_scoring_above_height<T: Environment>(
    s: T,
    agent: T::AgentId,
    rf1: spec_fn(T, T::AgentId) -> i64,
    rf2: spec_fn(T, T::AgentId) -> i64,
    d: nat,
)
    requires
        d >= s.height(),
    ensures
        minmax_value(s, agent, rf1, d) == minmax_value(s, agent, rf2, d),
    decreases s.height(),
{
    if !s.spec_terminal() {
        lemma_height_positive(s);
        lemma_best_of_same_scoring(s, agent, rf1, rf2, (d - 1) as nat, s.spec_actions().len());
    }
}

proof fn lemma_best_of_same_scoring<T: Environment>(
    s: T,
    agent: T::AgentId,
    rf1: spec_fn(T, T::AgentId) -> i64,
    rf2: spec_fn(T, T::AgentId) -> i64,
    cd: nat,
    k: nat,
)
    requires
        !s.spec_terminal(),
        cd + 1 >= s.height(),
        k <= s.spec_actions().len(),
    ensures
        best_of(s, agent, rf1, cd, k) == best_of(s, agent, rf2, cd, k),
    decreases s.height(), k,
{
    if k > 0 {
        lemma_best_of_same_scoring(s, agent, rf1, rf2, cd, (k - 1) as nat);
        let a = s.spec_actions()[k - 1];
        assert(s.spec_actions().contains(a));
        T::lemma_progress(s, a);
        lemma_same_scoring_above_height(s.spec_next(a), agent, rf1, rf2, cd);
    }
}

/// The number of moves of the longest line of play from `s` to an ended game.
pub open spec fn longest_line<T: Environment>(s: T) -> nat
    decreases s.height(), s.spec_actions().len() + 1,
{
    if s.spec_terminal() {
        0
    } else {
        1 + longest_among(s, s.spec_actions().len())
    }
}

/// The longest line of play among the children of `s` reached by its first
/// `k` actions.
pub open spec fn longest_among<T: Environment>(s: T, k: nat) -> nat
    decreases s.height(), k,
    via lemma_longest_among_decreases::<T>
{
    if k == 0 || k > s.spec_actions().len() || s.spec_terminal() {
        0
    } else {
        let c = longest_line(s.spec_next(s.spec_actions()[k - 1]));
        let b = longest_among(s, (k - 1) as nat);
        if c > b {
            c
        } else {
            b
        }
    }
}

#[via_fn]
proof fn lemma_longest_among_decreases<T: Environment>(s: T, k: nat) {
    if k > 0 && k <= s.spec_actions().len() && !s.spec_terminal() {
        let a = s.spec_actions()[k - 1];
        assert(s.spec_actions().contains(a));
        T::lemma_progress(s, a);
    }
}

/// Each child's longest line is shorter than its parent's.
proof fn lemma_longest_child<T: Environment>(s: T, j: int, k: nat)
    requires
        !s.spec_terminal(),
        0 <= j < k <= s.spec_actions().len(),
    ensures
        longest_line(s.spec_next(s.spec_actions()[j])) <= longest_among(s, k),
    decreases k,
{
    if j < k - 1 {
        lemma_longest_child(s, j, (k - 1) as nat);
    }
}

/// The longest line never exceeds the height.
proof fn lemma_longest_below_height<T: Environment>(s: T)
    ensures
        longest_line(s) <= s.height(),
    decreases s.height(), s.spec_actions().len() + 1,
{
    if !s.spec_terminal() {
        lemma_longest_among_below(s, s.spec_actions().len());
    }
}

proof fn lemma_longest_among_below<T: Environment>(s: T, k: nat)
    requires
        !s.spec_terminal(),
        k <= s.spec_actions().len(),
    ensures
        longest_among(s, k) + 1 <= s.height(),
    decreases s.height(), k,
{
    lemma_height_positive(s);
    if k > 0 {
        let a = s.spec_actions()[k - 1];
        assert(s.spec_actions().contains(a));
        T::lemma_progress(s, a);
        lemma_longest_below_height(s.spec_next(a));
        lemma_longest_among_below(s, (k - 1) as nat);
    }
}

/// Looking deeper than the longest line of play changes nothing.
proof fn lemma_minmax_stable_longest<T: Environment>(
    s: T,
    agent: T::AgentId,
    rf: spec_fn(T, T::AgentId) -> i64,
    d1: nat,
    d2: nat,
)
    requires
        d1 >= longest_line(s),
        d2 >= longest_line(s),
    ensures
        minmax_value(s, agent, rf, d1) == minmax_value(s, agent, rf, d2),
    decreases s.height(), s.spec_actions().len() + 1,
{
    if !s.spec_terminal() {
        lemma_best_of_stable_longest(
            s,
            agent,
            rf,
            (d1 - 1) as nat,
            (d2 - 1) as nat,
            s.spec_actions().len(),
        );
    }
}

proof fn lemma_best_of_stable_longest<T: Environment>(
    s: T,
    agent: T::AgentId,
    rf: spec_fn(T, T::AgentId) -> i64,
    c1: nat,
    c2: nat,
    k: nat,
)
    requires
        !s.spec_terminal(),
        c1 + 1 >= longest_line(s),
        c2 + 1 >= longest_line(s),
        k <= s.spec_actions().len(),
    ensures
        best_of(s, agent, rf, c1, k) == best_of(s, agent, rf, c2, k),
    decreases s.height(), k,
{
    if k > 0 {
        lemma_best_of_stable_longest(s, agent, rf, c1, c2, (k - 1) as nat);
        let a = s.spec_actions()[k - 1];
        assert(s.spec_actions().contains(a));
        T::lemma_progress(s, a);
        lemma_longest_child(s, k - 1, s.spec_actions().len());
        lemma_minmax_stable_longest(s.spec_next(a), agent, rf, c1, c2);
    }
}

/// Once the depth reaches the longest line of play from a position, minmax
/// computes its exact game-theoretic value, whatever the scoring at the
/// frontier.
pub proof fn lemma_minmax_exact_beyond_longest_line<T: Environment>(
    s: T,
    agent: T::AgentId,
    rf: spec_fn(T, T::AgentId) -> i64,
    d: nat,
)
    requires
        d >= longest_line(s),
    ensures
        minmax_value(s, agent, rf, d) == game_value(s, agent),
{
    lemma_longest_below_height(s);
    lemma_minmax_stable_longest(s, agent, rf, d, s.height());
    lemma_minmax_exact_at_full_depth(s, agent, rf, s.height());
}

/// The value of an ended game is its terminal score at every depth and under
/// every scoring: it never depends on how deep the search was asked to look.
pub proof fn lemma_terminal_value_depth_independent<T: Environment>(
    s: T,
    agent: T::AgentId,
    rf: spec_fn(T, T::AgentId) -> i64,
    d1: nat,
    d2: nat,
)
    requires
        s.spec_terminal(),
    ensures
        minmax_value(s, agent, rf, d1) == terminal_value(s, agent),
        minmax_value(s, agent, rf, d1) == minmax_value(s, agent, rf, d2),
{
}

/// Scores an ended game for `agent`: `WIN_SCORE` for a win, `LOSS_SCORE` for
/// a loss, 0 for a draw.
pub fn terminal_score<T: Environment>(env: &T, agent: &T::AgentId) -> (r: i64)
    ensures
        r == terminal_value(*env, *agent),
{
    match env.winner() {
        Some(w) => if w.same(agent) {
            WIN_SCORE
        } else {
            LOSS_SCORE
        },
        None => 0,
    }
}

} // verus!
