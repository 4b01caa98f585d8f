//! Agents, and the loop that lets agents play a game.
use vstd::prelude::*;

use crate::environment::{Environment, Identity};

verus! {

/// A party that chooses moves in a game of type `T`.
pub trait Agent<T: Environment> {
    /// The party this agent plays.
    fn identity(&self) -> T::AgentId;

    /// The move this agent makes in `env`, or none if it has none. Agents of
    /// this library state in their own implementations which move that is.
    fn action(&mut self, env: &T) -> Option<T::Action>;
}

/// Whether playing the moves of `log` in order from `s` is legal at each
/// step, each move made by the party to move, and leads to `t`.
pub open spec fn replays<T: Environment>(
    s: T,
    log: Seq<(T::AgentId, T::Action)>,
    t: T,
) -> bool
    decreases log.len(),
{
    if log.len() == 0 {
        s == t
    } else {
        &&& log[0].0 == s.spec_turn()
        &&& s.spec_valid(log[0].1)
        &&& replays(s.spec_next(log[0].1), log.drop_first(), t)
    }
}

proof fn lemma_replays_push<T: Environment>(
    s: T,
    log: Seq<(T::AgentId, T::Action)>,
    t: T,
    id: T::AgentId,
    a: T::Action,
)
    requires
        replays(s, log, t),
        id == t.spec_turn(),
        t.spec_valid(a),
    ensures
        replays(s, log.push((id, a)), t.spec_next(a)),
    decreases log.len(),
{
    if log.len() > 0 {
        lemma_replays_push(s.spec_next(log[0].1), log.drop_first(), t, id, a);
        assert(log.push((id, a)).drop_first() =~= log.drop_first().push((id, a)));
        assert(log.push((id, a))[0] == log[0]);
    } else {
        assert(log.push((id, a)).drop_first() =~= Seq::<(T::AgentId, T::Action)>::empty());
        assert(log.push((id, a))[0] == (id, a));
        assert(replays(s.spec_next(a), Seq::<(T::AgentId, T::Action)>::empty(), t.spec_next(a)));
    }
}

/// Applies the answer `answer` of party `id` in `env`: the move is made and
/// logged if it is `id`'s turn and the game accepts the move; otherwise
/// nothing changes. Returns whether the move was made.
pub fn apply_answer<T: Environment>(
    env: &mut T,
    id: T::AgentId,
    answer: Option<T::Action>,
    game_log: &mut Vec<(T::AgentId, T::Action)>,
) -> (moved: bool)
    ensures
        moved == match answer {
            Some(a) => id == old(env).spec_turn() && old(env).spec_valid(a),
            None => false,
        },
        moved ==> *final(env) == old(env).spec_next(answer.unwrap()) && final(game_log)@ == old(
            game_log,
        )@.push((id, answer.unwrap())),
        !moved ==> *final(env) == *old(env) && final(game_log)@ == old(game_log)@,
{
    match answer {
        Some(a) => {
            if !id.same(&env.turn()) {
                return false;
            }
            if env.update(&a) {
                game_log.push((id, a));
                true
            } else {
                false
            }
        },
        None => false,
    }
}

/// Lets `agent` move in `env` if it is its turn. Returns whether a move was
/// made; a move the game does not accept is not made.
fn take_turn<T: Environment, R: Agent<T>>(
    env: &mut T,
    agent: &mut R,
    game_log: &mut Vec<(T::AgentId, T::Action)>,
    ghost_start: Ghost<T>,
) -> (moved: bool)
    requires
        replays(ghost_start@, old(game_log)@, *old(env)),
        !old(env).spec_terminal(),
    ensures
        replays(ghost_start@, final(game_log)@, *final(env)),
        moved ==> final(env).height() < old(env).height(),
        !moved ==> *final(env) == *old(env),
{
    let identity = agent.identity();
    if !identity.same(&env.turn()) {
        return false;
    }
    let answer = agent.action(env);
    let ghost before = *env;
    let ghost log_before = game_log@;
    let moved = apply_answer(env, identity, answer, game_log);
    proof {
        if moved {
            let a = answer.unwrap();
            T::lemma_actions_valid(before, a);
            T::lemma_progress(before, a);
            lemma_replays_push(ghost_start@, log_before, before, identity, a);
        }
    }
    moved
}

/// Plays a game in `env` between two agents until it ends, each agent moving
/// when it is its turn, and returns the moves made with the party that made
/// each. Play stops early when the party to move has no agent or its agent
/// offers no move the game accepts.
pub fn play<T: Environment, R: Agent<T>, S: Agent<T>>(
    env: &mut T,
    agent_1: &mut R,
    agent_2: &mut S,
) -> (game_log: Vec<(T::AgentId, T::Action)>)
    ensures
        replays(*old(env), game_log@, *final(env)),
        old(env).spec_terminal() ==> game_log@.len() == 0 && *final(env) == *old(env),
{
    let ghost start = *env;
    let mut game_log: Vec<(T::AgentId, T::Action)> = Vec::new();
    while !env.is_terminal()
        invariant
            replays(start, game_log@, *env),
            start.spec_terminal() ==> game_log@.len() == 0 && *env == start,
        decreases env.height(),
    {
        if !take_turn(env, agent_1, &mut game_log, Ghost(start)) {
            if env.is_terminal() {
                break;
            }
            if !take_turn(env, agent_2, &mut game_log, Ghost(start)) {
                break;
            }
        }
    }
    game_log
}

/// Plays a game in `env` between two agents; the same as `play`.
pub fn play_game_2players<T: Environment, R: Agent<T>, S: Agent<T>>(
    env: &mut T,
    agent_1: &mut R,
    agent_2: &mut S,
) -> (game_log: Vec<(T::AgentId, T::Action)>)
    ensures
        replays(*old(env), game_log@, *final(env)),
        old(env).spec_terminal() ==> game_log@.len() == 0 && *final(env) == *old(env),
{
    play(env, agent_1, agent_2)
}

/// Plays a game in `env` among `agents` until it ends: at each turn the first
/// agent whose identity is the party to move moves. Play stops early when no
/// agent makes a move the game accepts.
pub fn play_game<T: Environment, R: Agent<T>>(env: &mut T, agents: &mut Vec<R>) -> (game_log: Vec<(
    T::AgentId,
    T::Action,
)>)
    ensures
        replays(*old(env), game_log@, *final(env)),
        old(env).spec_terminal() ==> game_log@.len() == 0 && *final(env) == *old(env),
{
    let ghost start = *env;
    let mut game_log: Vec<(T::AgentId, T::Action)> = Vec::new();
    let mut progress = true;
    while progress && !env.is_terminal()
        invariant
            replays(start, game_log@, *env),
            start.spec_terminal() ==> game_log@.len() == 0 && *env == start,
        decreases env.height(), if progress { 1nat } else { 0nat },
    {
        progress = false;
        let ghost h = env.height();
        let mut i: usize = 0;
        while i < agents.len() && !progress && !env.is_terminal()
            invariant
                replays(start, game_log@, *env),
                progress ==> env.height() < h,
                !progress ==> env.height() == h,
            decreases agents.len() - i,
        {
            let mut agent = agents.remove(i);
            let moved = take_turn(env, &mut agent, &mut game_log, Ghost(start));
            agents.insert(i, agent);
            if moved {
                progress = true;
            }
            i += 1;
        }
    }
    game_log
}

} // verus!
