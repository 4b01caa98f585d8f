//! A cursor over the children of a position: children are expanded on first
//! visit and remembered, so that after `reset` they are replayed without
//! expanding them again.
use vstd::prelude::*;

use crate::environment::Environment;

verus! {

/// The children of `s`: each legal action with the position it leads to.
pub open spec fn children<T: Environment>(s: T) -> Seq<(T::Action, T)> {
    s.spec_actions().map_values(|a: T::Action| (a, s.spec_next(a)))
}

/// Iterates over the pairs of action and resulting position of a position.
pub struct ActionEnvironmentIter<T: Environment> {
    environment: T,
    to_visit: Vec<T::Action>,
    visited: Vec<(T::Action, T)>,
    index: usize,
}

impl<T: Environment> ActionEnvironmentIter<T> {
    /// The position whose children are listed.
    pub closed spec fn spec_environment(&self) -> T {
        self.environment
    }

    /// How many children have been handed out since the last reset.
    pub closed spec fn spec_index(&self) -> nat {
        self.index as nat
    }

    /// How many children have been expanded so far.
    pub closed spec fn spec_expanded(&self) -> nat {
        self.visited@.len()
    }

    /// The cursor is consistent with its position: the expanded children are
    /// the first children, and the cursor is at most one past them.
    pub closed spec fn wf(&self) -> bool {
        &&& self.to_visit@ == self.environment.spec_actions()
        &&& self.visited@.len() <= self.to_visit@.len()
        &&& self.visited@ == children(self.environment).subrange(0, self.visited@.len() as int)
        &&& self.index <= self.visited@.len()
    }

    /// A cursor at the first child of `env`, with nothing expanded.
    pub fn new(env: &T) -> (r: Self)
        ensures
            r.wf(),
            r.spec_environment() == *env,
            r.spec_index() == 0,
            r.spec_expanded() == 0,
    {
        let to_visit = env.valid_actions();
        let visited: Vec<(T::Action, T)> = Vec::new();
        assert(visited@ =~= children(*env).subrange(0, 0));
        ActionEnvironmentIter { environment: *env, to_visit, visited, index: 0 }
    }

    /// Moves the cursor back to the first child; expanded children are kept.
    pub fn reset(&mut self)
        requires
            old(self).wf(),
        ensures
            final(self).wf(),
            final(self).spec_environment() == old(self).spec_environment(),
            final(self).spec_index() == 0,
            final(self).spec_expanded() == old(self).spec_expanded(),
    {
        self.index = 0
    }

    /// The next child, expanding it if it was not expanded yet; none after
    /// the last child.
    pub fn next(&mut self) -> (r: Option<(T::Action, T)>)
        requires
            old(self).wf(),
        ensures
            final(self).wf(),
            final(self).spec_environment() == old(self).spec_environment(),
            old(self).spec_index() < children(old(self).spec_environment()).len() ==> {
                &&& r == Some(children(old(self).spec_environment())[old(self).spec_index() as int])
                &&& final(self).spec_index() == old(self).spec_index() + 1
            },
            old(self).spec_index() >= children(old(self).spec_environment()).len() ==> {
                &&& r.is_none()
                &&& final(self).spec_index() == old(self).spec_index()
            },
            final(self).spec_expanded() == if old(self).spec_index() < old(self).spec_expanded()
                || old(self).spec_index() >= children(old(self).spec_environment()).len() {
                old(self).spec_expanded()
            } else {
                old(self).spec_expanded() + 1
            },
    {
        let ghost cs = children(self.environment);
        if self.index < self.visited.len() {
            let (action, env) = self.visited[self.index];
            self.index = self.index + 1;
            Some((action, env))
        } else if self.visited.len() < self.to_visit.len() {
            let a = self.to_visit[self.visited.len()];
            let env = self.environment.what_if(&a);
            self.visited.push((a, env));
            proof {
                assert(self.visited@ =~= cs.subrange(0, self.visited@.len() as int));
            }
            self.index = self.index + 1;
            Some((a, env))
        } else {
            None
        }
    }
}

} // verus!
