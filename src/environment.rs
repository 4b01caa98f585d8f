use vstd::prelude::*;

verus! {

/// An identity of a party in a game, comparable for equality.
pub trait Identity: Sized + Copy {
    /// Returns true iff both identities name the same party.
    fn same(&self, other: &Self) -> (r: bool)
        ensures
            r == (*self == *other),
    ;
}

/// What a game must offer to be searched: the turn owner, the legal actions,
/// a pure transition, terminality and the winner. Positions are plain values:
/// copying one gives the same position.
///
/// The spec functions are the model of a position; `height` bounds the number
/// of moves left, and `key` is a content key that tells positions apart.
pub trait Environment: Sized + Copy {
    /// A move of the game.
    type Action: Copy;

    /// A party of the game.
    type AgentId: Identity;

    /// The start position.
    spec fn spec_initial() -> Self;

    /// The party that moves next.
    spec fn spec_turn(&self) -> Self::AgentId;

    /// The legal actions, in enumeration order.
    spec fn spec_actions(&self) -> Seq<Self::Action>;

    /// Whether `a` would be accepted by `update`.
    spec fn spec_valid(&self, a: Self::Action) -> bool;

    /// The position after `a`; the position itself where `a` is not valid.
    spec fn spec_next(&self, a: Self::Action) -> Self;

    /// Whether the game has ended.
    spec fn spec_terminal(&self) -> bool;

    /// The winner; `None` for a draw or a game that goes on.
    spec fn spec_winner(&self) -> Option<Self::AgentId>;

    /// A content key: equal keys mean equal positions.
    spec fn spec_key(&self) -> u64;

    /// An upper bound on the number of moves left.
    spec fn height(&self) -> nat;

    /// Positions with the same key are the same position.
    proof fn lemma_key_injective(s: Self, t: Self)
        ensures
            s.spec_key() == t.spec_key() ==> s == t,
    ;

    /// A legal action from a position that goes on lowers the height.
    proof fn lemma_progress(s: Self, a: Self::Action)
        requires
            !s.spec_terminal(),
            s.spec_actions().contains(a),
        ensures
            s.spec_next(a).height() < s.height(),
    ;

    /// A position that goes on has moves left, though it may list no legal
    /// action (a forced pass).
    proof fn lemma_goes_on(s: Self)
        requires
            !s.spec_terminal(),
        ensures
            s.height() > 0,
    ;

    /// The listed actions are the valid ones, while the game goes on.
    proof fn lemma_actions_valid(s: Self, a: Self::Action)
        ensures
            s.spec_actions().contains(a) ==> s.spec_valid(a),
            !s.spec_terminal() && s.spec_valid(a) ==> s.spec_actions().contains(a),
    ;

    /// An ended game lists no action.
    proof fn lemma_ended(s: Self)
        requires
            s.spec_terminal(),
        ensures
            s.spec_actions().len() == 0,
    ;

    /// The start position.
    fn initial_state() -> (r: Self)
        ensures
            r == Self::spec_initial(),
    ;

    /// Applies `a` in place; returns false and changes nothing if `a` is not valid.
    fn update(&mut self, a: &Self::Action) -> (r: bool)
        ensures
            r == old(self).spec_valid(*a),
            *final(self) == old(self).spec_next(*a),
            !r ==> *final(self) == *old(self),
    ;

    /// The position after `a`, leaving `self` as it is.
    fn what_if(&self, a: &Self::Action) -> (r: Self)
        ensures
            r == self.spec_next(*a),
    ;

    /// The legal actions of the party to move.
    fn valid_actions(&self) -> (r: Vec<Self::Action>)
        ensures
            r@ == self.spec_actions(),
    ;

    /// Whether `a` is accepted.
    fn is_valid(&self, a: &Self::Action) -> (r: bool)
        ensures
            r == self.spec_valid(*a),
    ;

    /// Whether the game has ended.
    fn is_terminal(&self) -> (r: bool)
        ensures
            r == self.spec_terminal(),
    ;

    /// The party to move.
    fn turn(&self) -> (r: Self::AgentId)
        ensures
            r == self.spec_turn(),
    ;

    /// The winner of an ended game.
    fn winner(&self) -> (r: Option<Self::AgentId>)
        ensures
            r == self.spec_winner(),
    ;

    /// The content key of this position.
    fn key(&self) -> (r: u64)
        ensures
            r == self.spec_key(),
    ;
}

} // verus!
