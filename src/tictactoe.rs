//! Tic-tac-toe on a 3x3 board whose cells are numbered 0 to 8, row by row.
//! Each player's marks are a bit set over the cells; `X` moves first.
use vstd::prelude::*;

use crate::environment::{Environment, Identity};
use crate::values::Reward;

verus! {

/// A cell of the board, 0 to 8.
pub type Action = u8;

/// The two players of tic-tac-toe.
#[derive(Clone, Copy, Debug, PartialEq, Eq, Hash, Structural)]
pub enum AgentId {
    X,
    O,
}

impl AgentId {
    /// The player's mark as text.
    pub fn name(&self) -> (r: &'static str)
        ensures
            r@ == (if *self == AgentId::X { "X"@ } else { "O"@ }),
    {
        proof {
            reveal_strlit("X");
            reveal_strlit("O");
        }
        match self {
            AgentId::X => "X",
            AgentId::O => "O",
        }
    }
}

impl Identity for AgentId {
    fn same(&self, other: &Self) -> (r: bool) {
        *self == *other
    }
}

/// A tic-tac-toe position: the cells taken by each player and who moves next.
#[derive(Clone, Copy, Debug, PartialEq, Eq, Hash, Structural)]
pub struct Board {
    /// The cells taken by `X`, one bit per cell.
    pub moves_x: u16,
    /// The cells taken by `O`, one bit per cell.
    pub moves_o: u16,
    /// The player to move.
    pub turn: AgentId,
}

/// Whether cell `i` is set in the bit set `f`.
pub open spec fn occupied(f: u16, i: int) -> bool {
    (f >> (i as u16)) & 1u16 == 1u16
}

/// The cells `i..9` that are not set in `f`, in increasing order.
pub open spec fn free_from(f: u16, i: int) -> Seq<u8>
    decreases 9 - i,
{
    if i < 0 || i >= 9 {
        Seq::empty()
    } else if occupied(f, i) {
        free_from(f, i + 1)
    } else {
        seq![i as u8].add(free_from(f, i + 1))
    }
}

/// The `i`-th of the eight lines: three rows, three columns, two diagonals.
pub open spec fn win_mask(i: int) -> u16 {
    if i == 0 {
        0b111u16
    } else if i == 1 {
        0b111000u16
    } else if i == 2 {
        0b111000000u16
    } else if i == 3 {
        0b1001001u16
    } else if i == 4 {
        0b10010010u16
    } else if i == 5 {
        0b100100100u16
    } else if i == 6 {
        0b100010001u16
    } else {
        0b1010100u16
    }
}

/// Whether the cells in `p` hold a whole line.
pub open spec fn spec_is_winning(p: u16) -> bool {
    exists|i: int| 0 <= i < 8 && #[trigger] (p & win_mask(i)) == win_mask(i)
}

/// The bit of cell `a`.
pub open spec fn cell_bit(a: u8) -> u16 {
    1u16 << (a as u16)
}

fn win_mask_at(i: usize) -> (r: u16)
    requires
        i < 8,
    ensures
        r == win_mask(i as int),
{
    if i == 0 {
        0b111u16
    } else if i == 1 {
        0b111000u16
    } else if i == 2 {
        0b111000000u16
    } else if i == 3 {
        0b1001001u16
    } else if i == 4 {
        0b10010010u16
    } else if i == 5 {
        0b100100100u16
    } else if i == 6 {
        0b100010001u16
    } else {
        0b1010100u16
    }
}

/// Whether the cells in `position` hold a whole line.
pub fn is_winning(position: u16) -> (r: bool)
    ensures
        r == spec_is_winning(position),
{
    let mut i: usize = 0;
    while i < 8
        invariant
            i <= 8,
            forall|j: int| 0 <= j < i ==> #[trigger] (position & win_mask(j)) != win_mask(j),
        decreases 8 - i,
    {
        let mask = win_mask_at(i);
        if position & mask == mask {
            return true;
        }
        i += 1;
    }
    false
}

/// Whether every cell of the board is taken.
pub fn is_filled(board: &Board) -> (r: bool)
    ensures
        r == board.spec_filled(),
{
    let full: u16 = 0b111111111u16;
    (board.moves_x | board.moves_o) & full == full
}

/// The cells taken by either player.
pub fn filled_positions(board: &Board) -> (r: u16)
    ensures
        r == board.moves_x | board.moves_o,
{
    board.moves_x | board.moves_o
}

proof fn lemma_bits()
    ensures
        forall|f: u16, a: u16, j: u16|
            a < 16 && j < 16 ==> ((((f | (1u16 << a)) >> j) & 1u16 == 1u16) == (((f >> j) & 1u16
                == 1u16) || j == a)),
        forall|f: u16, g: u16, j: u16|
            j < 16 ==> ((((f | g) >> j) & 1u16 == 1u16) == (((f >> j) & 1u16 == 1u16) || ((g >> j)
                & 1u16 == 1u16))),
{
    assert(forall|f: u16, a: u16, j: u16|
        a < 16 && j < 16 ==> ((((f | (1u16 << a)) >> j) & 1u16 == 1u16) == (((f >> j) & 1u16
            == 1u16) || j == a))) by (bit_vector);
    assert(forall|f: u16, g: u16, j: u16|
        j < 16 ==> ((((f | g) >> j) & 1u16 == 1u16) == (((f >> j) & 1u16 == 1u16) || ((g >> j)
            & 1u16 == 1u16)))) by (bit_vector);
}

proof fn lemma_occupied_or(f: u16, g: u16, j: int)
    requires
        0 <= j < 16,
    ensures
        occupied(f | g, j) == (occupied(f, j) || occupied(g, j)),
{
    lemma_bits();
    let jj = j as u16;
    assert((((f | g) >> jj) & 1u16 == 1u16) == (((f >> jj) & 1u16 == 1u16) || ((g >> jj) & 1u16
        == 1u16)));
}

proof fn lemma_occupied_set(f: u16, a: u8, j: int)
    requires
        a < 16,
        0 <= j < 16,
    ensures
        occupied(f | cell_bit(a), j) == (occupied(f, j) || j == a as int),
{
    lemma_bits();
    let jj = j as u16;
    let aa = a as u16;
    assert((((f | (1u16 << aa)) >> jj) & 1u16 == 1u16) == (((f >> jj) & 1u16 == 1u16) || jj
        == aa));
}

/// Every listed cell lies in `i..9` and is free.
proof fn lemma_free_from_elems(f: u16, i: int)
    requires
        0 <= i <= 9,
    ensures
        forall|k: int|
            0 <= k < free_from(f, i).len() ==> i <= #[trigger] free_from(f, i)[k] < 9
                && !occupied(f, free_from(f, i)[k] as int),
    decreases 9 - i,
{
    if i < 9 {
        lemma_free_from_elems(f, i + 1);
        let s = free_from(f, i);
        let r = free_from(f, i + 1);
        if occupied(f, i) {
            assert(s == r);
        } else {
            assert forall|k: int| 0 <= k < s.len() implies i <= #[trigger] s[k] < 9 && !occupied(
                f,
                s[k] as int,
            ) by {
                if k > 0 {
                    assert(s[k] == r[k - 1]);
                } else {
                    assert(s[k] == i as u8);
                }
            }
        }
    }
}

/// A free cell in `i..9` is listed.
proof fn lemma_free_from_contains(f: u16, i: int, a: int)
    requires
        0 <= i <= a < 9,
        !occupied(f, a),
    ensures
        free_from(f, i).contains(a as u8),
    decreases 9 - i,
{
    if i < a {
        lemma_free_from_contains(f, i + 1, a);
        let s = free_from(f, i + 1);
        let k = choose|k: int| 0 <= k < s.len() && s[k] == a as u8;
        if !occupied(f, i) {
            assert(free_from(f, i)[k + 1] == a as u8);
        }
    } else {
        assert(free_from(f, i)[0] == a as u8);
    }
}

/// With no free cell in `i..9`, every cell there is taken.
proof fn lemma_free_from_empty(f: u16, i: int)
    requires
        0 <= i <= 9,
        free_from(f, i).len() == 0,
    ensures
        forall|j: int| i <= j < 9 ==> occupied(f, j),
    decreases 9 - i,
{
    if i < 9 {
        lemma_free_from_empty(f, i + 1);
    }
}

/// Two sets that agree on the cells `i..9` list the same free cells there.
proof fn lemma_free_from_agree(f: u16, g: u16, i: int)
    requires
        0 <= i <= 9,
        forall|j: int| i <= j < 9 ==> occupied(f, j) == occupied(g, j),
    ensures
        free_from(f, i) == free_from(g, i),
    decreases 9 - i,
{
    if i < 9 {
        lemma_free_from_agree(f, g, i + 1);
    }
}

/// Taking a free cell `a` removes exactly one cell from the listing.
proof fn lemma_free_from_take(f: u16, a: u8, i: int)
    requires
        0 <= i <= 9,
        a < 9,
        !occupied(f, a as int),
    ensures
        i <= a ==> free_from(f | cell_bit(a), i).len() + 1 == free_from(f, i).len(),
        i > a ==> free_from(f | cell_bit(a), i) == free_from(f, i),
    decreases 9 - i,
{
    let g = f | cell_bit(a);
    if i < 9 {
        lemma_free_from_take(f, a, i + 1);
        lemma_occupied_set(f, a, i);
    }
    if i > a {
        assert forall|j: int| i <= j < 9 implies occupied(g, j) == occupied(f, j) by {
            lemma_occupied_set(f, a, j);
        }
        lemma_free_from_agree(g, f, i);
    }
}

impl Board {
    /// Every cell is taken.
    pub open spec fn spec_filled(&self) -> bool {
        (self.moves_x | self.moves_o) & 0b111111111u16 == 0b111111111u16
    }

    /// The mark that `X` holds on cell `i`, `O` on it, or nothing.
    pub open spec fn spec_cell(&self, i: int) -> Option<AgentId> {
        if occupied(self.moves_x, i) {
            Some(AgentId::X)
        } else if occupied(self.moves_o, i) {
            Some(AgentId::O)
        } else {
            None
        }
    }

    /// Who holds cell `a`, if anyone.
    pub fn cell(&self, a: Action) -> (r: Option<AgentId>)
        requires
            a < 9,
        ensures
            r == self.spec_cell(a as int),
    {
        if (self.moves_x >> (a as u16)) & 1u16 == 1u16 {
            Some(AgentId::X)
        } else if (self.moves_o >> (a as u16)) & 1u16 == 1u16 {
            Some(AgentId::O)
        } else {
            None
        }
    }
}

impl Environment for Board {
    type Action = Action;

    type AgentId = AgentId;

    open spec fn spec_initial() -> Self {
        Board { moves_x: 0, moves_o: 0, turn: AgentId::X }
    }

    open spec fn spec_turn(&self) -> AgentId {
        self.turn
    }

    open spec fn spec_actions(&self) -> Seq<Action> {
        if self.spec_terminal() {
            Seq::empty()
        } else {
            free_from(self.moves_x | self.moves_o, 0)
        }
    }

    open spec fn spec_valid(&self, a: Action) -> bool {
        a <= 8 && !occupied(self.moves_x, a as int) && !occupied(self.moves_o, a as int)
    }

    open spec fn spec_next(&self, a: Action) -> Self {
        if !self.spec_valid(a) {
            *self
        } else if self.turn == AgentId::X {
            Board { moves_x: self.moves_x | cell_bit(a), moves_o: self.moves_o, turn: AgentId::O }
        } else {
            Board { moves_x: self.moves_x, moves_o: self.moves_o | cell_bit(a), turn: AgentId::X }
        }
    }

    open spec fn spec_terminal(&self) -> bool {
        spec_is_winning(self.moves_x) || spec_is_winning(self.moves_o) || self.spec_filled()
    }

    open spec fn spec_winner(&self) -> Option<AgentId> {
        if spec_is_winning(self.moves_x) {
            Some(AgentId::X)
        } else if spec_is_winning(self.moves_o) {
            Some(AgentId::O)
        } else {
            None
        }
    }

    open spec fn spec_key(&self) -> u64 {
        (self.moves_x as u64) | ((self.moves_o as u64) << 16u64) | (if self.turn == AgentId::X {
            0u64
        } else {
            1u64 << 32u64
        })
    }

    open spec fn height(&self) -> nat {
        if self.spec_terminal() {
            0
        } else {
            free_from(self.moves_x | self.moves_o, 0).len()
        }
    }

    proof fn lemma_key_injective(s: Self, t: Self) {
        let (sx, so, tx, to) = (s.moves_x, s.moves_o, t.moves_x, t.moves_o);
        let st: u64 = if s.turn == AgentId::X { 0u64 } else { 1u64 << 32u64 };
        let tt: u64 = if t.turn == AgentId::X { 0u64 } else { 1u64 << 32u64 };
        assert(s.spec_key() == (sx as u64) | ((so as u64) << 16u64) | st);
        assert(t.spec_key() == (tx as u64) | ((to as u64) << 16u64) | tt);
        assert(st == 0u64 || st == 1u64 << 32u64);
        assert(tt == 0u64 || tt == 1u64 << 32u64);
        assert(((st == 0u64 || st == 1u64 << 32u64) && (tt == 0u64 || tt == 1u64 << 32u64) && (
        sx as u64) | ((so as u64) << 16u64) | st == (tx as u64) | ((to as u64) << 16u64) | tt)
            ==> sx == tx && so == to && st == tt) by (bit_vector);
        assert(1u64 << 32u64 != 0u64) by (bit_vector);
        if s.spec_key() == t.spec_key() {
            assert(s.turn == t.turn);
        }
    }

    proof fn lemma_progress(s: Self, a: Action) {
        let f = s.moves_x | s.moves_o;
        lemma_free_from_elems(f, 0);
        let k = choose|k: int| 0 <= k < s.spec_actions().len() && s.spec_actions()[k] == a;
        assert(!occupied(f, a as int) && a < 9);
        lemma_occupied_or(s.moves_x, s.moves_o, a as int);
        let c = s.spec_next(a);
        if !c.spec_terminal() {
            let g = c.moves_x | c.moves_o;
            assert(g == f | cell_bit(a)) by {
                let (x, o, m) = (s.moves_x, s.moves_o, cell_bit(a));
                assert((x | m) | o == (x | o) | m) by (bit_vector);
                assert(x | (o | m) == (x | o) | m) by (bit_vector);
            }
            lemma_free_from_take(f, a, 0);
        }
    }

    proof fn lemma_goes_on(s: Self) {
        let f = s.moves_x | s.moves_o;
        if free_from(f, 0).len() == 0 {
            lemma_free_from_empty(f, 0);
            assert(occupied(f, 0) && occupied(f, 1) && occupied(f, 2) && occupied(f, 3) && occupied(
                f,
                4,
            ) && occupied(f, 5) && occupied(f, 6) && occupied(f, 7) && occupied(f, 8));
            assert(((f >> 0u16) & 1u16 == 1u16 && (f >> 1u16) & 1u16 == 1u16 && (f >> 2u16) & 1u16
                == 1u16 && (f >> 3u16) & 1u16 == 1u16 && (f >> 4u16) & 1u16 == 1u16 && (f >> 5u16)
                & 1u16 == 1u16 && (f >> 6u16) & 1u16 == 1u16 && (f >> 7u16) & 1u16 == 1u16 && (f
                >> 8u16) & 1u16 == 1u16) ==> f & 0b111111111u16 == 0b111111111u16) by (bit_vector);
        }
    }

    proof fn lemma_actions_valid(s: Self, a: Action) {
        let f = s.moves_x | s.moves_o;
        lemma_free_from_elems(f, 0);
        if a < 9 {
            lemma_occupied_or(s.moves_x, s.moves_o, a as int);
        }
        if s.spec_actions().contains(a) {
            let k = choose|k: int| 0 <= k < s.spec_actions().len() && s.spec_actions()[k] == a;
            assert(a < 9);
        }
        if !s.spec_terminal() && s.spec_valid(a) {
            lemma_free_from_contains(f, 0, a as int);
        }
    }

    proof fn lemma_ended(s: Self) {
    }

    /// An empty board with `X` to move.
    fn initial_state() -> Self {
        Board { moves_x: 0, moves_o: 0, turn: AgentId::X }
    }

    /// Takes cell `a` for the player to move and passes the turn.
    fn update(&mut self, a: &Action) -> (r: bool) {
        if !self.is_valid(a) {
            false
        } else {
            let m: u16 = 1u16 << (*a as u16);
            if self.turn == AgentId::X {
                self.moves_x = self.moves_x | m;
                self.turn = AgentId::O;
            } else {
                self.moves_o = self.moves_o | m;
                self.turn = AgentId::X;
            }
            true
        }
    }

    fn what_if(&self, a: &Action) -> (r: Self) {
        let mut board = *self;
        board.update(a);
        board
    }

    /// The free cells in increasing order; none once the game has ended.
    fn valid_actions(&self) -> (r: Vec<Action>) {
        let mut it = ActionIter::new(self);
        let mut actions: Vec<Action> = Vec::new();
        loop
            invariant
                it.wf(),
                actions@ + it.remaining() == self.spec_actions(),
            ensures
                actions@ == self.spec_actions(),
            decreases it.remaining().len(),
        {
            match it.next() {
                Some(a) => {
                    actions.push(a);
                    assert(actions@ + it.remaining() == self.spec_actions());
                },
                None => {
                    assert(actions@ == self.spec_actions());
                    break ;
                },
            }
        }
        actions
    }

    fn is_valid(&self, a: &Action) -> (r: bool) {
        if *a > 8 {
            false
        } else {
            let sh = *a as u16;
            let x_empty = (self.moves_x >> sh) & 1u16 != 1u16;
            let o_empty = (self.moves_o >> sh) & 1u16 != 1u16;
            x_empty && o_empty
        }
    }

    fn is_terminal(&self) -> (r: bool) {
        if is_winning(self.moves_x) {
            true
        } else if is_winning(self.moves_o) {
            true
        } else {
            is_filled(self)
        }
    }

    fn turn(&self) -> (r: AgentId) {
        self.turn
    }

    /// The player holding a whole line, if any.
    fn winner(&self) -> (r: Option<AgentId>) {
        if is_winning(self.moves_x) {
            Some(AgentId::X)
        } else if is_winning(self.moves_o) {
            Some(AgentId::O)
        } else {
            None
        }
    }

    fn key(&self) -> (r: u64) {
        let t: u64 = if self.turn == AgentId::X { 0u64 } else { 1u64 << 32u64 };
        (self.moves_x as u64) | ((self.moves_o as u64) << 16u64) | t
    }
}

/// Enumerates the free cells of a board in increasing order.
pub struct ActionIter {
    board_state: u16,
    current: u8,
}

impl ActionIter {
    /// The internal bounds of the cursor.
    pub closed spec fn wf(&self) -> bool {
        self.current <= 9
    }

    /// The cells still to come.
    pub closed spec fn remaining(&self) -> Seq<Action> {
        free_from(self.board_state, self.current as int)
    }

    /// Starts at cell 0, or past the end when the game has ended.
    pub fn new(board: &Board) -> (r: Self)
        ensures
            r.wf(),
            r.remaining() == board.spec_actions(),
    {
        let board_state = filled_positions(board);
        let current: u8 = if board.is_terminal() { 9 } else { 0 };
        ActionIter { board_state, current }
    }

    /// The next free cell, if any.
    pub fn next(&mut self) -> (r: Option<Action>)
        requires
            old(self).wf(),
        ensures
            final(self).wf(),
            match r {
                None => old(self).remaining().len() == 0 && final(self).remaining().len() == 0,
                Some(a) => old(self).remaining().len() > 0 && a == old(self).remaining()[0]
                    && final(self).remaining() == old(self).remaining().drop_first(),
            },
    {
        let ghost start = self.remaining();
        while self.current <= 8 && (self.board_state >> (self.current as u16)) & 1u16 == 1u16
            invariant
                self.wf(),
                self.remaining() == start,
            decreases 9 - self.current,
        {
            self.current = self.current + 1;
        }
        if self.current > 8 {
            None
        } else {
            let c = self.current;
            self.current = self.current + 1;
            assert(start == seq![c].add(self.remaining()));
            Some(c)
        }
    }
}

/// The number of the first `k` lines that hold none of the cells in `p`.
pub open spec fn open_lines(p: u16, k: int) -> int
    decreases k,
{
    if k <= 0 {
        0
    } else {
        open_lines(p, k - 1) + if p & win_mask(k - 1) == 0u16 {
            1int
        } else {
            0int
        }
    }
}

/// The lines still open to `agent` (free of the opponent's marks) minus those
/// still open to the opponent.
pub open spec fn open_lines_score(s: Board, agent: AgentId) -> i64 {
    let (mine, theirs) = if agent == AgentId::X {
        (s.moves_x, s.moves_o)
    } else {
        (s.moves_o, s.moves_x)
    };
    (open_lines(theirs, 8) - open_lines(mine, 8)) as i64
}

proof fn lemma_open_lines_bounds(p: u16, k: int)
    requires
        0 <= k,
    ensures
        0 <= open_lines(p, k) <= k,
    decreases k,
{
    if k > 0 {
        lemma_open_lines_bounds(p, k - 1);
    }
}

/// A heuristic for tic-tac-toe: the lines a player can still complete, less
/// those the opponent can still complete.
pub struct OpenLines;

impl Reward<Board> for OpenLines {
    open spec fn spec_reward(&self) -> spec_fn(Board, AgentId) -> i64 {
        |s: Board, agent: AgentId| open_lines_score(s, agent)
    }

    fn reward(&self, s: &Board, agent: &AgentId) -> (r: i64) {
        let (mine, theirs) = if *agent == AgentId::X {
            (s.moves_x, s.moves_o)
        } else {
            (s.moves_o, s.moves_x)
        };
        let mut open_mine: i64 = 0;
        let mut open_theirs: i64 = 0;
        let mut i: usize = 0;
        while i < 8
            invariant
                i <= 8,
                open_mine == open_lines(mine, i as int),
                open_theirs == open_lines(theirs, i as int),
            decreases 8 - i,
        {
            proof {
                lemma_open_lines_bounds(mine, i as int);
                lemma_open_lines_bounds(theirs, i as int);
            }
            let mask = win_mask_at(i);
            if mine & mask == 0 {
                open_mine = open_mine + 1;
            }
            if theirs & mask == 0 {
                open_theirs = open_theirs + 1;
            }
            i += 1;
        }
        proof {
            lemma_open_lines_bounds(mine, 8);
            lemma_open_lines_bounds(theirs, 8);
        }
        open_theirs - open_mine
    }
}

} // verus!
