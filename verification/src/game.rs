//! The game-state engine: board representation, mine placement with the
//! safe-first-move guarantee, the flood-fill reveal, the flagging state
//! machine and win/loss detection.

use vstd::prelude::*;

use crate::cell::{cell_marked, cell_revealed, Cell, GameMessage};
use crate::config::BoardInfo;
use crate::counting::{
    grid_count, ind, lemma_grid_cell_update, lemma_grid_count_bounds,
    lemma_grid_count_complement, lemma_grid_count_none, lemma_grid_count_pos,
    lemma_grid_count_single, lemma_grid_count_window9,
};
use crate::{in_bounds, within_one};

verus! {

/// The engine state for one round.
pub struct Minesweeper {
    board: Vec<Vec<Cell>>,
    mines: Vec<Vec<bool>>,
    game_over: bool,
    num_mark: usize,
    num_revealed: usize,
    player_message: Option<GameMessage>,
    first_play: bool,
    configuration: BoardInfo,
}

/// The mathematical model of an engine state.
#[verifier::ext_equal]
pub ghost struct GameView {
    /// Board side length.
    pub size: int,
    /// Configured number of mines.
    pub num_mines: int,
    /// The player-visible cell labels.
    pub board: Seq<Seq<Cell>>,
    /// Ground truth: which positions hold a mine.
    pub mines: Seq<Seq<bool>>,
    /// True once a mine has been revealed; the round is lost.
    pub game_over: bool,
    /// True once the first reveal has placed the mines.
    pub placed: bool,
    /// The message recorded for the player, if any.
    pub message: Option<GameMessage>,
}

impl View for Minesweeper {
    type V = GameView;

    closed spec fn view(&self) -> GameView {
        GameView {
            size: self.configuration.board_size as int,
            num_mines: self.configuration.num_mines as int,
            board: self.board@.map_values(|row: Vec<Cell>| row@),
            mines: self.mines@.map_values(|row: Vec<bool>| row@),
            game_over: self.game_over,
            placed: self.first_play,
            message: self.player_message,
        }
    }
}

/// The flagged-cell predicate, as a function value for counting.
pub open spec fn marked_pred() -> spec_fn(Cell) -> bool {
    |c: Cell| cell_marked(c)
}

/// The acted-upon predicate, as a function value for counting.
pub open spec fn revealed_pred() -> spec_fn(Cell) -> bool {
    |c: Cell| cell_revealed(c)
}

/// The still-covered predicate (pointwise negation of `revealed_pred`),
/// as a function value for counting.
pub open spec fn covered_pred() -> spec_fn(Cell) -> bool {
    |c: Cell| !cell_revealed(c)
}

/// The mine-bit predicate, as a function value for counting.
pub open spec fn mine_pred() -> spec_fn(bool) -> bool {
    |b: bool| b
}

/// The mine-free predicate (pointwise negation of `mine_pred`), as a
/// function value for counting.
pub open spec fn free_pred() -> spec_fn(bool) -> bool {
    |b: bool| !b
}

/// `p` occurs among the first `k` entries of `s`.
pub open spec fn in_prefix(s: Seq<(usize, usize)>, k: int, p: (usize, usize)) -> bool {
    exists|j: int| 0 <= j < k && #[trigger] s[j] == p
}

/// Extending a prefix by one entry adds exactly that entry's membership.
pub proof fn lemma_in_prefix_step(s: Seq<(usize, usize)>, k: int, q: (usize, usize))
    requires
        0 <= k < s.len(),
    ensures
        in_prefix(s, k + 1, q) <==> (in_prefix(s, k, q) || q == s[k]),
{
    if in_prefix(s, k + 1, q) {
        let j = choose|j: int| 0 <= j < k + 1 && #[trigger] s[j] == q;
        if j < k {
            assert(in_prefix(s, k, q));
        }
    }
    if in_prefix(s, k, q) {
        let j = choose|j: int| 0 <= j < k && #[trigger] s[j] == q;
        assert(0 <= j < k + 1 && s[j] == q);
        assert(in_prefix(s, k + 1, q));
    }
    if q == s[k] {
        assert(0 <= k < k + 1 && s[k] == q);
        assert(in_prefix(s, k + 1, q));
    }
}

/// Cap on the random rejection-sampling attempts of mine placement; once
/// it is reached a deterministic sweep finishes the job, so a nearly full
/// board cannot stall the placement loop.
const MAX_PLACEMENT_ATTEMPTS: usize = 10000;

/// Relies on `rand::random_range`: it returns a value drawn uniformly
/// from the given range, and panics only on an empty range, which the
/// precondition excludes.
#[verifier::external_body]
fn random_below(n: usize) -> (r: usize)
    requires
        n >= 1,
    ensures
        r < n,
{
    rand::random_range(0..n)
}

impl GameView {
    /// The grid shapes match the configured size.
    pub open spec fn shaped(self) -> bool {
        &&& self.board.len() == self.size
        &&& forall|r: int| 0 <= r < self.size ==> (#[trigger] self.board[r]).len() == self.size
        &&& self.mines.len() == self.size
        &&& forall|r: int| 0 <= r < self.size ==> (#[trigger] self.mines[r]).len() == self.size
    }

    /// The label of the cell at `(r, c)`.
    pub open spec fn cell(self, r: int, c: int) -> Cell {
        self.board[r][c]
    }

    /// Whether position `(r, c)` holds a mine.
    pub open spec fn mine_at(self, r: int, c: int) -> bool {
        self.mines[r][c]
    }

    /// Whether position `(r, c)` has been acted upon (uncovered or flagged).
    pub open spec fn revealed_at(self, r: int, c: int) -> bool {
        cell_revealed(self.cell(r, c))
    }

    /// Number of flagged cells.
    pub open spec fn mark_count(self) -> int {
        grid_count(self.board, marked_pred())
    }

    /// Number of cells acted upon: uncovered or flagged.
    pub open spec fn revealed_count(self) -> int {
        grid_count(self.board, revealed_pred())
    }

    /// Number of mines placed on the board.
    pub open spec fn mine_count(self) -> int {
        grid_count(self.mines, mine_pred())
    }

    /// Number of mines in the three-by-three neighborhood of `(r, c)`,
    /// clipped to the board.
    pub open spec fn adjacent_mines(self, r: int, c: int) -> int {
        ind(self.mine_in(r - 1, c - 1)) + ind(self.mine_in(r - 1, c)) + ind(
            self.mine_in(r - 1, c + 1),
        ) + ind(self.mine_in(r, c - 1)) + ind(self.mine_in(r, c)) + ind(self.mine_in(r, c + 1))
            + ind(self.mine_in(r + 1, c - 1)) + ind(self.mine_in(r + 1, c)) + ind(
            self.mine_in(r + 1, c + 1),
        )
    }

    /// A mine at an in-bounds position.
    pub open spec fn mine_in(self, r: int, c: int) -> bool {
        in_bounds(self.size, r, c) && self.mine_at(r, c)
    }

    /// The label a freshly uncovered safe cell receives.
    pub open spec fn reveal_label(self, r: int, c: int) -> Cell {
        if self.adjacent_mines(r, c) == 0 {
            Cell::Empty
        } else {
            Cell::Number(self.adjacent_mines(r, c) as u8)
        }
    }

    /// Cell labels agree with the ground truth: outside of flags, the
    /// `Mine` label marks exactly the mined positions, and uncovered
    /// labels carry the true adjacent-mine count.
    pub open spec fn labels_ok(self) -> bool {
        &&& forall|r: int, c: int|
            in_bounds(self.size, r, c) && !(#[trigger] self.cell(r, c) is Mark) ==> (self.cell(
                r,
                c,
            ) is Mine <==> self.mine_at(r, c))
        &&& forall|r: int, c: int|
            in_bounds(self.size, r, c) ==> ((#[trigger] self.cell(r, c)) is Number ==> self.cell(
                r,
                c,
            ) == Cell::Number(self.adjacent_mines(r, c) as u8) && 1 <= self.adjacent_mines(r, c)
                <= 8)
        &&& forall|r: int, c: int|
            in_bounds(self.size, r, c) && (#[trigger] self.cell(r, c)) is Empty
                ==> self.adjacent_mines(r, c) == 0
    }
}

/// An undiscovered in-bounds position with no mine in its neighborhood:
/// the positions the flood fill spreads from.
pub open spec fn zero_source(pre: GameView, qr: int, qc: int) -> bool {
    &&& in_bounds(pre.size, qr, qc)
    &&& pre.cell(qr, qc) is Undiscovered
    &&& pre.adjacent_mines(qr, qc) == 0
}

/// Position `(r, c)` is connected to the origin `(o_r, o_c)` through a
/// chain, of length at most `k`, of flood sources in the state `pre`. The
/// flood fill uncovers exactly the cells connected in this sense: a
/// boundary of numbered cells is never crossed.
pub open spec fn zero_chain(pre: GameView, o_r: int, o_c: int, r: int, c: int, k: nat) -> bool
    decreases k,
{
    ||| (r == o_r && c == o_c)
    ||| (k > 0 && exists|qr: int, qc: int|
        {
            &&& #[trigger] zero_source(pre, qr, qc)
            &&& within_one(qr, r)
            &&& within_one(qc, c)
            &&& zero_chain(pre, o_r, o_c, qr, qc, (k - 1) as nat)
        })
}

/// Position `(r, c)` is connected to `(o_r, o_c)` by a zero-chain of
/// some length.
pub open spec fn flood_reaches(pre: GameView, o_r: int, o_c: int, r: int, c: int) -> bool {
    exists|k: nat| zero_chain(pre, o_r, o_c, r, c, k)
}

/// One player command per turn, as the engine consumes it: the
/// presentation layer parses whatever raw input it accepts into one of
/// these.
#[derive(Debug, Clone, Copy, PartialEq, Eq, Structural)]
pub enum Command {
    Reveal(usize, usize),
    ToggleFlag(usize, usize),
}

/// During the flood, every in-bounds neighbor of an already uncovered
/// flood source is either uncovered too or still waiting on the worklist.
pub open spec fn frontier_ok(pre: GameView, now: GameView, st: Seq<(usize, usize)>) -> bool {
    forall|qr: int, qc: int, ar: int, ac: int|
        #![trigger zero_source(pre, qr, qc), now.cell(ar, ac)]
        zero_source(pre, qr, qc) && cell_revealed(now.cell(qr, qc)) && in_bounds(pre.size, ar, ac)
            && within_one(ar, qr) && within_one(ac, qc) ==> (cell_revealed(now.cell(ar, ac))
            || in_prefix(st, st.len() as int, (ar as usize, ac as usize)))
}

/// A mine within the three-by-three neighborhood of a position makes its
/// adjacent-mine count positive.
pub proof fn lemma_adjacent_pos(pre: GameView, qr: int, qc: int, ar: int, ac: int)
    requires
        within_one(ar, qr),
        within_one(ac, qc),
        pre.mine_in(ar, ac),
    ensures
        pre.adjacent_mines(qr, qc) >= 1,
{
}

/// Once the worklist is drained, every position connected to the
/// (uncovered) origin by a zero-chain is uncovered.
proof fn lemma_chain_revealed(
    pre: GameView,
    now: GameView,
    o_r: int,
    o_c: int,
    r: int,
    c: int,
    k: nat,
)
    requires
        zero_source(pre, o_r, o_c),
        cell_revealed(now.cell(o_r, o_c)),
        frontier_ok(pre, now, Seq::<(usize, usize)>::empty()),
        zero_chain(pre, o_r, o_c, r, c, k),
        in_bounds(pre.size, r, c),
    ensures
        cell_revealed(now.cell(r, c)),
    decreases k,
{
    if r == o_r && c == o_c {
    } else {
        let (qr, qc) = choose|qr: int, qc: int|
            {
                &&& #[trigger] zero_source(pre, qr, qc)
                &&& within_one(qr, r)
                &&& within_one(qc, c)
                &&& zero_chain(pre, o_r, o_c, qr, qc, (k - 1) as nat)
            };
        lemma_chain_revealed(pre, now, o_r, o_c, qr, qc, (k - 1) as nat);
        assert(cell_revealed(now.cell(r, c)) || in_prefix(
            Seq::<(usize, usize)>::empty(),
            0,
            (r as usize, c as usize),
        ));
    }
}

/// Popping a worklist entry whose position is settled (out of range,
/// already uncovered, or mined) keeps the frontier covered.
proof fn lemma_frontier_after_pop(
    pre: GameView,
    now: GameView,
    prev: Seq<(usize, usize)>,
    cur: Seq<(usize, usize)>,
    p: (usize, usize),
)
    requires
        pre.size <= 46340,
        frontier_ok(pre, now, prev),
        prev.len() > 0,
        p == prev[prev.len() - 1],
        cur.len() >= prev.len() - 1,
        forall|j: int| 0 <= j < prev.len() - 1 ==> cur[j] == prev[j],
        !in_bounds(pre.size, p.0 as int, p.1 as int) || cell_revealed(
            now.cell(p.0 as int, p.1 as int),
        ) || pre.mine_in(p.0 as int, p.1 as int),
    ensures
        frontier_ok(pre, now, cur),
{
    assert forall|qr: int, qc: int, ar: int, ac: int|
        #![trigger zero_source(pre, qr, qc), now.cell(ar, ac)]
        zero_source(pre, qr, qc) && cell_revealed(now.cell(qr, qc)) && in_bounds(pre.size, ar, ac)
            && within_one(ar, qr) && within_one(ac, qc) implies (cell_revealed(now.cell(ar, ac))
        || in_prefix(cur, cur.len() as int, (ar as usize, ac as usize))) by {
        if !cell_revealed(now.cell(ar, ac)) {
            assert(in_prefix(prev, prev.len() as int, (ar as usize, ac as usize)));
            let j = choose|j: int|
                0 <= j < prev.len() as int && #[trigger] prev[j] == (ar as usize, ac as usize);
            if j < prev.len() - 1 {
                assert(cur[j] == (ar as usize, ac as usize));
                assert(in_prefix(cur, cur.len() as int, (ar as usize, ac as usize)));
            } else {
                assert(p == (ar as usize, ac as usize));
                assert(p.0 as int == ar && p.1 as int == ac);
                assert(in_bounds(pre.size, p.0 as int, p.1 as int));
                assert(!cell_revealed(now.cell(p.0 as int, p.1 as int)));
                assert(pre.mine_in(ar, ac));
                lemma_adjacent_pos(pre, qr, qc, ar, ac);
                assert(false);
            }
        }
    }
}

/// Uncovering the popped position keeps the frontier covered: if it is a
/// flood source, all of its neighbors have just been pushed.
proof fn lemma_frontier_after_reveal(
    pre: GameView,
    before: GameView,
    after: GameView,
    prev: Seq<(usize, usize)>,
    cur: Seq<(usize, usize)>,
    p: (usize, usize),
)
    requires
        pre.size <= 46340,
        frontier_ok(pre, before, prev),
        prev.len() > 0,
        p == prev[prev.len() - 1],
        cur.len() >= prev.len() - 1,
        forall|j: int| 0 <= j < prev.len() - 1 ==> cur[j] == prev[j],
        in_bounds(pre.size, p.0 as int, p.1 as int),
        before.size == pre.size,
        after.size == before.size,
        cell_revealed(after.cell(p.0 as int, p.1 as int)),
        forall|a: int, b: int|
            in_bounds(before.size, a, b) && (a != p.0 as int || b != p.1 as int)
                ==> #[trigger] after.cell(a, b) == before.cell(a, b),
        pre.adjacent_mines(p.0 as int, p.1 as int) == 0 ==> forall|ar: int, ac: int|
            in_bounds(pre.size, ar, ac) && within_one(ar, p.0 as int) && within_one(
                ac,
                p.1 as int,
            ) && (ar != p.0 as int || ac != p.1 as int) ==> #[trigger] in_prefix(
                cur,
                cur.len() as int,
                (ar as usize, ac as usize),
            ),
    ensures
        frontier_ok(pre, after, cur),
{
    assert forall|qr: int, qc: int, ar: int, ac: int|
        #![trigger zero_source(pre, qr, qc), after.cell(ar, ac)]
        zero_source(pre, qr, qc) && cell_revealed(after.cell(qr, qc)) && in_bounds(
            pre.size,
            ar,
            ac,
        ) && within_one(ar, qr) && within_one(ac, qc) implies (cell_revealed(after.cell(ar, ac))
        || in_prefix(cur, cur.len() as int, (ar as usize, ac as usize))) by {
        if !cell_revealed(after.cell(ar, ac)) {
            if ar == p.0 as int && ac == p.1 as int {
                assert(cell_revealed(after.cell(ar, ac)));
            }
            assert(ar != p.0 as int || ac != p.1 as int);
            assert(in_bounds(before.size, ar, ac));
            assert(after.cell(ar, ac) == before.cell(ar, ac));
            if qr == p.0 as int && qc == p.1 as int {
                assert(pre.adjacent_mines(qr, qc) == 0);
                assert(in_prefix(cur, cur.len() as int, ((ar as usize, ac as usize))));
            } else {
                assert(after.cell(qr, qc) == before.cell(qr, qc));
                assert(cell_revealed(before.cell(qr, qc)));
                assert(cell_revealed(before.cell(ar, ac)) || in_prefix(
                    prev,
                    prev.len() as int,
                    (ar as usize, ac as usize),
                ));
                assert(!cell_revealed(before.cell(ar, ac)));
                let j = choose|j: int|
                    0 <= j < prev.len() as int && #[trigger] prev[j] == (ar as usize, ac as usize);
                if j < prev.len() - 1 {
                    assert(cur[j] == (ar as usize, ac as usize));
                    assert(in_prefix(cur, cur.len() as int, (ar as usize, ac as usize)));
                } else {
                    assert(p == (ar as usize, ac as usize));
                    assert(p.0 as int == ar && p.1 as int == ac);
                    assert(false);
                }
            }
        }
    }
}

/// The full specification of `Minesweeper::reveal_cell` at the level of
/// the model: out-of-range and already acted-upon positions change
/// nothing, a mine ends the round, a safe cell with mines around it
/// receives its label and nothing else changes, and a safe cell with no
/// mine around it floods through exactly the zero-chain-connected region:
/// nothing beyond it changes, and everything covered inside it is
/// uncovered.
pub open spec fn reveal_outcome(pre: GameView, post: GameView, r: int, c: int) -> bool {
    if !in_bounds(pre.size, r, c) {
        post == pre
    } else if cell_revealed(pre.cell(r, c)) {
        post == pre
    } else if pre.mine_at(r, c) {
        post == (GameView { game_over: true, ..pre })
    } else {
        &&& post.size == pre.size
        &&& post.num_mines == pre.num_mines
        &&& post.mines == pre.mines
        &&& post.placed == pre.placed
        &&& post.game_over == pre.game_over
        &&& post.message == pre.message
        &&& post.cell(r, c) == pre.reveal_label(r, c)
        &&& cell_revealed(post.cell(r, c))
        &&& forall|a: int, b: int|
            in_bounds(pre.size, a, b) && #[trigger] post.cell(a, b) != pre.cell(a, b) ==> (
            pre.cell(a, b) is Undiscovered && !pre.mine_at(a, b) && post.cell(a, b)
                == pre.reveal_label(a, b) && flood_reaches(pre, r, c, a, b))
        &&& pre.adjacent_mines(r, c) != 0 ==> post == (GameView {
            board: pre.board.update(r, pre.board[r].update(c, pre.reveal_label(r, c))),
            ..pre
        })
        &&& pre.adjacent_mines(r, c) == 0 ==> forall|a: int, b: int|
            in_bounds(pre.size, a, b) && flood_reaches(pre, r, c, a, b) && (
            #[trigger] pre.cell(a, b)) is Undiscovered ==> cell_revealed(post.cell(a, b))
    }
}

/// What the first reveal command of a round guarantees: the mines are
/// placed in full, the anchor cell is safe and uncovered, and when the
/// anchor's neighborhood leaves room for every mine it is entirely
/// mine-free and the round cannot have been lost.
pub open spec fn first_move_outcome(pre: GameView, post: GameView, r: int, c: int) -> bool {
    &&& post.size == pre.size
    &&& post.num_mines == pre.num_mines
    &&& post.placed
    &&& post.message is None
    &&& post.mine_count() == post.num_mines
    &&& !post.mine_at(r, c)
    &&& cell_revealed(post.cell(r, c))
    &&& pre.num_mines <= pre.size * pre.size - 9 ==> (post.game_over == false && forall|
        a: int,
        b: int,
    |
        in_bounds(pre.size, a, b) && within_one(a, r) && within_one(b, c) ==> !(
        #[trigger] post.mine_at(a, b)))
    &&& pre.num_mines <= pre.size * pre.size - 9 ==> forall|a: int, b: int|
        in_bounds(pre.size, a, b) && within_one(a, r) && within_one(b, c)
            ==> #[trigger] post.revealed_at(a, b)
}

/// The full specification of a `Command::Reveal` turn: bad coordinates
/// and repeated reveals only record a message, the first valid reveal
/// places the mines, and any later one runs the reveal algorithm.
pub open spec fn reveal_command_outcome(pre: GameView, post: GameView, r: int, c: int) -> bool {
    if !in_bounds(pre.size, r, c) {
        post == (GameView { message: Some(GameMessage::OutOfBounds), ..pre })
    } else if !pre.placed {
        first_move_outcome(pre, post, r, c)
    } else if cell_revealed(pre.cell(r, c)) {
        post == (GameView { message: Some(GameMessage::AlreadyRevealed), ..pre })
    } else {
        reveal_outcome(GameView { message: None, ..pre }, post, r, c)
    }
}

/// The full specification of `Minesweeper::mark_mine`: given the state
/// `pre` before the call, the state `post` after it is determined by the
/// flagging state machine.
pub open spec fn mark_outcome(pre: GameView, post: GameView, r: int, c: int) -> bool {
    if !in_bounds(pre.size, r, c) {
        post == (GameView { message: Some(GameMessage::OutOfBounds), ..pre })
    } else if !pre.placed {
        post == (GameView { message: Some(GameMessage::PrematureFlag), ..pre })
    } else if pre.cell(r, c) is Mark {
        unflag_transition(pre, post, r, c)
    } else if pre.cell(r, c) is Undiscovered || pre.cell(r, c) is Mine {
        if pre.mark_count() < pre.num_mines {
            flag_transition(pre, post, r, c)
        } else {
            post == (GameView { message: Some(GameMessage::FlagLimitReached), ..pre })
        }
    } else {
        post == (GameView { message: Some(GameMessage::CellNotFlaggable), ..pre })
    }
}

/// The character shown for a cell: covered cells are hidden as `.` while
/// the round runs; once it is over, mines become visible as `X`.
pub open spec fn spec_symbol(c: Cell, over: bool) -> char {
    if !over && !cell_revealed(c) {
        '.'
    } else {
        match c {
            Cell::Undiscovered => '.',
            Cell::Number(n) => spec_digit_char(n),
            Cell::Mine => if over {
                'X'
            } else {
                '.'
            },
            Cell::Empty => '*',
            Cell::Mark => '!',
        }
    }
}

/// The digit character for an adjacent-mine count, which is always
/// between one and eight on a well-formed board.
pub open spec fn spec_digit_char(n: u8) -> char {
    if n == 1 {
        '1'
    } else if n == 2 {
        '2'
    } else if n == 3 {
        '3'
    } else if n == 4 {
        '4'
    } else if n == 5 {
        '5'
    } else if n == 6 {
        '6'
    } else if n == 7 {
        '7'
    } else if n == 8 {
        '8'
    } else {
        '0'
    }
}

/// Executable counterpart of [`spec_digit_char`].
pub fn digit_char(n: u8) -> (s: char)
    ensures
        s == spec_digit_char(n),
{
    match n {
        1 => '1',
        2 => '2',
        3 => '3',
        4 => '4',
        5 => '5',
        6 => '6',
        7 => '7',
        8 => '8',
        _ => '0',
    }
}

/// The number of flagged cells never exceeds the configured mine count
/// and never goes negative, in every reachable engine state.
pub proof fn lemma_flag_count_bounded(g: &Minesweeper)
    requires
        g.wf(),
    ensures
        0 <= g@.mark_count() <= g@.num_mines,
{
}

/// What the (closed) internal invariant guarantees about any reachable
/// engine state, for callers outside this module: the grid shapes, the
/// agreement of labels with the ground truth, and the count bounds.
pub proof fn lemma_wf_facts(g: &Minesweeper)
    requires
        g.wf(),
    ensures
        g@.shaped(),
        g@.labels_ok(),
        1 <= g@.size <= 46340,
        0 <= g@.num_mines < g@.size * g@.size,
        0 <= g@.mark_count() <= g@.num_mines,
        g@.mark_count() <= g@.revealed_count(),
        g@.revealed_count() <= g@.size * g@.size,
        g@.placed ==> g@.mine_count() == g@.num_mines,
        !g@.placed ==> g@.revealed_count() == 0 && g@.mark_count() == 0 && !g@.game_over,
{
    lemma_grid_count_bounds(g@.board, revealed_pred(), g@.size);
}

/// Flagging a coverable cell and then unflagging it restores the exact
/// prior cell state and leaves the flag count unchanged from before the
/// flag.
pub proof fn lemma_flag_roundtrip(pre: GameView, mid: GameView, post: GameView, r: int, c: int)
    requires
        pre.shaped(),
        in_bounds(pre.size, r, c),
        pre.cell(r, c) is Undiscovered || pre.cell(r, c) is Mine,
        pre.cell(r, c) is Mine <==> pre.mine_at(r, c),
        flag_transition(pre, mid, r, c),
        unflag_transition(mid, post, r, c),
    ensures
        post.board == pre.board,
        post.mines == pre.mines,
        post.size == pre.size,
        post.num_mines == pre.num_mines,
        post.game_over == pre.game_over,
        post.placed == pre.placed,
        post.mark_count() == pre.mark_count(),
        post.revealed_count() == pre.revealed_count(),
{
    let back = if pre.mines[r][c] {
        Cell::Mine
    } else {
        Cell::Undiscovered
    };
    assert(back == pre.cell(r, c));
    assert(mid.board[r] == pre.board[r].update(c, Cell::Mark));
    assert(mid.board[r].update(c, back) =~= pre.board[r]);
    assert(post.board =~= pre.board);
}

/// A state change that leaves the size and both grids alone (it may touch
/// the message, the game-over bit or the placed bit) carries the grid
/// invariants and the counts over.
pub proof fn lemma_same_grids(pre: GameView, post: GameView)
    requires
        pre.shaped(),
        pre.labels_ok(),
        post.size == pre.size,
        post.board == pre.board,
        post.mines == pre.mines,
    ensures
        post.shaped(),
        post.labels_ok(),
        post.mark_count() == pre.mark_count(),
        post.revealed_count() == pre.revealed_count(),
        post.mine_count() == pre.mine_count(),
        forall|r: int, c: int|
            in_bounds(post.size, r, c) ==> #[trigger] post.cell(r, c) == pre.cell(r, c),
        forall|r: int, c: int|
            in_bounds(post.size, r, c) ==> (#[trigger] post.mine_at(r, c) == pre.mine_at(r, c)),
{
    assert forall|r: int, c: int| in_bounds(post.size, r, c) implies #[trigger] post.cell(r, c)
        == pre.cell(r, c) by {
        assert(post.board[r] == pre.board[r]);
    }
    assert forall|r: int, c: int| in_bounds(post.size, r, c) implies (#[trigger] post.mine_at(r, c)
        == pre.mine_at(r, c)) by {
        assert(post.mines[r] == pre.mines[r]);
    }
    assert forall|r: int| 0 <= r < post.size implies (#[trigger] post.board[r]).len()
        == post.size by {
        assert(post.board[r] == pre.board[r]);
    }
    assert forall|r: int| 0 <= r < post.size implies (#[trigger] post.mines[r]).len()
        == post.size by {
        assert(post.mines[r] == pre.mines[r]);
    }
    assert forall|r: int, c: int|
        in_bounds(post.size, r, c) && !(#[trigger] post.cell(r, c) is Mark) implies (post.cell(
        r,
        c,
    ) is Mine <==> post.mine_at(r, c)) by {
        assert(post.cell(r, c) == pre.cell(r, c));
    }
    assert forall|r: int, c: int|
        in_bounds(post.size, r, c) implies ((#[trigger] post.cell(r, c)) is Number ==> post.cell(
        r,
        c,
    ) == Cell::Number(post.adjacent_mines(r, c) as u8) && 1 <= post.adjacent_mines(r, c) <= 8) by {
        assert(post.cell(r, c) == pre.cell(r, c));
        assert(post.adjacent_mines(r, c) == pre.adjacent_mines(r, c));
    }
    assert forall|r: int, c: int|
        in_bounds(post.size, r, c) && (#[trigger] post.cell(r, c)) is Empty implies
        post.adjacent_mines(r, c) == 0 by {
        assert(post.cell(r, c) == pre.cell(r, c));
        assert(post.adjacent_mines(r, c) == pre.adjacent_mines(r, c));
    }
}

/// Rewriting the label of one in-bounds cell keeps `labels_ok`, provided
/// the new label itself agrees with the (unchanged) ground truth.
pub proof fn lemma_labels_ok_update(pre: GameView, post: GameView, row: int, col: int, v: Cell)
    requires
        pre.shaped(),
        pre.labels_ok(),
        in_bounds(pre.size, row, col),
        post.size == pre.size,
        post.mines == pre.mines,
        post.board == pre.board.update(row, pre.board[row].update(col, v)),
        !(v is Mark) ==> (v is Mine <==> pre.mine_at(row, col)),
        v is Number ==> v == Cell::Number(pre.adjacent_mines(row, col) as u8) && 1
            <= pre.adjacent_mines(row, col) <= 8,
        v is Empty ==> pre.adjacent_mines(row, col) == 0,
    ensures
        post.shaped(),
        post.labels_ok(),
        forall|r: int, c: int|
            in_bounds(pre.size, r, c) && (r != row || c != col) ==> #[trigger] post.cell(r, c)
                == pre.cell(r, c),
        post.cell(row, col) == v,
{
    assert forall|r: int, c: int| true implies #[trigger] post.adjacent_mines(r, c)
        == pre.adjacent_mines(r, c) by {}
    assert forall|r: int, c: int|
        in_bounds(pre.size, r, c) && (r != row || c != col) implies #[trigger] post.cell(r, c)
        == pre.cell(r, c) by {
        if r == row {
            assert(post.board[r] == pre.board[row].update(col, v));
        } else {
            assert(post.board[r] == pre.board[r]);
        }
    }
}

/// The state change of flagging the cell `(r, c)`: the cell becomes `Mark`
/// and nothing else changes.
pub open spec fn flag_transition(pre: GameView, post: GameView, r: int, c: int) -> bool {
    &&& post == (GameView {
        board: pre.board.update(r, pre.board[r].update(c, Cell::Mark)),
        message: None,
        ..pre
    })
}

/// The state change of unflagging the cell `(r, c)`: the cell reverts to
/// `Mine` when it truly holds a mine, else to `Undiscovered`, and nothing
/// else changes.
pub open spec fn unflag_transition(pre: GameView, post: GameView, r: int, c: int) -> bool {
    &&& post == (GameView {
        board: pre.board.update(
            r,
            pre.board[r].update(
                c,
                if pre.mines[r][c] {
                    Cell::Mine
                } else {
                    Cell::Undiscovered
                },
            ),
        ),
        message: None,
        ..pre
    })
}

impl Minesweeper {
    /// The internal invariant every engine operation preserves.
    pub closed spec fn wf(&self) -> bool {
        &&& self.configuration.valid()
        &&& self@.shaped()
        &&& self.num_mark == self@.mark_count()
        &&& self.num_revealed == self@.revealed_count()
        &&& self.num_mark <= self.configuration.num_mines
        &&& self.num_mark <= self.num_revealed
        &&& self@.labels_ok()
        // Before the first play the board is pristine.
        &&& !self@.placed ==> {
            &&& forall|r: int, c: int|
                in_bounds(self@.size, r, c) ==> (#[trigger] self@.cell(r, c)) == Cell::Undiscovered
            &&& forall|r: int, c: int|
                in_bounds(self@.size, r, c) ==> !(#[trigger] self@.mine_at(r, c))
            &&& !self@.game_over
            &&& self.num_mark == 0
            &&& self.num_revealed == 0
        }
        // Once placed, exactly the configured number of mines is on the board.
        &&& self@.placed ==> self@.mine_count() == self.configuration.num_mines
    }

    /// Read the label of an in-bounds cell.
    fn board_at(&self, r: usize, c: usize) -> (x: Cell)
        requires
            self@.shaped(),
            in_bounds(self@.size, r as int, c as int),
        ensures
            x == self@.cell(r as int, c as int),
    {
        self.board[r][c]
    }

    /// Whether an arbitrary coordinate is an in-bounds mine.
    fn mine_bit(&self, r: usize, c: usize) -> (x: bool)
        requires
            self@.shaped(),
        ensures
            x == self@.mine_in(r as int, c as int),
    {
        if r < self.configuration.board_size && c < self.configuration.board_size {
            proof {
                assert(self.mines@[r as int]@ == self@.mines[r as int]);
            }
            self.mines[r][c]
        } else {
            false
        }
    }

    /// Overwrite the label of an in-bounds cell; every other component of
    /// the state is untouched.
    fn set_board(&mut self, r: usize, c: usize, v: Cell)
        requires
            old(self)@.shaped(),
            in_bounds(old(self)@.size, r as int, c as int),
        ensures
            final(self)@ == (GameView {
                board: old(self)@.board.update(
                    r as int,
                    old(self)@.board[r as int].update(c as int, v),
                ),
                ..old(self)@
            }),
            final(self)@.shaped(),
            final(self).num_mark == old(self).num_mark,
            final(self).num_revealed == old(self).num_revealed,
    {
        let ghost pre = self@;
        self.board[r][c] = v;
        proof {
            assert(self.board@[r as int]@ =~= pre.board[r as int].update(c as int, v));
            assert(self@.board =~= pre.board.update(
                r as int,
                pre.board[r as int].update(c as int, v),
            ));
            assert(self@ =~= (GameView {
                board: pre.board.update(r as int, pre.board[r as int].update(c as int, v)),
                ..pre
            }));
        }
    }

    /// Place or remove a mine at an in-bounds position; every other
    /// component of the state is untouched.
    fn set_mine(&mut self, r: usize, c: usize, v: bool)
        requires
            old(self)@.shaped(),
            in_bounds(old(self)@.size, r as int, c as int),
        ensures
            final(self)@ == (GameView {
                mines: old(self)@.mines.update(
                    r as int,
                    old(self)@.mines[r as int].update(c as int, v),
                ),
                ..old(self)@
            }),
            final(self)@.shaped(),
            final(self).num_mark == old(self).num_mark,
            final(self).num_revealed == old(self).num_revealed,
    {
        let ghost pre = self@;
        self.mines[r][c] = v;
        proof {
            assert(self.mines@[r as int]@ =~= pre.mines[r as int].update(c as int, v));
            assert(self@.mines =~= pre.mines.update(
                r as int,
                pre.mines[r as int].update(c as int, v),
            ));
            assert(self@ =~= (GameView {
                mines: pre.mines.update(r as int, pre.mines[r as int].update(c as int, v)),
                ..pre
            }));
        }
    }

    /// Number of mines in the three-by-three neighborhood of `(row, col)`,
    /// clipped to the board. The center counts too, though a counted cell
    /// is only ever uncovered when the center holds no mine.
    #[verifier::rlimit(50)]
    pub fn count_mines_around(&self, row: usize, col: usize) -> (count: u8)
        requires
            self.wf(),
            in_bounds(self@.size, row as int, col as int),
        ensures
            count as int == self@.adjacent_mines(row as int, col as int),
    {
        let ghost rr = row as int;
        let ghost cc = col as int;
        let b1 = if row > 0 && col > 0 {
            self.mine_bit(row - 1, col - 1)
        } else {
            false
        };
        assert(b1 == self@.mine_in(rr - 1, cc - 1));
        let b2 = if row > 0 {
            self.mine_bit(row - 1, col)
        } else {
            false
        };
        assert(b2 == self@.mine_in(rr - 1, cc));
        let b3 = if row > 0 {
            self.mine_bit(row - 1, col + 1)
        } else {
            false
        };
        assert(b3 == self@.mine_in(rr - 1, cc + 1));
        let b4 = if col > 0 {
            self.mine_bit(row, col - 1)
        } else {
            false
        };
        assert(b4 == self@.mine_in(rr, cc - 1));
        let b5 = self.mine_bit(row, col);
        let b6 = self.mine_bit(row, col + 1);
        let b7 = if col > 0 {
            self.mine_bit(row + 1, col - 1)
        } else {
            false
        };
        assert(b7 == self@.mine_in(rr + 1, cc - 1));
        let b8 = self.mine_bit(row + 1, col);
        let b9 = self.mine_bit(row + 1, col + 1);
        let mut count: u8 = 0;
        if b1 {
            count = count + 1;
        }
        if b2 {
            count = count + 1;
        }
        if b3 {
            count = count + 1;
        }
        if b4 {
            count = count + 1;
        }
        if b5 {
            count = count + 1;
        }
        if b6 {
            count = count + 1;
        }
        if b7 {
            count = count + 1;
        }
        if b8 {
            count = count + 1;
        }
        if b9 {
            count = count + 1;
        }
        count
    }

    /// Toggle a flag on the cell `(row, col)`.
    ///
    /// Out-of-range coordinates, flagging before the first reveal,
    /// flagging an uncovered cell, and flagging past the configured mine
    /// count are all rejected: the state is unchanged except for the
    /// recorded message. Flagging a coverable cell marks it; unflagging a
    /// flagged cell restores its true hidden state.
    pub fn mark_mine(&mut self, row: usize, col: usize)
        requires
            old(self).wf(),
        ensures
            final(self).wf(),
            mark_outcome(old(self)@, final(self)@, row as int, col as int),
    {
        let n = self.configuration.board_size;
        if row >= n || col >= n {
            self.player_message = Some(GameMessage::OutOfBounds);
            proof {
                lemma_same_grids(old(self)@, self@);
            }
            return;
        }
        if !self.first_play {
            self.player_message = Some(GameMessage::PrematureFlag);
            proof {
                lemma_same_grids(old(self)@, self@);
            }
            return;
        }
        let ghost pre = self@;
        let ghost rr = row as int;
        let ghost cc = col as int;
        let cur = self.board_at(row, col);
        match cur {
            Cell::Mark => {
                proof {
                    assert(marked_pred()(pre.board[rr][cc]));
                    lemma_grid_count_pos(pre.board, marked_pred(), rr, cc);
                    lemma_grid_count_pos(pre.board, revealed_pred(), rr, cc);
                }
                let was_mine = self.mine_bit(row, col);
                let newv = if was_mine {
                    Cell::Mine
                } else {
                    Cell::Undiscovered
                };
                self.set_board(row, col, newv);
                self.num_mark = self.num_mark - 1;
                self.num_revealed = self.num_revealed - 1;
                self.player_message = None;
                proof {
                    lemma_grid_cell_update(pre.board, marked_pred(), rr, cc, newv);
                    lemma_grid_cell_update(pre.board, revealed_pred(), rr, cc, newv);
                    lemma_labels_ok_update(pre, self@, rr, cc, newv);
                }
            },
            Cell::Undiscovered | Cell::Mine => {
                if self.num_mark < self.configuration.num_mines {
                    proof {
                        lemma_grid_count_bounds(pre.board, revealed_pred(), pre.size);
                        assert(pre.size * pre.size <= 46340 * 46340) by (nonlinear_arith)
                            requires
                                1 <= pre.size <= 46340,
                        ;
                    }
                    self.set_board(row, col, Cell::Mark);
                    self.num_mark = self.num_mark + 1;
                    self.num_revealed = self.num_revealed + 1;
                    self.player_message = None;
                    proof {
                        lemma_grid_cell_update(pre.board, marked_pred(), rr, cc, Cell::Mark);
                        lemma_grid_cell_update(pre.board, revealed_pred(), rr, cc, Cell::Mark);
                        lemma_labels_ok_update(pre, self@, rr, cc, Cell::Mark);
                    }
                } else {
                    self.player_message = Some(GameMessage::FlagLimitReached);
                    proof {
                        lemma_same_grids(old(self)@, self@);
                    }
                }
            },
            _ => {
                self.player_message = Some(GameMessage::CellNotFlaggable);
                proof {
                    lemma_same_grids(old(self)@, self@);
                }
            },
        }
    }

    /// Push the (up to eight) neighbors of `(row, col)` onto the worklist.
    /// Neighbors beyond the upper board edge may be pushed; the worklist
    /// consumer skips out-of-range positions.
    fn push_neighbors(stack: &mut Vec<(usize, usize)>, row: usize, col: usize)
        requires
            row < 46340,
            col < 46340,
        ensures
            final(stack)@.len() >= old(stack)@.len(),
            final(stack)@.len() <= old(stack)@.len() + 8,
            forall|i: int| 0 <= i < old(stack)@.len() ==> final(stack)@[i] == old(stack)@[i],
            forall|i: int|
                old(stack)@.len() <= i < final(stack)@.len() ==> within_one(
                    (#[trigger] final(stack)@[i]).0 as int,
                    row as int,
                ) && within_one(final(stack)@[i].1 as int, col as int),
            forall|ar: int, ac: int|
                0 <= ar && 0 <= ac && within_one(ar, row as int) && within_one(ac, col as int)
                    && (ar != row as int || ac != col as int) ==> #[trigger] in_prefix(
                    final(stack)@,
                    final(stack)@.len() as int,
                    (ar as usize, ac as usize),
                ),
    {
        if row > 0 {
            if col > 0 {
                stack.push((row - 1, col - 1));
            }
            stack.push((row - 1, col));
            stack.push((row - 1, col + 1));
        }
        if col > 0 {
            stack.push((row, col - 1));
            stack.push((row + 1, col - 1));
        }
        stack.push((row, col + 1));
        stack.push((row + 1, col));
        stack.push((row + 1, col + 1));
        proof {
            assert forall|ar: int, ac: int|
                0 <= ar && 0 <= ac && within_one(ar, row as int) && within_one(ac, col as int)
                    && (ar != row as int || ac != col as int) implies #[trigger] in_prefix(
                stack@,
                stack@.len() as int,
                (ar as usize, ac as usize),
            ) by {
                let p = (ar as usize, ac as usize);
                let n1: int = stack@.len() as int;
                assert(exists|j: int| 0 <= j < n1 && #[trigger] stack@[j] == p) by {
                    if ar == row as int + 1 && ac == col as int + 1 {
                        assert(stack@[n1 - 1] == p);
                    } else if ar == row as int + 1 && ac == col as int {
                        assert(stack@[n1 - 2] == p);
                    } else if ar == row as int && ac == col as int + 1 {
                        assert(stack@[n1 - 3] == p);
                    } else if ar == row as int + 1 && ac == col as int - 1 {
                        assert(col > 0);
                        assert(stack@[n1 - 4] == p);
                    } else if ar == row as int && ac == col as int - 1 {
                        assert(col > 0);
                        assert(stack@[n1 - 5] == p);
                    } else if ar == row as int - 1 && ac == col as int + 1 {
                        assert(row > 0);
                        if col > 0 {
                            assert(stack@[n1 - 6] == p);
                        } else {
                            assert(stack@[n1 - 4] == p);
                        }
                    } else if ar == row as int - 1 && ac == col as int {
                        assert(row > 0);
                        if col > 0 {
                            assert(stack@[n1 - 7] == p);
                        } else {
                            assert(stack@[n1 - 5] == p);
                        }
                    } else {
                        assert(ar == row as int - 1 && ac == col as int - 1);
                        assert(row > 0 && col > 0);
                        assert(stack@[n1 - 8] == p);
                    }
                }
            }
        }
    }

    /// Uncover the cell `(row, col)`.
    ///
    /// Out-of-range coordinates and already acted-upon cells are no-ops
    /// (revealing twice changes nothing). Revealing a mine only sets
    /// `game_over`. Otherwise the cell receives its adjacent-mine label,
    /// and a cell with no mine around it floods the reveal through the
    /// chain of such cells: every newly uncovered cell is connected to the
    /// origin by a `zero_chain`, so the flood never crosses a numbered
    /// boundary and never touches a mine, and conversely every covered
    /// cell the chains connect to the origin is uncovered.
    pub fn reveal_cell(&mut self, row: usize, col: usize)
        requires
            old(self).wf(),
            old(self)@.placed,
        ensures
            final(self).wf(),
            final(self)@.size == old(self)@.size,
            final(self)@.num_mines == old(self)@.num_mines,
            final(self)@.mines == old(self)@.mines,
            final(self)@.placed,
            final(self)@.message == old(self)@.message,
            final(self)@.mark_count() == old(self)@.mark_count(),
            !in_bounds(old(self)@.size, row as int, col as int) ==> *final(self) == *old(self),
            in_bounds(old(self)@.size, row as int, col as int) && old(self)@.revealed_at(row as int, col as int) ==> *final(self) == *old(self),
            in_bounds(old(self)@.size, row as int, col as int) && !old(self)@.revealed_at(row as int, col as int) && old(self)@.mine_at(row as int, col as int) ==> final(self)@ == (GameView { game_over: true, ..old(self)@ }),
            in_bounds(old(self)@.size, row as int, col as int) && !old(self)@.revealed_at(row as int, col as int) && !old(self)@.mine_at(row as int, col as int) ==> ({
                &&& final(self)@.game_over == old(self)@.game_over
                &&& final(self)@.cell(row as int, col as int) == old(self)@.reveal_label(row as int, col as int)
                &&& final(self)@.revealed_at(row as int, col as int)
                &&& final(self)@.revealed_count() >= old(self)@.revealed_count() + 1
            }),
            in_bounds(old(self)@.size, row as int, col as int) && !old(self)@.revealed_at(row as int, col as int) && !old(self)@.mine_at(row as int, col as int) && old(self)@.adjacent_mines(row as int, col as int) != 0 ==> ({
                &&& final(self)@ == (GameView { board: old(self)@.board.update(row as int, old(self)@.board[row as int].update(col as int, old(self)@.reveal_label(row as int, col as int))), ..old(self)@ })
                &&& final(self)@.revealed_count() == old(self)@.revealed_count() + 1
            }),
            forall|r: int, c: int| in_bounds(old(self)@.size, r, c) && #[trigger] final(self)@.cell(r, c) != old(self)@.cell(r, c) ==> ({
                &&& old(self)@.cell(r, c) is Undiscovered
                &&& !old(self)@.mine_at(r, c)
                &&& final(self)@.cell(r, c) == old(self)@.reveal_label(r, c)
                &&& flood_reaches(old(self)@, row as int, col as int, r, c)
            }),
            reveal_outcome(old(self)@, final(self)@, row as int, col as int),
    {
        let ghost pre = self@;
        let ghost rr = row as int;
        let ghost cc = col as int;
        let n = self.configuration.board_size;
        if row >= n || col >= n {
            return;
        }
        let cur = self.board_at(row, col);
        if crate::cell::is_acted_upon(cur) {
            return;
        }
        if self.mine_bit(row, col) {
            self.game_over = true;
            proof {
                lemma_same_grids(pre, self@);
            }
            return;
        }
        proof {
            // An unrevealed cell whose position holds no mine is labeled
            // `Undiscovered`.
            assert(!cell_revealed(cur));
            assert(!(cur is Mark));
            assert(!pre.mine_at(rr, cc));
            assert(!(cur is Mine));
            assert(cur is Undiscovered);
        }
        let cnt = self.count_mines_around(row, col);
        let label = if cnt == 0 {
            Cell::Empty
        } else {
            Cell::Number(cnt)
        };
        proof {
            lemma_grid_count_bounds(pre.board, revealed_pred(), pre.size);
            assert(pre.size * pre.size <= 46340 * 46340) by (nonlinear_arith)
                requires
                    1 <= pre.size <= 46340,
            ;
            assert(ind(pre.mine_in(rr, cc)) == 0);
            assert(cnt <= 8);
        }
        self.set_board(row, col, label);
        self.num_revealed = self.num_revealed + 1;
        proof {
            lemma_grid_cell_update(pre.board, marked_pred(), rr, cc, label);
            lemma_grid_cell_update(pre.board, revealed_pred(), rr, cc, label);
            lemma_labels_ok_update(pre, self@, rr, cc, label);
            lemma_grid_count_bounds(self@.board, revealed_pred(), pre.size);
            assert(zero_chain(pre, rr, cc, rr, cc, 0));
            assert(self@.cell(rr, cc) == pre.reveal_label(rr, cc));
        }
        if cnt > 0 {
            proof {
                assert(self@ == (GameView {
                    board: pre.board.update(rr, pre.board[rr].update(cc, pre.reveal_label(rr, cc))),
                    ..pre
                }));
            }
            return;
        }
        let mut stack: Vec<(usize, usize)> = Vec::new();
        Self::push_neighbors(&mut stack, row, col);
        proof {
            assert(zero_source(pre, rr, cc));
            assert forall|i: int| 0 <= i < stack@.len() implies flood_reaches(
                pre,
                rr,
                cc,
                (#[trigger] stack@[i]).0 as int,
                stack@[i].1 as int,
            ) by {
                assert(zero_source(pre, rr, cc));
                assert(zero_chain(pre, rr, cc, rr, cc, 0));
                assert(within_one(stack@[i].0 as int, rr) && within_one(stack@[i].1 as int, cc));
                assert(zero_chain(pre, rr, cc, stack@[i].0 as int, stack@[i].1 as int, 1));
            }
            assert forall|qr: int, qc: int, ar: int, ac: int|
                #![trigger zero_source(pre, qr, qc), self@.cell(ar, ac)]
                zero_source(pre, qr, qc) && cell_revealed(self@.cell(qr, qc)) && in_bounds(
                    pre.size,
                    ar,
                    ac,
                ) && within_one(ar, qr) && within_one(ac, qc) implies (cell_revealed(
                self@.cell(ar, ac),
            ) || in_prefix(stack@, stack@.len() as int, (ar as usize, ac as usize))) by {
                if qr == rr && qc == cc {
                    if ar != rr || ac != cc {
                        assert(in_prefix(stack@, stack@.len() as int, (ar as usize, ac as usize)));
                    }
                } else {
                    assert(self@.cell(qr, qc) == pre.cell(qr, qc));
                    assert(!cell_revealed(pre.cell(qr, qc)));
                }
            }
            assert(frontier_ok(pre, self@, stack@));
        }
        while stack.len() > 0
            invariant
                self.wf(),
                self@.placed,
                n == self@.size,
                1 <= n <= 46340,
                self@.size == pre.size,
                self@.num_mines == pre.num_mines,
                self@.mines == pre.mines,
                self@.game_over == pre.game_over,
                self@.message == pre.message,
                self@.mark_count() == pre.mark_count(),
                self.num_revealed <= n * n,
                self.num_revealed >= pre.revealed_count() + 1,
                in_bounds(pre.size, rr, cc),
                rr == row as int,
                cc == col as int,
                pre.shaped(),
                pre.labels_ok(),
                pre.cell(rr, cc) is Undiscovered,
                pre.adjacent_mines(rr, cc) == 0,
                self@.cell(rr, cc) == pre.reveal_label(rr, cc),
                forall|r: int, c: int| in_bounds(pre.size, r, c) ==> (#[trigger] self@.cell(r, c) == pre.cell(r, c) || (pre.cell(r, c) is Undiscovered && !pre.mine_at(r, c) && self@.cell(r, c) == pre.reveal_label(r, c) && flood_reaches(pre, rr, cc, r, c))),
                forall|i: int| 0 <= i < stack@.len() ==> flood_reaches(pre, rr, cc, (#[trigger] stack@[i]).0 as int, stack@[i].1 as int),
                frontier_ok(pre, self@, stack@),
            decreases n * n - self.num_revealed, stack@.len(),
        {
            let ghost prev_stack = stack@;
            let p = stack.pop().unwrap();
            proof {
                assert(stack@ =~= prev_stack.drop_last());
                assert forall|i: int| 0 <= i < stack@.len() implies flood_reaches(
                    pre,
                    rr,
                    cc,
                    (#[trigger] stack@[i]).0 as int,
                    stack@[i].1 as int,
                ) by {
                    assert(stack@[i] == prev_stack[i]);
                }
                assert(p == prev_stack[prev_stack.len() - 1]);
                assert(flood_reaches(pre, rr, cc, p.0 as int, p.1 as int));
            }
            let r = p.0;
            let c = p.1;
            if r < n && c < n {
                let ghost mid = self@;
                let cur2 = self.board_at(r, c);
                if !crate::cell::is_acted_upon(cur2) {
                    if !self.mine_bit(r, c) {
                        proof {
                            // The cell is untouched so far: a revealed
                            // label would contradict `is_acted_upon`.
                            assert(mid.cell(r as int, c as int) == pre.cell(r as int, c as int));
                            assert(!(cur2 is Mark) && !(cur2 is Number) && !(cur2 is Empty));
                            assert(!mid.mine_at(r as int, c as int));
                            assert(!(cur2 is Mine));
                            assert(cur2 is Undiscovered);
                            assert(!pre.mine_at(r as int, c as int));
                            // Strict room for one more revealed cell.
                            lemma_grid_count_complement(mid.board, revealed_pred(), covered_pred(), mid.size);
                            lemma_grid_count_pos(mid.board, covered_pred(), r as int, c as int);
                            assert(mid.size * mid.size <= 46340 * 46340) by (nonlinear_arith)
                                requires
                                    1 <= mid.size <= 46340,
                            ;
                        }
                        let cnt2 = self.count_mines_around(r, c);
                        let label2 = if cnt2 == 0 {
                            Cell::Empty
                        } else {
                            Cell::Number(cnt2)
                        };
                        proof {
                            assert(ind(mid.mine_in(r as int, c as int)) == 0);
                            assert(cnt2 <= 8);
                            assert(mid.adjacent_mines(r as int, c as int) == pre.adjacent_mines(r as int, c as int));
                        }
                        self.set_board(r, c, label2);
                        self.num_revealed = self.num_revealed + 1;
                        proof {
                            lemma_grid_cell_update(mid.board, marked_pred(), r as int, c as int, label2);
                            lemma_grid_cell_update(mid.board, revealed_pred(), r as int, c as int, label2);
                            lemma_labels_ok_update(mid, self@, r as int, c as int, label2);
                            assert(self@.cell(r as int, c as int) == pre.reveal_label(r as int, c as int));
                        }
                        if cnt2 == 0 {
                            let ghost base = stack@;
                            proof {
                                assert(flood_reaches(pre, rr, cc, r as int, c as int));
                            }
                            let ghost k0 = choose|k: nat| zero_chain(pre, rr, cc, r as int, c as int, k);
                            Self::push_neighbors(&mut stack, r, c);
                            proof {
                                assert(zero_chain(pre, rr, cc, r as int, c as int, k0));
                                assert forall|i: int| 0 <= i < stack@.len() implies flood_reaches(
                                    pre,
                                    rr,
                                    cc,
                                    (#[trigger] stack@[i]).0 as int,
                                    stack@[i].1 as int,
                                ) by {
                                    if i < base.len() {
                                        assert(stack@[i] == base[i]);
                                    } else {
                                        assert(zero_source(pre, r as int, c as int));
                                        assert(within_one(stack@[i].0 as int, r as int) && within_one(stack@[i].1 as int, c as int));
                                        assert(zero_chain(pre, rr, cc, stack@[i].0 as int, stack@[i].1 as int, (k0 + 1) as nat));
                                        assert(flood_reaches(pre, rr, cc, stack@[i].0 as int, stack@[i].1 as int));
                                    }
                                }
                                assert forall|j: int| 0 <= j < prev_stack.len() - 1 implies stack@[j]
                                    == prev_stack[j] by {
                                    assert(stack@[j] == base[j]);
                                }
                                lemma_frontier_after_reveal(pre, mid, self@, prev_stack, stack@, p);
                            }
                        } else {
                            proof {
                                lemma_frontier_after_reveal(pre, mid, self@, prev_stack, stack@, p);
                            }
                        }
                    } else {
                        proof {
                            assert(pre.mine_in(p.0 as int, p.1 as int));
                            lemma_frontier_after_pop(pre, self@, prev_stack, stack@, p);
                        }
                    }
                } else {
                    proof {
                        assert(cell_revealed(self@.cell(p.0 as int, p.1 as int)));
                        lemma_frontier_after_pop(pre, self@, prev_stack, stack@, p);
                    }
                }
            } else {
                proof {
                    assert(!in_bounds(pre.size, p.0 as int, p.1 as int));
                    lemma_frontier_after_pop(pre, self@, prev_stack, stack@, p);
                }
            }
        }
        proof {
            assert(stack@ =~= Seq::<(usize, usize)>::empty());
            assert(frontier_ok(pre, self@, Seq::<(usize, usize)>::empty()));
            assert(zero_source(pre, rr, cc));
            assert(cell_revealed(self@.cell(rr, cc)));
            assert forall|a: int, b: int|
                in_bounds(pre.size, a, b) && flood_reaches(pre, rr, cc, a, b) && (
                #[trigger] pre.cell(a, b)) is Undiscovered implies cell_revealed(
                self@.cell(a, b),
            ) by {
                let k = choose|k: nat| zero_chain(pre, rr, cc, a, b, k);
                lemma_chain_revealed(pre, self@, rr, cc, a, b, k);
            }
        }
    }

    /// The intermediate state while mines are being placed: the round has
    /// not started, nothing is uncovered or flagged, every cell is
    /// `Undiscovered` except that each placed mine is labeled `Mine`, and
    /// `placed` counts the mines placed so far.
    spec fn placing(&self, placed: int) -> bool {
        &&& self.configuration.valid()
        &&& self@.shaped()
        &&& !self@.placed
        &&& !self@.game_over
        &&& self.num_mark == 0
        &&& self.num_revealed == 0
        &&& forall|r: int, c: int|
            in_bounds(self@.size, r, c) ==> (#[trigger] self@.cell(r, c)) == (if self@.mine_at(
                r,
                c,
            ) {
                Cell::Mine
            } else {
                Cell::Undiscovered
            })
        &&& self@.mine_count() == placed
    }

    /// Put a mine on the free position `(r, c)` during placement.
    fn place_mine_at(&mut self, r: usize, c: usize, Ghost(placed): Ghost<int>)
        requires
            old(self).placing(placed),
            in_bounds(old(self)@.size, r as int, c as int),
            !old(self)@.mine_at(r as int, c as int),
        ensures
            final(self).placing(placed + 1),
            final(self)@.size == old(self)@.size,
            final(self)@.num_mines == old(self)@.num_mines,
            final(self)@.message == old(self)@.message,
            final(self)@.mine_at(r as int, c as int),
            forall|a: int, b: int|
                in_bounds(old(self)@.size, a, b) && (a != r as int || b != c as int)
                    ==> (#[trigger] final(self)@.mine_at(a, b)) == old(self)@.mine_at(a, b),
    {
        let ghost pre = self@;
        self.set_mine(r, c, true);
        self.set_board(r, c, Cell::Mine);
        proof {
            lemma_grid_cell_update(pre.mines, mine_pred(), r as int, c as int, true);
            assert(self@.mines == pre.mines.update(
                r as int,
                pre.mines[r as int].update(c as int, true),
            ));
            assert forall|a: int, b: int|
                in_bounds(pre.size, a, b) && (a != r as int || b != c as int) implies (
            #[trigger] self@.mine_at(a, b)) == pre.mine_at(a, b) by {
                if a == r as int {
                    assert(self@.mines[a] == pre.mines[a].update(c as int, true));
                } else {
                    assert(self@.mines[a] == pre.mines[a]);
                }
            }
            assert forall|a: int, b: int|
                in_bounds(pre.size, a, b) && (a != r as int || b != c as int) implies (
            #[trigger] self@.cell(a, b)) == pre.cell(a, b) by {
                if a == r as int {
                    assert(self@.board[a] == pre.board[a].update(c as int, Cell::Mine));
                    assert(self@.board[a][b] == pre.board[a][b]);
                } else {
                    assert(self@.board[a] == pre.board[a]);
                }
            }
            assert(self@.mine_at(r as int, c as int));
            assert(self@.cell(r as int, c as int) == Cell::Mine);
        }
    }

    /// End the placement phase: the full complement of mines is on the
    /// board, and the round begins.
    fn seal_placement(&mut self)
        requires
            old(self).placing(old(self)@.num_mines),
        ensures
            final(self).wf(),
            final(self)@ == (GameView { placed: true, ..old(self)@ }),
            final(self)@.mark_count() == 0,
            final(self)@.revealed_count() == 0,
            final(self)@.mine_count() == final(self)@.num_mines,
            final(self)@.shaped(),
            forall|r: int, c: int|
                in_bounds(final(self)@.size, r, c) ==> (#[trigger] final(self)@.cell(r, c)) == (
                if final(self)@.mine_at(r, c) {
                    Cell::Mine
                } else {
                    Cell::Undiscovered
                }),
    {
        let ghost pre = self@;
        self.first_play = true;
        proof {
            assert forall|r: int, c: int| in_bounds(self@.size, r, c) implies (
            #[trigger] self@.cell(r, c)) == (if self@.mine_at(r, c) {
                Cell::Mine
            } else {
                Cell::Undiscovered
            }) by {
                assert(self@.cell(r, c) == pre.cell(r, c));
                assert(self@.mine_at(r, c) == pre.mine_at(r, c));
            }
            assert forall|r: int, c: int|
                0 <= r < self@.board.len() && 0 <= c < self@.board[r].len() implies !marked_pred()(
                #[trigger] self@.board[r][c],
            ) && !revealed_pred()(self@.board[r][c]) by {
                assert(self@.cell(r, c) == (if self@.mine_at(r, c) {
                    Cell::Mine
                } else {
                    Cell::Undiscovered
                }));
            }
            lemma_grid_count_none(self@.board, marked_pred());
            lemma_grid_count_none(self@.board, revealed_pred());
            assert forall|r: int, c: int|
                in_bounds(self@.size, r, c) && !(#[trigger] self@.cell(r, c) is Mark) implies (
            self@.cell(r, c) is Mine <==> self@.mine_at(r, c)) by {
                assert(self@.cell(r, c) == (if self@.mine_at(r, c) {
                    Cell::Mine
                } else {
                    Cell::Undiscovered
                }));
            }
            assert(self@.labels_ok());
        }
    }

    /// Place the mines and start the round, anchored on the first
    /// revealed coordinate `(row, col)`.
    ///
    /// Mines are drawn at random, rejecting positions inside the
    /// three-by-three neighborhood of the anchor; a capped attempt count
    /// followed by a deterministic sweep keeps placement from stalling on
    /// nearly full boards, and only when the neighborhood makes the count
    /// infeasible is the constraint relaxed to spare the anchor alone.
    /// Afterwards the anchor and its neighborhood are revealed as on any
    /// other move. A second call is a no-op.
    pub fn initialize_game_on_first_play(&mut self, row: usize, col: usize)
        requires
            old(self).wf(),
            in_bounds(old(self)@.size, row as int, col as int),
        ensures
            final(self).wf(),
            final(self)@.size == old(self)@.size,
            final(self)@.num_mines == old(self)@.num_mines,
            final(self)@.message == old(self)@.message,
            old(self)@.placed ==> *final(self) == *old(self),
            !old(self)@.placed ==> ({
                &&& final(self)@.placed
                &&& final(self)@.mine_count() == final(self)@.num_mines
                &&& !final(self)@.mine_at(row as int, col as int)
                &&& final(self)@.revealed_at(row as int, col as int)
            }),
            !old(self)@.placed && old(self)@.num_mines <= old(self)@.size * old(self)@.size - 9
                ==> ({
                &&& forall|a: int, b: int|
                    in_bounds(old(self)@.size, a, b) && within_one(a, row as int) && within_one(
                        b,
                        col as int,
                    ) ==> !(#[trigger] final(self)@.mine_at(a, b))
                &&& final(self)@.game_over == false
                &&& forall|a: int, b: int|
                    in_bounds(old(self)@.size, a, b) && within_one(a, row as int) && within_one(
                        b,
                        col as int,
                    ) ==> #[trigger] final(self)@.revealed_at(a, b)
            }),
    {
        if self.first_play {
            return;
        }
        let ghost pre = self@;
        let ghost rr = row as int;
        let ghost cc = col as int;
        let n = self.configuration.board_size;
        let m = self.configuration.num_mines;
        let mut placed: usize = 0;
        proof {
            assert forall|r: int, c: int|
                0 <= r < pre.mines.len() && 0 <= c < pre.mines[r].len() implies !mine_pred()(
                #[trigger] pre.mines[r][c],
            ) by {
                assert(!pre.mine_at(r, c));
            }
            lemma_grid_count_none(pre.mines, mine_pred());
            assert forall|r: int, c: int| in_bounds(self@.size, r, c) implies (
            #[trigger] self@.cell(r, c)) == (if self@.mine_at(r, c) {
                Cell::Mine
            } else {
                Cell::Undiscovered
            }) by {
                assert(self@.cell(r, c) == Cell::Undiscovered);
                assert(!self@.mine_at(r, c));
            }
            assert(self.placing(0));
        }
        // Rejection sampling with a cap.
        let mut attempts: usize = 0;
        while placed < m && attempts < MAX_PLACEMENT_ATTEMPTS
            invariant
                self.placing(placed as int),
                self@.size == pre.size,
                self@.num_mines == pre.num_mines,
                self@.message == pre.message,
                n == self@.size,
                m == self@.num_mines,
                placed <= m,
                in_bounds(pre.size, rr, cc),
                rr == row as int,
                cc == col as int,
                forall|a: int, b: int|
                    in_bounds(pre.size, a, b) && (#[trigger] self@.mine_at(a, b)) ==> !(
                    within_one(a, rr) && within_one(b, cc)),
            decreases MAX_PLACEMENT_ATTEMPTS - attempts,
        {
            attempts = attempts + 1;
            let rs = random_below(n);
            let cs = random_below(n);
            let ghost mid = self@;
            if !(crate::near(rs, row) && crate::near(cs, col)) && !self.mine_bit(rs, cs) {
                self.place_mine_at(rs, cs, Ghost(placed as int));
                placed = placed + 1;
                proof {
                    assert forall|a: int, b: int|
                        in_bounds(pre.size, a, b) && (#[trigger] self@.mine_at(a, b)) implies !(
                    within_one(a, rr) && within_one(b, cc)) by {
                        if a == rs as int && b == cs as int {
                            assert(!(within_one(a, rr) && within_one(b, cc)));
                        } else {
                            assert(self@.mine_at(a, b) == mid.mine_at(a, b));
                            assert(mid.mine_at(a, b));
                            assert(!(within_one(a, rr) && within_one(b, cc)));
                        }
                    }
                }
            }
        }
        // Deterministic sweep, still honoring the safe neighborhood.
        let mut sr: usize = 0;
        while sr < n && placed < m
            invariant
                self.placing(placed as int),
                self@.size == pre.size,
                self@.num_mines == pre.num_mines,
                self@.message == pre.message,
                n == self@.size,
                m == self@.num_mines,
                placed <= m,
                sr <= n,
                in_bounds(pre.size, rr, cc),
                rr == row as int,
                cc == col as int,
                forall|a: int, b: int|
                    in_bounds(pre.size, a, b) && (#[trigger] self@.mine_at(a, b)) ==> !(
                    within_one(a, rr) && within_one(b, cc)),
                placed == m || forall|a: int, b: int|
                    in_bounds(pre.size, a, b) && a < sr as int && !(within_one(a, rr)
                        && within_one(b, cc)) ==> (#[trigger] self@.mine_at(a, b)),
            decreases n - sr,
        {
            let mut sc: usize = 0;
            while sc < n && placed < m
                invariant
                    self.placing(placed as int),
                    self@.size == pre.size,
                    self@.num_mines == pre.num_mines,
                    self@.message == pre.message,
                    n == self@.size,
                    m == self@.num_mines,
                    placed <= m,
                    sr < n,
                    sc <= n,
                    in_bounds(pre.size, rr, cc),
                    rr == row as int,
                    cc == col as int,
                    forall|a: int, b: int|
                        in_bounds(pre.size, a, b) && (#[trigger] self@.mine_at(a, b)) ==> !(
                        within_one(a, rr) && within_one(b, cc)),
                    placed == m || forall|a: int, b: int|
                        in_bounds(pre.size, a, b) && (a < sr as int || (a == sr as int && b
                            < sc as int)) && !(within_one(a, rr) && within_one(b, cc)) ==> (
                        #[trigger] self@.mine_at(a, b)),
                decreases n - sc,
            {
                let ghost mid = self@;
                if !(crate::near(sr, row) && crate::near(sc, col)) && !self.mine_bit(sr, sc) {
                    self.place_mine_at(sr, sc, Ghost(placed as int));
                    placed = placed + 1;
                    proof {
                        assert forall|a: int, b: int|
                            in_bounds(pre.size, a, b) && (#[trigger] self@.mine_at(a, b)) implies !(
                        within_one(a, rr) && within_one(b, cc)) by {
                            if a != sr as int || b != sc as int {
                                assert(self@.mine_at(a, b) == mid.mine_at(a, b));
                            }
                        }
                        assert forall|a: int, b: int|
                            in_bounds(pre.size, a, b) && (a < sr as int || (a == sr as int && b
                                < sc as int + 1)) && !(within_one(a, rr) && within_one(
                                b,
                                cc,
                            )) implies (#[trigger] self@.mine_at(a, b)) by {
                            if a != sr as int || b != sc as int {
                                assert(self@.mine_at(a, b) == mid.mine_at(a, b));
                            }
                        }
                    }
                } else {
                    proof {
                        if placed < m {
                            assert forall|a: int, b: int|
                                in_bounds(pre.size, a, b) && (a < sr as int || (a == sr as int && b
                                    < sc as int + 1)) && !(within_one(a, rr) && within_one(
                                    b,
                                    cc,
                                )) implies (#[trigger] self@.mine_at(a, b)) by {}
                        }
                    }
                }
                sc = sc + 1;
            }
            sr = sr + 1;
        }
        // When the neighborhood leaves room for every mine, the sweep has
        // finished the placement: fewer than nine cells escape it.
        proof {
            if placed < m && m <= pre.size * pre.size - 9 {
                assert forall|a: int, b: int|
                    0 <= a < self@.mines.len() && 0 <= b < self@.mines[a].len() && free_pred()(
                        #[trigger] self@.mines[a][b],
                    ) implies within_one(a, rr) && within_one(b, cc) by {
                    assert(!self@.mine_at(a, b));
                }
                lemma_grid_count_window9(self@.mines, free_pred(), rr, cc);
                lemma_grid_count_complement(self@.mines, mine_pred(), free_pred(), pre.size);
                assert(self@.mines.len() * pre.size == pre.size * pre.size);
                assert(self@.mine_count() >= pre.size * pre.size - 9);
                assert(false);
            }
        }
        let ghost clean = m as int <= pre.size * pre.size - 9;
        // Last resort for infeasible neighborhoods: keep only the anchor
        // cell itself mine-free.
        let mut tr: usize = 0;
        while tr < n && placed < m
            invariant
                self.placing(placed as int),
                self@.size == pre.size,
                self@.num_mines == pre.num_mines,
                self@.message == pre.message,
                n == self@.size,
                m == self@.num_mines,
                placed <= m,
                tr <= n,
                in_bounds(pre.size, rr, cc),
                rr == row as int,
                cc == col as int,
                clean == (m as int <= pre.size * pre.size - 9),
                clean ==> placed == m,
                clean ==> forall|a: int, b: int|
                    in_bounds(pre.size, a, b) && (#[trigger] self@.mine_at(a, b)) ==> !(
                    within_one(a, rr) && within_one(b, cc)),
                !self@.mine_at(rr, cc),
                placed == m || forall|a: int, b: int|
                    in_bounds(pre.size, a, b) && a < tr as int && !(a == rr && b == cc) ==> (
                    #[trigger] self@.mine_at(a, b)),
            decreases n - tr,
        {
            let mut tc: usize = 0;
            while tc < n && placed < m
                invariant
                    self.placing(placed as int),
                    self@.size == pre.size,
                    self@.num_mines == pre.num_mines,
                    self@.message == pre.message,
                    n == self@.size,
                    m == self@.num_mines,
                    placed <= m,
                    tr < n,
                    tc <= n,
                    in_bounds(pre.size, rr, cc),
                    rr == row as int,
                    cc == col as int,
                    clean == (m as int <= pre.size * pre.size - 9),
                    clean ==> placed == m,
                    clean ==> forall|a: int, b: int|
                        in_bounds(pre.size, a, b) && (#[trigger] self@.mine_at(a, b)) ==> !(
                        within_one(a, rr) && within_one(b, cc)),
                    !self@.mine_at(rr, cc),
                    placed == m || forall|a: int, b: int|
                        in_bounds(pre.size, a, b) && (a < tr as int || (a == tr as int && b
                            < tc as int)) && !(a == rr && b == cc) ==> (#[trigger] self@.mine_at(
                            a,
                            b,
                        )),
                decreases n - tc,
            {
                let ghost mid = self@;
                if !(tr == row && tc == col) && !self.mine_bit(tr, tc) {
                    self.place_mine_at(tr, tc, Ghost(placed as int));
                    placed = placed + 1;
                    proof {
                        assert(self@.mine_at(rr, cc) == mid.mine_at(rr, cc));
                        assert forall|a: int, b: int|
                            in_bounds(pre.size, a, b) && (a < tr as int || (a == tr as int && b
                                < tc as int + 1)) && !(a == rr && b == cc) implies (
                        #[trigger] self@.mine_at(a, b)) by {
                            if a != tr as int || b != tc as int {
                                assert(self@.mine_at(a, b) == mid.mine_at(a, b));
                            }
                        }
                    }
                } else {
                    proof {
                        if placed < m {
                            assert forall|a: int, b: int|
                                in_bounds(pre.size, a, b) && (a < tr as int || (a == tr as int && b
                                    < tc as int + 1)) && !(a == rr && b == cc) implies (
                            #[trigger] self@.mine_at(a, b)) by {}
                        }
                    }
                }
                tc = tc + 1;
            }
            tr = tr + 1;
        }
        // The relaxed sweep always completes the count: at most one cell,
        // the anchor, stays free, and there are fewer mines than cells.
        proof {
            if placed < m {
                assert forall|a: int, b: int|
                    0 <= a < self@.mines.len() && 0 <= b < self@.mines[a].len() && free_pred()(
                        #[trigger] self@.mines[a][b],
                    ) implies a == rr && b == cc by {
                    assert(!self@.mine_at(a, b));
                }
                lemma_grid_count_single(self@.mines, free_pred(), rr, cc);
                lemma_grid_count_complement(self@.mines, mine_pred(), free_pred(), pre.size);
                assert(self@.mines.len() * pre.size == pre.size * pre.size);
                assert(self@.mine_count() >= pre.size * pre.size - 1);
                assert(false);
            }
            assert(placed == m);
        }
        let ghost placedv = self@;
        self.seal_placement();
        let ghost mines0 = self@.mines;
        proof {
            assert(mines0 == placedv.mines);
            if clean {
                assert forall|a: int, b: int|
                    in_bounds(pre.size, a, b) && (#[trigger] mines0[a][b]) implies !(within_one(
                        a,
                        rr,
                    ) && within_one(b, cc)) by {
                    assert(placedv.mine_at(a, b));
                }
            }
            assert(self@.cell(rr, cc) == Cell::Undiscovered);
        }
        self.reveal_cell(row, col);
        proof {
            assert(self@.revealed_at(rr, cc));
            assert(self@.game_over == false);
            assert(self@.mines == mines0);
        }
        // Reveal the whole neighborhood, as on any other move.
        let mut dr: usize = 0;
        while dr < 3
            invariant
                self.wf(),
                self@.placed,
                n == self@.size,
                m == self@.num_mines,
                row < n,
                col < n,
                dr <= 3,
                self@.size == pre.size,
                self@.num_mines == pre.num_mines,
                self@.message == pre.message,
                self@.mines == mines0,
                in_bounds(pre.size, rr, cc),
                rr == row as int,
                cc == col as int,
                !self@.mine_at(rr, cc),
                self@.revealed_at(rr, cc),
                clean == (m as int <= pre.size * pre.size - 9),
                clean ==> self@.game_over == false,
                clean ==> forall|a: int, b: int|
                    in_bounds(pre.size, a, b) && (#[trigger] mines0[a][b]) ==> !(within_one(a, rr)
                        && within_one(b, cc)),
                clean ==> forall|a: int, b: int|
                    in_bounds(pre.size, a, b) && within_one(a, rr) && within_one(b, cc) && a - rr
                        < dr as int - 1 ==> #[trigger] self@.revealed_at(a, b),
            decreases 3 - dr,
        {
            let mut dc: usize = 0;
            while dc < 3
                invariant
                    self.wf(),
                    self@.placed,
                    n == self@.size,
                    m == self@.num_mines,
                    row < n,
                    col < n,
                    dr < 3,
                    dc <= 3,
                    self@.size == pre.size,
                    self@.num_mines == pre.num_mines,
                    self@.message == pre.message,
                    self@.mines == mines0,
                    in_bounds(pre.size, rr, cc),
                    rr == row as int,
                    cc == col as int,
                    !self@.mine_at(rr, cc),
                    self@.revealed_at(rr, cc),
                    clean == (m as int <= pre.size * pre.size - 9),
                    clean ==> self@.game_over == false,
                    clean ==> forall|a: int, b: int|
                        in_bounds(pre.size, a, b) && (#[trigger] mines0[a][b]) ==> !(within_one(
                            a,
                            rr,
                        ) && within_one(b, cc)),
                    clean ==> forall|a: int, b: int|
                        in_bounds(pre.size, a, b) && within_one(a, rr) && within_one(b, cc) && (a
                            - rr < dr as int - 1 || (a - rr == dr as int - 1 && b - cc
                            < dc as int - 1)) ==> #[trigger] self@.revealed_at(a, b),
                decreases 3 - dc,
            {
                if row + dr >= 1 && col + dc >= 1 {
                    let t_r = row + dr - 1;
                    let t_c = col + dc - 1;
                    let ghost before = self@;
                    self.reveal_cell(t_r, t_c);
                    proof {
                        assert(self@.cell(rr, cc) == before.cell(rr, cc));
                        assert(self@.revealed_at(rr, cc));
                        if clean {
                            if in_bounds(pre.size, t_r as int, t_c as int) {
                                assert(!mines0[t_r as int][t_c as int]);
                                assert(!before.mine_at(t_r as int, t_c as int));
                            }
                            assert(self@.game_over == before.game_over);
                            assert forall|a: int, b: int|
                                in_bounds(pre.size, a, b) && within_one(a, rr) && within_one(
                                    b,
                                    cc,
                                ) && (a - rr < dr as int - 1 || (a - rr == dr as int - 1 && b - cc
                                    < dc as int)) implies #[trigger] self@.revealed_at(a, b) by {
                                if a == t_r as int && b == t_c as int {
                                    if before.revealed_at(a, b) {
                                        assert(self@.cell(a, b) == before.cell(a, b));
                                    }
                                } else {
                                    assert(a - rr < dr as int - 1 || (a - rr == dr as int - 1 && b
                                        - cc < dc as int - 1));
                                    assert(before.revealed_at(a, b));
                                    assert(self@.cell(a, b) == before.cell(a, b));
                                }
                            }
                        }
                    }
                }
                dc = dc + 1;
            }
            dr = dr + 1;
        }
    }

    /// A fresh engine with the mines at the given distinct in-range
    /// positions and placement already done, for callers that fix the
    /// layout deterministically instead of using the random first-move
    /// placement.
    pub fn new_with_mines(game_config: BoardInfo, mine_list: &Vec<(usize, usize)>) -> (game: Self)
        requires
            game_config.valid(),
            mine_list@.len() == game_config.num_mines,
            forall|i: int|
                0 <= i < mine_list@.len() ==> in_bounds(
                    game_config.board_size as int,
                    (#[trigger] mine_list@[i]).0 as int,
                    mine_list@[i].1 as int,
                ),
            forall|i: int, j: int|
                0 <= i < j < mine_list@.len() ==> mine_list@[i] != mine_list@[j],
        ensures
            game.wf(),
            game@.size == game_config.board_size as int,
            game@.num_mines == game_config.num_mines as int,
            game@.placed,
            !game@.game_over,
            game@.message is None,
            forall|r: int, c: int|
                in_bounds(game@.size, r, c) ==> ((#[trigger] game@.mine_at(r, c))
                    <== in_prefix(mine_list@, mine_list@.len() as int, (r as usize, c as usize))),
            forall|r: int, c: int|
                in_bounds(game@.size, r, c) ==> ((#[trigger] game@.mine_at(r, c))
                    ==> in_prefix(mine_list@, mine_list@.len() as int, (r as usize, c as usize))),
            forall|r: int, c: int|
                in_bounds(game@.size, r, c) ==> (#[trigger] game@.cell(r, c)) == (
                if game@.mine_at(r, c) {
                    Cell::Mine
                } else {
                    Cell::Undiscovered
                }),
            game@.shaped(),
            game@.mark_count() == 0,
            game@.revealed_count() == 0,
            game@.mine_count() == game@.num_mines,
    {
        let mut game = Self::new(game_config);
        proof {
            assert forall|r: int, c: int|
                0 <= r < game@.mines.len() && 0 <= c < game@.mines[r].len() implies !mine_pred()(
                #[trigger] game@.mines[r][c],
            ) by {
                assert(!game@.mine_at(r, c));
            }
            lemma_grid_count_none(game@.mines, mine_pred());
            assert forall|r: int, c: int| in_bounds(game@.size, r, c) implies (
            #[trigger] game@.cell(r, c)) == (if game@.mine_at(r, c) {
                Cell::Mine
            } else {
                Cell::Undiscovered
            }) by {
                assert(game@.cell(r, c) == Cell::Undiscovered);
                assert(!game@.mine_at(r, c));
            }
            assert(game.placing(0));
        }
        let ghost g0 = game@;
        let mut i: usize = 0;
        while i < mine_list.len()
            invariant
                game.placing(i as int),
                game@.size == g0.size,
                game@.num_mines == g0.num_mines,
                game@.message == g0.message,
                g0.size == game_config.board_size as int,
                g0.num_mines == game_config.num_mines as int,
                g0.message is None,
                i <= mine_list@.len(),
                mine_list@.len() == game_config.num_mines,
                forall|j: int|
                    0 <= j < mine_list@.len() ==> in_bounds(
                        game_config.board_size as int,
                        (#[trigger] mine_list@[j]).0 as int,
                        mine_list@[j].1 as int,
                    ),
                forall|j1: int, j2: int|
                    0 <= j1 < j2 < mine_list@.len() ==> mine_list@[j1] != mine_list@[j2],
                forall|r: int, c: int|
                    in_bounds(game@.size, r, c) ==> ((#[trigger] game@.mine_at(r, c))
                        <==> in_prefix(mine_list@, i as int, (r as usize, c as usize))),
            decreases mine_list@.len() - i,
        {
            let p = mine_list[i];
            let ghost mid = game@;
            proof {
                assert(mine_list@[i as int] == p);
                if game@.mine_at(p.0 as int, p.1 as int) {
                    assert(in_prefix(mine_list@, i as int, (p.0 as usize, p.1 as usize)));
                    let j = choose|j: int|
                        0 <= j < i as int && #[trigger] mine_list@[j] == (
                        p.0 as usize,
                        p.1 as usize,
                    );
                    assert(mine_list@[j] == mine_list@[i as int]);
                    assert(false);
                }
            }
            game.place_mine_at(p.0, p.1, Ghost(i as int));
            i = i + 1;
            proof {
                assert forall|r: int, c: int| in_bounds(game@.size, r, c) implies ((
                #[trigger] game@.mine_at(r, c)) <==> in_prefix(
                    mine_list@,
                    i as int,
                    (r as usize, c as usize),
                )) by {
                    lemma_in_prefix_step(mine_list@, i as int - 1, (r as usize, c as usize));
                    if r == p.0 as int && c == p.1 as int {
                        assert(mine_list@[i as int - 1] == (r as usize, c as usize));
                    } else {
                        assert(game@.mine_at(r, c) == mid.mine_at(r, c));
                        assert((r as usize, c as usize) != mine_list@[i as int - 1]);
                    }
                }
            }
        }
        let ghost done = game@;
        game.seal_placement();
        proof {
            assert forall|r: int, c: int| in_bounds(game@.size, r, c) implies ((
            #[trigger] game@.mine_at(r, c)) <==> in_prefix(
                mine_list@,
                mine_list@.len() as int,
                (r as usize, c as usize),
            )) by {
                assert(game@.mine_at(r, c) == done.mine_at(r, c));
            }
        }
        game
    }

    /// Victory check: the player has won when the number of uncovered
    /// non-flag cells equals the number of safe cells on the board.
    pub fn check_win(&self) -> (r: bool)
        requires
            self.wf(),
        ensures
            r == (self@.revealed_count() - self@.mark_count() == self@.size * self@.size
                - self@.num_mines),
    {
        let n = self.configuration.board_size;
        proof {
            assert(n * n <= 46340 * 46340) by (nonlinear_arith)
                requires
                    1 <= n <= 46340,
            ;
        }
        self.num_revealed - self.num_mark == n * n - self.configuration.num_mines
    }

    /// Run one player turn: a reveal command places the mines on the
    /// first valid use and uncovers cells afterwards, a flag command runs
    /// the flagging state machine. Rejected commands record a message and
    /// leave the rest of the state alone.
    pub fn apply_command(&mut self, cmd: Command)
        requires
            old(self).wf(),
        ensures
            final(self).wf(),
            final(self)@.size == old(self)@.size,
            final(self)@.num_mines == old(self)@.num_mines,
            match cmd {
                Command::Reveal(r, c) => reveal_command_outcome(
                    old(self)@,
                    final(self)@,
                    r as int,
                    c as int,
                ),
                Command::ToggleFlag(r, c) => mark_outcome(
                    old(self)@,
                    final(self)@,
                    r as int,
                    c as int,
                ),
            },
    {
        match cmd {
            Command::Reveal(row, col) => {
                let n = self.configuration.board_size;
                if row >= n || col >= n {
                    self.player_message = Some(GameMessage::OutOfBounds);
                    proof {
                        lemma_same_grids(old(self)@, self@);
                    }
                    return;
                }
                if !self.first_play {
                    self.player_message = None;
                    proof {
                        lemma_same_grids(old(self)@, self@);
                    }
                    self.initialize_game_on_first_play(row, col);
                    return;
                }
                let cur = self.board_at(row, col);
                if crate::cell::is_acted_upon(cur) {
                    self.player_message = Some(GameMessage::AlreadyRevealed);
                    proof {
                        lemma_same_grids(old(self)@, self@);
                    }
                    return;
                }
                self.player_message = None;
                proof {
                    lemma_same_grids(old(self)@, self@);
                }
                self.reveal_cell(row, col);
            },
            Command::ToggleFlag(row, col) => {
                self.mark_mine(row, col);
            },
        }
    }

    /// The character the board display shows for the cell `(row, col)`.
    pub fn cell_symbol(&self, row: usize, col: usize) -> (s: char)
        requires
            self.wf(),
            in_bounds(self@.size, row as int, col as int),
        ensures
            s == spec_symbol(self@.cell(row as int, col as int), self@.game_over),
    {
        let cur = self.board_at(row, col);
        if !self.game_over && !crate::cell::is_acted_upon(cur) {
            return '.';
        }
        match cur {
            Cell::Undiscovered => '.',
            Cell::Number(nb) => digit_char(nb),
            Cell::Mine => {
                if self.game_over {
                    'X'
                } else {
                    '.'
                }
            },
            Cell::Empty => '*',
            Cell::Mark => '!',
        }
    }

    /// Board side length.
    pub fn board_size(&self) -> (n: usize)
        ensures
            n as int == self@.size,
    {
        self.configuration.board_size
    }

    /// Configured number of mines.
    pub fn num_mines(&self) -> (m: usize)
        ensures
            m as int == self@.num_mines,
    {
        self.configuration.num_mines
    }

    /// Number of currently flagged cells.
    pub fn flag_count(&self) -> (m: usize)
        requires
            self.wf(),
        ensures
            m as int == self@.mark_count(),
    {
        self.num_mark
    }

    /// True once a mine has been revealed: the round is lost.
    pub fn is_game_over(&self) -> (r: bool)
        ensures
            r == self@.game_over,
    {
        self.game_over
    }

    /// True once the first reveal has placed the mines.
    pub fn mines_placed(&self) -> (r: bool)
        ensures
            r == self@.placed,
    {
        self.first_play
    }

    /// The label of the cell `(row, col)`.
    pub fn get_cell(&self, row: usize, col: usize) -> (x: Cell)
        requires
            self.wf(),
            in_bounds(self@.size, row as int, col as int),
        ensures
            x == self@.cell(row as int, col as int),
    {
        self.board_at(row, col)
    }

    /// Whether the cell `(row, col)` holds a mine (ground truth; the
    /// display only consults it once the round is over).
    pub fn is_mine(&self, row: usize, col: usize) -> (r: bool)
        requires
            self.wf(),
            in_bounds(self@.size, row as int, col as int),
        ensures
            r == self@.mine_at(row as int, col as int),
    {
        self.mine_bit(row, col)
    }

    /// Whether the cell `(row, col)` has been acted upon (uncovered or
    /// flagged).
    pub fn is_revealed(&self, row: usize, col: usize) -> (r: bool)
        requires
            self.wf(),
            in_bounds(self@.size, row as int, col as int),
        ensures
            r == self@.revealed_at(row as int, col as int),
    {
        let cur = self.board_at(row, col);
        crate::cell::is_acted_upon(cur)
    }

    /// Surface the recorded message once: the message is handed out and
    /// cleared.
    pub fn take_message(&mut self) -> (msg: Option<GameMessage>)
        requires
            old(self).wf(),
        ensures
            final(self).wf(),
            msg == old(self)@.message,
            final(self)@ == (GameView { message: None, ..old(self)@ }),
    {
        let msg = self.player_message;
        self.player_message = None;
        proof {
            lemma_same_grids(old(self)@, self@);
        }
        msg
    }

    /// A fresh engine for one round. No mines are placed yet; the first
    /// reveal will place them.
    pub fn new(game_config: BoardInfo) -> (game: Self)
        requires
            game_config.valid(),
        ensures
            game.wf(),
            game@.size == game_config.board_size as int,
            game@.num_mines == game_config.num_mines as int,
            !game@.placed,
            !game@.game_over,
            game@.message is None,
            forall|r: int, c: int|
                in_bounds(game@.size, r, c) ==> (#[trigger] game@.cell(r, c))
                    == Cell::Undiscovered,
            forall|r: int, c: int| in_bounds(game@.size, r, c) ==> !(#[trigger] game@.mine_at(r, c)),
            game@.mark_count() == 0,
            game@.revealed_count() == 0,
            game@.mine_count() == 0,
    {
        let n = game_config.board_size;
        let mut board: Vec<Vec<Cell>> = Vec::new();
        let mut mines: Vec<Vec<bool>> = Vec::new();
        let mut r: usize = 0;
        while r < n
            invariant
                0 <= r <= n,
                board@.len() == r,
                mines@.len() == r,
                forall|i: int| 0 <= i < r ==> (#[trigger] board@[i])@.len() == n,
                forall|i: int| 0 <= i < r ==> (#[trigger] mines@[i])@.len() == n,
                forall|i: int, j: int|
                    0 <= i < r && 0 <= j < n ==> (#[trigger] board@[i]@[j]) == Cell::Undiscovered,
                forall|i: int, j: int| 0 <= i < r && 0 <= j < n ==> !(#[trigger] mines@[i]@[j]),
            decreases n - r,
        {
            let mut brow: Vec<Cell> = Vec::new();
            let mut mrow: Vec<bool> = Vec::new();
            let mut c: usize = 0;
            while c < n
                invariant
                    0 <= c <= n,
                    brow@.len() == c,
                    mrow@.len() == c,
                    forall|j: int| 0 <= j < c ==> (#[trigger] brow@[j]) == Cell::Undiscovered,
                    forall|j: int| 0 <= j < c ==> !(#[trigger] mrow@[j]),
                decreases n - c,
            {
                brow.push(Cell::Undiscovered);
                mrow.push(false);
                c = c + 1;
            }
            board.push(brow);
            mines.push(mrow);
            r = r + 1;
        }
        let game = Minesweeper {
            board,
            mines,
            game_over: false,
            num_mark: 0,
            num_revealed: 0,
            player_message: None,
            first_play: false,
            configuration: game_config,
        };
        proof {
            let gv = game@;
            assert forall|i: int, j: int|
                in_bounds(gv.size, i, j) implies (#[trigger] gv.cell(i, j))
                == Cell::Undiscovered by {
                assert(gv.board[i] == board@[i]@);
            }
            assert forall|i: int, j: int| in_bounds(gv.size, i, j) implies !(#[trigger] gv.mine_at(
                i,
                j,
            )) by {
                assert(gv.mines[i] == mines@[i]@);
            }
            assert forall|i: int| 0 <= i < gv.size implies (#[trigger] gv.board[i]).len()
                == gv.size by {
                assert(gv.board[i] == board@[i]@);
            }
            assert forall|i: int| 0 <= i < gv.size implies (#[trigger] gv.mines[i]).len()
                == gv.size by {
                assert(gv.mines[i] == mines@[i]@);
            }
            lemma_grid_count_none(gv.board, marked_pred());
            lemma_grid_count_none(gv.board, revealed_pred());
            assert forall|i: int, j: int|
                0 <= i < gv.mines.len() && 0 <= j < gv.mines[i].len() implies !mine_pred()(
                #[trigger] gv.mines[i][j],
            ) by {
                assert(!gv.mine_at(i, j));
            }
            lemma_grid_count_none(gv.mines, mine_pred());
        }
        game
    }
}

} // verus!
