//! Positions, successor enumeration, evaluation and symmetries.
use crate::topology::{
    degree, lemma_neighbours, mill, mill_cells, mill_partners, mirror_source, mirrored,
    neighbour, neighbours, partners, rotated, rotation_source,
};
use vstd::prelude::*;

verus! {

/// Pieces each player starts with in hand.
pub const PIECES: usize = 9;

/// A board position: the content of each cell (`1` and `-1` for the two
/// players, `0` for empty) and the pieces each player still holds in hand
/// (`hands[0]` for player `1`, `hands[1]` for player `-1`).
#[derive(Clone, Copy, PartialEq, Eq, PartialOrd, Ord, Debug, Hash)]
pub struct State {
    pub board: [i32; 24],
    pub hands: [usize; 2],
}

/// Mathematical model of a [`State`].
pub struct Position {
    pub board: Seq<i32>,
    pub hands: Seq<usize>,
}

impl View for State {
    type V = Position;

    open spec fn view(&self) -> Position {
        Position { board: self.board@, hands: self.hands@ }
    }
}

/// The two players are `1` and `-1`.
pub open spec fn is_player(p: i32) -> bool {
    p == 1 || p == -1
}

/// The opponent of player `p`.
pub open spec fn other(p: i32) -> i32 {
    (0 - p) as i32
}

/// Which entry of `hands` belongs to player `p`.
pub open spec fn hand_index(p: i32) -> int {
    if p == 1 {
        0
    } else {
        1
    }
}

/// Number of cells of `b` holding `v`.
pub open spec fn count(b: Seq<i32>, v: i32) -> nat
    decreases b.len(),
{
    if b.len() == 0 {
        0
    } else {
        count(b.drop_last(), v) + if b.last() == v {
            1nat
        } else {
            0nat
        }
    }
}

/// The `w`-th mill through cell `c` is entirely held by `p`.
pub open spec fn formed_with(b: Seq<i32>, c: int, w: int, p: i32) -> bool {
    b[c] == p && b[partners(c, w).0] == p && b[partners(c, w).1] == p
}

/// Some mill through cell `c` is entirely held by `p`.
pub open spec fn in_mill(b: Seq<i32>, c: int, p: i32) -> bool {
    formed_with(b, c, 0, p) || formed_with(b, c, 1, p)
}

/// The position after `p` places a piece on `to` (when `from == to`, taking
/// it from the hand) or slides a piece from `from` to `to`.
pub open spec fn moved(s: Position, p: i32, from: int, to: int) -> Position {
    Position {
        board: s.board.update(from, 0).update(to, p),
        hands: if from == to {
            s.hands.update(hand_index(p), (s.hands[hand_index(p)] - 1) as usize)
        } else {
            s.hands
        },
    }
}

/// The piece on cell `i` may be captured by `p`: it belongs to the opponent
/// and no mill of the opponent passes through it.
pub open spec fn removable(b: Seq<i32>, i: int, p: i32) -> bool {
    b[i] == other(p) && !in_mill(b, i, other(p))
}

/// Position `s` with cell `i` emptied.
pub open spec fn without(s: Position, i: int) -> Position {
    Position { board: s.board.update(i, 0), hands: s.hands }
}

/// The captures open to `p` in `s` among cells below `n`, in cell order.
pub open spec fn captures(s: Position, p: i32, n: int) -> Seq<Position>
    decreases n,
{
    if n <= 0 {
        seq![]
    } else {
        captures(s, p, n - 1) + if removable(s.board, n - 1, p) {
            seq![without(s, n - 1)]
        } else {
            seq![]
        }
    }
}

/// All outcomes of one move: the position after the move, followed, when
/// the move closes a mill through `to`, by one position per capture.
pub open spec fn outcomes(s: Position, p: i32, from: int, to: int) -> Seq<Position> {
    let m = moved(s, p, from, to);
    if in_mill(m.board, to, p) {
        seq![m] + captures(m, p, 24)
    } else {
        seq![m]
    }
}

/// Placements of `p` on the empty cells below `n`, in cell order, each
/// with its captures.
pub open spec fn placements(s: Position, p: i32, n: int) -> Seq<Position>
    decreases n,
{
    if n <= 0 {
        seq![]
    } else {
        placements(s, p, n - 1) + if s.board[n - 1] == 0 {
            outcomes(s, p, n - 1, n - 1)
        } else {
            seq![]
        }
    }
}

/// Slides of `p`'s piece on cell `i` to its first `n` neighbours that are
/// empty, in the board's adjacency order.
pub open spec fn slides_from(s: Position, p: i32, i: int, n: int) -> Seq<Position>
    decreases n,
{
    if n <= 0 {
        seq![]
    } else {
        let j = neighbours(i)[n - 1];
        slides_from(s, p, i, n - 1) + if s.board[i] == p && s.board[j] == 0 {
            outcomes(s, p, i, j)
        } else {
            seq![]
        }
    }
}

/// Slides of `p` from the cells below `n`, by source cell, then by target.
pub open spec fn slides(s: Position, p: i32, n: int) -> Seq<Position>
    decreases n,
{
    if n <= 0 {
        seq![]
    } else {
        slides(s, p, n - 1) + slides_from(s, p, n - 1, neighbours(n - 1).len() as int)
    }
}

/// Every successor of `s` when `p` is to move: placements while `p` holds
/// pieces in hand, slides afterwards; `s` itself when there is no move.
pub open spec fn successors(s: Position, p: i32) -> Seq<Position> {
    let r = if s.hands[hand_index(p)] > 0 {
        placements(s, p, 24)
    } else {
        slides(s, p, 24)
    };
    if r.len() == 0 {
        seq![s]
    } else {
        r
    }
}

/// Number of the three cells of the `m`-th mill that hold `v`.
pub open spec fn tally(b: Seq<i32>, m: int, v: i32) -> int {
    (if b[mill(m).0] == v {
        1int
    } else {
        0
    }) + (if b[mill(m).1] == v {
        1int
    } else {
        0
    }) + (if b[mill(m).2] == v {
        1int
    } else {
        0
    })
}

/// Worth of one mill holding `me` pieces of player `1` and `op` of player
/// `-1`: a mill with pieces of one player only is worth 4 with two or three
/// of them and 1 with one, counted for player `1` and against player `-1`.
pub open spec fn mill_score(me: int, op: int) -> int {
    if op == 0 && (me == 3 || me == 2) {
        4
    } else if me == 0 && (op == 3 || op == 2) {
        -4
    } else if op == 0 && me == 1 {
        1
    } else if me == 0 && op == 1 {
        -1
    } else {
        0
    }
}

/// Sum of the worth of the mills below `n`.
pub open spec fn mills_score(b: Seq<i32>, n: int) -> int
    decreases n,
{
    if n <= 0 {
        0
    } else {
        mills_score(b, n - 1) + mill_score(tally(b, n - 1, 1), tally(b, n - 1, -1i32))
    }
}

/// Heuristic worth of `s` for player `1`: the worth of all 16 mills, plus
/// 100 when player `-1` is down to fewer than three pieces (on the board and
/// in hand), minus 100 when player `1` is.
pub open spec fn evaluation(s: Position) -> int {
    mills_score(s.board, 16) + (if count(s.board, -1i32) + s.hands[1] < 3 {
        100int
    } else {
        0
    }) - (if count(s.board, 1) + s.hands[0] < 3 {
        100int
    } else {
        0
    })
}

/// Player `p` has won: the opponent has no piece left in hand and fewer
/// than three on the board.
pub open spec fn won(s: Position, p: i32) -> bool {
    s.hands[hand_index(other(p))] == 0 && count(s.board, other(p)) < 3
}

/// Every cell is empty or holds a piece of one of the two players.
pub open spec fn valid_cells(b: Seq<i32>) -> bool {
    forall|i: int| 0 <= i < b.len() ==> #[trigger] b[i] == 0 || b[i] == 1 || b[i] == -1
}

/// The invariant of a position: 24 cells, each empty or held by a player,
/// two hands, and for each player at most nine pieces on the board and in
/// hand together.
pub open spec fn well_formed(s: Position) -> bool {
    &&& s.board.len() == 24
    &&& s.hands.len() == 2
    &&& valid_cells(s.board)
    &&& count(s.board, 1) + s.hands[0] <= 9
    &&& count(s.board, -1i32) + s.hands[1] <= 9
}

/// `b` with every piece given to the other player.
pub open spec fn negated(b: Seq<i32>) -> Seq<i32> {
    b.map_values(|x: i32| (0 - x) as i32)
}

/// `s` seen from the other player's side: pieces change owner and the two
/// hands are exchanged.
pub open spec fn swapped(s: Position) -> Position {
    Position { board: negated(s.board), hands: seq![s.hands[1], s.hands[0]] }
}

/// `s` turned a quarter turn.
pub open spec fn rotation(s: Position) -> Position {
    Position { board: Seq::new(24, |i: int| s.board[rotated(i)]), hands: s.hands }
}

/// `s` reflected left to right.
pub open spec fn reflection(s: Position) -> Position {
    Position { board: Seq::new(24, |i: int| s.board[mirrored(i)]), hands: s.hands }
}

/// `s` turned `n` quarter turns.
pub open spec fn turned(s: Position, n: nat) -> Position
    decreases n,
{
    if n == 0 {
        s
    } else {
        rotation(turned(s, (n - 1) as nat))
    }
}

/// The `k`-th of the eight images of `s` (`k < 8`): `k` quarter turns, and
/// from 4 on, `k - 4` quarter turns of the reflection.
pub open spec fn image(s: Position, k: int) -> Position {
    if k < 4 {
        turned(s, k as nat)
    } else {
        turned(reflection(s), (k - 4) as nat)
    }
}

/// The states `r` have the models `m`, in order.
pub open spec fn models(r: Seq<State>, m: Seq<Position>) -> bool {
    r.len() == m.len() && forall|k: int| 0 <= k < r.len() ==> r[k]@ == m[k]
}

/// A value that no cell holds is counted zero times.
pub proof fn lemma_count_absent(b: Seq<i32>, v: i32)
    requires
        forall|i: int| 0 <= i < b.len() ==> b[i] != v,
    ensures
        count(b, v) == 0,
    decreases b.len(),
{
    if b.len() > 0 {
        assert(b.last() == b[b.len() - 1]);
        lemma_count_absent(b.drop_last(), v);
    }
}

/// The opponent of player `p`.
pub fn opponent(p: i32) -> (r: i32)
    requires
        is_player(p),
    ensures
        r == other(p),
        is_player(r),
{
    -p
}

fn hand_of(p: i32) -> (r: usize)
    requires
        is_player(p),
    ensures
        r as int == hand_index(p),
{
    if p == 1 {
        0
    } else {
        1
    }
}

/// Whether a mill through cell `c` is entirely held by `p`.
pub fn mill_formed_at(board: &[i32; 24], c: usize, p: i32) -> (r: bool)
    requires
        c < 24,
    ensures
        r == in_mill(board@, c as int, p),
{
    let (a, b) = mill_partners(c, 0);
    let (d, e) = mill_partners(c, 1);
    board[c] == p && ((board[a] == p && board[b] == p) || (board[d] == p && board[e] == p))
}

/// Number of cells of `board` holding `v`.
pub fn count_of(board: &[i32; 24], v: i32) -> (r: usize)
    ensures
        r == count(board@, v),
        r <= 24,
{
    let mut r: usize = 0;
    let mut i: usize = 0;
    while i < 24
        invariant
            0 <= i <= 24,
            r == count(board@.take(i as int), v),
            r <= i,
        decreases 24 - i,
    {
        assert(board@.take(i + 1).drop_last() =~= board@.take(i as int));
        if board[i] == v {
            r += 1;
        }
        i += 1;
    }
    assert(board@.take(24) =~= board@);
    r
}

impl State {
    /// The starting position: an empty board and nine pieces in each hand.
    pub fn new() -> (r: State)
        ensures
            forall|i: int| 0 <= i < 24 ==> r.board[i] == 0,
            r.hands[0] == 9,
            r.hands[1] == 9,
            well_formed(r@),
    {
        let r = State { board: [0i32; 24], hands: [PIECES, PIECES] };
        proof {
            lemma_count_absent(r.board@, 1);
            lemma_count_absent(r.board@, -1i32);
        }
        r
    }

    /// Every outcome of the move of `player` from `from` to `to` (a
    /// placement when the two are equal): first the position after the move,
    /// then, when it closes a mill through `to`, one position for each
    /// opponent piece that may be captured.
    pub fn play(&self, player: i32, from: usize, to: usize) -> (r: Vec<State>)
        requires
            is_player(player),
            from < 24,
            to < 24,
            from == to ==> self.hands[hand_index(player)] > 0,
        ensures
            models(r@, outcomes(self@, player, from as int, to as int)),
    {
        let mut state = *self;
        if from == to {
            let h = hand_of(player);
            state.hands[h] = state.hands[h] - 1;
        }
        state.board[from] = 0;
        state.board[to] = player;
        let ghost m = moved(self@, player, from as int, to as int);
        assert(state.board@ =~= m.board);
        assert(state.hands@ =~= m.hands);
        let mut r: Vec<State> = Vec::new();
        r.push(state);
        if mill_formed_at(&state.board, to, player) {
            let op = opponent(player);
            let mut i: usize = 0;
            while i < 24
                invariant
                    0 <= i <= 24,
                    state@ == m,
                    op == other(player),
                    models(r@, seq![m] + captures(m, player, i as int)),
                decreases 24 - i,
            {
                if state.board[i] == op && !mill_formed_at(&state.board, i, op) {
                    let mut eat = state;
                    eat.board[i] = 0;
                    assert(eat.board@ =~= without(m, i as int).board);
                    r.push(eat);
                }
                assert(seq![m] + captures(m, player, i + 1) =~= seq![m] + captures(
                    m,
                    player,
                    i as int,
                ) + if removable(m.board, i as int, player) {
                    seq![without(m, i as int)]
                } else {
                    seq![]
                });
                i += 1;
            }
        }
        r
    }
    /// Every successor of this position when `player` is to move.
    pub fn possibilities(&self, player: i32) -> (r: Vec<State>)
        requires
            is_player(player),
        ensures
            models(r@, successors(self@, player)),
            r@.len() >= 1,
    {
        let ghost s = self@;
        let mut r: Vec<State> = Vec::new();
        if self.hands[hand_of(player)] > 0 {
            let mut i: usize = 0;
            while i < 24
                invariant
                    0 <= i <= 24,
                    s == self@,
                    is_player(player),
                    self.hands[hand_index(player)] > 0,
                    models(r@, placements(s, player, i as int)),
                decreases 24 - i,
            {
                if self.board[i] == 0 {
                    let mut more = self.play(player, i, i);
                    let ghost before = r@;
                        let ghost added = more@;
                    r.append(&mut more);
                    assert(r@ =~= before + added);
                }
                i += 1;
            }
        } else {
            let mut i: usize = 0;
            while i < 24
                invariant
                    0 <= i <= 24,
                    s == self@,
                    is_player(player),
                    models(r@, slides(s, player, i as int)),
                decreases 24 - i,
            {
                let d = degree(i);
                let mut k: usize = 0;
                while k < d
                    invariant
                        0 <= i < 24,
                        0 <= k <= d,
                        d as int == neighbours(i as int).len(),
                        s == self@,
                        is_player(player),
                        models(
                            r@,
                            slides(s, player, i as int) + slides_from(s, player, i as int, k as int),
                        ),
                    decreases d - k,
                {
                    let j = neighbour(i, k);
                    proof {
                        lemma_neighbours(i as int);
                    }
                    if self.board[i] == player && self.board[j] == 0 {
                        let mut more = self.play(player, i, j);
                        let ghost before = r@;
                        let ghost added = more@;
                        r.append(&mut more);
                        assert(r@ =~= before + added);
                    }
                    assert(slides(s, player, i as int) + slides_from(s, player, i as int, k + 1)
                        =~= slides(s, player, i as int) + slides_from(s, player, i as int, k as int)
                        + if s.board[i as int] == player && s.board[j as int] == 0 {
                        outcomes(s, player, i as int, j as int)
                    } else {
                        seq![]
                    });
                    k += 1;
                }
                i += 1;
            }
        }
        if r.len() == 0 {
            r.push(*self);
        }
        r
    }

    /// Heuristic worth of this position for player `1`.
    pub fn value(&self) -> (r: i32)
        ensures
            r as int == evaluation(self@),
    {
        let mut value: i32 = 0;
        let mut m: usize = 0;
        while m < 16
            invariant
                0 <= m <= 16,
                value as int == mills_score(self.board@, m as int),
                -4 * m <= value <= 4 * m,
            decreases 16 - m,
        {
            let (a, b, c) = mill_cells(m);
            let mut me: usize = 0;
            let mut op: usize = 0;
            if self.board[a] == 1 {
                me += 1;
            } else if self.board[a] == -1 {
                op += 1;
            }
            if self.board[b] == 1 {
                me += 1;
            } else if self.board[b] == -1 {
                op += 1;
            }
            if self.board[c] == 1 {
                me += 1;
            } else if self.board[c] == -1 {
                op += 1;
            }
            assert(me == tally(self.board@, m as int, 1));
            assert(op == tally(self.board@, m as int, -1i32));
            if op == 0 && (me == 3 || me == 2) {
                value += 4;
            } else if me == 0 && (op == 3 || op == 2) {
                value -= 4;
            } else if op == 0 && me == 1 {
                value += 1;
            } else if me == 0 && op == 1 {
                value -= 1;
            }
            m += 1;
        }
        let me = count_of(&self.board, 1);
        let op = count_of(&self.board, -1);
        if self.hands[1] < 3 && op < 3 - self.hands[1] {
            value += 100;
        }
        if self.hands[0] < 3 && me < 3 - self.hands[0] {
            value -= 100;
        }
        value
    }

    /// Whether `player` has won.
    pub fn win(&self, player: i32) -> (r: bool)
        requires
            is_player(player),
        ensures
            r == won(self@, player),
    {
        self.hands[hand_of(opponent(player))] == 0 && count_of(&self.board, opponent(player)) < 3
    }

    /// Turns this position to the other player's side.
    pub fn swap(&mut self)
        requires
            valid_cells(old(self).board@),
        ensures
            final(self)@ == swapped(old(self)@),
    {
        let ghost s = self@;
        let h = self.hands[0];
        self.hands[0] = self.hands[1];
        self.hands[1] = h;
        let mut i: usize = 0;
        while i < 24
            invariant
                0 <= i <= 24,
                valid_cells(s.board),
                s.board.len() == 24,
                s.hands.len() == 2,
                self.hands@ =~= seq![s.hands[1], s.hands[0]],
                forall|k: int| 0 <= k < i ==> self.board[k] == negated(s.board)[k],
                forall|k: int| i <= k < 24 ==> self.board[k] == s.board[k],
            decreases 24 - i,
        {
            assert(s.board[i as int] == 0 || s.board[i as int] == 1 || s.board[i as int] == -1);
            self.board[i] = -self.board[i];
            i += 1;
        }
        assert(self.board@ =~= negated(s.board));
    }

    /// This position turned a quarter turn.
    pub fn d4rotation(&self) -> (r: State)
        ensures
            r@ == rotation(self@),
    {
        let mut state = *self;
        let mut i: usize = 0;
        while i < 24
            invariant
                0 <= i <= 24,
                state.hands == self.hands,
                forall|k: int| 0 <= k < i ==> state.board[k] == self.board[rotated(k)],
            decreases 24 - i,
        {
            state.board[i] = self.board[rotation_source(i)];
            i += 1;
        }
        assert(state.board@ =~= rotation(self@).board);
        state
    }

    /// This position reflected left to right.
    pub fn d4mirror(&self) -> (r: State)
        ensures
            r@ == reflection(self@),
    {
        let mut state = *self;
        let mut i: usize = 0;
        while i < 24
            invariant
                0 <= i <= 24,
                state.hands == self.hands,
                forall|k: int| 0 <= k < i ==> state.board[k] == self.board[mirrored(k)],
            decreases 24 - i,
        {
            state.board[i] = self.board[mirror_source(i)];
            i += 1;
        }
        assert(state.board@ =~= reflection(self@).board);
        state
    }

    /// The eight images of this position under the symmetries of the board.
    pub fn symmetries(&self) -> (r: Vec<State>)
        ensures
            r@.len() == 8,
            forall|k: int| 0 <= k < 8 ==> #[trigger] r@[k]@ == image(self@, k),
    {
        let s = *self;
        let r1 = s.d4rotation();
        let r2 = r1.d4rotation();
        let r3 = r2.d4rotation();
        let m0 = s.d4mirror();
        let m1 = m0.d4rotation();
        let m2 = m1.d4rotation();
        let m3 = m2.d4rotation();
        proof {
            reveal_with_fuel(turned, 4);
        }
        let r = vec![s, r1, r2, r3, m0, m1, m2, m3];
        assert(r@[0]@ == image(self@, 0));
        assert(r@[1]@ == image(self@, 1));
        assert(r@[2]@ == image(self@, 2));
        assert(r@[3]@ == image(self@, 3));
        assert(r@[4]@ == image(self@, 4));
        assert(r@[5]@ == image(self@, 5));
        assert(r@[6]@ == image(self@, 6));
        assert(r@[7]@ == image(self@, 7));
        r
    }
}

} // verus!
