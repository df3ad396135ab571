//! Properties that hold of the rules engine, stated over the models.
use crate::state::{
    captures, count, evaluation, hand_index, image, in_mill, is_player, mill_score, mills_score,
    moved, negated, other, outcomes, placements, reflection, removable, rotation, slides,
    slides_from, successors, swapped, tally, turned, valid_cells, well_formed, without, won,
    Position,
};
use crate::topology::{
    adjacent, is_cell, lemma_moved_adjacent, lemma_neighbours, neighbours, lemma_mirrored_order, lemma_mirrored_partners, lemma_rotated_order,
    lemma_rotated_partners, mirrored, rotated,
};
use vstd::prelude::*;

verus! {

/// A model of a [`crate::state::State`]: 24 cells and two hands.
pub open spec fn shaped(s: Position) -> bool {
    s.board.len() == 24 && s.hands.len() == 2
}

/// Setting one cell changes the number of cells holding `v` by at most one.
pub proof fn lemma_count_update(b: Seq<i32>, i: int, x: i32, v: i32)
    requires
        0 <= i < b.len(),
    ensures
        count(b.update(i, x), v) == count(b, v) - (if b[i] == v {
            1int
        } else {
            0
        }) + (if x == v {
            1int
        } else {
            0
        }),
    decreases b.len(),
{
    let c = b.update(i, x);
    if i == b.len() - 1 {
        assert(c.drop_last() =~= b.drop_last());
    } else {
        assert(c.drop_last() =~= b.drop_last().update(i, x));
        lemma_count_update(b.drop_last(), i, x, v);
    }
}

/// Negating a board exchanges the counts of the two players.
pub proof fn lemma_count_negated(b: Seq<i32>, v: i32)
    requires
        valid_cells(b),
        is_player(v),
    ensures
        count(negated(b), v) == count(b, other(v)),
    decreases b.len(),
{
    if b.len() > 0 {
        assert(negated(b).drop_last() =~= negated(b.drop_last()));
        assert(valid_cells(b.drop_last())) by {
            assert forall|i: int| 0 <= i < b.drop_last().len() implies #[trigger] b.drop_last()[i]
                == 0 || b.drop_last()[i] == 1 || b.drop_last()[i] == -1 by {
                assert(b.drop_last()[i] == b[i]);
            }
        }
        assert(b.last() == b[b.len() - 1]);
        lemma_count_negated(b.drop_last(), v);
    }
}

/// A move that closes no mill has exactly one outcome, and the pieces of
/// each player, on the board and in hand together, are as many as before: a
/// placement moves one piece from the hand to the board, a slide changes
/// neither.
pub proof fn law_quiet_move(s: Position, p: i32, from: int, to: int)
    requires
        shaped(s),
        is_player(p),
        is_cell(from),
        is_cell(to),
        s.board[to] == 0,
        (from == to && s.hands[hand_index(p)] > 0) || (from != to && s.board[from] == p),
        !in_mill(moved(s, p, from, to).board, to, p),
    ensures
        ({
            let m = moved(s, p, from, to);
            &&& outcomes(s, p, from, to) == seq![m]
            &&& count(m.board, p) + m.hands[hand_index(p)] == count(s.board, p) + s.hands[hand_index(
                p,
            )]
            &&& count(m.board, other(p)) == count(s.board, other(p))
            &&& m.hands[hand_index(other(p))] == s.hands[hand_index(other(p))]
            &&& from == to ==> count(m.board, p) == count(s.board, p) + 1
            &&& from != to ==> count(m.board, p) == count(s.board, p) && m.hands == s.hands
        }),
{
    let b1 = s.board.update(from, 0);
    lemma_count_update(s.board, from, 0, p);
    lemma_count_update(s.board, from, 0, other(p));
    lemma_count_update(b1, to, p, p);
    lemma_count_update(b1, to, p, other(p));
}

/// Seeing a position twice from the other side gives it back.
pub proof fn law_swap_involution(s: Position)
    requires
        shaped(s),
        valid_cells(s.board),
    ensures
        swapped(swapped(s)) == s,
{
    assert(swapped(swapped(s)).board =~= s.board);
    assert(swapped(swapped(s)).hands =~= s.hands);
}

/// The worth of a position seen from the other side is the opposite.
pub proof fn law_value_swap(s: Position)
    requires
        shaped(s),
        valid_cells(s.board),
    ensures
        evaluation(swapped(s)) == -evaluation(s),
{
    let b = s.board;
    let nb = negated(b);
    assert forall|m: int| 0 <= m < 16 implies tally(nb, m, 1) == tally(b, m, -1i32) && tally(
        nb,
        m,
        -1i32,
    ) == tally(b, m, 1) by {
        lemma_mill_in_board(m);
    }
    lemma_mills_score_negated(b, 16);
    lemma_count_negated(b, 1);
    lemma_count_negated(b, -1i32);
}

proof fn lemma_mill_in_board(m: int)
    requires
        0 <= m < 16,
    ensures
        is_cell(crate::topology::mill(m).0),
        is_cell(crate::topology::mill(m).1),
        is_cell(crate::topology::mill(m).2),
{
}

spec fn tallies_exchanged(b: Seq<i32>) -> bool {
    forall|m: int|
        0 <= m < 16 ==> #[trigger] tally(negated(b), m, 1) == tally(b, m, -1i32) && tally(
            negated(b),
            m,
            -1i32,
        ) == tally(b, m, 1)
}

proof fn lemma_mills_score_negated(b: Seq<i32>, n: int)
    requires
        0 <= n <= 16,
        tallies_exchanged(b),
    ensures
        mills_score(negated(b), n) == -mills_score(b, n),
    decreases n,
{
    if n > 0 {
        lemma_mills_score_negated(b, n - 1);
        let me = tally(b, n - 1, 1);
        let op = tally(b, n - 1, -1i32);
        assert(mill_score(op, me) == -mill_score(me, op));
    }
}

/// What a capture by `p` in `m` changes: one piece of the opponent leaves
/// the board, from a cell that no mill of the opponent passes through.
pub open spec fn capture_of(m: Position, t: Position, p: i32) -> bool {
    &&& t.hands == m.hands
    &&& t.board.len() == 24
    &&& count(t.board, other(p)) + 1 == count(m.board, other(p))
    &&& count(t.board, p) == count(m.board, p)
    &&& forall|i: int| is_cell(i) && t.board[i] != m.board[i] ==> removable(m.board, i, p)
    &&& forall|i: int| is_cell(i) ==> t.board[i] == m.board[i] || t.board[i] == 0
}

/// Every position in the captures open to `p` in `m` is a capture.
pub proof fn lemma_captures(m: Position, p: i32, n: int)
    requires
        shaped(m),
        is_player(p),
        0 <= n <= 24,
    ensures
        forall|k: int|
            0 <= k < captures(m, p, n).len() ==> capture_of(m, #[trigger] captures(m, p, n)[k], p),
    decreases n,
{
    if n > 0 {
        lemma_captures(m, p, n - 1);
        let prev = captures(m, p, n - 1);
        let cur = captures(m, p, n);
        if removable(m.board, n - 1, p) {
            lemma_count_update(m.board, n - 1, 0, p);
            lemma_count_update(m.board, n - 1, 0, other(p));
            assert(capture_of(m, without(m, n - 1), p));
        }
        assert forall|k: int| 0 <= k < cur.len() implies capture_of(m, #[trigger] cur[k], p) by {
            if k < prev.len() {
                assert(cur[k] == prev[k]);
            } else {
                assert(cur[k] == without(m, n - 1));
            }
        }
    }
}

/// Every capture that follows a move has one opponent piece less on the
/// board than the position right after the move, keeps the hands, and
/// empties only a cell that no mill of the opponent passes through.
pub proof fn law_capture_branches(s: Position, p: i32, from: int, to: int)
    requires
        shaped(s),
        is_player(p),
        is_cell(from),
        is_cell(to),
    ensures
        ({
            let r = outcomes(s, p, from, to);
            &&& r[0] == moved(s, p, from, to)
            &&& forall|k: int|
                1 <= k < r.len() ==> count(#[trigger] r[k].board, other(p)) + 1 == count(
                    r[0].board,
                    other(p),
                ) && r[k].hands == r[0].hands
            &&& forall|k: int, i: int|
                1 <= k < r.len() && is_cell(i) && in_mill(r[0].board, i, other(p))
                    ==> #[trigger] r[k].board[i] == r[0].board[i]
        }),
{
    let m = moved(s, p, from, to);
    let r = outcomes(s, p, from, to);
    if in_mill(m.board, to, p) {
        lemma_captures(m, p, 24);
        let c = captures(m, p, 24);
        assert forall|k: int| 1 <= k < r.len() implies count(#[trigger] r[k].board, other(p)) + 1
            == count(r[0].board, other(p)) && r[k].hands == r[0].hands && (forall|i: int|
            is_cell(i) && in_mill(r[0].board, i, other(p)) ==> r[k].board[i] == r[0].board[i]) by {
            assert(r[k] == c[k - 1]);
            assert(capture_of(m, c[k - 1], p));
        }
    }
}

/// What a player's move never gives back to the opponent `other(q)`: their
/// hand, and pieces on the board; and, once `q` has no piece in hand, it
/// gives `q` neither pieces in hand nor pieces on the board.
pub open spec fn no_gain(s: Position, t: Position, q: i32) -> bool {
    &&& t.hands[hand_index(other(q))] == s.hands[hand_index(other(q))]
    &&& count(t.board, other(q)) <= count(s.board, other(q))
    &&& s.hands[hand_index(q)] == 0 ==> t.hands[hand_index(q)] == 0 && count(t.board, q) <= count(
        s.board,
        q,
    )
}

/// What one move of `q` from `s` to `t` keeps.
pub open spec fn follows(s: Position, t: Position, q: i32) -> bool {
    no_gain(s, t, q) && within(s, t)
}

proof fn lemma_outcomes_follows(s: Position, q: i32, from: int, to: int)
    requires
        shaped(s),
        is_player(q),
        is_cell(from),
        is_cell(to),
        s.board[to] == 0,
        (from == to && s.hands[hand_index(q)] > 0) || (from != to && s.board[from] == q),
    ensures
        forall|k: int|
            0 <= k < outcomes(s, q, from, to).len() ==> follows(
                s,
                #[trigger] outcomes(s, q, from, to)[k],
                q,
            ),
{
    let m = moved(s, q, from, to);
    let r = outcomes(s, q, from, to);
    let b1 = s.board.update(from, 0);
    lemma_count_update(s.board, from, 0, q);
    lemma_count_update(s.board, from, 0, other(q));
    lemma_count_update(b1, to, q, q);
    lemma_count_update(b1, to, q, other(q));
    assert(valid_cells(s.board) ==> valid_cells(m.board));
    assert(follows(s, m, q));
    if in_mill(m.board, to, q) {
        lemma_captures(m, q, 24);
        let c = captures(m, q, 24);
        assert forall|k: int| 0 <= k < r.len() implies follows(s, #[trigger] r[k], q) by {
            if k > 0 {
                assert(r[k] == c[k - 1]);
                assert(capture_of(m, c[k - 1], q));
                let t = c[k - 1];
                assert(valid_cells(s.board) ==> valid_cells(t.board)) by {
                    if valid_cells(s.board) {
                        assert forall|i: int| 0 <= i < t.board.len() implies #[trigger] t.board[i]
                            == 0 || t.board[i] == 1 || t.board[i] == -1 by {
                            assert(is_cell(i));
                            assert(m.board[i] == s.board.update(from, 0).update(to, q)[i]);
                        }
                    }
                }
            }
        }
    }
}

proof fn lemma_placements_follows(s: Position, q: i32, n: int)
    requires
        shaped(s),
        is_player(q),
        s.hands[hand_index(q)] > 0,
        0 <= n <= 24,
    ensures
        forall|k: int|
            0 <= k < placements(s, q, n).len() ==> follows(s, #[trigger] placements(s, q, n)[k], q),
    decreases n,
{
    if n > 0 {
        lemma_placements_follows(s, q, n - 1);
        if s.board[n - 1] == 0 {
            lemma_outcomes_follows(s, q, n - 1, n - 1);
        }
        let prev = placements(s, q, n - 1);
        let cur = placements(s, q, n);
        assert forall|k: int| 0 <= k < cur.len() implies follows(s, #[trigger] cur[k], q) by {
            if k < prev.len() {
                assert(cur[k] == prev[k]);
            } else {
                assert(cur[k] == outcomes(s, q, n - 1, n - 1)[k - prev.len()]);
            }
        }
    }
}

proof fn lemma_slides_from_follows(s: Position, q: i32, i: int, n: int)
    requires
        shaped(s),
        is_player(q),
        is_cell(i),
        0 <= n <= neighbours(i).len(),
    ensures
        forall|k: int|
            0 <= k < slides_from(s, q, i, n).len() ==> follows(
                s,
                #[trigger] slides_from(s, q, i, n)[k],
                q,
            ),
    decreases n,
{
    if n > 0 {
        lemma_slides_from_follows(s, q, i, n - 1);
        let prev = slides_from(s, q, i, n - 1);
        let cur = slides_from(s, q, i, n);
        let j = neighbours(i)[n - 1];
        lemma_neighbours(i);
        if s.board[i] == q && s.board[j] == 0 {
            lemma_outcomes_follows(s, q, i, j);
        }
        assert forall|k: int| 0 <= k < cur.len() implies follows(s, #[trigger] cur[k], q) by {
            if k < prev.len() {
                assert(cur[k] == prev[k]);
            } else {
                assert(cur[k] == outcomes(s, q, i, j)[k - prev.len()]);
            }
        }
    }
}

proof fn lemma_slides_follows(s: Position, q: i32, n: int)
    requires
        shaped(s),
        is_player(q),
        0 <= n <= 24,
    ensures
        forall|k: int|
            0 <= k < slides(s, q, n).len() ==> follows(s, #[trigger] slides(s, q, n)[k], q),
    decreases n,
{
    if n > 0 {
        lemma_slides_follows(s, q, n - 1);
        lemma_slides_from_follows(s, q, n - 1, neighbours(n - 1).len() as int);
        let prev = slides(s, q, n - 1);
        let cur = slides(s, q, n);
        assert forall|k: int| 0 <= k < cur.len() implies follows(s, #[trigger] cur[k], q) by {
            if k < prev.len() {
                assert(cur[k] == prev[k]);
            } else {
                assert(cur[k] == slides_from(s, q, n - 1, neighbours(n - 1).len() as int)[k
                    - prev.len()]);
            }
        }
    }
}

/// A position reached by one move: it has the shape of a position, its
/// cells stay empty or held by a player, and neither player has more pieces,
/// on the board and in hand together, than in `s`.
pub open spec fn within(s: Position, t: Position) -> bool {
    &&& shaped(t)
    &&& valid_cells(s.board) ==> valid_cells(t.board)
    &&& count(t.board, 1) + t.hands[0] <= count(s.board, 1) + s.hands[0]
    &&& count(t.board, -1i32) + t.hands[1] <= count(s.board, -1i32) + s.hands[1]
}

/// Every successor of a well-formed position is well-formed.
pub proof fn law_successors_well_formed(s: Position, q: i32)
    requires
        well_formed(s),
        is_player(q),
    ensures
        forall|k: int|
            0 <= k < successors(s, q).len() ==> well_formed(#[trigger] successors(s, q)[k]),
{
    if s.hands[hand_index(q)] > 0 {
        lemma_placements_follows(s, q, 24);
    } else {
        lemma_slides_follows(s, q, 24);
    }
    let r = successors(s, q);
    assert forall|k: int| 0 <= k < r.len() implies well_formed(#[trigger] r[k]) by {
        assert(follows(s, r[k], q));
    }
}

/// Once `p` has won, every successor of the position, whichever player
/// moves, is still won by `p`.
pub proof fn law_win_kept(s: Position, p: i32, q: i32)
    requires
        shaped(s),
        is_player(p),
        is_player(q),
        won(s, p),
    ensures
        forall|k: int|
            0 <= k < successors(s, q).len() ==> won(#[trigger] successors(s, q)[k], p),
{
    if s.hands[hand_index(q)] > 0 {
        lemma_placements_follows(s, q, 24);
    } else {
        lemma_slides_follows(s, q, 24);
    }
    let r = successors(s, q);
    assert forall|k: int| 0 <= k < r.len() implies won(#[trigger] r[k], p) by {
        assert(follows(s, r[k], q));
    }
}

/// The cell of `s` whose content lies on `c` after `n` quarter turns.
pub open spec fn turned_cell(c: int, n: nat) -> int
    decreases n,
{
    if n == 0 {
        c
    } else {
        turned_cell(rotated(c), (n - 1) as nat)
    }
}

/// The cell of `s` whose content lies on `c` in `image(s, k)`.
pub open spec fn image_cell(k: int, c: int) -> int {
    if k < 4 {
        turned_cell(c, k as nat)
    } else {
        mirrored(turned_cell(c, (k - 4) as nat))
    }
}

/// Four quarter turns give the position back.
pub proof fn law_rotation_order(s: Position)
    requires
        shaped(s),
    ensures
        turned(s, 4) == s,
{
    lemma_turned(s, 4);
    reveal_with_fuel(turned_cell, 5);
    lemma_turned_cell(0, 4);
    assert forall|c: int| is_cell(c) implies #[trigger] turned(s, 4).board[c] == s.board[c] by {
        lemma_rotated_order(c);
    }
    assert(turned(s, 4).board =~= s.board);
}

/// Two reflections give the position back.
pub proof fn law_reflection_order(s: Position)
    requires
        shaped(s),
    ensures
        reflection(reflection(s)) == s,
{
    assert forall|c: int| is_cell(c) implies #[trigger] reflection(reflection(s)).board[c]
        == s.board[c] by {
        lemma_mirrored_order(c);
    }
    assert(reflection(reflection(s)).board =~= s.board);
}

/// A mill of `p` passes through `c` after a quarter turn exactly when one
/// passed through the cell that moved there.
pub proof fn law_rotation_keeps_mills(s: Position, c: int, p: i32)
    requires
        shaped(s),
        is_cell(c),
    ensures
        in_mill(rotation(s).board, c, p) == in_mill(s.board, rotated(c), p),
{
    lemma_rotated_order(c);
    lemma_rotated_partners(c, 0);
    lemma_rotated_partners(c, 1);
}

/// A mill of `p` passes through `c` after the reflection exactly when one
/// passed through the cell that moved there.
pub proof fn law_reflection_keeps_mills(s: Position, c: int, p: i32)
    requires
        shaped(s),
        is_cell(c),
    ensures
        in_mill(reflection(s).board, c, p) == in_mill(s.board, mirrored(c), p),
{
    lemma_mirrored_order(c);
    lemma_rotated_partners(c, 0);
    lemma_rotated_partners(c, 1);
    lemma_mirrored_partners(c);
}

proof fn lemma_turned_cell(c: int, n: nat)
    requires
        is_cell(c),
    ensures
        is_cell(turned_cell(c, n)),
    decreases n,
{
    if n > 0 {
        lemma_rotated_order(c);
        lemma_turned_cell(rotated(c), (n - 1) as nat);
    }
}

proof fn lemma_turned(s: Position, n: nat)
    requires
        shaped(s),
    ensures
        shaped(turned(s, n)),
        turned(s, n).hands == s.hands,
        forall|c: int|
            is_cell(c) ==> #[trigger] turned(s, n).board[c] == s.board[turned_cell(c, n)],
        forall|c: int, p: i32|
            is_cell(c) ==> #[trigger] in_mill(turned(s, n).board, c, p) == in_mill(
                s.board,
                turned_cell(c, n),
                p,
            ),
    decreases n,
{
    if n > 0 {
        let t = turned(s, (n - 1) as nat);
        lemma_turned(s, (n - 1) as nat);
        assert forall|c: int| is_cell(c) implies #[trigger] turned(
            s,
            n,
        ).board[c] == s.board[turned_cell(c, n)] by {
            lemma_rotated_order(c);
            assert(turned(s, n) == rotation(t));
            assert(rotation(t).board[c] == t.board[rotated(c)]);
            assert(t.board[rotated(c)] == s.board[turned_cell(rotated(c), (n - 1) as nat)]);
        }
        assert forall|c: int, p: i32| is_cell(c) implies #[trigger] in_mill(
            turned(s, n).board,
            c,
            p,
        ) == in_mill(s.board, turned_cell(c, n), p) by {
            lemma_rotated_order(c);
            law_rotation_keeps_mills(t, c, p);
        }
    } else {
        assert(turned(s, n) == s);
        assert forall|c: int| is_cell(c) implies #[trigger] turned(
            s,
            n,
        ).board[c] == s.board[turned_cell(c, n)] by {
            assert(turned_cell(c, 0) == c);
        }
    }
}

proof fn lemma_turned_cell_injective(c: int, d: int, n: nat)
    requires
        is_cell(c),
        is_cell(d),
        c != d,
    ensures
        turned_cell(c, n) != turned_cell(d, n),
    decreases n,
{
    if n > 0 {
        lemma_rotated_order(c);
        lemma_rotated_order(d);
        lemma_rotated_order(rotated(c));
        lemma_rotated_order(rotated(d));
        lemma_rotated_order(rotated(rotated(c)));
        lemma_rotated_order(rotated(rotated(d)));
        lemma_turned_cell_injective(rotated(c), rotated(d), (n - 1) as nat);
    }
}

proof fn lemma_turned_cell_adjacent(c: int, d: int, n: nat)
    requires
        is_cell(c),
        is_cell(d),
    ensures
        adjacent(turned_cell(c, n), turned_cell(d, n)) == adjacent(c, d),
    decreases n,
{
    if n > 0 {
        lemma_rotated_order(c);
        lemma_rotated_order(d);
        lemma_moved_adjacent(c, d);
        lemma_turned_cell_adjacent(rotated(c), rotated(d), (n - 1) as nat);
    }
}

proof fn lemma_image(s: Position, k: int)
    requires
        shaped(s),
        0 <= k < 8,
    ensures
        shaped(image(s, k)) && image(s, k).hands == s.hands,
        forall|c: int| is_cell(c) ==> is_cell(#[trigger] image_cell(k, c)),
        forall|c: int| is_cell(c) ==> #[trigger] image(s, k).board[c] == s.board[image_cell(k, c)],
        forall|c: int, d: int|
            is_cell(c) && is_cell(d) && c != d ==> #[trigger] image_cell(k, c) != #[trigger] image_cell(
                k,
                d,
            ),
        forall|c: int, d: int|
            is_cell(c) && is_cell(d) ==> #[trigger] adjacent(image_cell(k, c), image_cell(k, d))
                == adjacent(c, d),
        forall|c: int, p: i32|
            is_cell(c) ==> #[trigger] in_mill(image(s, k).board, c, p) == in_mill(
                s.board,
                image_cell(k, c),
                p,
            ),
{
    if k < 4 {
        lemma_turned(s, k as nat);
        assert forall|c: int, d: int| is_cell(c) && is_cell(d) implies #[trigger] adjacent(
            image_cell(k, c),
            image_cell(k, d),
        ) == adjacent(c, d) by {
            lemma_turned_cell_adjacent(c, d, k as nat);
        }
        assert forall|c: int| is_cell(c) implies is_cell(#[trigger] image_cell(k, c)) by {
            lemma_turned_cell(c, k as nat);
        }
        assert forall|c: int, d: int| is_cell(c) && is_cell(d) && c != d implies #[trigger] image_cell(
            k,
            c,
        ) != #[trigger] image_cell(k, d) by {
            lemma_turned_cell_injective(c, d, k as nat);
        }
    } else {
        let r = reflection(s);
        let n = (k - 4) as nat;
        lemma_turned(r, n);
        assert forall|c: int, d: int| is_cell(c) && is_cell(d) implies #[trigger] adjacent(
            image_cell(k, c),
            image_cell(k, d),
        ) == adjacent(c, d) by {
            lemma_turned_cell_adjacent(c, d, n);
            lemma_turned_cell(c, n);
            lemma_turned_cell(d, n);
            lemma_moved_adjacent(turned_cell(c, n), turned_cell(d, n));
        }
        assert forall|c: int| is_cell(c) implies is_cell(#[trigger] image_cell(k, c)) by {
            lemma_turned_cell(c, n);
            lemma_mirrored_order(turned_cell(c, n));
        }
        assert forall|c: int| is_cell(c) implies #[trigger] image(s, k).board[c] == s.board[image_cell(
            k,
            c,
        )] by {
            lemma_turned_cell(c, n);
            lemma_mirrored_order(turned_cell(c, n));
        }
        assert forall|c: int, d: int| is_cell(c) && is_cell(d) && c != d implies #[trigger] image_cell(
            k,
            c,
        ) != #[trigger] image_cell(k, d) by {
            lemma_turned_cell_injective(c, d, n);
            lemma_turned_cell(c, n);
            lemma_turned_cell(d, n);
            lemma_mirrored_order(turned_cell(c, n));
            lemma_mirrored_order(turned_cell(d, n));
        }
        assert forall|c: int, p: i32| is_cell(c) implies #[trigger] in_mill(
            image(s, k).board,
            c,
            p,
        ) == in_mill(s.board, image_cell(k, c), p) by {
            lemma_turned_cell(c, n);
            law_reflection_keeps_mills(s, turned_cell(c, n), p);
        }
    }
}

/// Each of the eight images of a position keeps the hands and places on
/// every cell `c` the content of cell `image_cell(k, c)`; these cells are
/// all distinct, and a mill of either player passes through `c` in the
/// image exactly when one passes through `image_cell(k, c)` in the position;
/// two cells are joined by an edge exactly when the cells they come from are.
pub proof fn law_images(s: Position)
    requires
        shaped(s),
    ensures
        forall|k: int|
            0 <= k < 8 ==> shaped(#[trigger] image(s, k)) && image(s, k).hands == s.hands,
        forall|k: int, c: int| 0 <= k < 8 && is_cell(c) ==> is_cell(#[trigger] image_cell(k, c)),
        forall|k: int, c: int|
            0 <= k < 8 && is_cell(c) ==> #[trigger] image(s, k).board[c] == s.board[image_cell(
                k,
                c,
            )],
        forall|k: int, c: int, d: int|
            0 <= k < 8 && is_cell(c) && is_cell(d) && c != d ==> #[trigger] image_cell(k, c)
                != #[trigger] image_cell(k, d),
        forall|k: int, c: int, p: i32|
            0 <= k < 8 && is_cell(c) ==> #[trigger] in_mill(image(s, k).board, c, p) == in_mill(
                s.board,
                image_cell(k, c),
                p,
            ),
        forall|k: int, c: int, d: int|
            0 <= k < 8 && is_cell(c) && is_cell(d) ==> #[trigger] adjacent(
                image_cell(k, c),
                image_cell(k, d),
            ) == adjacent(c, d),
{
    assert forall|k: int, c: int, d: int|
        0 <= k < 8 && is_cell(c) && is_cell(d) implies #[trigger] adjacent(
        image_cell(k, c),
        image_cell(k, d),
    ) == adjacent(c, d) by {
        lemma_image(s, k);
    }
    assert forall|k: int| 0 <= k < 8 implies shaped(#[trigger] image(s, k)) && image(s, k).hands
        == s.hands by {
        lemma_image(s, k);
    }
    assert forall|k: int, c: int| 0 <= k < 8 && is_cell(c) implies is_cell(
        #[trigger] image_cell(k, c),
    ) by {
        lemma_image(s, k);
    }
    assert forall|k: int, c: int| 0 <= k < 8 && is_cell(c) implies #[trigger] image(s, k).board[c]
        == s.board[image_cell(k, c)] by {
        lemma_image(s, k);
    }
    assert forall|k: int, c: int, d: int|
        0 <= k < 8 && is_cell(c) && is_cell(d) && c != d implies #[trigger] image_cell(k, c)
        != #[trigger] image_cell(k, d) by {
        lemma_image(s, k);
    }
    assert forall|k: int, c: int, p: i32|
        0 <= k < 8 && is_cell(c) implies #[trigger] in_mill(image(s, k).board, c, p) == in_mill(
        s.board,
        image_cell(k, c),
        p,
    ) by {
        lemma_image(s, k);
    }
}

/// Number of the cells below `n` of `b` that hold `v`, counted from the front.
pub open spec fn count_below(b: Seq<i32>, v: i32, n: int) -> int
    decreases n,
{
    if n <= 0 {
        0
    } else {
        count_below(b, v, n - 1) + held(b, n - 1, v)
    }
}

proof fn lemma_count_below(b: Seq<i32>, v: i32, n: int)
    requires
        0 <= n <= b.len(),
    ensures
        count(b.take(n), v) == count_below(b, v, n),
    decreases n,
{
    if n > 0 {
        assert(b.take(n).drop_last() =~= b.take(n - 1));
        lemma_count_below(b, v, n - 1);
    }
}

/// 1 when cell `i` of `b` holds `v`, else 0.
pub open spec fn held(b: Seq<i32>, i: int, v: i32) -> int {
    if b[i] == v {
        1
    } else {
        0
    }
}

proof fn lemma_count_board(b: Seq<i32>, v: i32)
    requires
        b.len() == 24,
    ensures
        count(b, v) == held(b, 0, v) + held(b, 1, v) + held(b, 2, v) + held(b, 3, v) + held(b, 4, v) + held(b, 5, v) + held(b, 6, v) + held(b, 7, v) + held(b, 8, v) + held(b, 9, v) + held(b, 10, v) + held(b, 11, v) + held(b, 12, v) + held(b, 13, v) + held(b, 14, v) + held(b, 15, v) + held(b, 16, v) + held(b, 17, v) + held(b, 18, v) + held(b, 19, v) + held(b, 20, v) + held(b, 21, v) + held(b, 22, v) + held(b, 23, v),
{
    lemma_count_below(b, v, 24);
    assert(b.take(24) =~= b);
    assert(count_below(b, v, 1) == count_below(b, v, 0) + held(b, 0, v));
    assert(count_below(b, v, 2) == count_below(b, v, 1) + held(b, 1, v));
    assert(count_below(b, v, 3) == count_below(b, v, 2) + held(b, 2, v));
    assert(count_below(b, v, 4) == count_below(b, v, 3) + held(b, 3, v));
    assert(count_below(b, v, 5) == count_below(b, v, 4) + held(b, 4, v));
    assert(count_below(b, v, 6) == count_below(b, v, 5) + held(b, 5, v));
    assert(count_below(b, v, 7) == count_below(b, v, 6) + held(b, 6, v));
    assert(count_below(b, v, 8) == count_below(b, v, 7) + held(b, 7, v));
    assert(count_below(b, v, 9) == count_below(b, v, 8) + held(b, 8, v));
    assert(count_below(b, v, 10) == count_below(b, v, 9) + held(b, 9, v));
    assert(count_below(b, v, 11) == count_below(b, v, 10) + held(b, 10, v));
    assert(count_below(b, v, 12) == count_below(b, v, 11) + held(b, 11, v));
    assert(count_below(b, v, 13) == count_below(b, v, 12) + held(b, 12, v));
    assert(count_below(b, v, 14) == count_below(b, v, 13) + held(b, 13, v));
    assert(count_below(b, v, 15) == count_below(b, v, 14) + held(b, 14, v));
    assert(count_below(b, v, 16) == count_below(b, v, 15) + held(b, 15, v));
    assert(count_below(b, v, 17) == count_below(b, v, 16) + held(b, 16, v));
    assert(count_below(b, v, 18) == count_below(b, v, 17) + held(b, 17, v));
    assert(count_below(b, v, 19) == count_below(b, v, 18) + held(b, 18, v));
    assert(count_below(b, v, 20) == count_below(b, v, 19) + held(b, 19, v));
    assert(count_below(b, v, 21) == count_below(b, v, 20) + held(b, 20, v));
    assert(count_below(b, v, 22) == count_below(b, v, 21) + held(b, 21, v));
    assert(count_below(b, v, 23) == count_below(b, v, 22) + held(b, 22, v));
    assert(count_below(b, v, 24) == count_below(b, v, 23) + held(b, 23, v));
}

/// The reflection keeps the number of pieces of each player.
#[verifier::spinoff_prover]
#[verifier::rlimit(100)]
pub proof fn law_reflection_keeps_counts(s: Position, v: i32)
    requires
        shaped(s),
    ensures
        count(reflection(s).board, v) == count(s.board, v),
{
    crate::topology::lemma_mirrored_table();
    assert(reflection(s).board[0] == s.board[2]);
    assert(reflection(s).board[1] == s.board[1]);
    assert(reflection(s).board[2] == s.board[0]);
    assert(reflection(s).board[3] == s.board[7]);
    assert(reflection(s).board[4] == s.board[6]);
    assert(reflection(s).board[5] == s.board[5]);
    assert(reflection(s).board[6] == s.board[4]);
    assert(reflection(s).board[7] == s.board[3]);
    assert(reflection(s).board[8] == s.board[10]);
    assert(reflection(s).board[9] == s.board[9]);
    assert(reflection(s).board[10] == s.board[8]);
    assert(reflection(s).board[11] == s.board[15]);
    assert(reflection(s).board[12] == s.board[14]);
    assert(reflection(s).board[13] == s.board[13]);
    assert(reflection(s).board[14] == s.board[12]);
    assert(reflection(s).board[15] == s.board[11]);
    assert(reflection(s).board[16] == s.board[18]);
    assert(reflection(s).board[17] == s.board[17]);
    assert(reflection(s).board[18] == s.board[16]);
    assert(reflection(s).board[19] == s.board[23]);
    assert(reflection(s).board[20] == s.board[22]);
    assert(reflection(s).board[21] == s.board[21]);
    assert(reflection(s).board[22] == s.board[20]);
    assert(reflection(s).board[23] == s.board[19]);
    lemma_count_board(s.board, v);
    lemma_count_board(reflection(s).board, v);
}

} // verus!
