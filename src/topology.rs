//! Board geometry.
//!
//! The 24 cells lie on three concentric squares (0 outer, 1 middle, 2 inner).
//! On each square the eight points are numbered clockwise from the top-left
//! corner, so cell `8 * q + k` is point `k` of square `q`; even points are
//! corners and odd points are midpoints.
//!
//! ```text
//! 00       01       02
//!    08    09    10
//!       16 17 18
//! 07 15 23    19 11 03
//!       22 21 20
//!    14    13    12
//! 06       05       04
//! ```
use vstd::prelude::*;

verus! {

pub open spec fn is_cell(c: int) -> bool {
    0 <= c < 24
}

/// The square that holds cell `c`.
pub open spec fn square(c: int) -> int {
    c / 8
}

/// The point of cell `c` on its square.
pub open spec fn spot(c: int) -> int {
    c % 8
}

/// Cell at point `k` (taken modulo 8) of square `q`.
pub open spec fn cell_at(q: int, k: int) -> int {
    8 * q + k % 8
}

/// The two other cells of the `w`-th mill (`w` is 0 or 1) through cell `c`.
/// A corner lies on the two sides of its square that meet there; a midpoint
/// lies on its side and on the cross line joining the three squares.
pub open spec fn partners(c: int, w: int) -> (int, int) {
    let q = square(c);
    let k = spot(c);
    if k % 2 == 0 {
        if w == 0 {
            (cell_at(q, k + 1), cell_at(q, k + 2))
        } else {
            (cell_at(q, k + 7), cell_at(q, k + 6))
        }
    } else {
        if w == 0 {
            (cell_at(q, k + 7), cell_at(q, k + 1))
        } else {
            (cell_at((q + 1) % 3, k), cell_at((q + 2) % 3, k))
        }
    }
}

/// Cells `c` and `d` are joined by an edge: neighbours on one square, or the
/// same midpoint on neighbouring squares.
pub open spec fn adjacent(c: int, d: int) -> bool {
    ||| square(c) == square(d) && spot(d) == (spot(c) + 1) % 8
    ||| square(c) == square(d) && spot(c) == (spot(d) + 1) % 8
    ||| spot(c) % 2 == 1 && spot(c) == spot(d) && (square(c) == square(d) + 1 || square(d)
        == square(c) + 1)
}

/// The cell whose content moves to `c` under a quarter turn of the board.
pub open spec fn rotated(c: int) -> int {
    cell_at(square(c), spot(c) + 2)
}

/// The cell whose content moves to `c` under the left-right reflection.
pub open spec fn mirrored(c: int) -> int {
    cell_at(square(c), 10 - spot(c))
}

/// The `m`-th of the 16 mills (`m < 16`): the twelve sides, square by square,
/// then the four cross lines.
pub open spec fn mill(m: int) -> (int, int, int) {
    if m < 12 {
        let q = m / 4;
        let k = 2 * (m % 4);
        (cell_at(q, k), cell_at(q, k + 1), cell_at(q, k + 2))
    } else {
        let k = 2 * (m - 12) + 1;
        (k, 8 + k, 16 + k)
    }
}

/// The two other cells of the `w`-th mill through `c`.
pub fn mill_partners(c: usize, w: usize) -> (r: (usize, usize))
    requires
        c < 24,
        w < 2,
    ensures
        r.0 as int == partners(c as int, w as int).0,
        r.1 as int == partners(c as int, w as int).1,
        r.0 < 24,
        r.1 < 24,
{
    let q = c / 8;
    let k = c % 8;
    if k % 2 == 0 {
        if w == 0 {
            (8 * q + (k + 1) % 8, 8 * q + (k + 2) % 8)
        } else {
            (8 * q + (k + 7) % 8, 8 * q + (k + 6) % 8)
        }
    } else {
        if w == 0 {
            (8 * q + (k + 7) % 8, 8 * q + (k + 1) % 8)
        } else {
            (8 * ((q + 1) % 3) + k, 8 * ((q + 2) % 3) + k)
        }
    }
}

/// Whether cells `c` and `d` are joined by an edge.
pub fn is_adjacent(c: usize, d: usize) -> (r: bool)
    requires
        c < 24,
        d < 24,
    ensures
        r == adjacent(c as int, d as int),
{
    let (qc, kc) = (c / 8, c % 8);
    let (qd, kd) = (d / 8, d % 8);
    (qc == qd && (kd == (kc + 1) % 8 || kc == (kd + 1) % 8)) || (kc % 2 == 1 && kc == kd && (qc
        == qd + 1 || qd == qc + 1))
}

/// The cell whose content moves to `c` under a quarter turn.
pub fn rotation_source(c: usize) -> (r: usize)
    requires
        c < 24,
    ensures
        r as int == rotated(c as int),
        r < 24,
{
    8 * (c / 8) + (c % 8 + 2) % 8
}

/// The cell whose content moves to `c` under the reflection.
pub fn mirror_source(c: usize) -> (r: usize)
    requires
        c < 24,
    ensures
        r as int == mirrored(c as int),
        r < 24,
{
    8 * (c / 8) + (10 - c % 8) % 8
}

/// The three cells of the `m`-th mill.
pub fn mill_cells(m: usize) -> (r: (usize, usize, usize))
    requires
        m < 16,
    ensures
        r.0 as int == mill(m as int).0,
        r.1 as int == mill(m as int).1,
        r.2 as int == mill(m as int).2,
        r.0 < 24,
        r.1 < 24,
        r.2 < 24,
{
    if m < 12 {
        let q = m / 4;
        let k = 2 * (m % 4);
        (8 * q + k, 8 * q + k + 1, 8 * q + (k + 2) % 8)
    } else {
        let k = 2 * (m - 12) + 1;
        (k, 8 + k, 16 + k)
    }
}

/// Every cell is one of the 24 listed.
pub proof fn lemma_cell_cases(c: int)
    requires
        is_cell(c),
    ensures
        c == 0 || c == 1 || c == 2 || c == 3 || c == 4 || c == 5 || c == 6 || c == 7 || c == 8
            || c == 9 || c == 10 || c == 11 || c == 12 || c == 13 || c == 14 || c == 15 || c == 16
            || c == 17 || c == 18 || c == 19 || c == 20 || c == 21 || c == 22 || c == 23,
{
}

/// A quarter turn maps cells to cells, and four of them give each cell back.
#[verifier::spinoff_prover]
#[verifier::rlimit(100)]
pub proof fn lemma_rotated_order(c: int)
    requires
        is_cell(c),
    ensures
        is_cell(rotated(c)),
        rotated(rotated(rotated(rotated(c)))) == c,
{
    lemma_cell_cases(c);
}

/// The reflection maps cells to cells, and twice gives each cell back.
#[verifier::spinoff_prover]
#[verifier::rlimit(100)]
pub proof fn lemma_mirrored_order(c: int)
    requires
        is_cell(c),
    ensures
        is_cell(mirrored(c)),
        mirrored(mirrored(c)) == c,
{
    lemma_cell_cases(c);
}

/// A quarter turn carries the mills through a cell onto the mills through
/// the cell it moves to.
#[verifier::spinoff_prover]
#[verifier::rlimit(100)]
pub proof fn lemma_rotated_partners(c: int, w: int)
    requires
        is_cell(c),
        w == 0 || w == 1,
    ensures
        is_cell(partners(c, w).0),
        is_cell(partners(c, w).1),
        rotated(partners(c, w).0) == partners(rotated(c), w).0,
        rotated(partners(c, w).1) == partners(rotated(c), w).1,
{
    lemma_cell_cases(c);
}

/// The reflection carries the mills through a cell onto the mills through
/// the cell it moves to: for a corner the two sides change places, for a
/// midpoint the two ends of its side do.
#[verifier::spinoff_prover]
#[verifier::rlimit(100)]
pub proof fn lemma_mirrored_partners(c: int)
    requires
        is_cell(c),
    ensures
        spot(c) % 2 == 0 ==> mirrored(partners(c, 0).0) == partners(mirrored(c), 1).0
            && mirrored(partners(c, 0).1) == partners(mirrored(c), 1).1 && mirrored(
            partners(c, 1).0,
        ) == partners(mirrored(c), 0).0 && mirrored(partners(c, 1).1) == partners(
            mirrored(c),
            0,
        ).1,
        spot(c) % 2 == 1 ==> mirrored(partners(c, 0).0) == partners(mirrored(c), 0).1
            && mirrored(partners(c, 0).1) == partners(mirrored(c), 0).0 && mirrored(
            partners(c, 1).0,
        ) == partners(mirrored(c), 1).0 && mirrored(partners(c, 1).1) == partners(
            mirrored(c),
            1,
        ).1,
{
    lemma_cell_cases(c);
}

/// The neighbours of cell `c`, in the board's adjacency order.
pub open spec fn neighbours(c: int) -> Seq<int> {
    if c == 0 {
        seq![1, 7]
    } else if c == 1 {
        seq![0, 2, 9]
    } else if c == 2 {
        seq![1, 3]
    } else if c == 3 {
        seq![2, 4, 11]
    } else if c == 4 {
        seq![3, 5]
    } else if c == 5 {
        seq![4, 6, 13]
    } else if c == 6 {
        seq![5, 7]
    } else if c == 7 {
        seq![0, 6, 15]
    } else if c == 8 {
        seq![9, 15]
    } else if c == 9 {
        seq![1, 8, 17, 10]
    } else if c == 10 {
        seq![9, 11]
    } else if c == 11 {
        seq![3, 10, 19, 12]
    } else if c == 12 {
        seq![11, 13]
    } else if c == 13 {
        seq![5, 12, 14, 21]
    } else if c == 14 {
        seq![13, 15]
    } else if c == 15 {
        seq![7, 14, 23, 8]
    } else if c == 16 {
        seq![17, 23]
    } else if c == 17 {
        seq![16, 18, 9]
    } else if c == 18 {
        seq![17, 19]
    } else if c == 19 {
        seq![18, 11, 20]
    } else if c == 20 {
        seq![19, 21]
    } else if c == 21 {
        seq![20, 22, 13]
    } else if c == 22 {
        seq![21, 23]
    } else {
        seq![15, 16, 22]
    }
}

/// The `k`-th neighbour of cell `c`, in the board's adjacency order.
pub fn neighbour(c: usize, k: usize) -> (r: usize)
    requires
        c < 24,
        k < neighbours(c as int).len(),
    ensures
        r as int == neighbours(c as int)[k as int],
{
    if c == 0 {
        if k == 0 {
            1
        } else {
            7
        }
    } else if c == 1 {
        if k == 0 {
            0
        } else if k == 1 {
            2
        } else {
            9
        }
    } else if c == 2 {
        if k == 0 {
            1
        } else {
            3
        }
    } else if c == 3 {
        if k == 0 {
            2
        } else if k == 1 {
            4
        } else {
            11
        }
    } else if c == 4 {
        if k == 0 {
            3
        } else {
            5
        }
    } else if c == 5 {
        if k == 0 {
            4
        } else if k == 1 {
            6
        } else {
            13
        }
    } else if c == 6 {
        if k == 0 {
            5
        } else {
            7
        }
    } else if c == 7 {
        if k == 0 {
            0
        } else if k == 1 {
            6
        } else {
            15
        }
    } else if c == 8 {
        if k == 0 {
            9
        } else {
            15
        }
    } else if c == 9 {
        if k == 0 {
            1
        } else if k == 1 {
            8
        } else if k == 2 {
            17
        } else {
            10
        }
    } else if c == 10 {
        if k == 0 {
            9
        } else {
            11
        }
    } else if c == 11 {
        if k == 0 {
            3
        } else if k == 1 {
            10
        } else if k == 2 {
            19
        } else {
            12
        }
    } else if c == 12 {
        if k == 0 {
            11
        } else {
            13
        }
    } else if c == 13 {
        if k == 0 {
            5
        } else if k == 1 {
            12
        } else if k == 2 {
            14
        } else {
            21
        }
    } else if c == 14 {
        if k == 0 {
            13
        } else {
            15
        }
    } else if c == 15 {
        if k == 0 {
            7
        } else if k == 1 {
            14
        } else if k == 2 {
            23
        } else {
            8
        }
    } else if c == 16 {
        if k == 0 {
            17
        } else {
            23
        }
    } else if c == 17 {
        if k == 0 {
            16
        } else if k == 1 {
            18
        } else {
            9
        }
    } else if c == 18 {
        if k == 0 {
            17
        } else {
            19
        }
    } else if c == 19 {
        if k == 0 {
            18
        } else if k == 1 {
            11
        } else {
            20
        }
    } else if c == 20 {
        if k == 0 {
            19
        } else {
            21
        }
    } else if c == 21 {
        if k == 0 {
            20
        } else if k == 1 {
            22
        } else {
            13
        }
    } else if c == 22 {
        if k == 0 {
            21
        } else {
            23
        }
    } else {
        if k == 0 {
            15
        } else if k == 1 {
            16
        } else {
            22
        }
    }
}

/// Number of neighbours of cell `c`.
pub fn degree(c: usize) -> (r: usize)
    requires
        c < 24,
    ensures
        r as int == neighbours(c as int).len(),
{
    if c % 2 == 0 {
        2
    } else if c / 8 == 1 {
        4
    } else {
        3
    }
}

/// The neighbour lists hold exactly the cells adjacent to `c`, each once.
#[verifier::spinoff_prover]
#[verifier::rlimit(100)]
pub proof fn lemma_neighbours(c: int)
    requires
        is_cell(c),
    ensures
        forall|k: int|
            0 <= k < neighbours(c).len() ==> is_cell(#[trigger] neighbours(c)[k]) && adjacent(
                c,
                neighbours(c)[k],
            ),
        forall|k: int, l: int|
            0 <= k < l < neighbours(c).len() ==> #[trigger] neighbours(c)[k] != #[trigger] neighbours(
                c,
            )[l],
        forall|d: int| is_cell(d) && #[trigger] adjacent(c, d) ==> neighbours(c).contains(d),
{
    lemma_cell_cases(c);
    assert forall|d: int| is_cell(d) && #[trigger] adjacent(c, d) implies neighbours(c).contains(
        d,
    ) by {
        lemma_adjacent_cases(c, d);
        let n = neighbours(c);
        if d == n[0] {
            assert(n.contains(d));
        } else if d == n[1] {
            assert(n.contains(d));
        } else if n.len() > 2 && d == n[2] {
            assert(n.contains(d));
        } else {
            assert(n[3] == d);
            assert(n.contains(d));
        }
    }
}

/// A cell adjacent to `c` is one step along its square, or, from a
/// midpoint, the same point one square in or out.
proof fn lemma_adjacent_cases(c: int, d: int)
    requires
        is_cell(c),
        is_cell(d),
        adjacent(c, d),
    ensures
        d == cell_at(square(c), spot(c) + 1) || d == cell_at(square(c), spot(c) + 7) || spot(c)
            % 2 == 1 && (d == c + 8 || d == c - 8),
{
}

/// A quarter turn and the reflection move each cell along its own square.
#[verifier::spinoff_prover]
pub proof fn lemma_moved_cell_parts(c: int)
    requires
        is_cell(c),
    ensures
        square(rotated(c)) == square(c),
        spot(rotated(c)) == (spot(c) + 2) % 8,
        square(mirrored(c)) == square(c),
        spot(mirrored(c)) == (10 - spot(c)) % 8,
{
}

/// A quarter turn and the reflection map edges onto edges.
#[verifier::spinoff_prover]
#[verifier::rlimit(100)]
pub proof fn lemma_moved_adjacent(c: int, d: int)
    requires
        is_cell(c),
        is_cell(d),
    ensures
        adjacent(rotated(c), rotated(d)) == adjacent(c, d),
        adjacent(mirrored(c), mirrored(d)) == adjacent(c, d),
{
    lemma_moved_cell_parts(c);
    lemma_moved_cell_parts(d);
}

/// Where the reflection takes its content from, cell by cell.
#[verifier::spinoff_prover]
#[verifier::rlimit(100)]
pub proof fn lemma_mirrored_table()
    ensures
        mirrored(0) == 2,
        mirrored(1) == 1,
        mirrored(2) == 0,
        mirrored(3) == 7,
        mirrored(4) == 6,
        mirrored(5) == 5,
        mirrored(6) == 4,
        mirrored(7) == 3,
        mirrored(8) == 10,
        mirrored(9) == 9,
        mirrored(10) == 8,
        mirrored(11) == 15,
        mirrored(12) == 14,
        mirrored(13) == 13,
        mirrored(14) == 12,
        mirrored(15) == 11,
        mirrored(16) == 18,
        mirrored(17) == 17,
        mirrored(18) == 16,
        mirrored(19) == 23,
        mirrored(20) == 22,
        mirrored(21) == 21,
        mirrored(22) == 20,
        mirrored(23) == 19,
{
    assert(mirrored(0) == 2);
    assert(mirrored(1) == 1);
    assert(mirrored(2) == 0);
    assert(mirrored(3) == 7);
    assert(mirrored(4) == 6);
    assert(mirrored(5) == 5);
    assert(mirrored(6) == 4);
    assert(mirrored(7) == 3);
    assert(mirrored(8) == 10);
    assert(mirrored(9) == 9);
    assert(mirrored(10) == 8);
    assert(mirrored(11) == 15);
    assert(mirrored(12) == 14);
    assert(mirrored(13) == 13);
    assert(mirrored(14) == 12);
    assert(mirrored(15) == 11);
    assert(mirrored(16) == 18);
    assert(mirrored(17) == 17);
    assert(mirrored(18) == 16);
    assert(mirrored(19) == 23);
    assert(mirrored(20) == 22);
    assert(mirrored(21) == 21);
    assert(mirrored(22) == 20);
    assert(mirrored(23) == 19);
}

} // verus!
