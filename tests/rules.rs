use mills::state::{count_of, mill_formed_at, State};
use mills::topology::{degree, is_adjacent, neighbour, mill_cells, mill_partners, mirror_source, rotation_source};

fn position(plus: &[usize], minus: &[usize], hands: [usize; 2]) -> State {
    let mut board = [0i32; 24];
    for &i in plus {
        board[i] = 1;
    }
    for &i in minus {
        board[i] = -1;
    }
    State { board, hands }
}

fn occupied(s: &State) -> usize {
    s.board.iter().filter(|&&x| x != 0).count()
}

const MILLS: [[usize; 3]; 16] = [
    [0, 1, 2],
    [8, 9, 10],
    [16, 17, 18],
    [7, 15, 23],
    [19, 11, 3],
    [22, 21, 20],
    [14, 13, 12],
    [6, 5, 4],
    [0, 7, 6],
    [8, 15, 14],
    [16, 23, 22],
    [1, 9, 17],
    [21, 13, 5],
    [18, 19, 20],
    [10, 11, 12],
    [2, 3, 4],
];

const CONNECTED: [&[usize]; 24] = [
    &[1, 7],
    &[0, 2, 9],
    &[1, 3],
    &[2, 4, 11],
    &[3, 5],
    &[4, 6, 13],
    &[5, 7],
    &[0, 6, 15],
    &[9, 15],
    &[1, 8, 17, 10],
    &[9, 11],
    &[3, 10, 19, 12],
    &[11, 13],
    &[5, 12, 14, 21],
    &[13, 15],
    &[7, 14, 23, 8],
    &[17, 23],
    &[16, 18, 9],
    &[17, 19],
    &[18, 11, 20],
    &[19, 21],
    &[20, 22, 13],
    &[21, 23],
    &[15, 16, 22],
];

fn sorted(mut v: Vec<usize>) -> Vec<usize> {
    v.sort();
    v
}

#[test]
fn mills_match_the_board_diagram() {
    let mut mine: Vec<Vec<usize>> = (0..16)
        .map(|m| {
            let (a, b, c) = mill_cells(m);
            sorted(vec![a, b, c])
        })
        .collect();
    let mut drawn: Vec<Vec<usize>> = MILLS.iter().map(|m| sorted(m.to_vec())).collect();
    mine.sort();
    drawn.sort();
    assert_eq!(mine, drawn);
}

#[test]
fn mills_through_each_cell_match_the_diagram() {
    for c in 0..24 {
        let mut mine: Vec<Vec<usize>> = (0..2)
            .map(|w| {
                let (a, b) = mill_partners(c, w);
                sorted(vec![c, a, b])
            })
            .collect();
        let mut drawn: Vec<Vec<usize>> = MILLS
            .iter()
            .filter(|m| m.contains(&c))
            .map(|m| sorted(m.to_vec()))
            .collect();
        mine.sort();
        drawn.sort();
        assert_eq!(mine, drawn, "cell {}", c);
    }
}

#[test]
fn adjacency_matches_the_diagram() {
    for c in 0..24 {
        for d in 0..24 {
            assert_eq!(is_adjacent(c, d), CONNECTED[c].contains(&d), "{} {}", c, d);
        }
    }
}

#[test]
fn neighbours_follow_the_adjacency_table() {
    for c in 0..24 {
        let listed: Vec<usize> = (0..degree(c)).map(|k| neighbour(c, k)).collect();
        assert_eq!(listed, CONNECTED[c].to_vec(), "cell {}", c);
    }
}

#[test]
fn lone_piece_slides_in_adjacency_order() {
    let s = position(&[9], &[], [0, 0]);
    let r = s.possibilities(1);
    assert_eq!(r.len(), 4);
    assert_eq!(r[2], position(&[17], &[], [0, 0]));
    assert_eq!(r[3], position(&[10], &[], [0, 0]));
}

#[test]
fn rotation_and_mirror_tables() {
    let rot = [
        2, 3, 4, 5, 6, 7, 0, 1, 10, 11, 12, 13, 14, 15, 8, 9, 18, 19, 20, 21, 22, 23, 16, 17,
    ];
    let mir = [
        2, 1, 0, 7, 6, 5, 4, 3, 10, 9, 8, 15, 14, 13, 12, 11, 18, 17, 16, 23, 22, 21, 20, 19,
    ];
    for c in 0..24 {
        assert_eq!(rotation_source(c), rot[c]);
        assert_eq!(mirror_source(c), mir[c]);
    }
}

#[test]
fn new_position_is_empty_with_full_hands() {
    let s = State::new();
    assert_eq!(s.board, [0; 24]);
    assert_eq!(s.hands, [9, 9]);
}

#[test]
fn first_move_has_one_placement_per_cell() {
    let r = State::new().possibilities(1);
    assert_eq!(r.len(), 24);
    for (i, s) in r.iter().enumerate() {
        assert_eq!(s.hands, [8, 9]);
        assert_eq!(occupied(s), 1);
        assert_eq!(s.board[i], 1);
    }
    for i in 0..24 {
        for j in i + 1..24 {
            assert_ne!(r[i], r[j]);
        }
    }
}

#[test]
fn first_move_of_the_other_player_uses_its_hand() {
    let r = State::new().possibilities(-1);
    assert_eq!(r.len(), 24);
    assert_eq!(r[3].board[3], -1);
    assert_eq!(r[3].hands, [9, 8]);
}

#[test]
fn closing_a_mill_offers_each_unprotected_capture() {
    // -1 holds the mill 8-9-10 (protected) and loose pieces on 5 and 13.
    let s = position(&[0, 1], &[8, 9, 10, 5, 13], [7, 4]);
    let r = s.play(1, 2, 2);
    assert_eq!(r.len(), 3);
    let after = position(&[0, 1, 2], &[8, 9, 10, 5, 13], [6, 4]);
    assert_eq!(r[0], after);
    assert_eq!(r[1], position(&[0, 1, 2], &[8, 9, 10, 13], [6, 4]));
    assert_eq!(r[2], position(&[0, 1, 2], &[8, 9, 10, 5], [6, 4]));
}

#[test]
fn closing_two_mills_at_once_offers_each_capture_once() {
    let s = position(&[0, 1, 7, 6], &[12], [5, 8]);
    let r = s.play(1, 2, 2);
    assert_eq!(r.len(), 2);
    let s = position(&[1, 2, 7, 6], &[12], [5, 8]);
    let r = s.play(1, 0, 0);
    assert_eq!(r.len(), 2);
    assert_eq!(r[1], position(&[0, 1, 2, 7, 6], &[], [4, 8]));
}

#[test]
fn quiet_placement_moves_one_piece_from_hand_to_board() {
    let s = position(&[0], &[5], [8, 8]);
    let r = s.play(1, 3, 3);
    assert_eq!(r.len(), 1);
    let t = &r[0];
    assert_eq!(count_of(&t.board, 1) + t.hands[0], count_of(&s.board, 1) + s.hands[0]);
    assert_eq!(count_of(&t.board, 1), 2);
    assert_eq!(t.hands, [7, 8]);
    assert_eq!(count_of(&t.board, -1), 1);
}

#[test]
fn quiet_slide_keeps_every_count() {
    let s = position(&[0], &[5], [0, 0]);
    let r = s.play(1, 0, 1);
    assert_eq!(r, vec![position(&[1], &[5], [0, 0])]);
}

#[test]
fn slides_go_to_empty_neighbours() {
    let s = position(&[0, 9], &[1], [0, 0]);
    let r = s.possibilities(1);
    // from 0: only 7 (1 is taken); from 9, in adjacency order: 8, 17, 10
    assert_eq!(
        r,
        vec![
            position(&[7, 9], &[1], [0, 0]),
            position(&[0, 8], &[1], [0, 0]),
            position(&[0, 17], &[1], [0, 0]),
            position(&[0, 10], &[1], [0, 0]),
        ]
    );
}

#[test]
fn slide_that_closes_a_mill_offers_captures() {
    let s = position(&[0, 1, 3], &[20, 21], [0, 0]);
    let r = s.play(1, 3, 2);
    assert_eq!(r.len(), 3);
    assert_eq!(r[0], position(&[0, 1, 2], &[20, 21], [0, 0]));
    assert_eq!(r[1], position(&[0, 1, 2], &[21], [0, 0]));
    assert_eq!(r[2], position(&[0, 1, 2], &[20], [0, 0]));
}

#[test]
fn capture_removes_exactly_one_opponent_piece() {
    let s = position(&[0, 1], &[4, 5, 14, 22], [7, 5]);
    let r = s.play(1, 2, 2);
    assert_eq!(r.len(), 5);
    for t in &r[1..] {
        assert_eq!(count_of(&t.board, -1) + 1, count_of(&r[0].board, -1));
        assert_eq!(t.hands, r[0].hands);
    }
}

#[test]
fn protected_pieces_are_never_captured() {
    // every piece of -1 lies in a mill: no capture is offered
    let s = position(&[0, 1], &[8, 9, 10], [7, 6]);
    let r = s.play(1, 2, 2);
    assert_eq!(r.len(), 1);
    assert!(mill_formed_at(&r[0].board, 9, -1));
}

#[test]
fn no_move_returns_the_position_itself() {
    let s = position(&[0], &[1, 7], [0, 0]);
    assert_eq!(s.possibilities(1), vec![s]);
}

#[test]
fn value_of_the_empty_board_is_zero() {
    assert_eq!(State::new().value(), 0);
}

#[test]
fn value_counts_lone_pieces_pairs_and_mills() {
    assert_eq!(position(&[0], &[], [8, 9]).value(), 2);
    assert_eq!(position(&[0, 1], &[], [7, 9]).value(), 4 + 1 + 1);
    assert_eq!(position(&[0, 1, 2], &[], [6, 9]).value(), 4 + 1 + 1 + 1);
    assert_eq!(position(&[0], &[1], [8, 8]).value(), 1 - 1);
    assert_eq!(position(&[], &[9], [9, 8]).value(), -2);
    assert_eq!(position(&[], &[9, 10], [9, 7]).value(), -4 - 1 - 1);
}

#[test]
fn value_rewards_reducing_the_opponent_below_three() {
    // -1 has two pieces left and none in hand
    let s = position(&[0, 2, 4], &[9, 13], [0, 0]);
    let mills = 4 + 4 + 1 + 1 - 1 - 1 - 1 - 1;
    assert_eq!(s.value(), mills + 100);
    let mut t = s;
    t.swap();
    assert_eq!(t.value(), -(mills + 100));
}

#[test]
fn value_of_swapped_position_is_negated() {
    let s = position(&[0, 1, 9, 12], &[4, 5, 16], [3, 4]);
    let mut t = s;
    t.swap();
    assert_eq!(t.value(), -s.value());
}

#[test]
fn swap_exchanges_sides_and_twice_gives_back() {
    let s = position(&[0, 3], &[5], [4, 6]);
    let mut t = s;
    t.swap();
    assert_eq!(t, position(&[5], &[0, 3], [6, 4]));
    t.swap();
    assert_eq!(t, s);
}

#[test]
fn win_needs_empty_hand_and_fewer_than_three_pieces() {
    let s = position(&[0, 1, 2], &[9, 10], [0, 0]);
    assert!(s.win(1));
    assert!(!s.win(-1));
    let s = position(&[0, 1, 2], &[9, 10], [0, 1]);
    assert!(!s.win(1));
    let s = position(&[0, 1, 2], &[9, 10, 11], [0, 0]);
    assert!(!s.win(1));
}

#[test]
fn win_is_kept_by_every_successor() {
    let s = position(&[0, 1, 3, 22], &[9, 10], [0, 0]);
    assert!(s.win(1));
    for p in [1, -1] {
        for t in s.possibilities(p) {
            assert!(t.win(1));
        }
    }
}

#[test]
fn symmetries_are_the_eight_images() {
    let s = position(&[0, 9], &[19], [5, 6]);
    let r = s.symmetries();
    assert_eq!(r.len(), 8);
    assert_eq!(r[0], s);
    assert_eq!(r[1], position(&[6, 15], &[17], [5, 6]));
    assert_eq!(r[4], position(&[2, 9], &[23], [5, 6]));
    for t in &r {
        assert_eq!(t.hands, s.hands);
        assert_eq!(count_of(&t.board, 1), 2);
        assert_eq!(count_of(&t.board, -1), 1);
    }
    let four = s.d4rotation().d4rotation().d4rotation().d4rotation();
    assert_eq!(four, s);
    assert_eq!(s.d4mirror().d4mirror(), s);
}

#[test]
fn symmetries_keep_mills() {
    let s = position(&[0, 1, 2], &[], [6, 9]);
    for t in s.symmetries() {
        let formed = (0..24).filter(|&c| mill_formed_at(&t.board, c, 1)).count();
        assert_eq!(formed, 3);
    }
}
