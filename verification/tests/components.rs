//! Tests of the leaf components: the fixed board coloring, pieces and the
//! piece set, and the sliding-move generator on hand-built occupancy.

use kamisado::board::Board;
use kamisado::colors::Colors;
use kamisado::moves::{opening_moves, sliding_moves};
use kamisado::pieces::{check_side, Piece, PieceSet, Side};

fn has(moves: &Vec<(usize, usize)>, x: usize, y: usize) -> bool {
    moves.iter().any(|&c| c == (x, y))
}

fn empty_grid() -> Vec<Vec<bool>> {
    (0..8).map(|_| vec![false; 8]).collect()
}

#[test]
fn board_coloring_spot_checks() {
    let b = Board::default();
    assert_eq!(b.color_at(0, 0), Colors::Orange);
    assert_eq!(b.color_at(7, 7), Colors::Orange);
    assert_eq!(b.color_at(0, 7), Colors::Brown);
    assert_eq!(b.color_at(7, 0), Colors::Brown);
    assert_eq!(b.color_at(4, 2), Colors::Purple);
    assert_eq!(b.color_at(2, 5), Colors::Brown);
    assert_eq!(b.tiles()[3][0], Colors::Pink);
    assert_eq!(b.tiles()[1][6], Colors::Brown);
}

#[test]
fn edge_rows_hold_every_color_once() {
    let b = Board::default();
    for row in [0, 7] {
        for x1 in 0..8 {
            for x2 in 0..8 {
                if x1 != x2 {
                    assert_ne!(b.color_at(x1, row), b.color_at(x2, row));
                }
            }
        }
    }
}

#[test]
fn piece_accessors_and_move() {
    let mut p = Piece::new(Colors::Red, 3, 4);
    assert_eq!(p.color(), Colors::Red);
    assert_eq!(p.x(), 3);
    assert_eq!(p.y(), 4);
    p.move_piece(5, 6);
    assert_eq!(p.color(), Colors::Red);
    assert_eq!(p.x(), 5);
    assert_eq!(p.y(), 6);
}

#[test]
fn piece_set_starts_on_matching_edge_tiles() {
    let ps = PieceSet::new();
    let b = Board::default();
    for i in 0..8 {
        let w = ps.white[i];
        assert_eq!((w.x(), w.y()), (i, 0));
        assert_eq!(w.color(), b.color_at(i, 0));
        let k = ps.black[i];
        assert_eq!((k.x(), k.y()), (7 - i, 7));
        assert_eq!(k.color(), b.color_at(7 - i, 7));
    }
}

#[test]
fn piece_with_color_finds_the_one_piece() {
    let ps = PieceSet::new();
    let w = ps.piece_with_color(Side::White, Colors::Green);
    assert_eq!((w.x(), w.y()), (6, 0));
    let k = ps.piece_with_color(Side::Black, Colors::Green);
    assert_eq!((k.x(), k.y()), (1, 7));
    // Exactly one piece per side carries the color.
    let greens = ps.white.iter().filter(|p| p.color() == Colors::Green).count();
    assert_eq!(greens, 1);
}

#[test]
fn piece_at_and_occupancy_agree() {
    let ps = PieceSet::new();
    let p = ps.piece_at(6, 0).expect("a white piece stands there");
    assert_eq!((p.x(), p.y()), (6, 0));
    assert_eq!(p.color(), Colors::Green);
    assert!(ps.piece_at(3, 3).is_none());
    let occ = ps.occupancy();
    for x in 0..8 {
        for y in 0..8 {
            assert_eq!(occ[x][y], y == 0 || y == 7, "cell ({}, {})", x, y);
        }
    }
}

#[test]
fn apply_move_relocates_exactly_one_piece() {
    let mut ps = PieceSet::new();
    ps.apply_move(Side::Black, Colors::Yellow, 3, 5);
    let p = ps.piece_with_color(Side::Black, Colors::Yellow);
    assert_eq!((p.x(), p.y()), (3, 5));
    assert!(ps.piece_at(3, 7).is_none(), "the old cell is vacated");
    for i in 0..8 {
        let w = ps.white[i];
        assert_eq!((w.x(), w.y()), (i, 0), "white pieces are untouched");
    }
}

#[test]
fn check_side_accepts_only_the_invariant() {
    let good = vec![
        Piece::new(Colors::Orange, 0, 0),
        Piece::new(Colors::Blue, 1, 0),
        Piece::new(Colors::Purple, 2, 0),
        Piece::new(Colors::Pink, 3, 0),
        Piece::new(Colors::Yellow, 4, 0),
        Piece::new(Colors::Red, 5, 0),
        Piece::new(Colors::Green, 6, 0),
        Piece::new(Colors::Brown, 7, 0),
    ];
    assert!(check_side(&good));
    let mut dup = good.clone();
    dup[7] = Piece::new(Colors::Orange, 7, 0);
    assert!(!check_side(&dup));
    let mut off = good.clone();
    off[2] = Piece::new(Colors::Purple, 2, 9);
    assert!(!check_side(&off));
    assert!(!check_side(&good[..5].to_vec()));
}

#[test]
fn rays_stop_before_an_occupied_cell() {
    // A blocker on (3, 5): the forward file from (3, 3) ends at (3, 4) and
    // the blocked cell itself is excluded — no capture by landing.
    let mut occ = empty_grid();
    occ[3][5] = true;
    let moves = sliding_moves(&occ, Side::White, 3, 3);
    assert!(has(&moves, 3, 4));
    assert!(!has(&moves, 3, 5));
    assert!(!has(&moves, 3, 6));
    assert!(!has(&moves, 3, 7));
    for (x, y) in [(2, 4), (1, 5), (0, 6), (4, 4), (5, 5), (6, 6), (7, 7)] {
        assert!(has(&moves, x, y), "diagonal cell ({}, {}) missing", x, y);
    }
    assert_eq!(moves.len(), 8);
}

#[test]
fn black_rays_run_toward_smaller_rows() {
    let mut occ = empty_grid();
    occ[1][2] = true;
    let moves = sliding_moves(&occ, Side::Black, 3, 4);
    // Forward file for Black runs down the rows.
    for y in 0..4 {
        assert!(has(&moves, 3, y), "file cell (3, {}) missing", y);
    }
    // Left diagonal stops before the blocker on (1, 2).
    assert!(has(&moves, 2, 3));
    assert!(!has(&moves, 1, 2));
    assert!(!has(&moves, 0, 1));
    // Right diagonal runs to the row edge.
    for (x, y) in [(4, 3), (5, 2), (6, 1), (7, 0)] {
        assert!(has(&moves, x, y));
    }
    assert_eq!(moves.len(), 9);
}

#[test]
fn boxed_in_piece_has_no_moves() {
    let mut occ = empty_grid();
    occ[2][4] = true;
    occ[3][4] = true;
    occ[4][4] = true;
    let moves = sliding_moves(&occ, Side::White, 3, 3);
    assert!(moves.is_empty());
}

#[test]
fn every_generated_cell_lies_on_a_ray_on_the_board() {
    // Destinations lie on exactly one of the three rays and inside the
    // board, here checked concretely for a piece in open space.
    let occ = empty_grid();
    for (side, py_dir) in [(Side::White, 1i32), (Side::Black, -1i32)] {
        let moves = sliding_moves(&occ, side, 4, 3);
        for &(x, y) in moves.iter() {
            assert!(x < 8 && y < 8);
            let dy = y as i32 - 3;
            assert_eq!(dy.signum(), py_dir.signum(), "rows advance forward only");
            let dx = x as i32 - 4;
            assert!(dx == 0 || dx.abs() == dy.abs(), "on a file or a diagonal");
        }
    }
}

#[test]
fn opening_moves_ignore_occupancy() {
    // The opening generator never consults occupancy: from (0, 0) it yields
    // the full file and the full right diagonal even on a crowded board.
    let moves = opening_moves(0, 0);
    for y in 1..8 {
        assert!(has(&moves, 0, y));
    }
    for d in 1..8 {
        assert!(has(&moves, d, d));
    }
    assert_eq!(moves.len(), 14);
}
