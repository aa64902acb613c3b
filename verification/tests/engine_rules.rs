//! Scenario tests for the turn engine: opening moves, rejection, turn
//! alternation, the no-legal-move skip, and position round trips.

use kamisado::colors::Colors;
use kamisado::engine::{GameSession, TurnState};
use kamisado::pieces::{Piece, Side};

fn has(moves: &Vec<(usize, usize)>, x: usize, y: usize) -> bool {
    moves.iter().any(|&c| c == (x, y))
}

#[test]
fn opening_corner_full_file_and_right_diagonal() {
    // White's color-0 piece sits on (0, 0); the opening generator is
    // edge-limited and ignores occupancy entirely.
    let mut s = GameSession::new();
    assert!(s.submit_move(0, 0));
    assert_eq!(s.current_turn(), TurnState::ActiveSide(Side::White, Colors::Orange));
    let moves = s.current_legal_moves().clone();
    // Full forward file y in 1..=7.
    for y in 1..8 {
        assert!(has(&moves, 0, y), "file cell (0, {}) missing", y);
    }
    // Left diagonal is empty (x cannot go below 0); right diagonal runs to
    // the far corner.
    for d in 1..8 {
        assert!(has(&moves, d, d), "diagonal cell ({}, {}) missing", d, d);
    }
    assert_eq!(moves.len(), 14);
    assert!(!has(&moves, 0, 0));
}

#[test]
fn opening_far_corner_mirrors_the_left_diagonal() {
    let mut s = GameSession::new();
    assert!(s.submit_move(7, 0));
    assert_eq!(s.current_turn(), TurnState::ActiveSide(Side::White, Colors::Brown));
    let moves = s.current_legal_moves().clone();
    for y in 1..8 {
        assert!(has(&moves, 7, y));
    }
    // The right diagonal is empty (x cannot go above 7); the left diagonal
    // runs to the opposite corner.
    for d in 1..8 {
        assert!(has(&moves, 7 - d, d), "diagonal cell ({}, {}) missing", 7 - d, d);
    }
    assert_eq!(moves.len(), 14);
}

#[test]
fn opening_middle_column_truncates_at_edges() {
    let mut s = GameSession::new();
    assert!(s.submit_move(3, 0));
    assert_eq!(s.current_turn(), TurnState::ActiveSide(Side::White, Colors::Pink));
    let moves = s.current_legal_moves().clone();
    for y in 1..8 {
        assert!(has(&moves, 3, y));
    }
    for (x, y) in [(2, 1), (1, 2), (0, 3), (4, 1), (5, 2), (6, 3), (7, 4)] {
        assert!(has(&moves, x, y), "diagonal cell ({}, {}) missing", x, y);
    }
    assert_eq!(moves.len(), 14);
}

#[test]
fn opening_rejects_cells_off_the_back_row() {
    let mut s = GameSession::new();
    let before = s.piece_positions();
    assert!(!s.submit_move(4, 4));
    assert_eq!(s.current_turn(), TurnState::Start);
    assert!(s.current_legal_moves().is_empty());
    assert_eq!(s.piece_positions(), before);
}

#[test]
fn illegal_submission_changes_nothing() {
    // Turn alternation idempotence: a destination outside the published set
    // leaves turn state, positions and the published set unchanged.
    let mut s = GameSession::new();
    assert!(s.submit_move(0, 0));
    let turn = s.current_turn();
    let moves = s.current_legal_moves().clone();
    let positions = s.piece_positions();
    assert!(!s.submit_move(5, 0));
    assert_eq!(s.current_turn(), turn);
    assert_eq!(s.current_legal_moves().clone(), moves);
    assert_eq!(s.piece_positions(), positions);
}

#[test]
fn first_move_hands_turn_to_landing_color() {
    let mut s = GameSession::new();
    assert!(s.submit_move(0, 0));
    // (0, 3) carries the Pink tile; Black's Pink piece stands on (4, 7).
    assert!(s.submit_move(0, 3));
    assert_eq!(s.current_turn(), TurnState::ActiveSide(Side::Black, Colors::Pink));
    let moves = s.current_legal_moves().clone();
    // Forward file of the Black piece runs down to (4, 1); (4, 0) is
    // occupied by White's Yellow piece and blocks.
    for y in 1..7 {
        assert!(has(&moves, 4, y), "file cell (4, {}) missing", y);
    }
    assert!(!has(&moves, 4, 0));
    // Left diagonal stops before (0, 3), where White's moved piece stands.
    for (x, y) in [(3, 6), (2, 5), (1, 4)] {
        assert!(has(&moves, x, y));
    }
    assert!(!has(&moves, 0, 3));
    // Right diagonal runs to the board edge.
    for (x, y) in [(5, 6), (6, 5), (7, 4)] {
        assert!(has(&moves, x, y));
    }
    assert_eq!(moves.len(), 12);
}

#[test]
fn round_trip_positions_change_exactly_one_piece() {
    let mut s = GameSession::new();
    assert!(s.submit_move(0, 0));
    let before = s.piece_positions();
    assert!(s.submit_move(0, 3));
    let after = s.piece_positions();
    assert_eq!(before.len(), 16);
    assert_eq!(after.len(), 16);
    let mut changed = 0;
    for (b, a) in before.iter().zip(after.iter()) {
        if b == a {
            continue;
        }
        changed += 1;
        assert_eq!(*b, (Side::White, Colors::Orange, 0, 0));
        assert_eq!(*a, (Side::White, Colors::Orange, 0, 3));
    }
    assert_eq!(changed, 1);
}

fn boxed_in_setup() -> GameSession {
    // White's Orange piece at (2, 4) can reach the Brown tile (2, 5);
    // Black's Brown piece at (0, 7) is fully boxed in: (0, 6) and (1, 6) are
    // occupied and its left diagonal leaves the board at once.
    let white = vec![
        Piece::new(Colors::Orange, 2, 4),
        Piece::new(Colors::Blue, 0, 6),
        Piece::new(Colors::Purple, 1, 6),
        Piece::new(Colors::Pink, 3, 0),
        Piece::new(Colors::Yellow, 4, 0),
        Piece::new(Colors::Red, 5, 0),
        Piece::new(Colors::Green, 6, 0),
        Piece::new(Colors::Brown, 7, 0),
    ];
    let black = vec![
        Piece::new(Colors::Brown, 0, 7),
        Piece::new(Colors::Orange, 7, 7),
        Piece::new(Colors::Blue, 6, 7),
        Piece::new(Colors::Purple, 5, 7),
        Piece::new(Colors::Pink, 4, 7),
        Piece::new(Colors::Yellow, 3, 7),
        Piece::new(Colors::Red, 2, 7),
        Piece::new(Colors::Green, 1, 7),
    ];
    GameSession::resume(white, black, Side::White, Colors::Orange).expect("arrangement is valid")
}

#[test]
fn no_legal_move_skips_the_boxed_side() {
    let mut s = boxed_in_setup();
    let moves = s.current_legal_moves().clone();
    assert!(has(&moves, 2, 5));
    // Landing on the Brown tile names Black's boxed-in Brown piece; control
    // must return to the mover's side with the piece it just moved.
    assert!(s.submit_move(2, 5));
    assert_eq!(s.current_turn(), TurnState::ActiveSide(Side::White, Colors::Orange));
    // The republished set belongs to the moved piece at its new cell (2, 5):
    // (2, 6) ahead, (3, 6) to the right; (1, 6) blocks the left diagonal and
    // (2, 7) and (4, 7) block the longer rays.
    let moves = s.current_legal_moves().clone();
    assert!(has(&moves, 2, 6));
    assert!(has(&moves, 3, 6));
    assert_eq!(moves.len(), 2);
}

#[test]
fn boxed_piece_position_still_updates() {
    let mut s = boxed_in_setup();
    assert!(s.submit_move(2, 5));
    let positions = s.piece_positions();
    assert!(positions.contains(&(Side::White, Colors::Orange, 2, 5)));
    assert!(positions.contains(&(Side::Black, Colors::Brown, 0, 7)));
}

#[test]
fn resume_rejects_broken_sides() {
    let mut white = vec![
        Piece::new(Colors::Orange, 0, 0),
        Piece::new(Colors::Blue, 1, 0),
        Piece::new(Colors::Purple, 2, 0),
        Piece::new(Colors::Pink, 3, 0),
        Piece::new(Colors::Yellow, 4, 0),
        Piece::new(Colors::Red, 5, 0),
        Piece::new(Colors::Green, 6, 0),
        Piece::new(Colors::Brown, 7, 0),
    ];
    let black = vec![
        Piece::new(Colors::Orange, 7, 7),
        Piece::new(Colors::Blue, 6, 7),
        Piece::new(Colors::Purple, 5, 7),
        Piece::new(Colors::Pink, 4, 7),
        Piece::new(Colors::Yellow, 3, 7),
        Piece::new(Colors::Red, 2, 7),
        Piece::new(Colors::Green, 1, 7),
        Piece::new(Colors::Brown, 0, 7),
    ];
    // A duplicated color breaks the one-piece-per-color invariant.
    let mut bad = white.clone();
    bad[1] = Piece::new(Colors::Orange, 1, 0);
    assert!(GameSession::resume(bad, black.clone(), Side::White, Colors::Orange).is_none());
    // A coordinate off the board is rejected.
    white[0] = Piece::new(Colors::Orange, 8, 0);
    assert!(GameSession::resume(white.clone(), black.clone(), Side::White, Colors::Orange)
        .is_none());
    white[0] = Piece::new(Colors::Orange, 0, 0);
    // A side with fewer than eight pieces is rejected.
    let short = white[..7].to_vec();
    assert!(GameSession::resume(short, black.clone(), Side::White, Colors::Orange).is_none());
    // The intact arrangement is accepted.
    assert!(GameSession::resume(white, black, Side::White, Colors::Orange).is_some());
}

#[test]
fn alternation_continues_over_several_moves() {
    let mut s = GameSession::new();
    assert!(s.submit_move(0, 0));
    assert!(s.submit_move(0, 3)); // Pink tile: Black's Pink piece moves next.
    assert_eq!(s.current_turn(), TurnState::ActiveSide(Side::Black, Colors::Pink));
    // Black Pink from (4, 7) to (4, 4): tile (4, 4) is Orange, so White's
    // Orange piece (now on (0, 3)) moves next.
    assert!(s.submit_move(4, 4));
    assert_eq!(s.current_turn(), TurnState::ActiveSide(Side::White, Colors::Orange));
    let positions = s.piece_positions();
    assert!(positions.contains(&(Side::Black, Colors::Pink, 4, 4)));
    assert!(positions.contains(&(Side::White, Colors::Orange, 0, 3)));
}
