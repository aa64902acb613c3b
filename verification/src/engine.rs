//! The turn state machine.
//!
//! A `GameSession` owns the board, the sixteen pieces, the turn state and the
//! published legal-move set. One call of `submit_move` processes one player
//! input: it validates the destination against the published set, moves the
//! active piece, looks up the landing tile's color, and hands the turn to the
//! opposing piece of that color — unless that piece has no legal reply, in
//! which case the mover's side keeps the turn with the piece it just moved.

use vstd::prelude::*;

use crate::board::{tile_color, Board};
use crate::colors::Colors;
use crate::moves::{
    grid_wf, legal_dest, lemma_dest_on_one_ray, lemma_opening_dest_on_one_ray, opening_dest,
    opening_moves, sliding_moves,
};
use crate::pieces::{
    check_side, index_of_color, lemma_piece_with_color_unique, side_wf, Piece, PieceSet, Side,
};

verus! {

/// Whose move it is.
#[derive(Clone, Copy, PartialEq, Eq, Structural, Debug)]
pub enum TurnState {
    /// Game opening: no piece has been committed yet. The first accepted
    /// submission picks a back-row cell and with it White's opening piece.
    Start,
    /// The given side must move its piece of the given color.
    ActiveSide(Side, Colors),
}

/// The occupancy snapshot of a piece set as an 8x8 grid.
pub open spec fn occ_grid(ps: PieceSet) -> Seq<Seq<bool>> {
    Seq::new(8, |x: int| Seq::new(8, |y: int| ps.occupied(x, y)))
}

/// All sixteen pieces as `(side, color, x, y)`, white pieces first, each side
/// in its list order.
pub open spec fn positions_seq(ps: PieceSet) -> Seq<(Side, Colors, usize, usize)> {
    ps.white@.map(|i: int, p: Piece| (Side::White, p.color, p.x, p.y)) + ps.black@.map(
        |i: int, p: Piece| (Side::Black, p.color, p.x, p.y),
    )
}

/// The piece set `post` is `pre` with the piece of `side` carrying `color`
/// moved to `(x, y)`; every other piece of both sides keeps its cell.
pub open spec fn pieces_after_move(
    pre: PieceSet,
    side: Side,
    color: Colors,
    x: usize,
    y: usize,
    post: PieceSet,
) -> bool {
    &&& post.side_seq(side) == pre.side_seq(side).update(
        index_of_color(pre.side_seq(side), color),
        (Piece { color, x, y }),
    )
    &&& post.side_seq(side.spec_opposite()) == pre.side_seq(side.spec_opposite())
}

/// The opposing candidate piece — the piece of `side`'s opponent carrying the
/// landing tile's color — has at least one legal destination under `occ`.
pub open spec fn candidate_has_move(occ: Seq<Seq<bool>>, opp: Side, cand: Piece) -> bool {
    exists|cx: int, cy: int| #[trigger] legal_dest(occ, opp, cand.x as int, cand.y as int, cx, cy)
}

/// The session publishes exactly the legal destinations of the piece of
/// `side` standing at `(px, py)`, under the occupancy of its own pieces.
pub open spec fn publishes_moves_of(s: GameSession, side: Side, px: int, py: int) -> bool {
    forall|c: (usize, usize)|
        #[trigger] s.legal@.contains(c) <==> legal_dest(
            occ_grid(s.pieces),
            side,
            px,
            py,
            c.0 as int,
            c.1 as int,
        )
}

/// An accepted opening submission of back-row cell `(x, 0)`: the pieces stand
/// still, White's piece of the clicked tile's color becomes active, and the
/// published set holds exactly the opening destinations from `(x, 0)` —
/// edge-limited, with occupancy ignored.
pub open spec fn opening_transition(pre: GameSession, post: GameSession, x: usize) -> bool {
    &&& post.board == pre.board
    &&& post.pieces.white@ == pre.pieces.white@
    &&& post.pieces.black@ == pre.pieces.black@
    &&& post.state == TurnState::ActiveSide(Side::White, tile_color(x as int, 0))
    &&& forall|c: (usize, usize)|
        #[trigger] post.legal@.contains(c) <==> opening_dest(x as int, 0, c.0 as int, c.1 as int)
}

/// An accepted move of the active piece (`side`, `color`) to `(x, y)`:
/// exactly that piece moves; the landing tile's color names the opposing
/// candidate piece; if the candidate can answer, it becomes active and the
/// published set holds exactly its legal destinations, and otherwise — the
/// no-legal-move skip — the turn stays with `side` and the piece it just
/// moved, with that piece's destinations republished from its new cell.
pub open spec fn move_transition(
    pre: GameSession,
    post: GameSession,
    side: Side,
    color: Colors,
    x: usize,
    y: usize,
) -> bool {
    let tc = tile_color(x as int, y as int);
    let opp = side.spec_opposite();
    let occ = occ_grid(post.pieces);
    let cand = post.pieces.side_seq(opp)[index_of_color(post.pieces.side_seq(opp), tc)];
    &&& post.board == pre.board
    &&& pieces_after_move(pre.pieces, side, color, x, y, post.pieces)
    &&& if candidate_has_move(occ, opp, cand) {
        &&& post.state == TurnState::ActiveSide(opp, tc)
        &&& publishes_moves_of(post, opp, cand.x as int, cand.y as int)
    } else {
        &&& post.state == TurnState::ActiveSide(side, color)
        &&& publishes_moves_of(post, side, x as int, y as int)
    }
}

/// One game: the fixed board, the sixteen pieces, the turn state and the
/// legal-move set published for the active piece.
pub struct GameSession {
    pub board: Board,
    pub pieces: PieceSet,
    pub state: TurnState,
    pub legal: Vec<(usize, usize)>,
}

impl GameSession {
    /// The published set belongs to the active piece: nothing is published in
    /// the `Start` state, and afterwards the set holds exactly the active
    /// piece's sliding destinations — or, right after the opening pick, that
    /// piece's edge-limited opening destinations from its back-row cell.
    pub open spec fn published_ok(self) -> bool {
        match self.state {
            TurnState::Start => self.legal@.len() == 0,
            TurnState::ActiveSide(side, color) => ({
                let p = self.pieces.side_seq(side)[index_of_color(
                    self.pieces.side_seq(side),
                    color,
                )];
                ||| publishes_moves_of(self, side, p.x as int, p.y as int)
                ||| (side == Side::White && p.y == 0 && forall|c: (usize, usize)|
                    #[trigger] self.legal@.contains(c) <==> opening_dest(
                        p.x as int,
                        0,
                        c.0 as int,
                        c.1 as int,
                    ))
            }),
        }
    }

    /// The session's structural invariant: board and pieces are well formed,
    /// every published destination lies on the board, the published set is
    /// the active piece's (see `published_ok`), and before the opening pick
    /// the pieces still stand on their starting cells.
    pub open spec fn wf(self) -> bool {
        &&& self.board.wf()
        &&& self.pieces.wf()
        &&& forall|c: (usize, usize)| #[trigger] self.legal@.contains(c) ==> c.0 < 8 && c.1 < 8
        &&& self.state is Start ==> self.pieces.initial_setup()
        &&& self.published_ok()
    }

    /// Which submissions the engine accepts: during the opening any back-row
    /// cell, afterwards exactly the members of the published legal-move set.
    pub open spec fn accepts(self, x: usize, y: usize) -> bool {
        match self.state {
            TurnState::Start => y == 0,
            TurnState::ActiveSide(_, _) => self.legal@.contains((x, y)),
        }
    }

    /// A fresh game: the fixed board, all pieces on their starting cells,
    /// `Start` state, nothing published yet.
    pub fn new() -> (s: GameSession)
        ensures
            s.wf(),
            s.pieces.initial_setup(),
            s.state == TurnState::Start,
            s.legal@.len() == 0,
    {
        GameSession {
            board: Board::default(),
            pieces: PieceSet::new(),
            state: TurnState::Start,
            legal: Vec::new(),
        }
    }

    /// The current turn state.
    pub fn current_turn(&self) -> (t: TurnState)
        ensures
            t == self.state,
    {
        self.state
    }

    /// The published legal-move set of the active piece.
    pub fn current_legal_moves(&self) -> (m: &Vec<(usize, usize)>)
        ensures
            m@ == self.legal@,
    {
        &self.legal
    }

    /// Every piece of both sides with its side, color and current cell, for
    /// redraw after each accepted move.
    pub fn piece_positions(&self) -> (r: Vec<(Side, Colors, usize, usize)>)
        ensures
            r@ == positions_seq(self.pieces),
    {
        let mut r: Vec<(Side, Colors, usize, usize)> = Vec::new();
        let mut i: usize = 0;
        while i < self.pieces.white.len()
            invariant
                i <= self.pieces.white@.len(),
                r@.len() == i,
                forall|k: int|
                    0 <= k < i ==> (#[trigger] r@[k]) == (
                        Side::White,
                        self.pieces.white@[k].color,
                        self.pieces.white@[k].x,
                        self.pieces.white@[k].y,
                    ),
            decreases self.pieces.white@.len() - i,
        {
            let p = self.pieces.white[i];
            r.push((Side::White, p.color, p.x, p.y));
            i += 1;
        }
        let ghost nw = self.pieces.white@.len();
        let mut j: usize = 0;
        while j < self.pieces.black.len()
            invariant
                j <= self.pieces.black@.len(),
                nw == self.pieces.white@.len(),
                r@.len() == nw + j,
                forall|k: int|
                    0 <= k < nw ==> (#[trigger] r@[k]) == (
                        Side::White,
                        self.pieces.white@[k].color,
                        self.pieces.white@[k].x,
                        self.pieces.white@[k].y,
                    ),
                forall|k: int|
                    nw <= k < nw + j ==> (#[trigger] r@[k]) == (
                        Side::Black,
                        self.pieces.black@[k - nw].color,
                        self.pieces.black@[k - nw].x,
                        self.pieces.black@[k - nw].y,
                    ),
            decreases self.pieces.black@.len() - j,
        {
            let p = self.pieces.black[j];
            r.push((Side::Black, p.color, p.x, p.y));
            j += 1;
        }
        proof {
            let ps = positions_seq(self.pieces);
            assert forall|k: int| 0 <= k < r@.len() implies r@[k] == ps[k] by {
                if k < nw {
                } else {
                    assert(r@[k] == ps[k]);
                }
            }
            assert(r@ =~= ps);
        }
        r
    }
}

impl GameSession {
    /// Process one submitted destination cell, the sole validation gate of
    /// the engine. A cell outside the accepted set is rejected: the call
    /// returns `false` and the whole session — turn state, pieces, published
    /// set — is exactly as before. An accepted cell drives the transition of
    /// `opening_transition` or `move_transition`.
    #[verifier::rlimit(60)]
    pub fn submit_move(&mut self, x: usize, y: usize) -> (accepted: bool)
        requires
            old(self).wf(),
            x < 8,
            y < 8,
        ensures
            final(self).wf(),
            accepted == old(self).accepts(x, y),
            !accepted ==> *final(self) == *old(self),
            accepted ==> match old(self).state {
                TurnState::Start => opening_transition(*old(self), *final(self), x),
                TurnState::ActiveSide(side, color) => move_transition(
                    *old(self),
                    *final(self),
                    side,
                    color,
                    x,
                    y,
                ),
            },
    {
        match self.state {
            TurnState::Start => {
                if y == 0 {
                    let color = self.board.color_at(x, 0);
                    self.legal = opening_moves(x, 0);
                    self.state = TurnState::ActiveSide(Side::White, color);
                    proof {
                        assert forall|c: (usize, usize)| #[trigger]
                            self.legal@.contains(c) implies c.0 < 8 && c.1 < 8 by {
                            lemma_opening_dest_on_one_ray(
                                x as int,
                                0,
                                c.0 as int,
                                c.1 as int,
                            );
                        }
                        // The chosen piece still stands on the clicked cell:
                        // at game start the back-row tile of a color carries
                        // the white piece of that color.
                        let tc = tile_color(x as int, 0);
                        assert(self.pieces.white@[x as int].color == tc);
                        lemma_piece_with_color_unique(self.pieces.white@, tc);
                        assert(index_of_color(self.pieces.white@, tc) == x as int);
                    }
                    true
                } else {
                    false
                }
            },
            TurnState::ActiveSide(side, color) => {
                if contains_cell(&self.legal, x, y) {
                    self.pieces.apply_move(side, color, x, y);
                    let tc = self.board.color_at(x, y);
                    let opp = side.opposite();
                    let cand = self.pieces.piece_with_color(opp, tc);
                    let occ = self.pieces.occupancy();
                    let ghost g = occ.deep_view();
                    proof {
                        lemma_occ_grid_bridge(occ, self.pieces);
                    }
                    let cand_moves = sliding_moves(&occ, opp, cand.x(), cand.y());
                    if cand_moves.len() > 0 {
                        proof {
                            let c0 = cand_moves@[0];
                            assert(cand_moves@.contains(c0));
                            assert(legal_dest(
                                g,
                                opp,
                                cand.x as int,
                                cand.y as int,
                                c0.0 as int,
                                c0.1 as int,
                            ));
                            assert(candidate_has_move(g, opp, cand));
                        }
                        self.state = TurnState::ActiveSide(opp, tc);
                        self.legal = cand_moves;
                        proof {
                            assert forall|c: (usize, usize)| #[trigger]
                                self.legal@.contains(c) implies c.0 < 8 && c.1 < 8 by {
                                lemma_dest_on_one_ray(
                                    g,
                                    opp,
                                    cand.x as int,
                                    cand.y as int,
                                    c.0 as int,
                                    c.1 as int,
                                );
                            }
                        }
                    } else {
                        proof {
                            if candidate_has_move(g, opp, cand) {
                                let (cx, cy) = choose|cx: int, cy: int|
                                    #[trigger] legal_dest(
                                        g,
                                        opp,
                                        cand.x as int,
                                        cand.y as int,
                                        cx,
                                        cy,
                                    );
                                lemma_dest_on_one_ray(g, opp, cand.x as int, cand.y as int, cx, cy);
                                let cw = ((cx as usize), (cy as usize));
                                assert(legal_dest(
                                    g,
                                    opp,
                                    cand.x as int,
                                    cand.y as int,
                                    cw.0 as int,
                                    cw.1 as int,
                                ));
                                assert(cand_moves@.contains(cw));
                                assert(false);
                            }
                        }
                        let own_moves = sliding_moves(&occ, side, x, y);
                        self.legal = own_moves;
                        proof {
                            assert forall|c: (usize, usize)| #[trigger]
                                self.legal@.contains(c) implies c.0 < 8 && c.1 < 8 by {
                                lemma_dest_on_one_ray(g, side, x as int, y as int, c.0 as int, c.1 as int);
                            }
                            // The reactivated piece is the one that just
                            // moved, standing on `(x, y)`: the update kept
                            // its color, so its index is unchanged.
                            let pre_seq = old(self).pieces.side_seq(side);
                            lemma_piece_with_color_unique(pre_seq, color);
                            let idx0 = index_of_color(pre_seq, color);
                            let post_seq = self.pieces.side_seq(side);
                            assert(post_seq[idx0] == (Piece { color, x, y }));
                            lemma_piece_with_color_unique(post_seq, color);
                            assert(index_of_color(post_seq, color) == idx0);
                        }
                    }
                    true
                } else {
                    false
                }
            },
        }
    }
}

impl GameSession {
    /// A session resumed from an arbitrary arrangement of pieces, with the
    /// piece of `side` carrying `color` to move next: its legal destinations
    /// are computed from the given occupancy and published. `None` exactly
    /// when one of the lists breaks the per-side invariant.
    pub fn resume(white: Vec<Piece>, black: Vec<Piece>, side: Side, color: Colors) -> (r: Option<
        GameSession,
    >)
        ensures
            (r is Some) <==> side_wf(white@) && side_wf(black@),
            r matches Some(s) ==> ({
                let p = s.pieces.side_seq(side)[index_of_color(s.pieces.side_seq(side), color)];
                &&& s.wf()
                &&& s.pieces.white@ == white@
                &&& s.pieces.black@ == black@
                &&& s.state == TurnState::ActiveSide(side, color)
                &&& publishes_moves_of(s, side, p.x as int, p.y as int)
            }),
    {
        if !check_side(&white) {
            return None;
        }
        if !check_side(&black) {
            return None;
        }
        let pieces = PieceSet { white, black };
        let p = pieces.piece_with_color(side, color);
        let occ = pieces.occupancy();
        let ghost g = occ.deep_view();
        proof {
            lemma_occ_grid_bridge(occ, pieces);
        }
        let legal = sliding_moves(&occ, side, p.x(), p.y());
        proof {
            assert forall|c: (usize, usize)| #[trigger] legal@.contains(c) implies c.0 < 8 && c.1
                < 8 by {
                lemma_dest_on_one_ray(g, side, p.x as int, p.y as int, c.0 as int, c.1 as int);
            }
        }
        Some(
            GameSession {
                board: Board::default(),
                pieces,
                state: TurnState::ActiveSide(side, color),
                legal,
            },
        )
    }
}

/// An occupancy vector that mirrors a piece set pointwise is, as a grid, the
/// piece set's occupancy grid.
proof fn lemma_occ_grid_bridge(occ: Vec<Vec<bool>>, ps: PieceSet)
    requires
        occ@.len() == 8,
        forall|x: int| 0 <= x < 8 ==> (#[trigger] occ@[x])@.len() == 8,
        forall|x: int, y: int|
            0 <= x < 8 && 0 <= y < 8 ==> (#[trigger] occ@[x]@[y]) == ps.occupied(x, y),
    ensures
        occ.deep_view() == occ_grid(ps),
        grid_wf(occ.deep_view()),
{
    let g = occ.deep_view();
    assert(g.len() == occ@.len());
    assert forall|i: int| 0 <= i < 8 implies (#[trigger] g[i]).len() == 8 by {
        assert(g[i] == occ@[i].deep_view());
    }
    assert forall|i: int, j: int| 0 <= i < 8 && 0 <= j < 8 implies (#[trigger] g[i][j])
        == ps.occupied(i, j) by {
        assert(g[i] == occ@[i].deep_view());
        assert(g[i][j] == occ@[i]@[j]);
    }
    assert(g =~~= occ_grid(ps));
}

/// Round trip of one accepted move: in the published positions, exactly the
/// entry of the moved piece shows the new cell, and the fifteen other
/// entries are unchanged.
pub proof fn lemma_round_trip(
    pre: PieceSet,
    post: PieceSet,
    side: Side,
    color: Colors,
    x: usize,
    y: usize,
)
    requires
        pre.wf(),
        pieces_after_move(pre, side, color, x, y, post),
    ensures
        positions_seq(pre).len() == 16,
        positions_seq(post).len() == 16,
        ({
            let idx = match side {
                Side::White => index_of_color(pre.white@, color),
                Side::Black => 8 + index_of_color(pre.black@, color),
            };
            &&& 0 <= idx < 16
            &&& positions_seq(post)[idx] == (side, color, x, y)
            &&& forall|i: int|
                0 <= i < 16 && i != idx ==> positions_seq(post)[i] == positions_seq(pre)[i]
        }),
{
    lemma_piece_with_color_unique(pre.side_seq(side), color);
    let pi = index_of_color(pre.side_seq(side), color);
    let idx = match side {
        Side::White => index_of_color(pre.white@, color),
        Side::Black => 8 + index_of_color(pre.black@, color),
    };
    assert(post.side_seq(side) == pre.side_seq(side).update(pi, (Piece { color, x, y })));
    assert(post.side_seq(side.spec_opposite()) == pre.side_seq(side.spec_opposite()));
    assert(positions_seq(post)[idx] == (side, color, x, y));
    assert forall|i: int| 0 <= i < 16 && i != idx implies positions_seq(post)[i]
        == positions_seq(pre)[i] by {
        if i < 8 {
            assert(post.white@[i] == pre.white@[i]);
        } else {
            assert(post.black@[i - 8] == pre.black@[i - 8]);
        }
    }
}

/// Membership test of cell `(x, y)` in a published move list.
fn contains_cell(v: &Vec<(usize, usize)>, x: usize, y: usize) -> (r: bool)
    ensures
        r == v@.contains((x, y)),
{
    let mut i: usize = 0;
    while i < v.len()
        invariant
            i <= v@.len(),
            forall|k: int| 0 <= k < i ==> (#[trigger] v@[k]) != (x, y),
        decreases v@.len() - i,
    {
        if v[i].0 == x && v[i].1 == y {
            assert(v@[i as int] == (x, y));
            return true;
        }
        i += 1;
    }
    false
}

} // verus!
