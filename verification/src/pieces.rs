//! The sixteen movable pieces and the occupancy model.
//!
//! Each side owns eight pieces, one per color; a piece never leaves the board
//! and is never captured, it only changes its cell. The set of both sides'
//! current cells is the occupancy snapshot that blocks sliding moves.

use vstd::prelude::*;

use crate::colors::{color_order, Colors};

verus! {

/// The two competing players.
#[derive(Clone, Copy, PartialEq, Eq, Structural, Debug)]
pub enum Side {
    White,
    Black,
}

impl Side {
    /// The opposing side.
    pub open spec fn spec_opposite(self) -> Side {
        match self {
            Side::White => Side::Black,
            Side::Black => Side::White,
        }
    }

    /// The opposing side.
    #[verifier::when_used_as_spec(spec_opposite)]
    pub fn opposite(self) -> (o: Side)
        ensures
            o == self.spec_opposite(),
    {
        match self {
            Side::White => Side::Black,
            Side::Black => Side::White,
        }
    }
}

/// One movable piece: an identifying color and its current cell.
#[derive(Clone, Copy, PartialEq, Eq, Structural, Debug)]
pub struct Piece {
    pub color: Colors,
    pub x: usize,
    pub y: usize,
}

impl Piece {
    /// A piece of color `color` standing on cell `(x, y)`.
    pub fn new(color: Colors, x: usize, y: usize) -> (p: Piece)
        ensures
            p == (Piece { color, x, y }),
    {
        Piece { color, x, y }
    }

    /// The identifying color.
    pub fn color(&self) -> (c: Colors)
        ensures
            c == self.color,
    {
        self.color
    }

    /// The current column.
    pub fn x(&self) -> (x: usize)
        ensures
            x == self.x,
    {
        self.x
    }

    /// The current row.
    pub fn y(&self) -> (y: usize)
        ensures
            y == self.y,
    {
        self.y
    }

    /// Put the piece on cell `(x, y)`; its color is untouched.
    pub fn move_piece(&mut self, x: usize, y: usize)
        ensures
            *final(self) == (Piece { color: old(self).color, x, y }),
    {
        self.x = x;
        self.y = y;
    }
}

/// Marker for a piece belonging to White; lets an embedding layer tag the
/// handles it keeps for one side's pieces.
pub struct WhitePiece;

/// Marker for a piece belonging to Black.
pub struct BlackPiece;

/// Every piece of the list stands on the board.
pub open spec fn coords_ok(s: Seq<Piece>) -> bool {
    forall|i: int| 0 <= i < s.len() ==> (#[trigger] s[i]).x < 8 && s[i].y < 8
}

/// No two pieces of the list share a color.
pub open spec fn colors_unique(s: Seq<Piece>) -> bool {
    forall|i: int, j: int|
        0 <= i < s.len() && 0 <= j < s.len() && i != j ==> (#[trigger] s[i]).color != (
        #[trigger] s[j]).color
}

/// Some piece of the list carries color `c`.
pub open spec fn has_color(s: Seq<Piece>, c: Colors) -> bool {
    exists|i: int| 0 <= i < s.len() && (#[trigger] s[i]).color == c
}

/// Every one of the eight colors is carried by some piece of the list.
pub open spec fn all_colors(s: Seq<Piece>) -> bool {
    forall|c: Colors| #[trigger] has_color(s, c)
}

/// One side's pieces are well formed: eight pieces on the board, one per
/// color.
pub open spec fn side_wf(s: Seq<Piece>) -> bool {
    &&& s.len() == 8
    &&& coords_ok(s)
    &&& colors_unique(s)
    &&& all_colors(s)
}

/// The index of the piece carrying color `c`; under `colors_unique` it is the
/// only such index.
pub open spec fn index_of_color(s: Seq<Piece>, c: Colors) -> int {
    choose|i: int| 0 <= i < s.len() && (#[trigger] s[i]).color == c
}

/// Some piece of the list stands on cell `(x, y)`.
pub open spec fn occupied_by(s: Seq<Piece>, x: int, y: int) -> bool {
    exists|i: int| 0 <= i < s.len() && (#[trigger] s[i]).x == x && s[i].y == y
}

/// The sixteen pieces of a game, eight per side.
pub struct PieceSet {
    pub white: Vec<Piece>,
    pub black: Vec<Piece>,
}

impl PieceSet {
    /// The listed pieces of side `s`.
    pub open spec fn side_seq(self, s: Side) -> Seq<Piece> {
        match s {
            Side::White => self.white@,
            Side::Black => self.black@,
        }
    }

    /// Both sides are well formed.
    pub open spec fn wf(self) -> bool {
        side_wf(self.white@) && side_wf(self.black@)
    }

    /// Cell `(x, y)` is covered by a piece of either side.
    pub open spec fn occupied(self, x: int, y: int) -> bool {
        occupied_by(self.white@, x, y) || occupied_by(self.black@, x, y)
    }

    /// The fixed starting arrangement: white piece `i` on `(i, 0)` and black
    /// piece `i` on `(7 - i, 7)`, both sides in color order, so that every
    /// piece starts on the edge-row tile of its own color.
    pub open spec fn initial_setup(self) -> bool {
        &&& self.white@.len() == 8
        &&& self.black@.len() == 8
        &&& forall|i: int|
            0 <= i < 8 ==> (#[trigger] self.white@[i]) == (Piece {
                color: color_order(i),
                x: i as usize,
                y: 0usize,
            })
        &&& forall|i: int|
            0 <= i < 8 ==> (#[trigger] self.black@[i]) == (Piece {
                color: color_order(i),
                x: (7 - i) as usize,
                y: 7usize,
            })
    }

    /// The sixteen pieces at their fixed starting cells.
    pub fn new() -> (ps: PieceSet)
        ensures
            ps.wf(),
            ps.initial_setup(),
    {
        let mut white: Vec<Piece> = Vec::new();
        let mut black: Vec<Piece> = Vec::new();
        white.push(Piece { color: Colors::Orange, x: 0, y: 0 });
        white.push(Piece { color: Colors::Blue, x: 1, y: 0 });
        white.push(Piece { color: Colors::Purple, x: 2, y: 0 });
        white.push(Piece { color: Colors::Pink, x: 3, y: 0 });
        white.push(Piece { color: Colors::Yellow, x: 4, y: 0 });
        white.push(Piece { color: Colors::Red, x: 5, y: 0 });
        white.push(Piece { color: Colors::Green, x: 6, y: 0 });
        white.push(Piece { color: Colors::Brown, x: 7, y: 0 });
        black.push(Piece { color: Colors::Orange, x: 7, y: 7 });
        black.push(Piece { color: Colors::Blue, x: 6, y: 7 });
        black.push(Piece { color: Colors::Purple, x: 5, y: 7 });
        black.push(Piece { color: Colors::Pink, x: 4, y: 7 });
        black.push(Piece { color: Colors::Yellow, x: 3, y: 7 });
        black.push(Piece { color: Colors::Red, x: 2, y: 7 });
        black.push(Piece { color: Colors::Green, x: 1, y: 7 });
        black.push(Piece { color: Colors::Brown, x: 0, y: 7 });
        let ps = PieceSet { white, black };
        proof {
            lemma_full_color_order_side_wf(ps.white@);
            lemma_full_color_order_side_wf(ps.black@);
        }
        ps
    }
}

impl PieceSet {
    /// The piece of side `side` carrying `color`; by `wf` there is exactly
    /// one (see `lemma_piece_with_color_unique`).
    pub fn piece_with_color(&self, side: Side, color: Colors) -> (p: Piece)
        requires
            self.wf(),
        ensures
            p == self.side_seq(side)[index_of_color(self.side_seq(side), color)],
            p.color == color,
            0 <= index_of_color(self.side_seq(side), color) < 8,
    {
        match side {
            Side::White => {
                let i = find_color(&self.white, color);
                self.white[i]
            },
            Side::Black => {
                let i = find_color(&self.black, color);
                self.black[i]
            },
        }
    }

    /// Some piece standing on cell `(x, y)`, if the cell is covered.
    pub fn piece_at(&self, x: usize, y: usize) -> (r: Option<Piece>)
        ensures
            (r is Some) <==> self.occupied(x as int, y as int),
            r matches Some(p) ==> p.x == x && p.y == y && (self.white@.contains(p)
                || self.black@.contains(p)),
    {
        let mut i: usize = 0;
        while i < self.white.len()
            invariant
                i <= self.white@.len(),
                forall|k: int|
                    0 <= k < i ==> !((#[trigger] self.white@[k]).x == x && self.white@[k].y == y),
            decreases self.white@.len() - i,
        {
            if self.white[i].x == x && self.white[i].y == y {
                return Some(self.white[i]);
            }
            i += 1;
        }
        let mut j: usize = 0;
        while j < self.black.len()
            invariant
                j <= self.black@.len(),
                forall|k: int|
                    0 <= k < j ==> !((#[trigger] self.black@[k]).x == x && self.black@[k].y == y),
            decreases self.black@.len() - j,
        {
            if self.black[j].x == x && self.black[j].y == y {
                return Some(self.black[j]);
            }
            j += 1;
        }
        None
    }

    /// The derived 8x8 snapshot of covered cells, `true` where any piece of
    /// either side currently sits.
    pub fn occupancy(&self) -> (occ: Vec<Vec<bool>>)
        ensures
            occ@.len() == 8,
            forall|x: int| 0 <= x < 8 ==> (#[trigger] occ@[x])@.len() == 8,
            forall|x: int, y: int|
                0 <= x < 8 && 0 <= y < 8 ==> (#[trigger] occ@[x]@[y]) == self.occupied(x, y),
    {
        let mut occ: Vec<Vec<bool>> = Vec::new();
        let mut x: usize = 0;
        while x < 8
            invariant
                x <= 8,
                occ@.len() == x,
                forall|k: int| 0 <= k < x ==> (#[trigger] occ@[k])@.len() == 8,
                forall|k: int, y: int|
                    0 <= k < x && 0 <= y < 8 ==> (#[trigger] occ@[k]@[y]) == self.occupied(k, y),
            decreases 8 - x,
        {
            let mut col: Vec<bool> = Vec::new();
            let mut y: usize = 0;
            while y < 8
                invariant
                    y <= 8,
                    col@.len() == y,
                    forall|k: int| 0 <= k < y ==> (#[trigger] col@[k]) == self.occupied(x as int, k),
                decreases 8 - y,
            {
                col.push(self.piece_at(x, y).is_some());
                y += 1;
            }
            occ.push(col);
            x += 1;
        }
        occ
    }

    /// Move the piece of side `side` carrying `color` to cell `(x, y)`.
    /// Exactly that piece changes; every other piece keeps its cell. No
    /// validation happens here: the turn engine only calls this with a
    /// destination drawn from the published legal-move set.
    pub fn apply_move(&mut self, side: Side, color: Colors, x: usize, y: usize)
        requires
            old(self).wf(),
            x < 8,
            y < 8,
        ensures
            final(self).wf(),
            final(self).side_seq(side) == old(self).side_seq(side).update(
                index_of_color(old(self).side_seq(side), color),
                (Piece { color, x, y }),
            ),
            final(self).side_seq(side.spec_opposite()) == old(self).side_seq(
                side.spec_opposite(),
            ),
    {
        match side {
            Side::White => {
                let i = find_color(&self.white, color);
                let p = &mut self.white[i];
                p.move_piece(x, y);
                proof {
                    lemma_update_preserves_side_wf(
                        old(self).white@,
                        i as int,
                        (Piece { color, x, y }),
                    );
                }
            },
            Side::Black => {
                let i = find_color(&self.black, color);
                let p = &mut self.black[i];
                p.move_piece(x, y);
                proof {
                    lemma_update_preserves_side_wf(
                        old(self).black@,
                        i as int,
                        (Piece { color, x, y }),
                    );
                }
            },
        }
    }
}

/// Looks up the index of the unique piece of a well-formed side that carries
/// `color`.
fn find_color(v: &Vec<Piece>, color: Colors) -> (i: usize)
    requires
        side_wf(v@),
    ensures
        i < 8,
        v@[i as int].color == color,
        i == index_of_color(v@, color),
{
    let mut i: usize = 0;
    while i < 8
        invariant
            side_wf(v@),
            i <= 8,
            forall|k: int| 0 <= k < i ==> (#[trigger] v@[k]).color != color,
        decreases 8 - i,
    {
        if v[i].color == color {
            proof {
                lemma_piece_with_color_unique(v@, color);
            }
            return i;
        }
        i += 1;
    }
    proof {
        assert(has_color(v@, color));
        let w = choose|k: int| 0 <= k < v@.len() && (#[trigger] v@[k]).color == color;
        assert(v@[w].color == color);
        assert(false);
    }
    0
}

/// Checks the per-side invariant on an arbitrary piece list: eight pieces,
/// all on the board, pairwise distinct colors, every color present.
pub fn check_side(v: &Vec<Piece>) -> (r: bool)
    ensures
        r == side_wf(v@),
{
    if v.len() != 8 {
        return false;
    }
    let mut i: usize = 0;
    while i < 8
        invariant
            v@.len() == 8,
            i <= 8,
            forall|k: int| 0 <= k < i ==> (#[trigger] v@[k]).x < 8 && v@[k].y < 8,
        decreases 8 - i,
    {
        if v[i].x >= 8 || v[i].y >= 8 {
            return false;
        }
        i += 1;
    }
    let mut i: usize = 0;
    while i < 8
        invariant
            v@.len() == 8,
            i <= 8,
            forall|k1: int, k2: int|
                0 <= k1 < i && k1 < k2 < 8 ==> (#[trigger] v@[k1]).color != (#[trigger] v@[k2]).color,
        decreases 8 - i,
    {
        let mut j: usize = i + 1;
        while j < 8
            invariant
                v@.len() == 8,
                i < 8,
                i < j <= 8,
                forall|k: int| i < k < j ==> (#[trigger] v@[k]).color != v@[i as int].color,
            decreases 8 - j,
        {
            if v[i].color == v[j].color {
                return false;
            }
            j += 1;
        }
        i += 1;
    }
    proof {
        assert forall|k1: int, k2: int|
            0 <= k1 < 8 && 0 <= k2 < 8 && k1 != k2 implies (#[trigger] v@[k1]).color != (
        #[trigger] v@[k2]).color by {
            if k2 < k1 {
                assert(v@[k2].color != v@[k1].color);
            }
        }
    }
    let palette: [Colors; 8] = [
        Colors::Orange,
        Colors::Blue,
        Colors::Purple,
        Colors::Pink,
        Colors::Yellow,
        Colors::Red,
        Colors::Green,
        Colors::Brown,
    ];
    let mut t: usize = 0;
    while t < 8
        invariant
            v@.len() == 8,
            t <= 8,
            forall|k: int| 0 <= k < 8 ==> palette@[k] == color_order(k),
            forall|k: int| 0 <= k < t ==> has_color(v@, #[trigger] color_order(k)),
        decreases 8 - t,
    {
        let c = palette[t];
        let mut found = false;
        let mut i: usize = 0;
        while i < 8
            invariant
                v@.len() == 8,
                i <= 8,
                c == color_order(t as int),
                found ==> has_color(v@, c),
                !found ==> forall|k: int| 0 <= k < i ==> (#[trigger] v@[k]).color != c,
            decreases 8 - i,
        {
            if v[i].color == c {
                proof {
                    assert(v@[i as int].color == c);
                }
                found = true;
            }
            i += 1;
        }
        if !found {
            proof {
                assert(!has_color(v@, c));
            }
            return false;
        }
        t += 1;
    }
    proof {
        assert forall|c: Colors| #[trigger] has_color(v@, c) by {
            match c {
                Colors::Orange => assert(has_color(v@, color_order(0))),
                Colors::Blue => assert(has_color(v@, color_order(1))),
                Colors::Purple => assert(has_color(v@, color_order(2))),
                Colors::Pink => assert(has_color(v@, color_order(3))),
                Colors::Yellow => assert(has_color(v@, color_order(4))),
                Colors::Red => assert(has_color(v@, color_order(5))),
                Colors::Green => assert(has_color(v@, color_order(6))),
                Colors::Brown => assert(has_color(v@, color_order(7))),
            }
        }
    }
    true
}

/// There is exactly one piece of each color on a well-formed side:
/// `index_of_color` names a valid index carrying the color, and every index
/// carrying the color equals it.
pub proof fn lemma_piece_with_color_unique(s: Seq<Piece>, c: Colors)
    requires
        side_wf(s),
    ensures
        0 <= index_of_color(s, c) < 8,
        s[index_of_color(s, c)].color == c,
        forall|i: int| 0 <= i < 8 && (#[trigger] s[i]).color == c ==> i == index_of_color(s, c),
{
    assert(has_color(s, c));
}

/// Replacing one piece by a piece of the same color that stands on the board
/// keeps a side well formed.
proof fn lemma_update_preserves_side_wf(s: Seq<Piece>, i: int, p: Piece)
    requires
        side_wf(s),
        0 <= i < 8,
        p.color == s[i].color,
        p.x < 8,
        p.y < 8,
    ensures
        side_wf(s.update(i, p)),
{
    let s1 = s.update(i, p);
    assert(forall|j: int| 0 <= j < 8 ==> (#[trigger] s1[j]).color == s[j].color);
    assert forall|c: Colors| #[trigger] has_color(s1, c) by {
        assert(has_color(s, c));
        let w = choose|k: int| 0 <= k < s.len() && (#[trigger] s[k]).color == c;
        assert(s1[w].color == c);
    }
}

/// A list of eight pieces on the board whose colors follow `color_order` is
/// well formed.
proof fn lemma_full_color_order_side_wf(s: Seq<Piece>)
    requires
        s.len() == 8,
        forall|i: int| 0 <= i < 8 ==> (#[trigger] s[i]).color == color_order(i),
        forall|i: int| 0 <= i < 8 ==> (#[trigger] s[i]).x < 8 && s[i].y < 8,
    ensures
        side_wf(s),
{
    assert forall|c: Colors| #[trigger] has_color(s, c) by {
        match c {
            Colors::Orange => assert(s[0].color == c),
            Colors::Blue => assert(s[1].color == c),
            Colors::Purple => assert(s[2].color == c),
            Colors::Pink => assert(s[3].color == c),
            Colors::Yellow => assert(s[4].color == c),
            Colors::Red => assert(s[5].color == c),
            Colors::Green => assert(s[6].color == c),
            Colors::Brown => assert(s[7].color == c),
        }
    }
}

} // verus!
