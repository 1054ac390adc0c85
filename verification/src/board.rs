//! The 11x11 board: piece and faction codes, the bit-packed board state,
//! ray-cast move generation and the sandwich-capture rules of `do_move`.
use vstd::prelude::*;

use crate::bits::{bit128, lemma_bit_ops, lemma_set_bit, lemma_u128_ext, pop_low, popcount, set_bit128};
use vstd::assert_seqs_equal;
use vstd::string::StringExecFns;

verus! {

/// Board width: the board is `W` x `W` cells, indexed row by row.
pub const W: usize = 11;

/// Mask of the five special squares: the four corners and the central
/// throne. Only the king may stand on them.
pub const TOWERS: u128 = (1u128 << 0) | (1u128 << 10) | (1u128 << 60) | (1u128 << 110) | (1u128
    << 120);

/// Linear index of the central throne square.
pub const THRONE: usize = 60;

/// Contents of one cell.
#[derive(Debug, Clone, Copy, PartialEq, Eq, Structural)]
pub enum Piece {
    Empty,
    King,
    Black,
    White,
}

/// The two sides; the king fights for White.
#[derive(Debug, Clone, Copy, PartialEq, Eq, Structural)]
pub enum Faction {
    Black,
    White,
}

/// Error for a cell code outside the 2-bit code space.
#[derive(Debug, Clone, Copy, PartialEq, Eq, Structural)]
pub enum CodeError {
    InvalidPieceCode,
}

/// The numeric code of each piece: the two bits are (low, high).
pub open spec fn piece_code(p: Piece) -> int {
    match p {
        Piece::Empty => 0,
        Piece::King => 1,
        Piece::Black => 2,
        Piece::White => 3,
    }
}

/// Low plane bit of a piece; set for the king and for White pieces.
pub open spec fn piece_low_bit(p: Piece) -> bool {
    p == Piece::King || p == Piece::White
}

/// High plane bit of a piece; set for Black and for White pieces.
pub open spec fn piece_high_bit(p: Piece) -> bool {
    p == Piece::Black || p == Piece::White
}

/// The piece encoded by a (low, high) pair of plane bits.
pub open spec fn piece_from_bits(low: bool, high: bool) -> Piece {
    if low && high {
        Piece::White
    } else if low {
        Piece::King
    } else if high {
        Piece::Black
    } else {
        Piece::Empty
    }
}

/// The faction a piece fights for, if any; the king counts as White.
pub open spec fn piece_faction(p: Piece) -> Option<Faction> {
    match p {
        Piece::Empty => None,
        Piece::King => Some(Faction::White),
        Piece::Black => Some(Faction::Black),
        Piece::White => Some(Faction::White),
    }
}

impl Piece {
    /// True for the empty cell value.
    pub fn is_empty(self) -> (r: bool)
        ensures
            r == (self == Piece::Empty),
    {
        match self {
            Piece::Empty => true,
            _ => false,
        }
    }

    /// Total decode of the 2-bit code space; any other code is rejected.
    pub fn try_from_code(value: usize) -> (r: Result<Self, CodeError>)
        ensures
            value < 4 ==> (r matches Ok(p) && piece_code(p) == value),
            value >= 4 ==> r == Result::<Piece, CodeError>::Err(CodeError::InvalidPieceCode),
    {
        match value {
            0 => Ok(Self::Empty),
            1 => Ok(Self::King),
            2 => Ok(Self::Black),
            3 => Ok(Self::White),
            _ => Err(CodeError::InvalidPieceCode),
        }
    }

    /// The piece stored as a (low, high) pair of plane bits.
    pub fn from_bits(low: bool, high: bool) -> (r: Self)
        ensures
            r == piece_from_bits(low, high),
    {
        if low && high {
            Self::White
        } else if low {
            Self::King
        } else if high {
            Self::Black
        } else {
            Self::Empty
        }
    }

    /// The (low, high) plane bits that store this piece.
    pub fn to_bits(self) -> (r: (bool, bool))
        ensures
            r.0 == piece_low_bit(self),
            r.1 == piece_high_bit(self),
    {
        match self {
            Self::Empty => (false, false),
            Self::King => (true, false),
            Self::Black => (false, true),
            Self::White => (true, true),
        }
    }

    /// The faction of a non-empty piece; an empty cell has none.
    pub fn faction(self) -> (r: Option<Faction>)
        ensures
            r == piece_faction(self),
    {
        match self {
            Self::Empty => None,
            Self::King => Some(Faction::White),
            Self::Black => Some(Faction::Black),
            Self::White => Some(Faction::White),
        }
    }
}

/// The opposing side.
pub open spec fn other_faction_spec(f: Faction) -> Faction {
    match f {
        Faction::Black => Faction::White,
        Faction::White => Faction::Black,
    }
}

impl Faction {
    /// The opposing side.
    pub fn other_faction(&self) -> (r: Self)
        ensures
            r == other_faction_spec(*self),
    {
        match self {
            Self::White => Self::Black,
            Self::Black => Self::White,
        }
    }
}

/// 2-D coordinates of a linear cell index.
pub open spec fn to_2d_spec(i: int) -> [u16; 2] {
    [(i / 11) as u16, (i % 11) as u16]
}

/// Turns a linear cell index back into a `[y, x]` coordinate.
pub fn to_2d(i: usize) -> (r: [u16; 2])
    requires
        i < 121,
    ensures
        r == to_2d_spec(i as int),
        r[0] < 11 && r[1] < 11,
        r[0] * 11 + r[1] == i,
{
    let y = (i / W) as u16;
    let x = (i % W) as u16;
    [y, x]
}

/// Turns a 2-D coordinate `[y, x]` into the linear cell index `y * W + x`,
/// or `None` when the coordinate lies outside the board.
pub fn to_linind(coord: [u16; 2]) -> (r: Option<usize>)
    ensures
        r is Some <==> coord[0] < 11 && coord[1] < 11,
        r is Some ==> r->0 == coord[0] * 11 + coord[1] && r->0 < 121,
{
    let y = coord[0];
    let x = coord[1];
    if x as usize >= W || y as usize >= W {
        return None;
    }
    Some(x as usize + y as usize * W)
}


/// The letter naming column `x`.
pub open spec fn column_letter(x: int) -> Seq<char> {
    if x == 0 {
        seq!['A']
    } else if x == 1 {
        seq!['B']
    } else if x == 2 {
        seq!['C']
    } else if x == 3 {
        seq!['D']
    } else if x == 4 {
        seq!['E']
    } else if x == 5 {
        seq!['F']
    } else if x == 6 {
        seq!['G']
    } else if x == 7 {
        seq!['H']
    } else if x == 8 {
        seq!['I']
    } else if x == 9 {
        seq!['J']
    } else if x == 10 {
        seq!['K']
    } else {
        seq!['K']
    }
}

/// The decimal digits naming row `y`, counted from 1.
pub open spec fn row_number(y: int) -> Seq<char> {
    if y == 0 {
        seq!['1']
    } else if y == 1 {
        seq!['2']
    } else if y == 2 {
        seq!['3']
    } else if y == 3 {
        seq!['4']
    } else if y == 4 {
        seq!['5']
    } else if y == 5 {
        seq!['6']
    } else if y == 6 {
        seq!['7']
    } else if y == 7 {
        seq!['8']
    } else if y == 8 {
        seq!['9']
    } else if y == 9 {
        seq!['1', '0']
    } else {
        seq!['1', '1']
    }
}

/// The human-readable name of a cell: its column letter followed by its
/// row number counted from 1.
pub fn to_readable_coord(coord: [u16; 2]) -> (r: String)
    requires
        coord[0] < 11,
        coord[1] < 11,
    ensures
        r@ == column_letter(coord[1] as int) + row_number(coord[0] as int),
{
    let letter: &str = match coord[1] {
        0 => {
            proof {
                reveal_strlit("A");
            }
            "A"
        },
        1 => {
            proof {
                reveal_strlit("B");
            }
            "B"
        },
        2 => {
            proof {
                reveal_strlit("C");
            }
            "C"
        },
        3 => {
            proof {
                reveal_strlit("D");
            }
            "D"
        },
        4 => {
            proof {
                reveal_strlit("E");
            }
            "E"
        },
        5 => {
            proof {
                reveal_strlit("F");
            }
            "F"
        },
        6 => {
            proof {
                reveal_strlit("G");
            }
            "G"
        },
        7 => {
            proof {
                reveal_strlit("H");
            }
            "H"
        },
        8 => {
            proof {
                reveal_strlit("I");
            }
            "I"
        },
        9 => {
            proof {
                reveal_strlit("J");
            }
            "J"
        },
        10 => {
            proof {
                reveal_strlit("K");
            }
            "K"
        },
        _ => {
            proof {
                reveal_strlit("K");
            }
            "K"
        },
    };
    let number: &str = match coord[0] {
        0 => {
            proof {
                reveal_strlit("1");
            }
            "1"
        },
        1 => {
            proof {
                reveal_strlit("2");
            }
            "2"
        },
        2 => {
            proof {
                reveal_strlit("3");
            }
            "3"
        },
        3 => {
            proof {
                reveal_strlit("4");
            }
            "4"
        },
        4 => {
            proof {
                reveal_strlit("5");
            }
            "5"
        },
        5 => {
            proof {
                reveal_strlit("6");
            }
            "6"
        },
        6 => {
            proof {
                reveal_strlit("7");
            }
            "7"
        },
        7 => {
            proof {
                reveal_strlit("8");
            }
            "8"
        },
        8 => {
            proof {
                reveal_strlit("9");
            }
            "9"
        },
        9 => {
            proof {
                reveal_strlit("10");
            }
            "10"
        },
        10 => {
            proof {
                reveal_strlit("11");
            }
            "11"
        },
        _ => {
            proof {
                reveal_strlit("11");
            }
            "11"
        },
    };
    let mut r = String::from_str(letter);
    r.append(number);
    proof {
        assert_seqs_equal!(r@ == column_letter(coord[1] as int) + row_number(coord[0] as int));
    }
    r
}

/// The bit-packed board: 121 cells of 2 bits each, split over two planes.
/// `plane0` holds each cell's low bit and `plane1` its high bit, so the
/// whole position is exactly the pair of planes.
#[derive(Debug, Clone, Copy, PartialEq, Eq, Hash, Structural)]
pub struct BoardState {
    pub plane0: u128,
    pub plane1: u128,
}

/// The piece on cell `i` of board `b`.
pub open spec fn piece_at(b: BoardState, i: int) -> Piece {
    piece_from_bits(bit128(b.plane0, i as u128), bit128(b.plane1, i as u128))
}

/// The mask of White's cells is the low plane itself.
pub open spec fn whites_mask(b: BoardState) -> u128 {
    b.plane0
}

/// The mask of Black's cells: a high bit without the low one.
pub open spec fn blacks_mask(b: BoardState) -> u128 {
    !b.plane0 & b.plane1
}

/// Whether cell index `i` is one of the five tower squares.
pub open spec fn is_tower(i: int) -> bool {
    i == 0 || i == 10 || i == 60 || i == 110 || i == 120
}

impl BoardState {
    /// Both planes carry bits for the 121 cells only.
    pub open spec fn wf(self) -> bool {
        forall|i: u128|
            121 <= i < 128 ==> !(#[trigger] bit128(self.plane0, i)) && !bit128(self.plane1, i)
    }

    /// The empty board.
    pub fn new() -> (r: Self)
        ensures
            r.wf(),
            forall|i: int| 0 <= i < 121 ==> piece_at(r, i) == Piece::Empty,
    {
        let r = Self { plane0: 0, plane1: 0 };
        proof {
            assert forall|i: u128| i < 128 implies !bit128(0u128, i) by {
                lemma_bit_ops(0, 0, i);
            }
        }
        r
    }

    /// The piece on cell `i`.
    pub fn get(&self, i: usize) -> (r: Piece)
        requires
            i < 121,
        ensures
            r == piece_at(*self, i as int),
    {
        let low = self.plane0 & (1u128 << (i as u128)) != 0;
        let high = self.plane1 & (1u128 << (i as u128)) != 0;
        Piece::from_bits(low, high)
    }

    /// Puts `val` on cell `i`, leaving every other cell as it was.
    pub fn set(&mut self, i: usize, val: Piece)
        requires
            i < 121,
    ensures
            *final(self) == set_piece(*old(self), i as int, val),
            piece_at(*final(self), i as int) == val,
            forall|j: int| 0 <= j < 121 && j != i ==> piece_at(*final(self), j) == piece_at(
                *old(self),
                j,
            ),
            old(self).wf() ==> final(self).wf(),
    {
        let (low, high) = val.to_bits();
        if low {
            self.plane0 = self.plane0 | (1u128 << (i as u128));
        } else {
            self.plane0 = self.plane0 & !(1u128 << (i as u128));
        }
        if high {
            self.plane1 = self.plane1 | (1u128 << (i as u128));
        } else {
            self.plane1 = self.plane1 & !(1u128 << (i as u128));
        }
        proof {
            lemma_set_piece(*old(self), i as int, val);
        }
    }

    /// The piece at coordinate `[y, x]`, or `None` off the board.
    pub fn get_2d(&self, coord: [u16; 2]) -> (r: Option<Piece>)
        requires
            self.wf(),
        ensures
            r is Some <==> coord[0] < 11 && coord[1] < 11,
            coord[0] < 11 && coord[1] < 11 ==> r == Some(
                piece_at(*self, coord[0] * 11 + coord[1]),
            ),
    {
        match to_linind(coord) {
            Some(i) => Some(self.get(i)),
            None => None,
        }
    }

    /// Puts `val` at coordinate `[y, x]`; the coordinate must be on the
    /// board.
    pub fn set_2d(&mut self, coord: [u16; 2], val: Piece)
        requires
            coord[0] < 11 && coord[1] < 11,
    ensures
            *final(self) == set_piece(*old(self), coord[0] * 11 + coord[1], val),
            piece_at(*final(self), coord[0] * 11 + coord[1]) == val,
            forall|j: int|
                0 <= j < 121 && j != coord[0] * 11 + coord[1] ==> piece_at(*final(self), j)
                    == piece_at(*old(self), j),
            old(self).wf() ==> final(self).wf(),
    {
        let i = (coord[1] as usize) + (coord[0] as usize) * W;
        self.set(i, val)
    }
}

impl BoardState {
    /// Mask of the cells held by White, the king included.
    pub fn whites(self) -> (r: u128)
        requires
            self.wf(),
        ensures
            r == whites_mask(self),
            forall|i: u128|
                i < 128 ==> (#[trigger] bit128(r, i) <==> i < 121 && piece_faction(
                    piece_at(self, i as int),
                ) == Some(Faction::White)),
    {
        proof {
            assert forall|i: u128| i < 128 implies (bit128(self.plane0, i) <==> i < 121
                && piece_faction(piece_at(self, i as int)) == Some(Faction::White)) by {
                lemma_bit_ops(self.plane0, self.plane1, i);
            }
        }
        self.plane0
    }

    /// Mask of the cells held by Black.
    pub fn blacks(self) -> (r: u128)
        requires
            self.wf(),
        ensures
            r == blacks_mask(self),
            forall|i: u128|
                i < 128 ==> (#[trigger] bit128(r, i) <==> i < 121 && piece_faction(
                    piece_at(self, i as int),
                ) == Some(Faction::Black)),
    {
        let r = !self.plane0 & self.plane1;
        proof {
            assert forall|i: u128| i < 128 implies (bit128(r, i) <==> i < 121 && piece_faction(
                piece_at(self, i as int),
            ) == Some(Faction::Black)) by {
                lemma_bit_ops(!self.plane0, self.plane1, i);
                lemma_bit_ops(self.plane0, self.plane1, i);
            }
        }
        r
    }

    /// Mask of the cells held by the side `turn`.
    pub fn select_faction(self, turn: Faction) -> (r: u128)
        requires
            self.wf(),
        ensures
            forall|i: u128|
                i < 128 ==> (#[trigger] bit128(r, i) <==> i < 121 && piece_faction(
                    piece_at(self, i as int),
                ) == Some(turn)),
    {
        match turn {
            Faction::Black => self.blacks(),
            Faction::White => self.whites(),
        }
    }

    /// Mask of the occupied cells.
    pub fn occupied(self) -> (r: u128)
        requires
            self.wf(),
        ensures
            forall|i: u128|
                i < 128 ==> (#[trigger] bit128(r, i) <==> i < 121 && piece_at(self, i as int)
                    != Piece::Empty),
    {
        let r = self.plane0 | self.plane1;
        proof {
            assert forall|i: u128| i < 128 implies (bit128(r, i) <==> i < 121 && piece_at(
                self,
                i as int,
            ) != Piece::Empty) by {
                lemma_bit_ops(self.plane0, self.plane1, i);
            }
        }
        r
    }
}

/// The cells where Black starts.
pub open spec fn is_black_start(i: int) -> bool {
    i == 3 || i == 4 || i == 5 || i == 6 || i == 7 || i == 16 || i == 33 || i == 44 || i == 55
        || i == 66 || i == 77 || i == 56 || i == 113 || i == 114 || i == 115 || i == 116 || i
        == 117 || i == 104 || i == 43 || i == 54 || i == 65 || i == 76 || i == 87 || i == 64
}

/// The cells where White starts, the king's throne aside.
pub open spec fn is_white_start(i: int) -> bool {
    i == 38 || i == 48 || i == 49 || i == 50 || i == 58 || i == 59 || i == 61 || i == 62 || i == 70
        || i == 71 || i == 72 || i == 82
}

/// The piece each cell holds in the standard starting position: 24 Black
/// attackers on the edges, 12 White defenders around the king on the
/// central throne.
pub open spec fn standard_piece(i: int) -> Piece {
    if is_black_start(i) {
        Piece::Black
    } else if is_white_start(i) {
        Piece::White
    } else if i == 60 {
        Piece::King
    } else {
        Piece::Empty
    }
}

#[verifier::rlimit(100)]
fn place_black_pieces(state: &mut BoardState)
    requires
        old(state).wf(),
        forall|i: int| 0 <= i < 121 ==> piece_at(*old(state), i) == Piece::Empty,
    ensures
        final(state).wf(),
        forall|i: int|
            0 <= i < 121 ==> piece_at(*final(state), i) == (if is_black_start(i) {
                Piece::Black
            } else {
                Piece::Empty
            }),
{
    state.set_2d([0, 3], Piece::Black);
    state.set_2d([0, 4], Piece::Black);
    state.set_2d([0, 5], Piece::Black);
    state.set_2d([0, 6], Piece::Black);
    state.set_2d([0, 7], Piece::Black);
    state.set_2d([1, 5], Piece::Black);
    state.set_2d([3, 0], Piece::Black);
    state.set_2d([4, 0], Piece::Black);
    state.set_2d([5, 0], Piece::Black);
    state.set_2d([6, 0], Piece::Black);
    state.set_2d([7, 0], Piece::Black);
    state.set_2d([5, 1], Piece::Black);
    state.set_2d([10, 3], Piece::Black);
    state.set_2d([10, 4], Piece::Black);
    state.set_2d([10, 5], Piece::Black);
    state.set_2d([10, 6], Piece::Black);
    state.set_2d([10, 7], Piece::Black);
    state.set_2d([9, 5], Piece::Black);
    state.set_2d([3, 10], Piece::Black);
    state.set_2d([4, 10], Piece::Black);
    state.set_2d([5, 10], Piece::Black);
    state.set_2d([6, 10], Piece::Black);
    state.set_2d([7, 10], Piece::Black);
    state.set_2d([5, 9], Piece::Black);
}

#[verifier::rlimit(100)]
fn place_white_pieces(state: &mut BoardState)
    requires
        old(state).wf(),
        forall|i: int|
            0 <= i < 121 ==> piece_at(*old(state), i) == (if is_black_start(i) {
                Piece::Black
            } else {
                Piece::Empty
            }),
    ensures
        final(state).wf(),
        forall|i: int| 0 <= i < 121 ==> piece_at(*final(state), i) == standard_piece(i),
{
    state.set_2d([3, 5], Piece::White);
    state.set_2d([4, 4], Piece::White);
    state.set_2d([4, 5], Piece::White);
    state.set_2d([4, 6], Piece::White);
    state.set_2d([5, 3], Piece::White);
    state.set_2d([5, 4], Piece::White);
    state.set_2d([5, 6], Piece::White);
    state.set_2d([5, 7], Piece::White);
    state.set_2d([6, 4], Piece::White);
    state.set_2d([6, 5], Piece::White);
    state.set_2d([6, 6], Piece::White);
    state.set_2d([7, 5], Piece::White);

    state.set_2d([5, 5], Piece::King);
}

impl BoardState {
    /// The standard starting position.
    pub fn standard_setup() -> (r: Self)
        ensures
            r.wf(),
            forall|i: int| 0 <= i < 121 ==> piece_at(r, i) == standard_piece(i),
    {
        let mut state = Self::new();
        place_black_pieces(&mut state);
        place_white_pieces(&mut state);
        state
    }
}

/// Whether `[y, x]` lies on the board.
pub open spec fn in_board(y: int, x: int) -> bool {
    0 <= y < 11 && 0 <= x < 11
}

/// Linear index of the cell at row `y`, column `x`.
pub open spec fn cell(y: int, x: int) -> int {
    y * 11 + x
}

/// Whether the cell at `[y, x]` is empty.
pub open spec fn empty_at(b: BoardState, y: int, x: int) -> bool {
    piece_at(b, cell(y, x)) == Piece::Empty
}

/// Every cell strictly right of `x` up to and including `tx` is empty.
pub open spec fn east_clear(b: BoardState, y: int, x: int, tx: int) -> bool {
    forall|c: int| x < c <= tx ==> empty_at(b, y, c)
}

/// Every cell strictly left of `x` down to and including `tx` is empty.
pub open spec fn west_clear(b: BoardState, y: int, x: int, tx: int) -> bool {
    forall|c: int| tx <= c < x ==> empty_at(b, y, c)
}

/// Every cell strictly below `y` up to and including row `ty` is empty.
pub open spec fn south_clear(b: BoardState, y: int, x: int, ty: int) -> bool {
    forall|c: int| y < c <= ty ==> empty_at(b, c, x)
}

/// Every cell strictly above `y` down to and including row `ty` is empty.
pub open spec fn north_clear(b: BoardState, y: int, x: int, ty: int) -> bool {
    forall|c: int| ty <= c < y ==> empty_at(b, c, x)
}

/// A piece on `[y, x]` can slide to `[ty, tx]`: the destination lies on the
/// same row or column and every cell on the way, the destination included,
/// is empty.
pub open spec fn slide_ok(b: BoardState, y: int, x: int, ty: int, tx: int) -> bool {
    in_board(y, x) && in_board(ty, tx) && ((ty == y && tx > x && east_clear(b, y, x, tx)) || (ty
        == y && tx < x && west_clear(b, y, x, tx)) || (tx == x && ty > y && south_clear(
        b,
        y,
        x,
        ty,
    )) || (tx == x && ty < y && north_clear(b, y, x, ty)))
}

/// A legal destination: the slide is open, and only the king may end on a
/// tower square.
pub open spec fn dest_ok(b: BoardState, y: int, x: int, ty: int, tx: int) -> bool {
    slide_ok(b, y, x, ty, tx) && (piece_at(b, cell(y, x)) == Piece::King || !is_tower(
        cell(ty, tx),
    ))
}

/// The tower mask holds exactly the five tower cells.
pub proof fn lemma_towers_bit(i: u128)
    requires
        i < 128,
    ensures
        bit128(TOWERS, i) == is_tower(i as int),
{
    assert((TOWERS & (1u128 << i) != 0) == (i == 0 || i == 10 || i == 60 || i == 110 || i == 120))
        by (bit_vector)
        requires
            i < 128,
    ;
}

fn ray_east(b: &BoardState, y: u16, x: u16) -> (r: u128)
    requires
        b.wf(),
        y < 11,
        x < 11,
    ensures
        forall|t: int|
            0 <= t < 121 ==> (#[trigger] bit128(r, t as u128) == (t / 11 == y && t % 11 > x
                && east_clear(*b, y as int, x as int, t % 11))),
        forall|i: u128| 121 <= i < 128 ==> !bit128(r, i),
{
    let mut moves: u128 = 0;
    let mut xx = x + 1;
    proof {
        assert forall|i: u128| i < 128 implies !bit128(0u128, i) by {
            lemma_bit_ops(0, 0, i);
        }
    }
    while xx < 11
        invariant_except_break
            b.wf(),
            y < 11,
            x < xx <= 11,
            forall|c: int| x < c < xx ==> empty_at(*b, y as int, c),
            forall|t: int|
                0 <= t < 121 ==> (#[trigger] bit128(moves, t as u128) == (t / 11 == y && x < t % 11
                    < xx)),
            forall|i: u128| 121 <= i < 128 ==> !bit128(moves, i),
        ensures
            x < xx <= 11,
            forall|c: int| x < c < xx ==> empty_at(*b, y as int, c),
            xx < 11 ==> !empty_at(*b, y as int, xx as int),
            forall|t: int|
                0 <= t < 121 ==> (#[trigger] bit128(moves, t as u128) == (t / 11 == y && x < t % 11
                    < xx)),
            forall|i: u128| 121 <= i < 128 ==> !bit128(moves, i),
        decreases 11 - xx,
    {
        let p = b.get((y as usize) * W + (xx as usize));
        if p.is_empty() {
            let old_moves = moves;
            moves = moves | (1u128 << ((y * 11 + xx) as u128));
            proof {
                assert forall|i: u128| i < 128 implies bit128(moves, i) == (bit128(old_moves, i)
                    || i == (y * 11 + xx) as u128) by {
                    lemma_bit_ops(old_moves, 1u128 << ((y * 11 + xx) as u128), i);
                    lemma_set_bit(0, (y * 11 + xx) as u128, true, i);
                    lemma_bit_ops(0, 1u128 << ((y * 11 + xx) as u128), i);
                }
            }
            xx = xx + 1;
        } else {
            break ;
        }
    }
    proof {
        assert forall|t: int|
            0 <= t < 121 implies (#[trigger] bit128(moves, t as u128) == (t / 11 == y && t % 11 > x
            && east_clear(*b, y as int, x as int, t % 11))) by {
            if t / 11 == y && t % 11 > x {
                let c = t % 11;
                if c >= xx {
                    assert(xx < 11 ==> !empty_at(*b, y as int, xx as int));
                    assert(!east_clear(*b, y as int, x as int, c));
                }
            }
        }
    }
    moves
}

fn ray_west(b: &BoardState, y: u16, x: u16) -> (r: u128)
    requires
        b.wf(),
        y < 11,
        x < 11,
    ensures
        forall|t: int|
            0 <= t < 121 ==> (#[trigger] bit128(r, t as u128) == (t / 11 == y && t % 11 < x
                && west_clear(*b, y as int, x as int, t % 11))),
        forall|i: u128| 121 <= i < 128 ==> !bit128(r, i),
{
    let mut moves: u128 = 0;
    let mut xx = x;
    proof {
        assert forall|i: u128| i < 128 implies !bit128(0u128, i) by {
            lemma_bit_ops(0, 0, i);
        }
    }
    while xx > 0
        invariant_except_break
            b.wf(),
            y < 11,
            x < 11,
            xx <= x,
            forall|c: int| xx <= c < x ==> empty_at(*b, y as int, c),
            forall|t: int|
                0 <= t < 121 ==> (#[trigger] bit128(moves, t as u128) == (t / 11 == y && xx <= t
                    % 11 < x)),
            forall|i: u128| 121 <= i < 128 ==> !bit128(moves, i),
        ensures
            xx <= x,
            forall|c: int| xx <= c < x ==> empty_at(*b, y as int, c),
            xx > 0 ==> !empty_at(*b, y as int, xx - 1),
            forall|t: int|
                0 <= t < 121 ==> (#[trigger] bit128(moves, t as u128) == (t / 11 == y && xx <= t
                    % 11 < x)),
            forall|i: u128| 121 <= i < 128 ==> !bit128(moves, i),
        decreases xx,
    {
        let p = b.get((y as usize) * W + (xx as usize) - 1);
        if p.is_empty() {
            let old_moves = moves;
            moves = moves | (1u128 << ((y * 11 + xx - 1) as u128));
            proof {
                assert forall|i: u128| i < 128 implies bit128(moves, i) == (bit128(old_moves, i)
                    || i == (y * 11 + xx - 1) as u128) by {
                    lemma_bit_ops(old_moves, 1u128 << ((y * 11 + xx - 1) as u128), i);
                    lemma_set_bit(0, (y * 11 + xx - 1) as u128, true, i);
                    lemma_bit_ops(0, 1u128 << ((y * 11 + xx - 1) as u128), i);
                }
            }
            xx = xx - 1;
        } else {
            break ;
        }
    }
    proof {
        assert forall|t: int|
            0 <= t < 121 implies (#[trigger] bit128(moves, t as u128) == (t / 11 == y && t % 11 < x
            && west_clear(*b, y as int, x as int, t % 11))) by {
            if t / 11 == y && t % 11 < x {
                let c = t % 11;
                if c < xx {
                    assert(!empty_at(*b, y as int, xx - 1));
                    assert(!west_clear(*b, y as int, x as int, c));
                }
            }
        }
    }
    moves
}

fn ray_south(b: &BoardState, y: u16, x: u16) -> (r: u128)
    requires
        b.wf(),
        y < 11,
        x < 11,
    ensures
        forall|t: int|
            0 <= t < 121 ==> (#[trigger] bit128(r, t as u128) == (t % 11 == x && t / 11 > y
                && south_clear(*b, y as int, x as int, t / 11))),
        forall|i: u128| 121 <= i < 128 ==> !bit128(r, i),
{
    let mut moves: u128 = 0;
    let mut yy = y + 1;
    proof {
        assert forall|i: u128| i < 128 implies !bit128(0u128, i) by {
            lemma_bit_ops(0, 0, i);
        }
    }
    while yy < 11
        invariant_except_break
            b.wf(),
            x < 11,
            y < yy <= 11,
            forall|c: int| y < c < yy ==> empty_at(*b, c, x as int),
            forall|t: int|
                0 <= t < 121 ==> (#[trigger] bit128(moves, t as u128) == (t % 11 == x && y < t / 11
                    < yy)),
            forall|i: u128| 121 <= i < 128 ==> !bit128(moves, i),
        ensures
            y < yy <= 11,
            forall|c: int| y < c < yy ==> empty_at(*b, c, x as int),
            yy < 11 ==> !empty_at(*b, yy as int, x as int),
            forall|t: int|
                0 <= t < 121 ==> (#[trigger] bit128(moves, t as u128) == (t % 11 == x && y < t / 11
                    < yy)),
            forall|i: u128| 121 <= i < 128 ==> !bit128(moves, i),
        decreases 11 - yy,
    {
        let p = b.get((yy as usize) * W + (x as usize));
        if p.is_empty() {
            let old_moves = moves;
            moves = moves | (1u128 << ((yy * 11 + x) as u128));
            proof {
                assert forall|i: u128| i < 128 implies bit128(moves, i) == (bit128(old_moves, i)
                    || i == (yy * 11 + x) as u128) by {
                    lemma_bit_ops(old_moves, 1u128 << ((yy * 11 + x) as u128), i);
                    lemma_set_bit(0, (yy * 11 + x) as u128, true, i);
                    lemma_bit_ops(0, 1u128 << ((yy * 11 + x) as u128), i);
                }
            }
            yy = yy + 1;
        } else {
            break ;
        }
    }
    proof {
        assert forall|t: int|
            0 <= t < 121 implies (#[trigger] bit128(moves, t as u128) == (t % 11 == x && t / 11 > y
            && south_clear(*b, y as int, x as int, t / 11))) by {
            if t % 11 == x && t / 11 > y {
                let c = t / 11;
                if c >= yy {
                    assert(yy < 11 ==> !empty_at(*b, yy as int, x as int));
                    assert(!south_clear(*b, y as int, x as int, c));
                }
            }
        }
    }
    moves
}

fn ray_north(b: &BoardState, y: u16, x: u16) -> (r: u128)
    requires
        b.wf(),
        y < 11,
        x < 11,
    ensures
        forall|t: int|
            0 <= t < 121 ==> (#[trigger] bit128(r, t as u128) == (t % 11 == x && t / 11 < y
                && north_clear(*b, y as int, x as int, t / 11))),
        forall|i: u128| 121 <= i < 128 ==> !bit128(r, i),
{
    let mut moves: u128 = 0;
    let mut yy = y;
    proof {
        assert forall|i: u128| i < 128 implies !bit128(0u128, i) by {
            lemma_bit_ops(0, 0, i);
        }
    }
    while yy > 0
        invariant_except_break
            b.wf(),
            y < 11,
            x < 11,
            yy <= y,
            forall|c: int| yy <= c < y ==> empty_at(*b, c, x as int),
            forall|t: int|
                0 <= t < 121 ==> (#[trigger] bit128(moves, t as u128) == (t % 11 == x && yy <= t
                    / 11 < y)),
            forall|i: u128| 121 <= i < 128 ==> !bit128(moves, i),
        ensures
            yy <= y,
            forall|c: int| yy <= c < y ==> empty_at(*b, c, x as int),
            yy > 0 ==> !empty_at(*b, yy - 1, x as int),
            forall|t: int|
                0 <= t < 121 ==> (#[trigger] bit128(moves, t as u128) == (t % 11 == x && yy <= t
                    / 11 < y)),
            forall|i: u128| 121 <= i < 128 ==> !bit128(moves, i),
        decreases yy,
    {
        let p = b.get((yy as usize - 1) * W + (x as usize));
        if p.is_empty() {
            let old_moves = moves;
            moves = moves | (1u128 << (((yy - 1) * 11 + x) as u128));
            proof {
                assert forall|i: u128| i < 128 implies bit128(moves, i) == (bit128(old_moves, i)
                    || i == ((yy - 1) * 11 + x) as u128) by {
                    lemma_bit_ops(old_moves, 1u128 << (((yy - 1) * 11 + x) as u128), i);
                    lemma_set_bit(0, ((yy - 1) * 11 + x) as u128, true, i);
                    lemma_bit_ops(0, 1u128 << (((yy - 1) * 11 + x) as u128), i);
                }
            }
            yy = yy - 1;
        } else {
            break ;
        }
    }
    proof {
        assert forall|t: int|
            0 <= t < 121 implies (#[trigger] bit128(moves, t as u128) == (t % 11 == x && t / 11 < y
            && north_clear(*b, y as int, x as int, t / 11))) by {
            if t % 11 == x && t / 11 < y {
                let c = t / 11;
                if c < yy {
                    assert(!empty_at(*b, yy - 1, x as int));
                    assert(!north_clear(*b, y as int, x as int, c));
                }
            }
        }
    }
    moves
}

impl BoardState {
    /// The legal destinations for the piece on `coord`, as a cell mask:
    /// every empty cell reachable along an open row or column, minus the
    /// tower squares unless the moving piece is the king.
    pub fn moves_from(&self, coord: [u16; 2]) -> (r: u128)
        requires
            self.wf(),
            coord[0] < 11,
            coord[1] < 11,
        ensures
            forall|t: int|
                0 <= t < 121 ==> (#[trigger] bit128(r, t as u128) == dest_ok(
                    *self,
                    coord[0] as int,
                    coord[1] as int,
                    t / 11,
                    t % 11,
                )),
            forall|i: u128| 121 <= i < 128 ==> !bit128(r, i),
    {
        let y = coord[0];
        let x = coord[1];
        let e = ray_east(self, y, x);
        let w = ray_west(self, y, x);
        let s = ray_south(self, y, x);
        let n = ray_north(self, y, x);
        let moves = e | w | s | n;
        proof {
            assert forall|i: u128| i < 128 implies #[trigger] bit128(moves, i) == (bit128(e, i)
                || bit128(w, i) || bit128(s, i) || bit128(n, i)) by {
                lemma_bit_ops(e, w, i);
                lemma_bit_ops(e | w, s, i);
                lemma_bit_ops((e | w) | s, n, i);
            }
            assert forall|t: int|
                0 <= t < 121 implies (#[trigger] bit128(moves, t as u128) == slide_ok(
                *self,
                y as int,
                x as int,
                t / 11,
                t % 11,
            )) by {
                lemma_div_mod_11(t);
                let i = t as u128;
                assert(bit128(moves, i) == (bit128(e, i) || bit128(w, i) || bit128(s, i) || bit128(
                    n,
                    i,
                )));
                assert(bit128(e, t as u128) == (t / 11 == y && t % 11 > x && east_clear(
                    *self,
                    y as int,
                    x as int,
                    t % 11,
                )));
                assert(bit128(w, t as u128) == (t / 11 == y && t % 11 < x && west_clear(
                    *self,
                    y as int,
                    x as int,
                    t % 11,
                )));
                assert(bit128(s, t as u128) == (t % 11 == x && t / 11 > y && south_clear(
                    *self,
                    y as int,
                    x as int,
                    t / 11,
                )));
                assert(bit128(n, t as u128) == (t % 11 == x && t / 11 < y && north_clear(
                    *self,
                    y as int,
                    x as int,
                    t / 11,
                )));
            }
        }
        if self.get((y as usize) * W + (x as usize)) == Piece::King {
            proof {
                assert(piece_at(*self, cell(y as int, x as int)) == Piece::King);
            }
            moves
        } else {
            let r = moves & !TOWERS;
            proof {
                assert(piece_at(*self, cell(y as int, x as int)) != Piece::King);
                assert forall|i: u128| i < 128 implies #[trigger] bit128(r, i) == (bit128(moves, i)
                    && !is_tower(i as int)) by {
                    lemma_bit_ops(moves, !TOWERS, i);
                    lemma_bit_ops(TOWERS, TOWERS, i);
                    lemma_towers_bit(i);
                }
                assert forall|t: int|
                    0 <= t < 121 implies (#[trigger] bit128(r, t as u128) == dest_ok(
                    *self,
                    y as int,
                    x as int,
                    t / 11,
                    t % 11,
                )) by {
                    lemma_div_mod_11(t);
                    assert(bit128(r, t as u128) == (bit128(moves, t as u128) && !is_tower(t)));
                    assert(bit128(moves, t as u128) == slide_ok(
                        *self,
                        y as int,
                        x as int,
                        t / 11,
                        t % 11,
                    ));
                }
            }
            r
        }
    }
}

/// A cell index splits uniquely into its row and column.
pub proof fn lemma_div_mod_11(t: int)
    requires
        0 <= t < 121,
    ensures
        t == (t / 11) * 11 + t % 11,
        0 <= t / 11 < 11,
        0 <= t % 11 < 11,
        cell(t / 11, t % 11) == t,
{
    vstd::arithmetic::div_mod::lemma_fundamental_div_mod(t, 11);
}

/// Board `b` with piece `val` written on cell `i`.
pub open spec fn set_piece(b: BoardState, i: int, val: Piece) -> BoardState {
    BoardState {
        plane0: set_bit128(b.plane0, i as u128, piece_low_bit(val)),
        plane1: set_bit128(b.plane1, i as u128, piece_high_bit(val)),
    }
}

/// Writing one cell changes that cell and no other, and keeps the planes
/// well formed.
pub proof fn lemma_set_piece(b: BoardState, i: int, val: Piece)
    requires
        0 <= i < 121,
    ensures
        piece_at(set_piece(b, i, val), i) == val,
        forall|j: int| 0 <= j < 128 && j != i ==> piece_at(set_piece(b, i, val), j) == piece_at(
            b,
            j,
        ),
        b.wf() ==> set_piece(b, i, val).wf(),
{
    assert forall|j: u128| j < 128 implies {
        &&& bit128(set_piece(b, i, val).plane0, j) == if j == i as u128 {
            piece_low_bit(val)
        } else {
            bit128(b.plane0, j)
        }
        &&& bit128(set_piece(b, i, val).plane1, j) == if j == i as u128 {
            piece_high_bit(val)
        } else {
            bit128(b.plane1, j)
        }
    } by {
        lemma_set_bit(b.plane0, i as u128, piece_low_bit(val), j);
        lemma_set_bit(b.plane1, i as u128, piece_high_bit(val), j);
    }
}

/// The faction of a non-empty piece; Black for the Black piece, else White.
pub open spec fn faction_of(p: Piece) -> Faction {
    if p == Piece::Black {
        Faction::Black
    } else {
        Faction::White
    }
}

/// Row step of the `k`-th orthogonal direction, in the order down, right,
/// up, left.
pub open spec fn dir_dy(k: int) -> int {
    if k == 0 {
        1
    } else if k == 2 {
        -1
    } else {
        0
    }
}

/// Column step of the `k`-th orthogonal direction.
pub open spec fn dir_dx(k: int) -> int {
    if k == 1 {
        1
    } else if k == 3 {
        -1
    } else {
        0
    }
}

/// A cell that supports a capture for faction `f`: on the board, and either
/// a vacated tower square or held by `f` itself.
pub open spec fn hostile(b: BoardState, f: Faction, y: int, x: int) -> bool {
    in_board(y, x) && ((is_tower(cell(y, x)) && piece_at(b, cell(y, x)) == Piece::Empty)
        || piece_faction(piece_at(b, cell(y, x))) == Some(f))
}

/// The king on `[ky, kx]` has a hostile cell on all four sides.
pub open spec fn surrounded(b: BoardState, f: Faction, ky: int, kx: int) -> bool {
    forall|k: int|
        0 <= k < 4 ==> hostile(b, f, ky + #[trigger] dir_dy(k), kx + dir_dx(k))
}

/// One step of capture detection after a move by faction `f` to
/// `[ty, tx]`, looking in direction `k`: an enemy piece right next to the
/// destination is removed when the cell behind it is hostile; an enemy king
/// there ends the game at once when it is surrounded on all four sides.
/// Yields the board after this direction and whether the king fell.
pub open spec fn capture_step(b: BoardState, f: Faction, ty: int, tx: int, k: int) -> (
    BoardState,
    bool,
) {
    let ny = ty + dir_dy(k);
    let nx = tx + dir_dx(k);
    if in_board(ny, nx) && piece_faction(piece_at(b, cell(ny, nx))) == Some(
        other_faction_spec(f),
    ) {
        if piece_at(b, cell(ny, nx)) != Piece::King {
            if hostile(b, f, ny + dir_dy(k), nx + dir_dx(k)) {
                (set_piece(b, cell(ny, nx), Piece::Empty), false)
            } else {
                (b, false)
            }
        } else {
            if surrounded(b, f, ny, nx) {
                (b, true)
            } else {
                (b, false)
            }
        }
    } else {
        (b, false)
    }
}

/// Capture detection over directions `k` to 3, in order; a captured king
/// stops the scan and wins at once.
pub open spec fn capture_result(b: BoardState, f: Faction, ty: int, tx: int, k: int) -> (
    BoardState,
    bool,
)
    decreases 4 - k,
{
    if k < 0 || k >= 4 {
        (b, false)
    } else {
        let (b2, won) = capture_step(b, f, ty, tx, k);
        if won {
            (b, true)
        } else {
            capture_result(b2, f, ty, tx, k + 1)
        }
    }
}

/// The full effect of moving the piece on `[fy, fx]` to `[ty, tx]`: the
/// piece is lifted and put down, a king landing on a corner tower wins at
/// once, and otherwise the four capture directions are resolved.
pub open spec fn move_result(b: BoardState, fy: int, fx: int, ty: int, tx: int) -> (
    BoardState,
    bool,
) {
    let p = piece_at(b, cell(fy, fx));
    let b1 = set_piece(set_piece(b, cell(fy, fx), Piece::Empty), cell(ty, tx), p);
    if p == Piece::King && is_tower(cell(ty, tx)) && !(ty == 5 && tx == 5) {
        (b1, true)
    } else {
        capture_result(b1, faction_of(p), ty, tx, 0)
    }
}

/// Whether the cell at `[y, x]` is hostile to pieces of the other faction,
/// exactly as the capture rules read it; coordinates off the board are
/// never hostile.
fn is_hostile(b: &BoardState, f: Faction, y: i32, x: i32) -> (r: bool)
    requires
        b.wf(),
        -2 <= y <= 12,
        -2 <= x <= 12,
    ensures
        r == hostile(*b, f, y as int, x as int),
{
    if y < 0 || y >= 11 || x < 0 || x >= 11 {
        return false;
    }
    let i = (y * 11 + x) as usize;
    let p = b.get(i);
    let tower = TOWERS & (1u128 << (i as u128)) != 0;
    proof {
        lemma_towers_bit(i as u128);
    }
    if tower && p.is_empty() {
        true
    } else {
        match p.faction() {
            Some(pf) => pf == f,
            None => false,
        }
    }
}

impl BoardState {
    /// Resolves capture direction `k` for a move by `cur` to `to`: returns
    /// whether the enemy king fell there, removing a sandwiched enemy piece
    /// from the board otherwise.
    fn capture_one(&mut self, cur: Faction, to: [u16; 2], k: usize) -> (won: bool)
        requires
            old(self).wf(),
            to[0] < 11,
            to[1] < 11,
            k < 4,
    ensures
            final(self).wf(),
            (*final(self), won) == capture_step(*old(self), cur, to[0] as int, to[1] as int,
                k as int),
    {
        let (dy, dx): (i32, i32) = if k == 0 {
            (1, 0)
        } else if k == 1 {
            (0, 1)
        } else if k == 2 {
            (-1, 0)
        } else {
            (0, -1)
        };
        proof {
            assert(dy == dir_dy(k as int) && dx == dir_dx(k as int));
        }
        let ny = to[0] as i32 + dy;
        let nx = to[1] as i32 + dx;
        if ny < 0 || ny >= 11 || nx < 0 || nx >= 11 {
            return false;
        }
        let ni = (ny * 11 + nx) as usize;
        let p = self.get(ni);
        let enemy = match p.faction() {
            Some(pf) => pf == cur.other_faction(),
            None => false,
        };
        if !enemy {
            return false;
        }
        if p != Piece::King {
            if is_hostile(self, cur, ny + dy, nx + dx) {
                self.set(ni, Piece::Empty);
            }
            false
        } else {
            let h0 = is_hostile(self, cur, ny + 1, nx);
            let h1 = is_hostile(self, cur, ny, nx + 1);
            let h2 = is_hostile(self, cur, ny - 1, nx);
            let h3 = is_hostile(self, cur, ny, nx - 1);
            let all4 = h0 && h1 && h2 && h3;
            proof {
                assert(h0 == hostile(*self, cur, ny + dir_dy(0), nx + dir_dx(0)));
                assert(h1 == hostile(*self, cur, ny + dir_dy(1), nx + dir_dx(1)));
                assert(h2 == hostile(*self, cur, ny + dir_dy(2), nx + dir_dx(2)));
                assert(h3 == hostile(*self, cur, ny + dir_dy(3), nx + dir_dx(3)));
                if all4 {
                    assert forall|j: int| 0 <= j < 4 implies hostile(
                        *self,
                        cur,
                        ny + #[trigger] dir_dy(j),
                        nx + dir_dx(j),
                    ) by {
                        assert(j == 0 || j == 1 || j == 2 || j == 3);
                    }
                    assert(surrounded(*self, cur, ny as int, nx as int));
                } else {
                    assert(!surrounded(*self, cur, ny as int, nx as int));
                }
            }
            all4
        }
    }

    /// Applies the move `from` -> `to` and resolves its consequences:
    /// a king reaching a corner tower wins at once; otherwise enemy pieces
    /// sandwiched against the destination are captured, and a fully
    /// surrounded enemy king falls and ends the game. Returns whether the
    /// move wins the game.
    pub fn do_move(&mut self, from: [u16; 2], to: [u16; 2]) -> (r: bool)
        requires
            old(self).wf(),
            from[0] < 11 && from[1] < 11,
            to[0] < 11 && to[1] < 11,
            piece_at(*old(self), from[0] * 11 + from[1]) != Piece::Empty,
    ensures
            final(self).wf(),
            *final(self) == move_result(*old(self), from[0] as int, from[1] as int, to[0] as int,
                to[1] as int).0,
            r == move_result(*old(self), from[0] as int, from[1] as int, to[0] as int,
                to[1] as int).1,
    {
        let piece = self.get((from[0] as usize) * W + (from[1] as usize));
        self.set_2d(from, Piece::Empty);
        self.set_2d(to, piece);
        let ghost b1 = *self;

        let ti = (to[0] as usize) * W + (to[1] as usize);
        let on_tower = TOWERS & (1u128 << (ti as u128)) != 0;
        proof {
            lemma_towers_bit(ti as u128);
        }
        if piece == Piece::King && on_tower && !(to[0] == 5 && to[1] == 5) {
            return true;
        }

        let cur = match piece.faction() {
            Some(f) => f,
            None => Faction::White,
        };
        proof {
            assert(cur == faction_of(piece));
        }

        let ghost ty = to[0] as int;
        let ghost tx = to[1] as int;

        if self.capture_one(cur, to, 0) {
            proof {
                assert(capture_result(b1, cur, ty, tx, 0) == (b1, true));
            }
            return true;
        }
        let ghost b2 = *self;
        if self.capture_one(cur, to, 1) {
            proof {
                assert(capture_result(b2, cur, ty, tx, 1) == (b2, true));
                assert(capture_result(b1, cur, ty, tx, 0) == (b2, true));
            }
            return true;
        }
        let ghost b3 = *self;
        if self.capture_one(cur, to, 2) {
            proof {
                assert(capture_result(b3, cur, ty, tx, 2) == (b3, true));
                assert(capture_result(b2, cur, ty, tx, 1) == (b3, true));
                assert(capture_result(b1, cur, ty, tx, 0) == (b3, true));
            }
            return true;
        }
        let ghost b4 = *self;
        if self.capture_one(cur, to, 3) {
            proof {
                assert(capture_result(b4, cur, ty, tx, 3) == (b4, true));
                assert(capture_result(b3, cur, ty, tx, 2) == (b4, true));
                assert(capture_result(b2, cur, ty, tx, 1) == (b4, true));
                assert(capture_result(b1, cur, ty, tx, 0) == (b4, true));
            }
            return true;
        }
        proof {
            assert(capture_result(*self, cur, ty, tx, 4) == (*self, false));
            assert(capture_result(b4, cur, ty, tx, 3) == (*self, false));
            assert(capture_result(b3, cur, ty, tx, 2) == (*self, false));
            assert(capture_result(b2, cur, ty, tx, 1) == (*self, false));
            assert(capture_result(b1, cur, ty, tx, 0) == (*self, false));
        }
        false
    }
}

/// The board after the piece on `[fy, fx]` is lifted and put down on
/// `[ty, tx]`, before any capture is resolved.
pub open spec fn placed_board(b: BoardState, fy: int, fx: int, ty: int, tx: int) -> BoardState {
    set_piece(set_piece(b, cell(fy, fx), Piece::Empty), cell(ty, tx), piece_at(b, cell(fy, fx)))
}

/// Move symmetry: a move that wins nothing and captures nothing, followed
/// by its syntactic inverse that likewise wins and captures nothing,
/// reproduces the original board state exactly. "Captures nothing" says
/// the move's whole effect is lifting and putting down the piece.
pub proof fn lemma_move_round_trip(b: BoardState, fy: int, fx: int, ty: int, tx: int)
    requires
        b.wf(),
        in_board(fy, fx),
        in_board(ty, tx),
        !(fy == ty && fx == tx),
        piece_at(b, cell(fy, fx)) != Piece::Empty,
        empty_at(b, ty, tx),
        move_result(b, fy, fx, ty, tx) == (placed_board(b, fy, fx, ty, tx), false),
        move_result(move_result(b, fy, fx, ty, tx).0, ty, tx, fy, fx) == (
            placed_board(move_result(b, fy, fx, ty, tx).0, ty, tx, fy, fx),
            false,
        ),
    ensures
        move_result(move_result(b, fy, fx, ty, tx).0, ty, tx, fy, fx).0 == b,
{
    let p = piece_at(b, cell(fy, fx));
    let b2 = placed_board(b, fy, fx, ty, tx);
    lemma_set_piece(b, cell(fy, fx), Piece::Empty);
    lemma_set_piece(set_piece(b, cell(fy, fx), Piece::Empty), cell(ty, tx), p);
    assert(cell(fy, fx) != cell(ty, tx)) by {
        lemma_div_mod_11(cell(fy, fx));
        lemma_div_mod_11(cell(ty, tx));
    }
    assert(piece_at(b2, cell(ty, tx)) == p);
    assert(piece_at(b2, cell(fy, fx)) == Piece::Empty);
    let b3 = placed_board(b2, ty, tx, fy, fx);
    lemma_set_piece(b2, cell(ty, tx), Piece::Empty);
    lemma_set_piece(set_piece(b2, cell(ty, tx), Piece::Empty), cell(fy, fx), p);
    assert forall|c: int| 0 <= c < 128 implies piece_at(b3, c) == piece_at(b, c) by {
        if c == cell(fy, fx) {
            assert(piece_at(b3, c) == p);
        } else if c == cell(ty, tx) {
            assert(piece_at(b3, c) == Piece::Empty);
            assert(piece_at(b, c) == Piece::Empty);
        } else {
            assert(piece_at(b3, c) == piece_at(b2, c));
            assert(piece_at(b2, c) == piece_at(b, c));
        }
    }
    assert forall|i: u128| i < 128 implies bit128(b3.plane0, i) == bit128(b.plane0, i) && bit128(
        b3.plane1,
        i,
    ) == bit128(b.plane1, i) by {
        assert(piece_at(b3, i as int) == piece_at(b, i as int));
    }
    lemma_u128_ext(b3.plane0, b.plane0);
    lemma_u128_ext(b3.plane1, b.plane1);
}

/// Capture detection from direction `k` on, when the enemy king stands
/// next to the destination in direction `d` and no other neighbour holds a
/// king: the move wins exactly when the king is surrounded on all four
/// sides, and an unsurrounded king is never removed from the board. The
/// pieces the other directions may capture stand next to the destination,
/// never next to the king, so the king's surroundings are left alone.
#[verifier::rlimit(100)]
pub proof fn lemma_capture_result_king(
    b: BoardState,
    f: Faction,
    ty: int,
    tx: int,
    d: int,
    k: int,
)
    requires
        0 <= k <= 4,
        0 <= d < 4,
        in_board(ty, tx),
        in_board(ty + dir_dy(d), tx + dir_dx(d)),
        f == Faction::Black,
        piece_at(b, cell(ty + dir_dy(d), tx + dir_dx(d))) == Piece::King,
        forall|k2: int|
            0 <= k2 < 4 && k2 != d ==> !(in_board(ty + #[trigger] dir_dy(k2), tx + dir_dx(k2))
                && piece_at(b, cell(ty + dir_dy(k2), tx + dir_dx(k2))) == Piece::King),
    ensures
        k <= d ==> capture_result(b, f, ty, tx, k).1 == surrounded(
            b,
            f,
            ty + dir_dy(d),
            tx + dir_dx(d),
        ),
        k > d ==> capture_result(b, f, ty, tx, k).1 == false,
        !(k <= d && surrounded(b, f, ty + dir_dy(d), tx + dir_dx(d))) ==> piece_at(
            capture_result(b, f, ty, tx, k).0,
            cell(ty + dir_dy(d), tx + dir_dx(d)),
        ) == Piece::King,
    decreases 4 - k,
{
    let ky = ty + dir_dy(d);
    let kx = tx + dir_dx(d);
    if k < 4 {
        let ny = ty + dir_dy(k);
        let nx = tx + dir_dx(k);
        let step = capture_step(b, f, ty, tx, k);
        if k == d {
            assert(piece_faction(Piece::King) == Some(other_faction_spec(f)));
            if surrounded(b, f, ky, kx) {
                assert(capture_result(b, f, ty, tx, k) == (b, true));
            } else {
                assert(step == (b, false));
                lemma_capture_result_king(b, f, ty, tx, d, k + 1);
            }
        } else {
            if in_board(ny, nx) && piece_faction(piece_at(b, cell(ny, nx))) == Some(
                other_faction_spec(f),
            ) && piece_at(b, cell(ny, nx)) != Piece::King && hostile(
                b,
                f,
                ny + dir_dy(k),
                nx + dir_dx(k),
            ) {
                let b2 = set_piece(b, cell(ny, nx), Piece::Empty);
                assert(step == (b2, false));
                lemma_set_piece(b, cell(ny, nx), Piece::Empty);
                assert(cell(ny, nx) != cell(ky, kx)) by {
                    assert(dir_dy(k) != dir_dy(d) || dir_dx(k) != dir_dx(d));
                }
                assert(piece_at(b2, cell(ky, kx)) == Piece::King);
                assert forall|k2: int| 0 <= k2 < 4 && k2 != d implies !(in_board(
                    ty + #[trigger] dir_dy(k2),
                    tx + dir_dx(k2),
                ) && piece_at(b2, cell(ty + dir_dy(k2), tx + dir_dx(k2))) == Piece::King) by {
                    let cy = ty + dir_dy(k2);
                    let cx = tx + dir_dx(k2);
                    if in_board(cy, cx) {
                        if cell(cy, cx) == cell(ny, nx) {
                            assert(piece_at(b2, cell(cy, cx)) == Piece::Empty);
                        } else {
                            assert(piece_at(b2, cell(cy, cx)) == piece_at(b, cell(cy, cx)));
                        }
                    }
                }
                assert forall|m: int| 0 <= m < 4 implies hostile(
                    b2,
                    f,
                    ky + #[trigger] dir_dy(m),
                    kx + dir_dx(m),
                ) == hostile(b, f, ky + dir_dy(m), kx + dir_dx(m)) by {
                    let hy = ky + dir_dy(m);
                    let hx = kx + dir_dx(m);
                    if in_board(hy, hx) {
                        if hy == ny && hx == nx {
                            assert(dir_dy(k) == dir_dy(d) + dir_dy(m) && dir_dx(k) == dir_dx(d)
                                + dir_dx(m));
                            assert(false);
                        } else {
                            assert(cell(hy, hx) != cell(ny, nx));
                            assert(piece_at(b2, cell(hy, hx)) == piece_at(b, cell(hy, hx)));
                        }
                    }
                }
                assert(surrounded(b2, f, ky, kx) == surrounded(b, f, ky, kx));
                lemma_capture_result_king(b2, f, ty, tx, d, k + 1);
                assert(capture_result(b, f, ty, tx, k) == capture_result(b2, f, ty, tx, k + 1));
            } else {
                assert(step == (b, false));
                lemma_capture_result_king(b, f, ty, tx, d, k + 1);
            }
        }
    }
}

/// King-capture exactness: when a Black move puts a piece next to the
/// White king (and next to no second king), the move wins exactly when all
/// four of the king's neighbours are hostile — a vacated tower square or
/// Black — and a king with a free side stays on the board.
pub proof fn lemma_king_capture_exact(b: BoardState, fy: int, fx: int, ty: int, tx: int, d: int)
    requires
        in_board(fy, fx),
        in_board(ty, tx),
        piece_at(b, cell(fy, fx)) == Piece::Black,
        0 <= d < 4,
        in_board(ty + dir_dy(d), tx + dir_dx(d)),
        piece_at(placed_board(b, fy, fx, ty, tx), cell(ty + dir_dy(d), tx + dir_dx(d)))
            == Piece::King,
        forall|k2: int|
            0 <= k2 < 4 && k2 != d ==> !(in_board(ty + #[trigger] dir_dy(k2), tx + dir_dx(k2))
                && piece_at(
                placed_board(b, fy, fx, ty, tx),
                cell(ty + dir_dy(k2), tx + dir_dx(k2)),
            ) == Piece::King),
    ensures
        move_result(b, fy, fx, ty, tx).1 == surrounded(
            placed_board(b, fy, fx, ty, tx),
            Faction::Black,
            ty + dir_dy(d),
            tx + dir_dx(d),
        ),
        !surrounded(
            placed_board(b, fy, fx, ty, tx),
            Faction::Black,
            ty + dir_dy(d),
            tx + dir_dx(d),
        ) ==> piece_at(
            move_result(b, fy, fx, ty, tx).0,
            cell(ty + dir_dy(d), tx + dir_dx(d)),
        ) == Piece::King,
{
    let b1 = placed_board(b, fy, fx, ty, tx);
    assert(faction_of(piece_at(b, cell(fy, fx))) == Faction::Black);
    assert(move_result(b, fy, fx, ty, tx) == capture_result(b1, Faction::Black, ty, tx, 0));
    lemma_capture_result_king(b1, Faction::Black, ty, tx, d, 0);
}

} // verus!
