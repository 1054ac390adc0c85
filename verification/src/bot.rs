//! Game-tree search: the material evaluation, a reference minimax, and
//! alpha-beta search with a transposition table. The meaning of every
//! search is pinned to the one spec-level minimax value.
use vstd::prelude::*;

use crate::bits::{bit128, lemma_pop_low_le, pop_low, popcount};
use crate::board::{
    blacks_mask, dest_ok, faction_of, lemma_div_mod_11, move_result, other_faction_spec, piece_at,
    piece_faction, to_2d, whites_mask, BoardState, Faction, Piece, W,
};

verus! {

/// The score of a won game; every material score lies strictly inside
/// `(-WIN_SCORE, WIN_SCORE)`.
pub const WIN_SCORE: i64 = 1000000;

/// The score a win is worth for side `t`.
pub open spec fn win_for(t: Faction) -> int {
    if t == Faction::White {
        WIN_SCORE as int
    } else {
        -(WIN_SCORE as int)
    }
}

/// The static material evaluation: White pieces (king included) minus
/// Black pieces.
pub open spec fn eval_spec(b: BoardState) -> int {
    pop_low(whites_mask(b), 128) - pop_low(blacks_mask(b), 128)
}

/// The move `from -> to` may be played by side `t`: the origin holds one
/// of `t`'s pieces and the destination is reachable.
pub open spec fn legal_move(b: BoardState, t: Faction, from: int, to: int) -> bool {
    &&& 0 <= from < 121
    &&& 0 <= to < 121
    &&& piece_faction(piece_at(b, from)) == Some(t)
    &&& dest_ok(b, from / 11, from % 11, to / 11, to % 11)
}

/// Some legal move exists for side `t`.
pub open spec fn has_move(b: BoardState, t: Faction) -> bool {
    exists|from: int, to: int| legal_move(b, t, from, to)
}

/// The better of two scores for side `t`: White maximises, Black
/// minimises.
pub open spec fn better(t: Faction, a: int, v: int) -> int {
    if t == Faction::White {
        if v > a {
            v
        } else {
            a
        }
    } else {
        if v < a {
            v
        } else {
            a
        }
    }
}

/// The value for side `t` of playing `from -> to` and then searching
/// `rem` further plies: a winning move scores the win at once, otherwise
/// the resulting position is searched with the other side to move.
pub open spec fn move_value(b: BoardState, t: Faction, rem: nat, from: int, to: int) -> int
    decreases rem, 2int, 0int,
{
    let r = move_result(b, from / 11, from % 11, to / 11, to % 11);
    if r.1 {
        win_for(t)
    } else {
        minimax_spec(r.0, other_faction_spec(t), rem)
    }
}

/// The minimax fold over the first `k` of the 121 x 121 origin/destination
/// pairs, in order; pairs that are not legal moves are passed over. The
/// fold starts from the other side's win, so a side without moves has lost.
pub open spec fn best_over(b: BoardState, t: Faction, d: nat, k: nat) -> int
    decreases d, 0int, k,
{
    if d == 0 || k == 0 {
        win_for(other_faction_spec(t))
    } else {
        let prev = best_over(b, t, d, (k - 1) as nat);
        let from = (k - 1) as int / 121;
        let to = (k - 1) as int % 121;
        if legal_move(b, t, from, to) {
            better(t, prev, move_value(b, t, (d - 1) as nat, from, to))
        } else {
            prev
        }
    }
}

/// The minimax value of the position: the material evaluation at depth 0,
/// else the best over all legal moves of the value of playing each.
pub open spec fn minimax_spec(b: BoardState, t: Faction, d: nat) -> int
    decreases d, 1int, 0int,
{
    if d == 0 {
        eval_spec(b)
    } else {
        best_over(b, t, d, 14641)
    }
}

/// Every minimax value lies in `[-WIN_SCORE, WIN_SCORE]`.
pub proof fn lemma_minimax_bounds(b: BoardState, t: Faction, d: nat)
    ensures
        -(WIN_SCORE as int) <= minimax_spec(b, t, d) <= WIN_SCORE as int,
    decreases d, 1int, 0int,
{
    if d == 0 {
        lemma_pop_low_le(whites_mask(b), 128);
        lemma_pop_low_le(blacks_mask(b), 128);
    } else {
        lemma_best_over_bounds(b, t, d, 14641);
    }
}

/// Every partial fold lies in `[-WIN_SCORE, WIN_SCORE]`.
pub proof fn lemma_best_over_bounds(b: BoardState, t: Faction, d: nat, k: nat)
    ensures
        -(WIN_SCORE as int) <= best_over(b, t, d, k) <= WIN_SCORE as int,
    decreases d, 0int, k,
{
    if d != 0 && k != 0 {
        lemma_best_over_bounds(b, t, d, (k - 1) as nat);
        let from = (k - 1) as int / 121;
        let to = (k - 1) as int % 121;
        if legal_move(b, t, from, to) {
            lemma_move_value_bounds(b, t, (d - 1) as nat, from, to);
        }
    }
}

/// Every move value lies in `[-WIN_SCORE, WIN_SCORE]`.
pub proof fn lemma_move_value_bounds(b: BoardState, t: Faction, rem: nat, from: int, to: int)
    ensures
        -(WIN_SCORE as int) <= move_value(b, t, rem, from, to) <= WIN_SCORE as int,
    decreases rem, 2int, 0int,
{
    let r = move_result(b, from / 11, from % 11, to / 11, to % 11);
    if !r.1 {
        lemma_minimax_bounds(r.0, other_faction_spec(t), rem);
    }
}

/// A stretch of pairs without a legal move leaves the fold unchanged.
pub proof fn lemma_best_over_skip(b: BoardState, t: Faction, d: nat, k1: nat, k2: nat)
    requires
        k1 <= k2,
        d > 0,
        forall|k: int| k1 <= k < k2 ==> !legal_move(b, t, #[trigger] (k / 121), k % 121),
    ensures
        best_over(b, t, d, k2) == best_over(b, t, d, k1),
    decreases k2 - k1,
{
    if k2 > k1 {
        assert(!legal_move(b, t, (k2 - 1) as int / 121, (k2 - 1) as int % 121));
        lemma_best_over_skip(b, t, d, k1, (k2 - 1) as nat);
    }
}

/// A pair index splits into its origin and destination cells.
pub proof fn lemma_pair(from: int, to: int)
    requires
        0 <= from < 121,
        0 <= to < 121,
    ensures
        (from * 121 + to) / 121 == from,
        (from * 121 + to) % 121 == to,
{
    vstd::arithmetic::div_mod::lemma_fundamental_div_mod_converse(from * 121 + to, 121, from, to);
}

impl BoardState {
    /// The static evaluation of the position: White pieces (the king
    /// included) minus Black pieces.
    pub fn zeroeval(self) -> (r: i64)
        requires
            self.wf(),
        ensures
            r == eval_spec(self),
            -128 <= r <= 128,
    {
        proof {
            lemma_pop_low_le(whites_mask(self), 128);
            lemma_pop_low_le(blacks_mask(self), 128);
        }
        popcount(self.whites()) as i64 - popcount(self.blacks()) as i64
    }

    /// Every legal move for side `turn`, as `[from, to]` coordinate pairs:
    /// each exactly once, in origin-then-destination order.
    #[verifier::rlimit(100)]
    pub fn all_moves(&self, turn: Faction) -> (r: Vec<[[u16; 2]; 2]>)
        requires
            self.wf(),
        ensures
            forall|m: int|
                0 <= m < r@.len() ==> legal_move(
                    *self,
                    turn,
                    (#[trigger] r@[m])[0][0] * 11 + r@[m][0][1],
                    r@[m][1][0] * 11 + r@[m][1][1],
                ),
            forall|from: int, to: int|
                #[trigger] legal_move(*self, turn, from, to) ==> exists|m: int|
                    0 <= m < r@.len() && r@[m] == [to_2d_pair(from), to_2d_pair(to)],
            forall|m1: int, m2: int|
                0 <= m1 < m2 < r@.len() ==> move_key(#[trigger] r@[m1]) < move_key(
                    #[trigger] r@[m2],
                ),
            forall|m1: int, m2: int| 0 <= m1 < m2 < r@.len() ==> r@[m1] != r@[m2],
            r@.len() == 0 <==> !has_move(*self, turn),
    {
        let mut r: Vec<[[u16; 2]; 2]> = Vec::new();
        let mine = self.select_faction(turn);
        let mut from: usize = 0;
        while from < 121
            invariant
                self.wf(),
                from <= 121,
                forall|i: u128|
                    i < 128 ==> (#[trigger] bit128(mine, i) <==> i < 121 && piece_faction(
                        piece_at(*self, i as int),
                    ) == Some(turn)),
                forall|m: int|
                    0 <= m < r@.len() ==> legal_move(
                        *self,
                        turn,
                        (#[trigger] r@[m])[0][0] * 11 + r@[m][0][1],
                        r@[m][1][0] * 11 + r@[m][1][1],
                    ),
                forall|f: int, t: int|
                    #[trigger] legal_move(*self, turn, f, t) && f < from ==> exists|m: int|
                        0 <= m < r@.len() && r@[m] == [to_2d_pair(f), to_2d_pair(t)],
                forall|m1: int, m2: int|
                    0 <= m1 < m2 < r@.len() ==> move_key(#[trigger] r@[m1]) < move_key(
                        #[trigger] r@[m2],
                    ),
                forall|m: int| 0 <= m < r@.len() ==> move_key(#[trigger] r@[m]) < from * 121,
            decreases 121 - from,
        {
            if mine & (1u128 << (from as u128)) != 0 {
                proof {
                    assert(bit128(mine, from as u128));
                }
                let coord = to_2d(from);
                let mvs = self.moves_from(coord);
                let mut to: usize = 0;
                while to < 121
                    invariant
                        self.wf(),
                        from < 121,
                        to <= 121,
                        coord == to_2d_pair(from as int),
                        piece_faction(piece_at(*self, from as int)) == Some(turn),
                        forall|t: int|
                            0 <= t < 121 ==> (#[trigger] bit128(mvs, t as u128) == dest_ok(
                                *self,
                                coord[0] as int,
                                coord[1] as int,
                                t / 11,
                                t % 11,
                            )),
                        forall|m: int|
                            0 <= m < r@.len() ==> legal_move(
                                *self,
                                turn,
                                (#[trigger] r@[m])[0][0] * 11 + r@[m][0][1],
                                r@[m][1][0] * 11 + r@[m][1][1],
                            ),
                        forall|f: int, t: int|
                            #[trigger] legal_move(*self, turn, f, t) && (f < from || (f == from
                                && t < to)) ==> exists|m: int|
                                0 <= m < r@.len() && r@[m] == [to_2d_pair(f), to_2d_pair(t)],
                        coord[0] * 11 + coord[1] == from,
                        forall|m1: int, m2: int|
                            0 <= m1 < m2 < r@.len() ==> move_key(#[trigger] r@[m1]) < move_key(
                                #[trigger] r@[m2],
                            ),
                        forall|m: int|
                            0 <= m < r@.len() ==> move_key(#[trigger] r@[m]) < from * 121 + to,
                    decreases 121 - to,
                {
                    if mvs & (1u128 << (to as u128)) != 0 {
                        let dest = to_2d(to);
                        let mv = [coord, dest];
                        let ghost old_r = r@;
                        r.push(mv);
                        proof {
                            assert((to as int) as u128 == to as u128);
                            assert(bit128(mvs, (to as int) as u128));
                            assert(legal_move(*self, turn, from as int, to as int));
                            assert(move_key(mv) == from * 121 + to);
                            assert(r@[r@.len() - 1] == [
                                to_2d_pair(from as int),
                                to_2d_pair(to as int),
                            ]);
                            assert forall|f: int, t: int|
                                #[trigger] legal_move(*self, turn, f, t) && (f < from || (f == from
                                    && t <= to)) implies exists|m: int|
                                0 <= m < r@.len() && r@[m] == [to_2d_pair(f), to_2d_pair(t)] by {
                                if f == from && t == to {
                                    assert(r@[r@.len() - 1] == [to_2d_pair(f), to_2d_pair(t)]);
                                } else {
                                    let m = choose|m: int|
                                        0 <= m < old_r.len() && old_r[m] == [
                                            to_2d_pair(f),
                                            to_2d_pair(t),
                                        ];
                                    assert(r@[m] == [to_2d_pair(f), to_2d_pair(t)]);
                                }
                            }
                        }
                    } else {
                        proof {
                            assert((to as int) as u128 == to as u128);
                            assert(!bit128(mvs, (to as int) as u128));
                            crate::board::lemma_div_mod_11(to as int);
                            assert(!dest_ok(
                                *self,
                                coord[0] as int,
                                coord[1] as int,
                                to as int / 11,
                                to as int % 11,
                            ));
                            assert(!legal_move(*self, turn, from as int, to as int));
                        }
                    }
                    to = to + 1;
                }
            } else {
                proof {
                    assert forall|t: int| 0 <= t < 121 implies !legal_move(
                        *self,
                        turn,
                        from as int,
                        t,
                    ) by {
                        assert(!bit128(mine, from as u128));
                    }
                }
            }
            from = from + 1;
        }
        proof {
            if r@.len() > 0 {
                let m0 = r@[0];
                assert(legal_move(*self, turn, m0[0][0] * 11 + m0[0][1], m0[1][0] * 11 + m0[1][1]));
            }
            if has_move(*self, turn) {
                let (f, t) = choose|f: int, t: int| legal_move(*self, turn, f, t);
                assert(legal_move(*self, turn, f, t));
            }
        }
        r
    }
}

/// The `[y, x]` coordinate pair of a linear cell index.
pub open spec fn to_2d_pair(i: int) -> [u16; 2] {
    [(i / 11) as u16, (i % 11) as u16]
}

/// The grid rank of a move pair: its origin cell first, its destination
/// second. Distinct ranks mean distinct moves.
pub open spec fn move_key(m: [[u16; 2]; 2]) -> int {
    (m[0][0] * 11 + m[0][1]) * 121 + (m[1][0] * 11 + m[1][1])
}

/// The transposition table of the alpha-beta search: an exact-state cache
/// from a position and side to move to the depth it was searched to and the
/// score found. It wraps a hash map of an outside crate; its contents are
/// only known through `tt_map`.
#[verifier::external_body]
pub struct TransTable {
    map: hashbrown::HashMap<(u128, u128, bool), (u32, i64), ahash::RandomState>,
}

/// What the transposition table holds: each key is the two board planes
/// and whether White is to move; each value a searched depth and a score.
pub uninterp spec fn tt_map(t: TransTable) -> Map<(u128, u128, bool), (u32, i64)>;

/// The cache key of a position with side `t` to move.
pub open spec fn tt_key(b: BoardState, t: Faction) -> (u128, u128, bool) {
    (b.plane0, b.plane1, t == Faction::White)
}

/// The board a cache key stands for.
pub open spec fn key_board(k: (u128, u128, bool)) -> BoardState {
    BoardState { plane0: k.0, plane1: k.1 }
}

/// The side to move a cache key stands for.
pub open spec fn key_faction(k: (u128, u128, bool)) -> Faction {
    if k.2 {
        Faction::White
    } else {
        Faction::Black
    }
}

/// Every cached score is the exact minimax value of its position at its
/// stored depth.
pub open spec fn tt_inv(t: TransTable) -> bool {
    forall|k: (u128, u128, bool)|
        #[trigger] tt_map(t).dom().contains(k) ==> tt_map(t)[k].1 == minimax_spec(
            key_board(k),
            key_faction(k),
            tt_map(t)[k].0 as nat,
        )
}

impl TransTable {
    /// Relies on hashbrown::HashMap::with_hasher with an ahash::RandomState:
    /// a fresh table holds no entry.
    #[verifier::external_body]
    pub fn new() -> (r: TransTable)
        ensures
            forall|k: (u128, u128, bool)| !(#[trigger] tt_map(r).dom().contains(k)),
    {
        TransTable { map: hashbrown::HashMap::with_hasher(ahash::RandomState::new()) }
    }

    /// Relies on hashbrown::HashMap::get, with the derived equality and
    /// hash of the plain key tuple: it returns the entry stored under
    /// exactly this key, if there is one.
    #[verifier::external_body]
    pub fn lookup(&self, key: (u128, u128, bool)) -> (r: Option<(u32, i64)>)
        ensures
            r == if tt_map(*self).dom().contains(key) {
                Some(tt_map(*self)[key])
            } else {
                Option::<(u32, i64)>::None
            },
    {
        self.map.get(&key).copied()
    }

    /// Relies on hashbrown::HashMap::insert: the table afterwards maps this
    /// key to this value and every other key as before.
    #[verifier::external_body]
    pub fn store(&mut self, key: (u128, u128, bool), val: (u32, i64))
        ensures
            tt_map(*final(self)) == tt_map(*old(self)).insert(key, val),
    {
        self.map.insert(key, val);
    }
}

/// Longer prefixes of the move fold can only improve the score for the
/// folding side: it grows for White and shrinks for Black.
pub proof fn lemma_best_over_mono(b: BoardState, t: Faction, d: nat, k1: nat, k2: nat)
    requires
        k1 <= k2,
    ensures
        t == Faction::White ==> best_over(b, t, d, k1) <= best_over(b, t, d, k2),
        t == Faction::Black ==> best_over(b, t, d, k1) >= best_over(b, t, d, k2),
    decreases k2 - k1,
{
    if k2 > k1 {
        lemma_best_over_mono(b, t, d, k1, (k2 - 1) as nat);
    }
}

impl BoardState {
    /// Exhaustive minimax search to depth `depth`, the reference that
    /// alpha-beta search is held to. Callers must not ask for a search of a
    /// position whose side to move has no legal move; the recursion itself
    /// stays total and scores such an interior position as a loss for the
    /// side to move, the value the fold starts from.
    pub fn _minimax(self, turn: Faction, depth: u32) -> (r: i64)
        requires
            self.wf(),
            depth > 0 ==> has_move(self, turn),
        ensures
            r == minimax_spec(self, turn, depth as nat),
    {
        self.minimax_search(turn, depth)
    }

    /// The total core of the minimax search; a side without moves scores
    /// as a loss.
    fn minimax_search(self, turn: Faction, depth: u32) -> (r: i64)
        requires
            self.wf(),
        ensures
            r == minimax_spec(self, turn, depth as nat),
        decreases depth,
    {
        if depth == 0 {
            return self.zeroeval();
        }
        let mut score: i64 = match turn {
            Faction::White => -WIN_SCORE,
            Faction::Black => WIN_SCORE,
        };
        let mine = self.select_faction(turn);
        let mut from: usize = 0;
        while from < 121
            invariant
                self.wf(),
                from <= 121,
                depth >= 1,
                forall|i: u128|
                    i < 128 ==> (#[trigger] bit128(mine, i) <==> i < 121 && piece_faction(
                        piece_at(self, i as int),
                    ) == Some(turn)),
                score == best_over(self, turn, depth as nat, (from * 121) as nat),
            decreases 121 - from,
        {
            if mine & (1u128 << (from as u128)) != 0 {
                proof {
                    assert(bit128(mine, from as u128));
                }
                let coord = to_2d(from);
                let mvs = self.moves_from(coord);
                let mut to: usize = 0;
                while to < 121
                    invariant
                        self.wf(),
                        from < 121,
                        to <= 121,
                        depth >= 1,
                        coord == to_2d_pair(from as int),
                        piece_faction(piece_at(self, from as int)) == Some(turn),
                        forall|t: int|
                            0 <= t < 121 ==> (#[trigger] bit128(mvs, t as u128) == dest_ok(
                                self,
                                coord[0] as int,
                                coord[1] as int,
                                t / 11,
                                t % 11,
                            )),
                        score == best_over(self, turn, depth as nat, (from * 121 + to) as nat),
                    decreases 121 - to,
                {
                    proof {
                        lemma_pair(from as int, to as int);
                    }
                    if mvs & (1u128 << (to as u128)) != 0 {
                        proof {
                            assert((to as int) as u128 == to as u128);
                            assert(bit128(mvs, (to as int) as u128));
                            assert(legal_move(self, turn, from as int, to as int));
                        }
                        let mut nb = self;
                        let won = nb.do_move(coord, to_2d(to));
                        let v: i64 = if won {
                            match turn {
                                Faction::White => WIN_SCORE,
                                Faction::Black => -WIN_SCORE,
                            }
                        } else {
                            nb.minimax_search(turn.other_faction(), depth - 1)
                        };
                        proof {
                            lemma_minimax_bounds(nb, other_faction_spec(turn), (depth - 1) as nat);
                            assert(v == move_value(
                                self,
                                turn,
                                (depth - 1) as nat,
                                from as int,
                                to as int,
                            ));
                        }
                        match turn {
                            Faction::White => {
                                if v > score {
                                    score = v;
                                }
                            },
                            Faction::Black => {
                                if v < score {
                                    score = v;
                                }
                            },
                        }
                    } else {
                        proof {
                            assert((to as int) as u128 == to as u128);
                            assert(!bit128(mvs, (to as int) as u128));
                            assert(!legal_move(self, turn, from as int, to as int));
                        }
                    }
                    to = to + 1;
                }
            } else {
                proof {
                    assert forall|k: int|
                        from * 121 <= k < (from + 1) * 121 implies !legal_move(
                        self,
                        turn,
                        #[trigger] (k / 121),
                        k % 121,
                    ) by {
                        vstd::arithmetic::div_mod::lemma_fundamental_div_mod(k, 121);
                        assert(k / 121 == from as int);
                        assert(!bit128(mine, from as u128));
                    }
                    lemma_best_over_skip(
                        self,
                        turn,
                        depth as nat,
                        (from * 121) as nat,
                        ((from + 1) * 121) as nat,
                    );
                }
            }
            from = from + 1;
        }
        score
    }

    /// Alpha-beta search to depth `depth` inside the window
    /// `(alpha, beta)`, fail-soft, with a transposition table that caches
    /// exact scores. The score relates to the minimax value `m` of the
    /// position as a fail-soft window search does: a score inside the
    /// window is `m` itself, a score at or below `alpha` is an upper bound
    /// on `m`, and a score at or beyond `beta` a lower bound; over the full
    /// window the score is `m` itself, so pruning never changes the final
    /// value. At depth 0 the score is the static evaluation and the table
    /// is left untouched. The table caches only exact scores: the searched
    /// position's entry is written, at this depth, exactly when the score
    /// falls strictly inside the window, and a stored entry is reused (the
    /// score returned, the table unchanged) only at exactly the requested
    /// depth — a shallower entry is stale and recomputed, and a deeper one
    /// is recomputed too, since its value belongs to another search depth.
    /// Callers must not ask for a search of a position whose side to move
    /// has no legal move; the recursion itself stays total and scores such
    /// an interior position as a loss for the side to move.
    pub fn alphabeta(
        self,
        turn: Faction,
        depth: u32,
        alpha: i64,
        beta: i64,
        trans_table: &mut TransTable,
    ) -> (score: i64)
        requires
            self.wf(),
            tt_inv(*old(trans_table)),
            -WIN_SCORE <= alpha < beta <= WIN_SCORE,
            depth > 0 ==> has_move(self, turn),
    ensures
            tt_inv(*final(trans_table)),
            -WIN_SCORE <= score <= WIN_SCORE,
            score <= alpha ==> minimax_spec(self, turn, depth as nat) <= score,
            score >= beta ==> minimax_spec(self, turn, depth as nat) >= score,
            alpha < score < beta ==> score == minimax_spec(self, turn, depth as nat),
            alpha == -WIN_SCORE && beta == WIN_SCORE ==> score == minimax_spec(
                self,
                turn,
                depth as nat,
            ),
            depth == 0 ==> score == eval_spec(self) && tt_map(*final(trans_table)) == tt_map(
                *old(trans_table),
            ),
            depth > 0 && alpha < score < beta ==> tt_map(*final(trans_table)).dom().contains(
                tt_key(self, turn),
            ) && tt_map(*final(trans_table))[tt_key(self, turn)] == (depth, score),
            depth > 0 && tt_map(*old(trans_table)).dom().contains(tt_key(self, turn)) && tt_map(
                *old(trans_table),
            )[tt_key(self, turn)].0 == depth ==> score == tt_map(*old(trans_table))[tt_key(
                self,
                turn,
            )].1 && tt_map(*final(trans_table)) == tt_map(*old(trans_table)),
    {
        self.alphabeta_search(turn, depth, alpha, beta, trans_table)
    }

    /// The total core of the alpha-beta search, shared by the public entry
    /// point and the recursion; a side without moves scores as a loss.
    fn alphabeta_search(
        self,
        turn: Faction,
        depth: u32,
        alpha: i64,
        beta: i64,
        trans_table: &mut TransTable,
    ) -> (score: i64)
        requires
            self.wf(),
            tt_inv(*old(trans_table)),
            -WIN_SCORE <= alpha < beta <= WIN_SCORE,
    ensures
            tt_inv(*final(trans_table)),
            -WIN_SCORE <= score <= WIN_SCORE,
            score <= alpha ==> minimax_spec(self, turn, depth as nat) <= score,
            score >= beta ==> minimax_spec(self, turn, depth as nat) >= score,
            alpha < score < beta ==> score == minimax_spec(self, turn, depth as nat),
            alpha == -WIN_SCORE && beta == WIN_SCORE ==> score == minimax_spec(
                self,
                turn,
                depth as nat,
            ),
            depth == 0 ==> score == eval_spec(self) && tt_map(*final(trans_table)) == tt_map(
                *old(trans_table),
            ),
            depth > 0 && alpha < score < beta ==> tt_map(*final(trans_table)).dom().contains(
                tt_key(self, turn),
            ) && tt_map(*final(trans_table))[tt_key(self, turn)] == (depth, score),
            depth > 0 && tt_map(*old(trans_table)).dom().contains(tt_key(self, turn)) && tt_map(
                *old(trans_table),
            )[tt_key(self, turn)].0 == depth ==> score == tt_map(*old(trans_table))[tt_key(
                self,
                turn,
            )].1 && tt_map(*final(trans_table)) == tt_map(*old(trans_table)),
        decreases depth,
    {
        proof {
            lemma_minimax_bounds(self, turn, depth as nat);
        }
        if depth == 0 {
            return self.zeroeval();
        }
        let ghost d = depth as nat;

        let key = (
            self.plane0,
            self.plane1,
            match turn {
                Faction::White => true,
                Faction::Black => false,
            },
        );
        proof {
            assert(key_board(key) == self);
            assert(key_faction(key) == turn);
        }
        proof {
            assert(key == tt_key(self, turn));
        }
        if let Some(entry) = trans_table.lookup(key) {
            if entry.0 == depth {
                proof {
                    assert(tt_map(*trans_table).dom().contains(key));
                }
                return entry.1;
            }
        }
        proof {
            assert(!(tt_map(*old(trans_table)).dom().contains(key) && tt_map(*old(trans_table))[key].0
                == depth));
        }

        let mine = self.select_faction(turn);
        let mut score: i64 = match turn {
            Faction::White => -WIN_SCORE,
            Faction::Black => WIN_SCORE,
        };
        match turn {
            Faction::White => {
                let mut al = alpha;
                let mut from: usize = 0;
                while from < 121
                    invariant_except_break
                        self.wf(),
                        depth >= 1,
                        d == depth as nat,
                        tt_inv(*trans_table),
                        from <= 121,
                        -WIN_SCORE <= alpha < beta <= WIN_SCORE,
                        turn == Faction::White,
                        -WIN_SCORE <= score < beta,
                        al == if score > alpha {
                            score
                        } else {
                            alpha
                        },
                        forall|i: u128|
                            i < 128 ==> (#[trigger] bit128(mine, i) <==> i < 121 && piece_faction(
                                piece_at(self, i as int),
                            ) == Some(turn)),
                        score <= alpha ==> best_over(self, turn, d, (from * 121) as nat) <= score,
                        score > alpha ==> score == best_over(self, turn, d, (from * 121) as nat),
                    ensures
                        tt_inv(*trans_table),
                        -WIN_SCORE <= score <= WIN_SCORE,
                        score < beta ==> (score <= alpha ==> best_over(self, turn, d, 14641)
                            <= score) && (score > alpha ==> score == best_over(
                            self,
                            turn,
                            d,
                            14641,
                        )),
                        score >= beta ==> best_over(self, turn, d, 14641) >= score,
                    decreases 121 - from,
                {
                    if mine & (1u128 << (from as u128)) != 0 {
                        proof {
                            assert(bit128(mine, from as u128));
                        }
                        let coord = to_2d(from);
                        let mvs = self.moves_from(coord);
                        let mut to: usize = 0;
                        while to < 121
                            invariant_except_break
                                self.wf(),
                                depth >= 1,
                                d == depth as nat,
                                tt_inv(*trans_table),
                                from < 121,
                                to <= 121,
                                -WIN_SCORE <= alpha < beta <= WIN_SCORE,
                                turn == Faction::White,
                                -WIN_SCORE <= score < beta,
                                al == if score > alpha {
                                    score
                                } else {
                                    alpha
                                },
                                coord == to_2d_pair(from as int),
                                piece_faction(piece_at(self, from as int)) == Some(turn),
                                forall|t: int|
                                    0 <= t < 121 ==> (#[trigger] bit128(mvs, t as u128) == dest_ok(
                                        self,
                                        coord[0] as int,
                                        coord[1] as int,
                                        t / 11,
                                        t % 11,
                                    )),
                                score <= alpha ==> best_over(self, turn, d, (from * 121
                                    + to) as nat) <= score,
                                score > alpha ==> score == best_over(self, turn, d, (from * 121
                                    + to) as nat),
                            ensures
                                tt_inv(*trans_table),
                                -WIN_SCORE <= score <= WIN_SCORE,
                                al == if score > alpha {
                                    score
                                } else {
                                    alpha
                                },
                                score < beta ==> (score <= alpha ==> best_over(
                                    self,
                                    turn,
                                    d,
                                    ((from + 1) * 121) as nat,
                                ) <= score) && (score > alpha ==> score == best_over(
                                    self,
                                    turn,
                                    d,
                                    ((from + 1) * 121) as nat,
                                )),
                                score >= beta ==> best_over(self, turn, d, 14641) >= score,
                            decreases 121 - to,
                        {
                            proof {
                                lemma_pair(from as int, to as int);
                                lemma_div_mod_11(from as int);
                                lemma_div_mod_11(to as int);
                            }
                            let ghost k = (from * 121 + to) as nat;
                            if mvs & (1u128 << (to as u128)) != 0 {
                                proof {
                                    assert((to as int) as u128 == to as u128);
                                    assert(bit128(mvs, (to as int) as u128));
                                    assert(legal_move(self, turn, from as int, to as int));
                                }
                                let ghost mv = move_value(
                                    self,
                                    turn,
                                    (d - 1) as nat,
                                    from as int,
                                    to as int,
                                );
                                proof {
                                    assert(best_over(self, turn, d, (k + 1) as nat) == better(
                                        turn,
                                        best_over(self, turn, d, k),
                                        mv,
                                    ));
                                    lemma_move_value_bounds(
                                        self,
                                        turn,
                                        (d - 1) as nat,
                                        from as int,
                                        to as int,
                                    );
                                }
                                let mut nb = self;
                                let dest = to_2d(to);
                                let won = nb.do_move(coord, dest);
                                let v: i64 = if won {
                                    WIN_SCORE
                                } else {
                                    nb.alphabeta_search(
                                        turn.other_faction(),
                                        depth - 1,
                                        al,
                                        beta,
                                        trans_table,
                                    )
                                };
                                proof {
                                    if won {
                                        assert(mv == WIN_SCORE as int);
                                    } else {
                                        assert(mv == minimax_spec(
                                            nb,
                                            other_faction_spec(turn),
                                            (d - 1) as nat,
                                        ));
                                    }
                                }
                                let ghost old_score = score;
                                let ghost old_al = al;
                                if v > score {
                                    score = v;
                                }
                                if score > al {
                                    al = score;
                                }
                                if score >= beta {
                                    proof {
                                        assert(score == v);
                                        assert(mv >= score);
                                        assert(best_over(self, turn, d, (k + 1) as nat) >= score);
                                        lemma_best_over_mono(self, turn, d, (k + 1) as nat, 14641);
                                    }
                                    break ;
                                }
                                proof {
                                    assert(!won && v < beta);
                                    if v <= old_al {
                                        assert(mv <= v);
                                        if old_score <= alpha {
                                            assert(best_over(self, turn, d, k) <= old_score);
                                            assert(best_over(self, turn, d, (k + 1) as nat)
                                                <= score);
                                        } else {
                                            assert(old_al == old_score);
                                            assert(score == old_score);
                                            assert(best_over(self, turn, d, (k + 1) as nat)
                                                == score);
                                        }
                                    } else {
                                        assert(old_al < v < beta);
                                        assert(mv == v);
                                        assert(score == v && score > alpha);
                                        assert(best_over(self, turn, d, k) < v);
                                        assert(best_over(self, turn, d, (k + 1) as nat) == score);
                                    }
                                }
                            } else {
                                proof {
                                    assert((to as int) as u128 == to as u128);
                                    assert(!bit128(mvs, (to as int) as u128));
                                    assert(!legal_move(self, turn, from as int, to as int));
                                    assert(best_over(self, turn, d, (k + 1) as nat) == best_over(
                                        self,
                                        turn,
                                        d,
                                        k,
                                    ));
                                }
                            }
                            to = to + 1;
                        }
                        if score >= beta {
                            break ;
                        }
                    } else {
                        proof {
                            assert forall|k: int|
                                from * 121 <= k < (from + 1) * 121 implies !legal_move(
                                self,
                                turn,
                                #[trigger] (k / 121),
                                k % 121,
                            ) by {
                                vstd::arithmetic::div_mod::lemma_fundamental_div_mod(k, 121);
                                assert(k / 121 == from as int);
                                assert(!bit128(mine, from as u128));
                            }
                            lemma_best_over_skip(
                                self,
                                turn,
                                d,
                                (from * 121) as nat,
                                ((from + 1) * 121) as nat,
                            );
                        }
                    }
                    from = from + 1;
                }
            },
            Faction::Black => {
                let mut be = beta;
                let mut from: usize = 0;
                while from < 121
                    invariant_except_break
                        self.wf(),
                        depth >= 1,
                        d == depth as nat,
                        tt_inv(*trans_table),
                        from <= 121,
                        -WIN_SCORE <= alpha < beta <= WIN_SCORE,
                        turn == Faction::Black,
                        alpha < score <= WIN_SCORE,
                        be == if score < beta {
                            score
                        } else {
                            beta
                        },
                        forall|i: u128|
                            i < 128 ==> (#[trigger] bit128(mine, i) <==> i < 121 && piece_faction(
                                piece_at(self, i as int),
                            ) == Some(turn)),
                        score >= beta ==> best_over(self, turn, d, (from * 121) as nat) >= score,
                        score < beta ==> score == best_over(self, turn, d, (from * 121) as nat),
                    ensures
                        tt_inv(*trans_table),
                        -WIN_SCORE <= score <= WIN_SCORE,
                        score > alpha ==> (score >= beta ==> best_over(self, turn, d, 14641)
                            >= score) && (score < beta ==> score == best_over(
                            self,
                            turn,
                            d,
                            14641,
                        )),
                        score <= alpha ==> best_over(self, turn, d, 14641) <= score,
                    decreases 121 - from,
                {
                    if mine & (1u128 << (from as u128)) != 0 {
                        proof {
                            assert(bit128(mine, from as u128));
                        }
                        let coord = to_2d(from);
                        let mvs = self.moves_from(coord);
                        let mut to: usize = 0;
                        while to < 121
                            invariant_except_break
                                self.wf(),
                                depth >= 1,
                                d == depth as nat,
                                tt_inv(*trans_table),
                                from < 121,
                                to <= 121,
                                -WIN_SCORE <= alpha < beta <= WIN_SCORE,
                                turn == Faction::Black,
                                alpha < score <= WIN_SCORE,
                                be == if score < beta {
                                    score
                                } else {
                                    beta
                                },
                                coord == to_2d_pair(from as int),
                                piece_faction(piece_at(self, from as int)) == Some(turn),
                                forall|t: int|
                                    0 <= t < 121 ==> (#[trigger] bit128(mvs, t as u128) == dest_ok(
                                        self,
                                        coord[0] as int,
                                        coord[1] as int,
                                        t / 11,
                                        t % 11,
                                    )),
                                score >= beta ==> best_over(self, turn, d, (from * 121
                                    + to) as nat) >= score,
                                score < beta ==> score == best_over(self, turn, d, (from * 121
                                    + to) as nat),
                            ensures
                                tt_inv(*trans_table),
                                -WIN_SCORE <= score <= WIN_SCORE,
                                be == if score < beta {
                                    score
                                } else {
                                    beta
                                },
                                score > alpha ==> (score >= beta ==> best_over(
                                    self,
                                    turn,
                                    d,
                                    ((from + 1) * 121) as nat,
                                ) >= score) && (score < beta ==> score == best_over(
                                    self,
                                    turn,
                                    d,
                                    ((from + 1) * 121) as nat,
                                )),
                                score <= alpha ==> best_over(self, turn, d, 14641) <= score,
                            decreases 121 - to,
                        {
                            proof {
                                lemma_pair(from as int, to as int);
                                lemma_div_mod_11(from as int);
                                lemma_div_mod_11(to as int);
                            }
                            let ghost k = (from * 121 + to) as nat;
                            if mvs & (1u128 << (to as u128)) != 0 {
                                proof {
                                    assert((to as int) as u128 == to as u128);
                                    assert(bit128(mvs, (to as int) as u128));
                                    assert(legal_move(self, turn, from as int, to as int));
                                }
                                let ghost mv = move_value(
                                    self,
                                    turn,
                                    (d - 1) as nat,
                                    from as int,
                                    to as int,
                                );
                                proof {
                                    assert(best_over(self, turn, d, (k + 1) as nat) == better(
                                        turn,
                                        best_over(self, turn, d, k),
                                        mv,
                                    ));
                                    lemma_move_value_bounds(
                                        self,
                                        turn,
                                        (d - 1) as nat,
                                        from as int,
                                        to as int,
                                    );
                                }
                                let mut nb = self;
                                let dest = to_2d(to);
                                let won = nb.do_move(coord, dest);
                                let v: i64 = if won {
                                    -WIN_SCORE
                                } else {
                                    nb.alphabeta_search(
                                        turn.other_faction(),
                                        depth - 1,
                                        alpha,
                                        be,
                                        trans_table,
                                    )
                                };
                                proof {
                                    if won {
                                        assert(mv == -(WIN_SCORE as int));
                                    } else {
                                        assert(mv == minimax_spec(
                                            nb,
                                            other_faction_spec(turn),
                                            (d - 1) as nat,
                                        ));
                                    }
                                }
                                let ghost old_score = score;
                                let ghost old_be = be;
                                if v < score {
                                    score = v;
                                }
                                if score < be {
                                    be = score;
                                }
                                if score <= alpha {
                                    proof {
                                        assert(score == v);
                                        assert(mv <= score);
                                        assert(best_over(self, turn, d, (k + 1) as nat) <= score);
                                        lemma_best_over_mono(self, turn, d, (k + 1) as nat, 14641);
                                    }
                                    break ;
                                }
                                proof {
                                    assert(!won && v > alpha);
                                    if v >= old_be {
                                        assert(mv >= v);
                                        if old_score >= beta {
                                            assert(best_over(self, turn, d, k) >= old_score);
                                            assert(best_over(self, turn, d, (k + 1) as nat)
                                                >= score);
                                        } else {
                                            assert(old_be == old_score);
                                            assert(score == old_score);
                                            assert(best_over(self, turn, d, (k + 1) as nat)
                                                == score);
                                        }
                                    } else {
                                        assert(alpha < v < old_be);
                                        assert(mv == v);
                                        assert(score == v && score < beta);
                                        assert(best_over(self, turn, d, k) > v);
                                        assert(best_over(self, turn, d, (k + 1) as nat) == score);
                                    }
                                }
                            } else {
                                proof {
                                    assert((to as int) as u128 == to as u128);
                                    assert(!bit128(mvs, (to as int) as u128));
                                    assert(!legal_move(self, turn, from as int, to as int));
                                    assert(best_over(self, turn, d, (k + 1) as nat) == best_over(
                                        self,
                                        turn,
                                        d,
                                        k,
                                    ));
                                }
                            }
                            to = to + 1;
                        }
                        if score <= alpha {
                            break ;
                        }
                    } else {
                        proof {
                            assert forall|k: int|
                                from * 121 <= k < (from + 1) * 121 implies !legal_move(
                                self,
                                turn,
                                #[trigger] (k / 121),
                                k % 121,
                            ) by {
                                vstd::arithmetic::div_mod::lemma_fundamental_div_mod(k, 121);
                                assert(k / 121 == from as int);
                                assert(!bit128(mine, from as u128));
                            }
                            lemma_best_over_skip(
                                self,
                                turn,
                                d,
                                (from * 121) as nat,
                                ((from + 1) * 121) as nat,
                            );
                        }
                    }
                    from = from + 1;
                }
            },
        }

        proof {
            assert(minimax_spec(self, turn, d) == best_over(self, turn, d, 14641));
        }
        if alpha < score && score < beta {
            proof {
                assert(score == minimax_spec(self, turn, d));
            }
            let ghost old_map = tt_map(*trans_table);
            trans_table.store(key, (depth, score));
            proof {
                assert forall|k2: (u128, u128, bool)|
                    #[trigger] tt_map(*trans_table).dom().contains(k2) implies tt_map(
                    *trans_table,
                )[k2].1 == minimax_spec(
                    key_board(k2),
                    key_faction(k2),
                    tt_map(*trans_table)[k2].0 as nat,
                ) by {
                    if k2 != key {
                        assert(old_map.dom().contains(k2));
                        assert(tt_map(*trans_table)[k2] == old_map[k2]);
                    }
                }
            }
        }
        score
    }

    /// The best move for side `turn`, searching `depth` plies past each
    /// first move, and its score: the move whose value is the minimax value
    /// of the position one ply deeper. There must be at least one legal
    /// move.
    pub fn best_move(self, turn: Faction, depth: u32, trans_table: &mut TransTable) -> (r: (
        [[u16; 2]; 2],
        i64,
    ))
        requires
            self.wf(),
            tt_inv(*old(trans_table)),
            has_move(self, turn),
            depth < u32::MAX,
    ensures
            tt_inv(*final(trans_table)),
            tt_map(*final(trans_table)).dom().contains(tt_key(self, turn)),
            tt_map(*final(trans_table))[tt_key(self, turn)] == ((depth + 1) as u32, r.1),
            r.1 == minimax_spec(self, turn, (depth + 1) as nat),
            legal_move(self, turn, r.0[0][0] * 11 + r.0[0][1], r.0[1][0] * 11 + r.0[1][1]),
            move_value(
                self,
                turn,
                depth as nat,
                r.0[0][0] * 11 + r.0[0][1],
                r.0[1][0] * 11 + r.0[1][1],
            ) == r.1,
    {
        let ghost d1 = (depth + 1) as nat;
        let mine = self.select_faction(turn);
        let mut best: Option<[[u16; 2]; 2]> = None;
        let mut score: i64 = match turn {
            Faction::White => -WIN_SCORE,
            Faction::Black => WIN_SCORE,
        };
        match turn {
            Faction::White => {
                let mut from: usize = 0;
                while from < 121
                    invariant_except_break
                        self.wf(),
                        d1 == (depth + 1) as nat,
                        depth < u32::MAX,
                        tt_inv(*trans_table),
                        from <= 121,
                        turn == Faction::White,
                        -WIN_SCORE <= score < WIN_SCORE,
                        forall|i: u128|
                            i < 128 ==> (#[trigger] bit128(mine, i) <==> i < 121 && piece_faction(
                                piece_at(self, i as int),
                            ) == Some(turn)),
                        score == best_over(self, turn, d1, (from * 121) as nat),
                        best matches Some(m) ==> legal_move(
                            self,
                            turn,
                            m[0][0] * 11 + m[0][1],
                            m[1][0] * 11 + m[1][1],
                        ) && move_value(
                            self,
                            turn,
                            depth as nat,
                            m[0][0] * 11 + m[0][1],
                            m[1][0] * 11 + m[1][1],
                        ) == score,
                        best is None ==> forall|p: int|
                            0 <= p < from * 121 ==> !legal_move(
                                self,
                                turn,
                                #[trigger] (p / 121),
                                p % 121,
                            ),
                    ensures
                        tt_inv(*trans_table),
                        -WIN_SCORE <= score <= WIN_SCORE,
                        score == best_over(self, turn, d1, 14641),
                        best matches Some(m) ==> legal_move(
                            self,
                            turn,
                            m[0][0] * 11 + m[0][1],
                            m[1][0] * 11 + m[1][1],
                        ) && move_value(
                            self,
                            turn,
                            depth as nat,
                            m[0][0] * 11 + m[0][1],
                            m[1][0] * 11 + m[1][1],
                        ) == score,
                        best is None ==> forall|p: int|
                            0 <= p < 14641 ==> !legal_move(
                                self,
                                turn,
                                #[trigger] (p / 121),
                                p % 121,
                            ),
                    decreases 121 - from,
                {
                    if mine & (1u128 << (from as u128)) != 0 {
                        proof {
                            assert(bit128(mine, from as u128));
                        }
                        let coord = to_2d(from);
                        let mvs = self.moves_from(coord);
                        let mut to: usize = 0;
                        while to < 121
                            invariant_except_break
                                self.wf(),
                                d1 == (depth + 1) as nat,
                                depth < u32::MAX,
                                tt_inv(*trans_table),
                                from < 121,
                                to <= 121,
                                turn == Faction::White,
                                -WIN_SCORE <= score < WIN_SCORE,
                                coord == to_2d_pair(from as int),
                                piece_faction(piece_at(self, from as int)) == Some(turn),
                                forall|t: int|
                                    0 <= t < 121 ==> (#[trigger] bit128(mvs, t as u128) == dest_ok(
                                        self,
                                        coord[0] as int,
                                        coord[1] as int,
                                        t / 11,
                                        t % 11,
                                    )),
                                score == best_over(self, turn, d1, (from * 121 + to) as nat),
                                best matches Some(m) ==> legal_move(
                                    self,
                                    turn,
                                    m[0][0] * 11 + m[0][1],
                                    m[1][0] * 11 + m[1][1],
                                ) && move_value(
                                    self,
                                    turn,
                                    depth as nat,
                                    m[0][0] * 11 + m[0][1],
                                    m[1][0] * 11 + m[1][1],
                                ) == score,
                                best is None ==> forall|p: int|
                                    0 <= p < from * 121 + to ==> !legal_move(
                                        self,
                                        turn,
                                        #[trigger] (p / 121),
                                        p % 121,
                                    ),
                            ensures
                                tt_inv(*trans_table),
                                -WIN_SCORE <= score <= WIN_SCORE,
                                best matches Some(m) ==> legal_move(
                                    self,
                                    turn,
                                    m[0][0] * 11 + m[0][1],
                                    m[1][0] * 11 + m[1][1],
                                ) && move_value(
                                    self,
                                    turn,
                                    depth as nat,
                                    m[0][0] * 11 + m[0][1],
                                    m[1][0] * 11 + m[1][1],
                                ) == score,
                                score < WIN_SCORE ==> score == best_over(
                                    self,
                                    turn,
                                    d1,
                                    ((from + 1) * 121) as nat,
                                ),
                                score < WIN_SCORE && best is None ==> forall|p: int|
                                    0 <= p < (from + 1) * 121 ==> !legal_move(
                                        self,
                                        turn,
                                        #[trigger] (p / 121),
                                        p % 121,
                                    ),
                                score == WIN_SCORE ==> score == best_over(self, turn, d1, 14641)
                                    && best is Some,
                            decreases 121 - to,
                        {
                            proof {
                                lemma_pair(from as int, to as int);
                                lemma_div_mod_11(from as int);
                                lemma_div_mod_11(to as int);
                            }
                            let ghost k = (from * 121 + to) as nat;
                            if mvs & (1u128 << (to as u128)) != 0 {
                                proof {
                                    assert((to as int) as u128 == to as u128);
                                    assert(bit128(mvs, (to as int) as u128));
                                    assert(legal_move(self, turn, from as int, to as int));
                                }
                                let ghost mv = move_value(
                                    self,
                                    turn,
                                    depth as nat,
                                    from as int,
                                    to as int,
                                );
                                proof {
                                    assert(best_over(self, turn, d1, (k + 1) as nat) == better(
                                        turn,
                                        best_over(self, turn, d1, k),
                                        mv,
                                    ));
                                    lemma_move_value_bounds(
                                        self,
                                        turn,
                                        depth as nat,
                                        from as int,
                                        to as int,
                                    );
                                }
                                let dest = to_2d(to);
                                let ghost was_none = best is None;
                                if best.is_none() {
                                    best = Some([coord, dest]);
                                }
                                let mut nb = self;
                                let won = nb.do_move(coord, dest);
                                let local: i64 = if won {
                                    WIN_SCORE
                                } else {
                                    nb.alphabeta_search(
                                        turn.other_faction(),
                                        depth,
                                        score,
                                        WIN_SCORE,
                                        trans_table,
                                    )
                                };
                                proof {
                                    if won {
                                        assert(mv == WIN_SCORE as int);
                                    } else {
                                        assert(mv == minimax_spec(
                                            nb,
                                            other_faction_spec(turn),
                                            depth as nat,
                                        ));
                                        if local > score && local < WIN_SCORE {
                                            assert(mv == local);
                                        }
                                        if local <= score {
                                            assert(mv <= local);
                                        }
                                        if local >= WIN_SCORE {
                                            assert(mv >= local && local == WIN_SCORE);
                                        }
                                    }
                                    if was_none {
                                        lemma_best_over_skip(self, turn, d1, 0, k);
                                        assert(best_over(self, turn, d1, k) == -(
                                        WIN_SCORE as int));
                                        assert(score == -WIN_SCORE);
                                    }
                                }
                                let ghost old_score = score;
                                if local > score {
                                    best = Some([coord, dest]);
                                    score = local;
                                }
                                proof {
                                    if local > old_score {
                                        assert(mv == local);
                                        assert(best_over(self, turn, d1, (k + 1) as nat) == score);
                                    } else {
                                        assert(mv <= local <= old_score);
                                        assert(best_over(self, turn, d1, (k + 1) as nat)
                                            == old_score);
                                        if was_none {
                                            assert(local <= old_score == -(WIN_SCORE as int));
                                            assert(mv == local && local == -WIN_SCORE);
                                            assert(mv == score);
                                        }
                                    }
                                }
                                if score == WIN_SCORE {
                                    proof {
                                        lemma_best_over_mono(self, turn, d1, (k + 1) as nat, 14641);
                                        lemma_best_over_bounds(self, turn, d1, 14641);
                                    }
                                    break ;
                                }
                            } else {
                                proof {
                                    assert((to as int) as u128 == to as u128);
                                    assert(!bit128(mvs, (to as int) as u128));
                                    assert(!legal_move(self, turn, from as int, to as int));
                                    assert(best_over(self, turn, d1, (k + 1) as nat) == best_over(
                                        self,
                                        turn,
                                        d1,
                                        k,
                                    ));
                                }
                            }
                            to = to + 1;
                        }
                        if score == WIN_SCORE {
                            break ;
                        }
                    } else {
                        proof {
                            assert forall|p: int|
                                from * 121 <= p < (from + 1) * 121 implies !legal_move(
                                self,
                                turn,
                                #[trigger] (p / 121),
                                p % 121,
                            ) by {
                                vstd::arithmetic::div_mod::lemma_fundamental_div_mod(p, 121);
                                assert(p / 121 == from as int);
                                assert(!bit128(mine, from as u128));
                            }
                            lemma_best_over_skip(
                                self,
                                turn,
                                d1,
                                (from * 121) as nat,
                                ((from + 1) * 121) as nat,
                            );
                        }
                    }
                    from = from + 1;
                }
            },
            Faction::Black => {
                let mut from: usize = 0;
                while from < 121
                    invariant_except_break
                        self.wf(),
                        d1 == (depth + 1) as nat,
                        depth < u32::MAX,
                        tt_inv(*trans_table),
                        from <= 121,
                        turn == Faction::Black,
                        -WIN_SCORE < score <= WIN_SCORE,
                        forall|i: u128|
                            i < 128 ==> (#[trigger] bit128(mine, i) <==> i < 121 && piece_faction(
                                piece_at(self, i as int),
                            ) == Some(turn)),
                        score == best_over(self, turn, d1, (from * 121) as nat),
                        best matches Some(m) ==> legal_move(
                            self,
                            turn,
                            m[0][0] * 11 + m[0][1],
                            m[1][0] * 11 + m[1][1],
                        ) && move_value(
                            self,
                            turn,
                            depth as nat,
                            m[0][0] * 11 + m[0][1],
                            m[1][0] * 11 + m[1][1],
                        ) == score,
                        best is None ==> forall|p: int|
                            0 <= p < from * 121 ==> !legal_move(
                                self,
                                turn,
                                #[trigger] (p / 121),
                                p % 121,
                            ),
                    ensures
                        tt_inv(*trans_table),
                        -WIN_SCORE <= score <= WIN_SCORE,
                        score == best_over(self, turn, d1, 14641),
                        best matches Some(m) ==> legal_move(
                            self,
                            turn,
                            m[0][0] * 11 + m[0][1],
                            m[1][0] * 11 + m[1][1],
                        ) && move_value(
                            self,
                            turn,
                            depth as nat,
                            m[0][0] * 11 + m[0][1],
                            m[1][0] * 11 + m[1][1],
                        ) == score,
                        best is None ==> forall|p: int|
                            0 <= p < 14641 ==> !legal_move(
                                self,
                                turn,
                                #[trigger] (p / 121),
                                p % 121,
                            ),
                    decreases 121 - from,
                {
                    if mine & (1u128 << (from as u128)) != 0 {
                        proof {
                            assert(bit128(mine, from as u128));
                        }
                        let coord = to_2d(from);
                        let mvs = self.moves_from(coord);
                        let mut to: usize = 0;
                        while to < 121
                            invariant_except_break
                                self.wf(),
                                d1 == (depth + 1) as nat,
                                depth < u32::MAX,
                                tt_inv(*trans_table),
                                from < 121,
                                to <= 121,
                                turn == Faction::Black,
                                -WIN_SCORE < score <= WIN_SCORE,
                                coord == to_2d_pair(from as int),
                                piece_faction(piece_at(self, from as int)) == Some(turn),
                                forall|t: int|
                                    0 <= t < 121 ==> (#[trigger] bit128(mvs, t as u128) == dest_ok(
                                        self,
                                        coord[0] as int,
                                        coord[1] as int,
                                        t / 11,
                                        t % 11,
                                    )),
                                score == best_over(self, turn, d1, (from * 121 + to) as nat),
                                best matches Some(m) ==> legal_move(
                                    self,
                                    turn,
                                    m[0][0] * 11 + m[0][1],
                                    m[1][0] * 11 + m[1][1],
                                ) && move_value(
                                    self,
                                    turn,
                                    depth as nat,
                                    m[0][0] * 11 + m[0][1],
                                    m[1][0] * 11 + m[1][1],
                                ) == score,
                                best is None ==> forall|p: int|
                                    0 <= p < from * 121 + to ==> !legal_move(
                                        self,
                                        turn,
                                        #[trigger] (p / 121),
                                        p % 121,
                                    ),
                            ensures
                                tt_inv(*trans_table),
                                -WIN_SCORE <= score <= WIN_SCORE,
                                best matches Some(m) ==> legal_move(
                                    self,
                                    turn,
                                    m[0][0] * 11 + m[0][1],
                                    m[1][0] * 11 + m[1][1],
                                ) && move_value(
                                    self,
                                    turn,
                                    depth as nat,
                                    m[0][0] * 11 + m[0][1],
                                    m[1][0] * 11 + m[1][1],
                                ) == score,
                                score > -WIN_SCORE ==> score == best_over(
                                    self,
                                    turn,
                                    d1,
                                    ((from + 1) * 121) as nat,
                                ),
                                score > -WIN_SCORE && best is None ==> forall|p: int|
                                    0 <= p < (from + 1) * 121 ==> !legal_move(
                                        self,
                                        turn,
                                        #[trigger] (p / 121),
                                        p % 121,
                                    ),
                                score == -WIN_SCORE ==> score == best_over(self, turn, d1, 14641)
                                    && best is Some,
                            decreases 121 - to,
                        {
                            proof {
                                lemma_pair(from as int, to as int);
                                lemma_div_mod_11(from as int);
                                lemma_div_mod_11(to as int);
                            }
                            let ghost k = (from * 121 + to) as nat;
                            if mvs & (1u128 << (to as u128)) != 0 {
                                proof {
                                    assert((to as int) as u128 == to as u128);
                                    assert(bit128(mvs, (to as int) as u128));
                                    assert(legal_move(self, turn, from as int, to as int));
                                }
                                let ghost mv = move_value(
                                    self,
                                    turn,
                                    depth as nat,
                                    from as int,
                                    to as int,
                                );
                                proof {
                                    assert(best_over(self, turn, d1, (k + 1) as nat) == better(
                                        turn,
                                        best_over(self, turn, d1, k),
                                        mv,
                                    ));
                                    lemma_move_value_bounds(
                                        self,
                                        turn,
                                        depth as nat,
                                        from as int,
                                        to as int,
                                    );
                                }
                                let dest = to_2d(to);
                                let ghost was_none = best is None;
                                if best.is_none() {
                                    best = Some([coord, dest]);
                                }
                                let mut nb = self;
                                let won = nb.do_move(coord, dest);
                                let local: i64 = if won {
                                    -WIN_SCORE
                                } else {
                                    nb.alphabeta_search(
                                        turn.other_faction(),
                                        depth,
                                        -WIN_SCORE,
                                        score,
                                        trans_table,
                                    )
                                };
                                proof {
                                    if won {
                                        assert(mv == -(WIN_SCORE as int));
                                    } else {
                                        assert(mv == minimax_spec(
                                            nb,
                                            other_faction_spec(turn),
                                            depth as nat,
                                        ));
                                        if local < score && local > -WIN_SCORE {
                                            assert(mv == local);
                                        }
                                        if local >= score {
                                            assert(mv >= local);
                                        }
                                        if local <= -WIN_SCORE {
                                            assert(mv <= local && local == -WIN_SCORE);
                                        }
                                    }
                                    if was_none {
                                        lemma_best_over_skip(self, turn, d1, 0, k);
                                        assert(best_over(self, turn, d1, k) == WIN_SCORE as int);
                                        assert(score == WIN_SCORE);
                                    }
                                }
                                let ghost old_score = score;
                                if local < score {
                                    best = Some([coord, dest]);
                                    score = local;
                                }
                                proof {
                                    if local < old_score {
                                        assert(mv == local);
                                        assert(best_over(self, turn, d1, (k + 1) as nat) == score);
                                    } else {
                                        assert(mv >= local >= old_score);
                                        assert(best_over(self, turn, d1, (k + 1) as nat)
                                            == old_score);
                                        if was_none {
                                            assert(local >= old_score == WIN_SCORE as int);
                                            assert(mv >= local && local == WIN_SCORE);
                                            assert(mv == score);
                                        }
                                    }
                                }
                                if score == -WIN_SCORE {
                                    proof {
                                        lemma_best_over_mono(self, turn, d1, (k + 1) as nat, 14641);
                                        lemma_best_over_bounds(self, turn, d1, 14641);
                                    }
                                    break ;
                                }
                            } else {
                                proof {
                                    assert((to as int) as u128 == to as u128);
                                    assert(!bit128(mvs, (to as int) as u128));
                                    assert(!legal_move(self, turn, from as int, to as int));
                                    assert(best_over(self, turn, d1, (k + 1) as nat) == best_over(
                                        self,
                                        turn,
                                        d1,
                                        k,
                                    ));
                                }
                            }
                            to = to + 1;
                        }
                        if score == -WIN_SCORE {
                            break ;
                        }
                    } else {
                        proof {
                            assert forall|p: int|
                                from * 121 <= p < (from + 1) * 121 implies !legal_move(
                                self,
                                turn,
                                #[trigger] (p / 121),
                                p % 121,
                            ) by {
                                vstd::arithmetic::div_mod::lemma_fundamental_div_mod(p, 121);
                                assert(p / 121 == from as int);
                                assert(!bit128(mine, from as u128));
                            }
                            lemma_best_over_skip(
                                self,
                                turn,
                                d1,
                                (from * 121) as nat,
                                ((from + 1) * 121) as nat,
                            );
                        }
                    }
                    from = from + 1;
                }
            },
        }

        proof {
            assert(minimax_spec(self, turn, d1) == best_over(self, turn, d1, 14641));
            if best is None {
                let (f, t) = choose|f: int, t: int| legal_move(self, turn, f, t);
                assert(legal_move(self, turn, f, t));
                lemma_pair(f, t);
                assert(!legal_move(self, turn, (f * 121 + t) / 121, (f * 121 + t) % 121));
                assert(false);
            }
        }
        let chosen = match best {
            Some(m) => m,
            None => [[0u16, 0u16], [0u16, 0u16]],
        };
        let key = (
            self.plane0,
            self.plane1,
            match turn {
                Faction::White => true,
                Faction::Black => false,
            },
        );
        proof {
            assert(key_board(key) == self);
            assert(key_faction(key) == turn);
        }
        let ghost old_map = tt_map(*trans_table);
        trans_table.store(key, (depth + 1, score));
        proof {
            assert forall|k2: (u128, u128, bool)|
                #[trigger] tt_map(*trans_table).dom().contains(k2) implies tt_map(*trans_table)[k2].1
                == minimax_spec(
                key_board(k2),
                key_faction(k2),
                tt_map(*trans_table)[k2].0 as nat,
            ) by {
                if k2 != key {
                    assert(old_map.dom().contains(k2));
                    assert(tt_map(*trans_table)[k2] == old_map[k2]);
                }
            }
        }
        (chosen, score)
    }
}

} // verus!
