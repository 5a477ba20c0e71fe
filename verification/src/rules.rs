//! The legality engine: move validity, en passant encoding, attack
//! detection, check, the filter that removes moves leaving the mover's
//! own king in check, and checkmate / stalemate detection.
//!
//! A candidate move is judged by materializing the hypothetical board
//! after it: the mover stands on the destination, a captured piece is
//! gone (for en passant, the captured pawn stands beside the
//! destination, not on it), and the move is appended to the history.
//! The move is legal exactly when the mover's king is not attacked on
//! that board.

use vstd::prelude::*;

use crate::piece::{Kind, Move, Piece, PieceColor, Position, Turn};
use crate::piece::{distinct_positions, has_king, occupied_at, occupied_by, on_board, opposite};
use crate::generate::{
    generate_moves, last_is_enemy_double_push, lemma_generate_moves_props, pawn_dir,
};

verus! {

/// The en passant offset a proposed move carries: 0 for an ordinary
/// move; otherwise the captured pawn stands one rank away from the
/// destination, at rank `destination.1 + offset`. It is nonzero
/// exactly when the mover is a pawn, the immediately preceding history
/// entry is an enemy pawn's double push, and the destination is the
/// square that pawn skipped.
pub open spec fn ep_offset(p: Piece, dest: Position, history: Seq<Move>) -> int {
    if p.kind == Kind::Pawn && last_is_enemy_double_push(history, p.color) && history.last().to.0
        == dest.0 && dest.1 as int == history.last().to.1 + pawn_dir(p.color) {
        -pawn_dir(p.color)
    } else {
        0
    }
}

/// The square of the pawn an en passant capture removes, if the move
/// is one.
pub open spec fn ep_capture_square(p: Piece, dest: Position, history: Seq<Move>) -> Option<
    Position,
> {
    let off = ep_offset(p, dest, history);
    if off == 0 {
        None
    } else {
        Some((dest.0, (dest.1 + off) as u8))
    }
}

/// What becomes of one piece when the piece on `fromp` moves to `top`:
/// the mover is carried to `top`; a piece on `top` is captured; an
/// enemy piece on the en passant square `cap` is captured; everything
/// else stays.
pub open spec fn after_one(
    q: Piece,
    fromp: Position,
    top: Position,
    cap: Option<Position>,
    mover: PieceColor,
) -> Seq<Piece> {
    if q.pos == fromp {
        seq![Piece { pos: top, ..q }]
    } else if q.pos == top {
        Seq::empty()
    } else if cap == Some(q.pos) && q.color != mover {
        Seq::empty()
    } else {
        seq![q]
    }
}

/// The hypothetical board after the piece on `fromp` moves to `top`
/// with en passant capture square `cap`.
pub open spec fn board_after(
    board: Seq<Piece>,
    fromp: Position,
    top: Position,
    cap: Option<Position>,
    mover: PieceColor,
) -> Seq<Piece>
    decreases board.len(),
{
    if board.len() == 0 {
        Seq::empty()
    } else {
        board_after(board.drop_last(), fromp, top, cap, mover) + after_one(
            board.last(),
            fromp,
            top,
            cap,
            mover,
        )
    }
}

/// The board after `p` moves to `to`, captures included.
pub open spec fn board_after_move(
    board: Seq<Piece>,
    history: Seq<Move>,
    p: Piece,
    to: Position,
) -> Seq<Piece> {
    board_after(board, p.pos, to, ep_capture_square(p, to, history), p.color)
}

/// Some piece of color `c` reaches `m` among its pseudo-legal moves.
pub open spec fn square_attacked(
    board: Seq<Piece>,
    history: Seq<Move>,
    c: PieceColor,
    m: Position,
) -> bool {
    exists|i: int|
        0 <= i < board.len() && (#[trigger] board[i]).color == c && generate_moves(
            board,
            history,
            board[i],
        ).contains(m)
}

/// A king of color `c` stands on a square the opposing color attacks.
pub open spec fn color_in_check(board: Seq<Piece>, history: Seq<Move>, c: PieceColor) -> bool {
    exists|i: int|
        0 <= i < board.len() && (#[trigger] board[i]).kind == Kind::King && board[i].color == c
            && square_attacked(board, history, opposite(c), board[i].pos)
}

/// The move leaves the mover's own king out of check on the
/// hypothetical board, the move itself appended to the history.
pub open spec fn keeps_king_safe(
    board: Seq<Piece>,
    history: Seq<Move>,
    p: Piece,
    to: Position,
) -> bool {
    !color_in_check(
        board_after_move(board, history, p, to),
        history.push(Move { piece: p, from: p.pos, to }),
        p.color,
    )
}

/// The subsequence of `cands` that keeps the king of `p`'s side safe,
/// order preserved.
pub open spec fn keep_safe(
    board: Seq<Piece>,
    history: Seq<Move>,
    p: Piece,
    cands: Seq<Position>,
) -> Seq<Position>
    decreases cands.len(),
{
    if cands.len() == 0 {
        Seq::empty()
    } else {
        let rest = keep_safe(board, history, p, cands.drop_last());
        if keeps_king_safe(board, history, p, cands.last()) {
            rest.push(cands.last())
        } else {
            rest
        }
    }
}

/// The piece's legal destinations: its pseudo-legal moves minus those
/// that leave its own king in check, order preserved.
pub open spec fn legal_destinations(board: Seq<Piece>, history: Seq<Move>, p: Piece) -> Seq<
    Position,
> {
    keep_safe(board, history, p, generate_moves(board, history, p))
}

/// Some piece of color `c` has a legal move.
pub open spec fn exists_legal_move(board: Seq<Piece>, history: Seq<Move>, c: PieceColor) -> bool {
    exists|i: int|
        0 <= i < board.len() && (#[trigger] board[i]).color == c && legal_destinations(
            board,
            history,
            board[i],
        ).len() > 0
}

/// Step lemma: the hypothetical board grows pointwise with the board.
proof fn lemma_board_after_push(
    board: Seq<Piece>,
    q: Piece,
    fromp: Position,
    top: Position,
    cap: Option<Position>,
    mover: PieceColor,
)
    ensures
        board_after(board.push(q), fromp, top, cap, mover) == board_after(
            board,
            fromp,
            top,
            cap,
            mover,
        ) + after_one(q, fromp, top, cap, mover),
{
    assert(board.push(q).drop_last() =~= board);
    assert(board.push(q).last() == q);
}

/// The mover's side keeps a king on the hypothetical board: the move
/// never lands on a friendly square, so no friendly piece — the king
/// included — is ever captured, and a moved king is still a king.
proof fn lemma_board_after_has_king(
    board: Seq<Piece>,
    fromp: Position,
    top: Position,
    cap: Option<Position>,
    c: PieceColor,
)
    requires
        has_king(board, c),
        !occupied_by(board, c, top.0 as int, top.1 as int),
    ensures
        has_king(board_after(board, fromp, top, cap, c), c),
    decreases board.len(),
{
    let a = board_after(board, fromp, top, cap, c);
    let q = board.last();
    let b2 = board.drop_last();
    let i = choose|i: int|
        0 <= i < board.len() && (#[trigger] board[i]).kind == Kind::King && board[i].color == c;
    if i == board.len() - 1 {
        // the king is the last piece; it is moved or kept, never
        // captured
        assert(q == board[i]);
        if q.pos == fromp {
            let moved = Piece { pos: top, ..q };
            assert(a[a.len() - 1] == moved);
        } else {
            assert(!(q.pos == top)) by {
                if q.pos == top {
                    assert(occupied_by(board, c, top.0 as int, top.1 as int));
                }
            }
            assert(a[a.len() - 1] == q);
        }
    } else {
        assert(b2[i] == board[i]);
        assert(has_king(b2, c));
        assert(!occupied_by(b2, c, top.0 as int, top.1 as int)) by {
            if occupied_by(b2, c, top.0 as int, top.1 as int) {
                let j = choose|j: int|
                    0 <= j < b2.len() && (#[trigger] b2[j]).pos.0 == top.0 && b2[j].pos.1 == top.1
                        && b2[j].color == c;
                assert(board[j] == b2[j]);
            }
        }
        lemma_board_after_has_king(b2, fromp, top, cap, c);
        let a2 = board_after(b2, fromp, top, cap, c);
        let k = choose|k: int|
            0 <= k < a2.len() && (#[trigger] a2[k]).kind == Kind::King && a2[k].color == c;
        assert(a[k] == a2[k]);
    }
}

/// Positions on the hypothetical board: the destination, or a kept
/// piece's own square, which is neither the origin nor the
/// destination and was occupied before; a piece on the destination
/// comes only out of one on the origin.
proof fn lemma_board_after_positions(
    board: Seq<Piece>,
    fromp: Position,
    top: Position,
    cap: Option<Position>,
    mover: PieceColor,
)
    ensures
        ({
            let a = board_after(board, fromp, top, cap, mover);
            &&& forall|i: int|
                0 <= i < a.len() ==> ((#[trigger] a[i]).pos == top || (a[i].pos != top && a[i].pos
                    != fromp && occupied_at(board, a[i].pos.0 as int, a[i].pos.1 as int)))
            &&& (!occupied_at(board, fromp.0 as int, fromp.1 as int) ==> forall|i: int|
                0 <= i < a.len() ==> (#[trigger] a[i]).pos != top)
        }),
    decreases board.len(),
{
    let a = board_after(board, fromp, top, cap, mover);
    if board.len() == 0 {
    } else {
        let q = board.last();
        let b2 = board.drop_last();
        lemma_board_after_positions(b2, fromp, top, cap, mover);
        let a2 = board_after(b2, fromp, top, cap, mover);
        assert(forall|i: int| 0 <= i < a2.len() ==> a[i] == a2[i]);
        assert(forall|j: int| 0 <= j < b2.len() ==> board[j] == b2[j]);
        assert forall|i: int|
            0 <= i < a.len() implies ((#[trigger] a[i]).pos == top || (a[i].pos != top && a[i].pos
            != fromp && occupied_at(board, a[i].pos.0 as int, a[i].pos.1 as int))) by {
            if i < a2.len() {
                if a2[i].pos != top {
                    assert(occupied_at(b2, a2[i].pos.0 as int, a2[i].pos.1 as int));
                    let j = choose|j: int|
                        0 <= j < b2.len() && (#[trigger] b2[j]).pos.0 == a2[i].pos.0 as int
                            && b2[j].pos.1 == a2[i].pos.1 as int;
                    assert(board[j] == b2[j]);
                }
            } else {
                // the element comes out of the last piece
                assert(board[board.len() - 1] == q);
                if q.pos == fromp {
                    assert(a[i] == Piece { pos: top, ..q });
                } else {
                    assert(a[i] == q);
                }
            }
        }
        if !occupied_at(board, fromp.0 as int, fromp.1 as int) {
            assert(!occupied_at(b2, fromp.0 as int, fromp.1 as int)) by {
                if occupied_at(b2, fromp.0 as int, fromp.1 as int) {
                    let j = choose|j: int|
                        0 <= j < b2.len() && (#[trigger] b2[j]).pos.0 == fromp.0 as int
                            && b2[j].pos.1 == fromp.1 as int;
                    assert(board[j] == b2[j]);
                }
            }
            assert(!(q.pos == fromp)) by {
                if q.pos == fromp {
                    assert(occupied_at(board, fromp.0 as int, fromp.1 as int));
                }
            }
        }
    }
}

/// The hypothetical board keeps the one-piece-per-square invariant:
/// the single piece on the origin is the only one carried to the
/// destination, every piece on the destination is captured, and kept
/// pieces stand where they stood.
proof fn lemma_board_after_distinct(
    board: Seq<Piece>,
    fromp: Position,
    top: Position,
    cap: Option<Position>,
    mover: PieceColor,
)
    requires
        distinct_positions(board),
        fromp != top,
    ensures
        distinct_positions(board_after(board, fromp, top, cap, mover)),
    decreases board.len(),
{
    let a = board_after(board, fromp, top, cap, mover);
    if board.len() == 0 {
    } else {
        let q = board.last();
        let b2 = board.drop_last();
        assert(forall|j: int| 0 <= j < b2.len() ==> board[j] == b2[j]);
        assert(distinct_positions(b2));
        lemma_board_after_distinct(b2, fromp, top, cap, mover);
        lemma_board_after_positions(b2, fromp, top, cap, mover);
        let a2 = board_after(b2, fromp, top, cap, mover);
        assert(forall|i: int| 0 <= i < a2.len() ==> a[i] == a2[i]);
        if a.len() > a2.len() {
            // one element was appended for the last piece; it must not
            // share a square with any earlier element
            let x = a[a.len() - 1];
            assert forall|i: int| 0 <= i < a2.len() implies !((#[trigger] a2[i]).pos.0 == x.pos.0
                && a2[i].pos.1 == x.pos.1) by {
                if a2[i].pos.0 == x.pos.0 && a2[i].pos.1 == x.pos.1 {
                    assert(a2[i].pos == x.pos);
                    if q.pos == fromp {
                        // x is the moved piece, standing on the
                        // destination; but nothing else on b2 comes
                        // from the origin, so nothing in a2 stands
                        // there
                        assert(x.pos == top);
                        assert(!occupied_at(b2, fromp.0 as int, fromp.1 as int)) by {
                            if occupied_at(b2, fromp.0 as int, fromp.1 as int) {
                                let j = choose|j: int|
                                    0 <= j < b2.len() && (#[trigger] b2[j]).pos.0 == fromp.0 as int
                                        && b2[j].pos.1 == fromp.1 as int;
                                assert(board[j] == b2[j]);
                                assert(!(board[j].pos.0 == q.pos.0 && board[j].pos.1 == q.pos.1));
                            }
                        }
                    } else {
                        // x is the kept last piece on its own square;
                        // an earlier element there would trace back to
                        // another piece on the same square
                        assert(x == q);
                        assert(a2[i].pos == q.pos);
                        assert(occupied_at(b2, q.pos.0 as int, q.pos.1 as int));
                        let j = choose|j: int|
                            0 <= j < b2.len() && (#[trigger] b2[j]).pos.0 == q.pos.0 as int
                                && b2[j].pos.1 == q.pos.1 as int;
                        assert(board[j] == b2[j]);
                        assert(!(board[j].pos.0 == q.pos.0 && board[j].pos.1 == q.pos.1));
                    }
                }
            }
        }
    }
}

/// Step lemma for filtering candidates front to back.
proof fn lemma_keep_safe_push(
    board: Seq<Piece>,
    history: Seq<Move>,
    p: Piece,
    cands: Seq<Position>,
    m: Position,
)
    ensures
        keep_safe(board, history, p, cands.push(m)) == if keeps_king_safe(board, history, p, m) {
            keep_safe(board, history, p, cands).push(m)
        } else {
            keep_safe(board, history, p, cands)
        },
{
    assert(cands.push(m).drop_last() =~= cands);
    assert(cands.push(m).last() == m);
}

/// Copy of the history with one move appended.
fn push_history(history: &Vec<Move>, m: Move) -> (res: Vec<Move>)
    ensures
        res@ == history@.push(m),
{
    let mut res: Vec<Move> = Vec::new();
    let n = history.len();
    for i in 0..n
        invariant
            n == history@.len(),
            res@ == history@.take(i as int),
    {
        res.push(history[i]);
        proof {
            assert(history@.take(i + 1) =~= history@.take(i as int).push(history@[i as int]));
        }
    }
    assert(history@.take(n as int) =~= history@);
    res.push(m);
    res
}

/// Build the hypothetical board, mirroring `board_after`.
fn apply_move(
    board: &Vec<Piece>,
    fromp: Position,
    top: Position,
    cap: Option<Position>,
    mover: PieceColor,
) -> (res: Vec<Piece>)
    ensures
        res@ == board_after(board@, fromp, top, cap, mover),
{
    let mut res: Vec<Piece> = Vec::new();
    let n = board.len();
    for i in 0..n
        invariant
            n == board@.len(),
            res@ == board_after(board@.take(i as int), fromp, top, cap, mover),
    {
        let q = board[i];
        let ghost pre = res@;
        if q.pos.0 == fromp.0 && q.pos.1 == fromp.1 {
            assert(q.pos == fromp);
            res.push(Piece { pos: top, ..q });
        } else if q.pos.0 == top.0 && q.pos.1 == top.1 {
            assert(q.pos == top);
        } else {
            let capture_here = match cap {
                Some(cp) => cp.0 == q.pos.0 && cp.1 == q.pos.1 && q.color != mover,
                None => false,
            };
            assert(capture_here == (cap == Some(q.pos) && q.color != mover));
            if !capture_here {
                res.push(q);
            }
        }
        proof {
            assert(res@ =~= pre + after_one(q, fromp, top, cap, mover));
            assert(board@.take(i + 1).drop_last() =~= board@.take(i as int));
            lemma_board_after_push(board@.take(i as int), board@[i as int], fromp, top, cap, mover);
            assert(board@.take(i + 1) =~= board@.take(i as int).push(board@[i as int]));
        }
    }
    proof {
        assert(board@.take(n as int) =~= board@);
    }
    res
}

/// The en passant offset of a proposed move, mirroring `ep_offset`.
fn ep_offset_of(p: &Piece, dest: Position, history: &Vec<Move>) -> (off: i8)
    ensures
        off as int == ep_offset(*p, dest, history@),
{
    if p.kind == Kind::Pawn && history.len() > 0 {
        let lm = &history[history.len() - 1];
        let d: i16 = if matches!(p.color, PieceColor::White) {
            1
        } else {
            -1
        };
        let estart: u8 = if matches!(p.color, PieceColor::White) {
            6
        } else {
            1
        };
        let double_push = lm.piece.kind == Kind::Pawn && lm.piece.color != p.color && lm.from.0
            == lm.to.0 && lm.from.1 == estart && lm.to.1 as i16 == estart as i16 - 2 * d;
        assert(double_push == last_is_enemy_double_push(history@, p.color));
        if double_push && lm.to.0 == dest.0 && dest.1 as i16 == lm.to.1 as i16 + d {
            return if d == 1 {
                -1
            } else {
                1
            };
        }
    }
    0
}

/// True when some piece of color `c` reaches `m`.
fn attacked(board: &Vec<Piece>, history: &Vec<Move>, c: PieceColor, m: Position) -> (b: bool)
    requires
        distinct_positions(board@),
    ensures
        b == square_attacked(board@, history@, c, m),
{
    let n = board.len();
    for i in 0..n
        invariant
            n == board@.len(),
            distinct_positions(board@),
            forall|j: int|
                0 <= j < i ==> !((#[trigger] board@[j]).color == c && generate_moves(
                    board@,
                    history@,
                    board@[j],
                ).contains(m)),
    {
        let p = board[i];
        if p.color == c {
            let mv = p.get_moves(board, history);
            if crate::generate::contains_pos(&mv, m) {
                return true;
            }
        }
    }
    false
}

/// True when the king of `has_color` stands on an attacked square.
/// Requires a king of that color on the board: its absence is a fatal
/// caller-side invariant violation, not a recoverable condition.
pub fn in_check(pieces: &Vec<Piece>, has_color: PieceColor, history: &Vec<Move>) -> (b: bool)
    requires
        distinct_positions(pieces@),
        has_king(pieces@, has_color),
    ensures
        b == color_in_check(pieces@, history@, has_color),
{
    let enemy = if matches!(has_color, PieceColor::White) {
        PieceColor::Black
    } else {
        PieceColor::White
    };
    assert(enemy == opposite(has_color));
    let n = pieces.len();
    for i in 0..n
        invariant
            n == pieces@.len(),
            distinct_positions(pieces@),
            enemy == opposite(has_color),
            forall|j: int|
                0 <= j < i ==> !((#[trigger] pieces@[j]).kind == Kind::King && pieces@[j].color
                    == has_color && square_attacked(
                    pieces@,
                    history@,
                    opposite(has_color),
                    pieces@[j].pos,
                )),
    {
        let p = pieces[i];
        if p.kind == Kind::King && p.color == has_color {
            if attacked(pieces, history, enemy, p.pos) {
                return true;
            }
        }
    }
    false
}

/// True when moving `p` to `to` leaves its own king out of check.
fn move_safe(board: &Vec<Piece>, history: &Vec<Move>, p: &Piece, to: Position) -> (b: bool)
    requires
        distinct_positions(board@),
        board@.contains(*p),
        has_king(board@, p.color),
        !occupied_by(board@, p.color, to.0 as int, to.1 as int),
    ensures
        b == keeps_king_safe(board@, history@, *p, to),
{
    let off = ep_offset_of(p, to, history);
    let cap: Option<Position> = if off != 0 {
        // a nonzero offset only comes with a destination on the rank
        // behind a double push, so the capture rank stays on the board
        assert(to.1 == 5 || to.1 == 2);
        let capr: i16 = to.1 as i16 + off as i16;
        Some((to.0, capr as u8))
    } else {
        None
    };
    assert(cap == ep_capture_square(*p, to, history@));
    let nb = apply_move(board, p.pos, to, cap, p.color);
    proof {
        let idx = choose|idx: int| 0 <= idx < board@.len() && board@[idx] == *p;
        assert(occupied_by(board@, p.color, p.pos.0 as int, p.pos.1 as int));
        assert(p.pos != to);
        lemma_board_after_distinct(board@, p.pos, to, cap, p.color);
        lemma_board_after_has_king(board@, p.pos, to, cap, p.color);
    }
    let nh = push_history(history, Move { piece: *p, from: p.pos, to });
    let chk = in_check(&nb, p.color, &nh);
    !chk
}

impl Piece {
    /// This piece's legal destinations: its pseudo-legal moves with
    /// every move removed that would leave its own king attacked on
    /// the board the move produces. Order is inherited from
    /// `get_moves`.
    pub fn legal_moves(&self, pieces: &Vec<Piece>, history: &Vec<Move>) -> (res: Vec<Position>)
        requires
            distinct_positions(pieces@),
            pieces@.contains(*self),
            has_king(pieces@, self.color),
        ensures
            res@ == legal_destinations(pieces@, history@, *self),
    {
        let cands = self.get_moves(pieces, history);
        proof {
            lemma_generate_moves_props(pieces@, history@, *self);
        }
        let mut res: Vec<Position> = Vec::new();
        let n = cands.len();
        for i in 0..n
            invariant
                n == cands@.len(),
                distinct_positions(pieces@),
                pieces@.contains(*self),
                has_king(pieces@, self.color),
                cands@ == generate_moves(pieces@, history@, *self),
                forall|k: int|
                    0 <= k < cands@.len() ==> {
                        let m = #[trigger] cands@[k];
                        !occupied_by(pieces@, self.color, m.0 as int, m.1 as int)
                    },
                res@ == keep_safe(pieces@, history@, *self, cands@.take(i as int)),
        {
            let m = cands[i];
            assert(cands@[i as int] == m);
            if move_safe(pieces, history, self, m) {
                res.push(m);
            }
            proof {
                assert(cands@.take(i + 1).drop_last() =~= cands@.take(i as int));
                assert(cands@.take(i + 1) =~= cands@.take(i as int).push(m));
                lemma_keep_safe_push(pieces@, history@, *self, cands@.take(i as int), m);
            }
        }
        proof {
            assert(cands@.take(n as int) =~= cands@);
        }
        res
    }

    /// Whether this piece may move to `pos`, by membership in its
    /// generated move sequence, paired with the move's en passant
    /// offset: 0 for an ordinary move, otherwise where the captured
    /// pawn stands relative to the destination.
    pub fn is_move_valid(
        &self,
        pos: Position,
        pieces: &Vec<Piece>,
        game_history: &Vec<Move>,
    ) -> (res: (bool, i8))
        requires
            distinct_positions(pieces@),
        ensures
            res.0 == generate_moves(pieces@, game_history@, *self).contains(pos),
            res.1 as int == ep_offset(*self, pos, game_history@),
    {
        let moves = self.get_moves(pieces, game_history);
        let legal = crate::generate::contains_pos(&moves, pos);
        let off = ep_offset_of(self, pos, game_history);
        (legal, off)
    }
}

/// True when no piece of `color` has a legal move.
fn no_legal_move(pieces: &Vec<Piece>, color: PieceColor, history: &Vec<Move>) -> (b: bool)
    requires
        distinct_positions(pieces@),
        has_king(pieces@, color),
    ensures
        b == !exists_legal_move(pieces@, history@, color),
{
    let n = pieces.len();
    for i in 0..n
        invariant
            n == pieces@.len(),
            distinct_positions(pieces@),
            has_king(pieces@, color),
            forall|j: int|
                0 <= j < i ==> !((#[trigger] pieces@[j]).color == color && legal_destinations(
                    pieces@,
                    history@,
                    pieces@[j],
                ).len() > 0),
    {
        let p = pieces[i];
        if p.color == color {
            assert(pieces@.contains(pieces@[i as int]));
            let mv = p.legal_moves(pieces, history);
            if mv.len() > 0 {
                return false;
            }
        }
    }
    true
}

/// True when `color` is checkmated: in check with no legal move for
/// any of its pieces. Terminal: the game ends here.
pub fn is_checkmate(pieces: &Vec<Piece>, color: PieceColor, history: &Vec<Move>) -> (b: bool)
    requires
        distinct_positions(pieces@),
        has_king(pieces@, color),
    ensures
        b == (color_in_check(pieces@, history@, color) && !exists_legal_move(
            pieces@,
            history@,
            color,
        )),
{
    if !in_check(pieces, color, history) {
        return false;
    }
    no_legal_move(pieces, color, history)
}

/// True when `color` is stalemated: not in check, yet no legal move
/// exists for any of its pieces. Terminal: the game ends here.
pub fn is_stalemate(pieces: &Vec<Piece>, color: PieceColor, history: &Vec<Move>) -> (b: bool)
    requires
        distinct_positions(pieces@),
        has_king(pieces@, color),
    ensures
        b == (!color_in_check(pieces@, history@, color) && !exists_legal_move(
            pieces@,
            history@,
            color,
        )),
{
    if in_check(pieces, color, history) {
        return false;
    }
    no_legal_move(pieces, color, history)
}

/// A square is kept by the safety filter exactly when the candidates
/// list it and the move keeps the king safe.
proof fn lemma_keep_safe_membership(
    board: Seq<Piece>,
    history: Seq<Move>,
    p: Piece,
    cands: Seq<Position>,
    m: Position,
)
    ensures
        keep_safe(board, history, p, cands).contains(m) <==> (cands.contains(m) && keeps_king_safe(
            board,
            history,
            p,
            m,
        )),
    decreases cands.len(),
{
    let kept = keep_safe(board, history, p, cands);
    if cands.len() == 0 {
    } else {
        let prefix = cands.drop_last();
        let last = cands.last();
        lemma_keep_safe_membership(board, history, p, prefix, m);
        let rest = keep_safe(board, history, p, prefix);
        if kept.contains(m) {
            let k = choose|k: int| 0 <= k < kept.len() && kept[k] == m;
            if k < rest.len() {
                assert(rest[k] == m);
                assert(rest.contains(m));
                let j = choose|j: int| 0 <= j < prefix.len() && prefix[j] == m;
                assert(cands[j] == m);
            } else {
                assert(m == last);
            }
            assert(cands.contains(m)) by {
                if m == last {
                    assert(cands[cands.len() - 1] == m);
                }
            }
        }
        if cands.contains(m) && keeps_king_safe(board, history, p, m) {
            let j = choose|j: int| 0 <= j < cands.len() && cands[j] == m;
            if j < cands.len() - 1 {
                assert(prefix[j] == m);
                assert(prefix.contains(m));
                let k = choose|k: int| 0 <= k < rest.len() && rest[k] == m;
                assert(kept[k] == m);
            } else {
                assert(m == last);
                assert(kept[kept.len() - 1] == m);
            }
        }
    }
}

/// The legal destinations are exactly the generated moves that leave
/// the mover's own king out of check, order preserved from the
/// generator.
pub proof fn lemma_legal_destinations_membership(
    board: Seq<Piece>,
    history: Seq<Move>,
    p: Piece,
    m: Position,
)
    ensures
        legal_destinations(board, history, p).contains(m) <==> (generate_moves(
            board,
            history,
            p,
        ).contains(m) && keeps_king_safe(board, history, p, m)),
{
    lemma_keep_safe_membership(board, history, p, generate_moves(board, history, p), m);
}

/// Checkmate holds of a side exactly when it is in check and every
/// one of its pieces has an empty legal-move sequence; a single piece
/// with a nonempty legal-move sequence refutes it.
pub proof fn lemma_checkmate_characterization(board: Seq<Piece>, history: Seq<Move>, c: PieceColor)
    ensures
        (color_in_check(board, history, c) && (forall|i: int|
            0 <= i < board.len() && (#[trigger] board[i]).color == c ==> legal_destinations(
                board,
                history,
                board[i],
            ).len() == 0)) <==> (color_in_check(board, history, c) && !exists_legal_move(
            board,
            history,
            c,
        )),
{
}

} // verus!
