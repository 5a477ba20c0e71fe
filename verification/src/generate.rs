//! Pseudo-legal move generation: for a piece, a board snapshot and a
//! move history, the ordered sequence of squares the piece could move
//! to, ignoring whether its own king is left in check.
//!
//! Output order is fixed so that identical inputs always yield
//! identical sequences:
//! - sliding pieces walk each ray outward, rays ordered right, left,
//!   up, down, up-right, down-right, up-left, down-left (queen: all
//!   eight; rook: the first four; bishop: the last four);
//! - the knight uses its fixed eight-offset jump table;
//! - the king scans its eight neighbors row-major (file delta outer,
//!   rank delta inner), then drops squares covered by an enemy
//!   non-king piece;
//! - the pawn offers the single push, the double push, the two
//!   diagonal captures, then en passant.

use vstd::prelude::*;

use crate::piece::{Kind, Move, Piece, PieceColor, Position};
use crate::piece::{distinct_positions, occupied_at, occupied_by, on_board, opposite};

verus! {

/// Squares reachable along one ray: starting beside (f, r) and walking
/// one step (df, dr) at a time, every empty square until the board
/// edge, a blocking square included exactly when an enemy piece holds
/// it. `fuel` bounds the walk; 8 steps cross the whole board.
pub open spec fn ray_moves(
    board: Seq<Piece>,
    c: PieceColor,
    f: int,
    r: int,
    df: int,
    dr: int,
    fuel: nat,
) -> Seq<Position>
    decreases fuel,
{
    if fuel == 0 {
        Seq::empty()
    } else {
        let nf = f + df;
        let nr = r + dr;
        if !on_board(nf, nr) {
            Seq::empty()
        } else if occupied_at(board, nf, nr) {
            if occupied_by(board, opposite(c), nf, nr) {
                seq![(nf as u8, nr as u8)]
            } else {
                Seq::empty()
            }
        } else {
            seq![(nf as u8, nr as u8)] + ray_moves(board, c, nf, nr, df, dr, (fuel - 1) as nat)
        }
    }
}

/// A sliding ray is a contiguous outward walk that never passes the
/// first occupied square it meets: every listed square but the last is
/// empty; an occupied last square holds an enemy piece; and the walk
/// stops early only after capturing, at the board edge, or before a
/// friendly piece.
pub proof fn lemma_ray_first_blocker(
    board: Seq<Piece>,
    c: PieceColor,
    f: int,
    r: int,
    df: int,
    dr: int,
    fuel: nat,
)
    ensures
        ({
            let s = ray_moves(board, c, f, r, df, dr, fuel);
            &&& s.len() <= fuel
            &&& (s.len() > 0 ==> s[0].0 == f + df && s[0].1 == r + dr)
            &&& forall|k: int|
                0 <= k < s.len() - 1 ==> (#[trigger] s[k + 1]).0 == s[k].0 + df && s[k + 1].1
                    == s[k].1 + dr
            &&& forall|k: int|
                0 <= k < s.len() ==> on_board((#[trigger] s[k]).0 as int, s[k].1 as int)
            &&& forall|k: int|
                0 <= k < s.len() - 1 ==> !occupied_at(
                    board,
                    (#[trigger] s[k]).0 as int,
                    s[k].1 as int,
                )
            &&& (s.len() > 0 && occupied_at(board, s.last().0 as int, s.last().1 as int)
                ==> occupied_by(board, opposite(c), s.last().0 as int, s.last().1 as int))
            &&& (s.len() < fuel ==> {
                let ef = if s.len() == 0 {
                    f + df
                } else {
                    s.last().0 + df
                };
                let er = if s.len() == 0 {
                    r + dr
                } else {
                    s.last().1 + dr
                };
                ||| (s.len() > 0 && occupied_at(board, s.last().0 as int, s.last().1 as int))
                ||| !on_board(ef, er)
                ||| occupied_by(board, c, ef, er)
            })
        }),
    decreases fuel,
{
    let s = ray_moves(board, c, f, r, df, dr, fuel);
    if fuel == 0 {
    } else {
        let nf = f + df;
        let nr = r + dr;
        if !on_board(nf, nr) {
        } else if occupied_at(board, nf, nr) {
            if !occupied_by(board, opposite(c), nf, nr) {
                // the blocker is friendly: its witness has some color,
                // and that color is not the enemy's
                let i = choose|i: int|
                    0 <= i < board.len() && (#[trigger] board[i]).pos.0 == nf && board[i].pos.1
                        == nr;
                assert(board[i].color == c || board[i].color == opposite(c));
                assert(occupied_by(board, c, nf, nr));
            }
        } else {
            let rest = ray_moves(board, c, nf, nr, df, dr, (fuel - 1) as nat);
            lemma_ray_first_blocker(board, c, nf, nr, df, dr, (fuel - 1) as nat);
            assert(s == seq![(nf as u8, nr as u8)] + rest);
            assert(s[0] == (nf as u8, nr as u8));
            assert(forall|k: int| 1 <= k < s.len() ==> s[k] == rest[k - 1]);
            assert forall|k: int| 0 <= k < s.len() - 1 implies (#[trigger] s[k + 1]).0 == s[k].0
                + df && s[k + 1].1 == s[k].1 + dr by {
                if k == 0 {
                    assert(s[1] == rest[0]);
                } else {
                    assert(s[k + 1] == rest[k]);
                    assert(s[k] == rest[k - 1]);
                    assert(rest[(k - 1) + 1] == rest[k]);
                }
            }
            assert(!occupied_by(board, opposite(c), nf, nr)) by {
                if occupied_by(board, opposite(c), nf, nr) {
                    assert(occupied_at(board, nf, nr));
                }
            }
        }
    }
}

/// One jump candidate for a knight or a king: the square (f+df, r+dr)
/// if it lies on the board and holds no friendly piece.
pub open spec fn jump_cand(
    board: Seq<Piece>,
    c: PieceColor,
    f: int,
    r: int,
    df: int,
    dr: int,
) -> Seq<Position> {
    let nf = f + df;
    let nr = r + dr;
    if on_board(nf, nr) && !occupied_by(board, c, nf, nr) {
        seq![(nf as u8, nr as u8)]
    } else {
        Seq::empty()
    }
}

/// The knight's jump table, in its fixed order. No ray blocking
/// applies: a candidate is kept unless off-board or friendly-occupied.
pub open spec fn knight_moves(board: Seq<Piece>, c: PieceColor, f: int, r: int) -> Seq<Position> {
    jump_cand(board, c, f, r, -2, 1) + jump_cand(board, c, f, r, -2, -1) + jump_cand(
        board,
        c,
        f,
        r,
        2,
        1,
    ) + jump_cand(board, c, f, r, 2, -1) + jump_cand(board, c, f, r, -1, 2) + jump_cand(
        board,
        c,
        f,
        r,
        -1,
        -2,
    ) + jump_cand(board, c, f, r, 1, 2) + jump_cand(board, c, f, r, 1, -2)
}

/// The king's eight neighbor candidates in row-major scan order (file
/// delta outer, rank delta inner), the zero offset excluded.
pub open spec fn king_steps(board: Seq<Piece>, c: PieceColor, f: int, r: int) -> Seq<Position> {
    jump_cand(board, c, f, r, -1, -1) + jump_cand(board, c, f, r, -1, 0) + jump_cand(
        board,
        c,
        f,
        r,
        -1,
        1,
    ) + jump_cand(board, c, f, r, 0, -1) + jump_cand(board, c, f, r, 0, 1) + jump_cand(
        board,
        c,
        f,
        r,
        1,
        -1,
    ) + jump_cand(board, c, f, r, 1, 0) + jump_cand(board, c, f, r, 1, 1)
}

/// The square `m` is covered by some piece of color `c` other than a
/// king: it appears among that piece's pseudo-legal moves. Used to
/// keep the king off covered squares without the two kings' attack
/// sets recursing into each other.
pub open spec fn covered_by_nonking(
    board: Seq<Piece>,
    history: Seq<Move>,
    c: PieceColor,
    m: Position,
) -> bool {
    exists|i: int|
        0 <= i < board.len() && (#[trigger] board[i]).color == c && board[i].kind != Kind::King
            && nonking_moves(board, history, board[i]).contains(m)
}

/// The subsequence of `cands` whose squares no piece of color `c`
/// (king aside) covers, order preserved.
pub open spec fn keep_uncovered(
    board: Seq<Piece>,
    history: Seq<Move>,
    c: PieceColor,
    cands: Seq<Position>,
) -> Seq<Position>
    decreases cands.len(),
{
    if cands.len() == 0 {
        Seq::empty()
    } else {
        let rest = keep_uncovered(board, history, c, cands.drop_last());
        if covered_by_nonking(board, history, c, cands.last()) {
            rest
        } else {
            rest.push(cands.last())
        }
    }
}

/// The king's pseudo-legal moves: the neighbor candidates minus every
/// square covered by an enemy non-king piece.
pub open spec fn king_moves(board: Seq<Piece>, history: Seq<Move>, p: Piece) -> Seq<Position> {
    keep_uncovered(
        board,
        history,
        opposite(p.color),
        king_steps(board, p.color, p.pos.0 as int, p.pos.1 as int),
    )
}

/// The pawn's single forward push: the square directly ahead when it
/// is on the board and empty. White advances toward increasing rank,
/// Black toward decreasing rank.
pub open spec fn pawn_single(board: Seq<Piece>, p: Piece) -> Seq<Position> {
    let f = p.pos.0 as int;
    let nr = p.pos.1 as int + pawn_dir(p.color);
    if on_board(f, nr) && !occupied_at(board, f, nr) {
        seq![(f as u8, nr as u8)]
    } else {
        Seq::empty()
    }
}

/// +1 for White, -1 for Black: the direction a pawn advances in.
pub open spec fn pawn_dir(c: PieceColor) -> int {
    match c {
        PieceColor::White => 1,
        PieceColor::Black => -1,
    }
}

/// The pawn's double push: from the side's starting rank (1 for White,
/// 6 for Black), two squares ahead, only when both the intermediate
/// and the destination square are empty.
pub open spec fn pawn_double(board: Seq<Piece>, p: Piece) -> Seq<Position> {
    let f = p.pos.0 as int;
    let r = p.pos.1 as int;
    let d = pawn_dir(p.color);
    let start: int = if p.color == PieceColor::White {
        1
    } else {
        6
    };
    if r == start && on_board(f, r + 2 * d) && !occupied_at(board, f, r + d) && !occupied_at(
        board,
        f,
        r + 2 * d,
    ) {
        seq![(f as u8, (r + 2 * d) as u8)]
    } else {
        Seq::empty()
    }
}

/// A pawn's diagonal capture toward file delta `df` (-1 or 1): the
/// forward-diagonal square when it lies on the board and an enemy
/// piece holds it.
pub open spec fn pawn_capture(board: Seq<Piece>, p: Piece, df: int) -> Seq<Position> {
    let nf = p.pos.0 as int + df;
    let nr = p.pos.1 as int + pawn_dir(p.color);
    if on_board(nf, nr) && occupied_by(board, opposite(p.color), nf, nr) {
        seq![(nf as u8, nr as u8)]
    } else {
        Seq::empty()
    }
}

/// The last history entry records an enemy pawn's double push: an
/// enemy pawn moved two ranks straight ahead from its starting rank.
/// All en passant eligibility is derived from the history alone.
pub open spec fn last_is_enemy_double_push(history: Seq<Move>, c: PieceColor) -> bool {
    let start: int = if c == PieceColor::White {
        6
    } else {
        1
    };
    &&& history.len() > 0
    &&& history.last().piece.kind == Kind::Pawn
    &&& history.last().piece.color == opposite(c)
    &&& history.last().from.0 == history.last().to.0
    &&& history.last().from.1 == start
    &&& history.last().to.1 == start + 2 * pawn_dir(opposite(c))
}

/// The pawn's en passant destination: when the immediately preceding
/// move was an enemy pawn's double push landing beside this pawn (same
/// rank, adjacent file), the empty square the enemy pawn skipped.
pub open spec fn pawn_en_passant(board: Seq<Piece>, history: Seq<Move>, p: Piece) -> Seq<Position> {
    let f = p.pos.0 as int;
    let r = p.pos.1 as int;
    let d = pawn_dir(p.color);
    let lf = history.last().to.0 as int;
    if last_is_enemy_double_push(history, p.color) && r == history.last().to.1 as int && (lf == f
        - 1 || lf == f + 1) && on_board(lf, r + d) && !occupied_at(board, lf, r + d) {
        seq![(lf as u8, (r + d) as u8)]
    } else {
        Seq::empty()
    }
}

/// All pawn moves, in order: single push, double push, capture toward
/// the lower file, capture toward the higher file, en passant.
pub open spec fn pawn_moves(board: Seq<Piece>, history: Seq<Move>, p: Piece) -> Seq<Position> {
    pawn_single(board, p) + pawn_double(board, p) + pawn_capture(board, p, -1) + pawn_capture(
        board,
        p,
        1,
    ) + pawn_en_passant(board, history, p)
}

/// Pseudo-legal moves of a non-king piece.
pub open spec fn nonking_moves(board: Seq<Piece>, history: Seq<Move>, p: Piece) -> Seq<Position> {
    let f = p.pos.0 as int;
    let r = p.pos.1 as int;
    let c = p.color;
    match p.kind {
        Kind::Queen => sliding_axis_moves(board, c, f, r) + sliding_diagonal_moves(board, c, f, r),
        Kind::Rook => sliding_axis_moves(board, c, f, r),
        Kind::Bishop => sliding_diagonal_moves(board, c, f, r),
        Kind::Knight => knight_moves(board, c, f, r),
        Kind::Pawn => pawn_moves(board, history, p),
        Kind::King => Seq::empty(),
    }
}

/// The four axis rays in order: right, left, up, down.
pub open spec fn sliding_axis_moves(board: Seq<Piece>, c: PieceColor, f: int, r: int) -> Seq<
    Position,
> {
    ray_moves(board, c, f, r, 1, 0, 8) + ray_moves(board, c, f, r, -1, 0, 8) + ray_moves(
        board,
        c,
        f,
        r,
        0,
        1,
        8,
    ) + ray_moves(board, c, f, r, 0, -1, 8)
}

/// The four diagonal rays in order: up-right, down-right, up-left,
/// down-left.
pub open spec fn sliding_diagonal_moves(board: Seq<Piece>, c: PieceColor, f: int, r: int) -> Seq<
    Position,
> {
    ray_moves(board, c, f, r, 1, 1, 8) + ray_moves(board, c, f, r, 1, -1, 8) + ray_moves(
        board,
        c,
        f,
        r,
        -1,
        1,
        8,
    ) + ray_moves(board, c, f, r, -1, -1, 8)
}

/// The piece's full pseudo-legal move sequence. This is the value
/// `Piece::get_moves` computes; it depends on nothing but the piece,
/// the board snapshot and the history.
pub open spec fn generate_moves(board: Seq<Piece>, history: Seq<Move>, p: Piece) -> Seq<Position> {
    if p.kind == Kind::King {
        king_moves(board, history, p)
    } else {
        nonking_moves(board, history, p)
    }
}

/// A square listed by a ray lies on the board and holds no piece of
/// the moving color.
proof fn lemma_ray_props(
    board: Seq<Piece>,
    c: PieceColor,
    f: int,
    r: int,
    df: int,
    dr: int,
    fuel: nat,
)
    requires
        distinct_positions(board),
    ensures
        forall|k: int|
            0 <= k < ray_moves(board, c, f, r, df, dr, fuel).len() ==> {
                let m = #[trigger] ray_moves(board, c, f, r, df, dr, fuel)[k];
                on_board(m.0 as int, m.1 as int) && !occupied_by(board, c, m.0 as int, m.1 as int)
            },
{
    lemma_ray_first_blocker(board, c, f, r, df, dr, fuel);
    let s = ray_moves(board, c, f, r, df, dr, fuel);
    assert forall|k: int| 0 <= k < s.len() implies {
        let m = #[trigger] s[k];
        on_board(m.0 as int, m.1 as int) && !occupied_by(board, c, m.0 as int, m.1 as int)
    } by {
        let m = s[k];
        if k < s.len() - 1 {
            if occupied_by(board, c, m.0 as int, m.1 as int) {
                assert(occupied_at(board, m.0 as int, m.1 as int));
            }
        } else {
            assert(m == s.last());
            if occupied_at(board, m.0 as int, m.1 as int) {
                if occupied_by(board, c, m.0 as int, m.1 as int) {
                    crate::piece::lemma_one_color_per_square(
                        board,
                        c,
                        opposite(c),
                        m.0 as int,
                        m.1 as int,
                    );
                }
            } else {
                if occupied_by(board, c, m.0 as int, m.1 as int) {
                    assert(occupied_at(board, m.0 as int, m.1 as int));
                }
            }
        }
    }
}

/// Every square `keep_uncovered` keeps comes from the candidate list.
proof fn lemma_keep_uncovered_subset(
    board: Seq<Piece>,
    history: Seq<Move>,
    c: PieceColor,
    cands: Seq<Position>,
)
    ensures
        forall|k: int|
            0 <= k < keep_uncovered(board, history, c, cands).len() ==> cands.contains(
                #[trigger] keep_uncovered(board, history, c, cands)[k],
            ),
    decreases cands.len(),
{
    if cands.len() == 0 {
    } else {
        lemma_keep_uncovered_subset(board, history, c, cands.drop_last());
        let rest = keep_uncovered(board, history, c, cands.drop_last());
        assert forall|k: int| 0 <= k < rest.len() implies cands.contains(rest[k]) by {
            let j = choose|j: int| 0 <= j < cands.drop_last().len() && cands.drop_last()[j]
                == rest[k];
            assert(cands[j] == rest[k]);
        }
        assert(cands.contains(cands.last()));
    }
}

/// An axis-ray destination lies on the board and holds no friendly
/// piece.
proof fn lemma_axis_props(board: Seq<Piece>, c: PieceColor, f: int, r: int, k: int)
    requires
        distinct_positions(board),
        0 <= k < sliding_axis_moves(board, c, f, r).len(),
    ensures
        ({
            let m = sliding_axis_moves(board, c, f, r)[k];
            on_board(m.0 as int, m.1 as int) && !occupied_by(board, c, m.0 as int, m.1 as int)
        }),
{
    lemma_ray_props(board, c, f, r, 1, 0, 8);
    lemma_ray_props(board, c, f, r, -1, 0, 8);
    lemma_ray_props(board, c, f, r, 0, 1, 8);
    lemma_ray_props(board, c, f, r, 0, -1, 8);
}

/// A diagonal-ray destination lies on the board and holds no friendly
/// piece.
proof fn lemma_diagonal_props(board: Seq<Piece>, c: PieceColor, f: int, r: int, k: int)
    requires
        distinct_positions(board),
        0 <= k < sliding_diagonal_moves(board, c, f, r).len(),
    ensures
        ({
            let m = sliding_diagonal_moves(board, c, f, r)[k];
            on_board(m.0 as int, m.1 as int) && !occupied_by(board, c, m.0 as int, m.1 as int)
        }),
{
    lemma_ray_props(board, c, f, r, 1, 1, 8);
    lemma_ray_props(board, c, f, r, 1, -1, 8);
    lemma_ray_props(board, c, f, r, -1, 1, 8);
    lemma_ray_props(board, c, f, r, -1, -1, 8);
}

/// A knight destination lies on the board and holds no friendly
/// piece.
#[verifier::rlimit(30)]
proof fn lemma_knight_props(board: Seq<Piece>, c: PieceColor, f: int, r: int, k: int)
    requires
        distinct_positions(board),
        0 <= k < knight_moves(board, c, f, r).len(),
    ensures
        ({
            let m = knight_moves(board, c, f, r)[k];
            on_board(m.0 as int, m.1 as int) && !occupied_by(board, c, m.0 as int, m.1 as int)
        }),
{
}

/// A king-step candidate lies on the board and holds no friendly
/// piece.
#[verifier::rlimit(30)]
proof fn lemma_king_steps_props(board: Seq<Piece>, c: PieceColor, f: int, r: int, k: int)
    requires
        distinct_positions(board),
        0 <= k < king_steps(board, c, f, r).len(),
    ensures
        ({
            let m = king_steps(board, c, f, r)[k];
            on_board(m.0 as int, m.1 as int) && !occupied_by(board, c, m.0 as int, m.1 as int)
        }),
{
}

/// Every pseudo-legal destination lies on the board and holds no
/// friendly piece: a computed coordinate outside the 8x8 board is
/// always discarded, and a piece never moves onto its own side.
pub proof fn lemma_generate_moves_props(board: Seq<Piece>, history: Seq<Move>, p: Piece)
    requires
        distinct_positions(board),
    ensures
        forall|k: int|
            0 <= k < generate_moves(board, history, p).len() ==> {
                let m = #[trigger] generate_moves(board, history, p)[k];
                on_board(m.0 as int, m.1 as int) && !occupied_by(
                    board,
                    p.color,
                    m.0 as int,
                    m.1 as int,
                )
            },
{
    let f = p.pos.0 as int;
    let r = p.pos.1 as int;
    let c = p.color;
    let s = generate_moves(board, history, p);
    assert forall|k: int| 0 <= k < s.len() implies {
        let m = #[trigger] s[k];
        on_board(m.0 as int, m.1 as int) && !occupied_by(board, c, m.0 as int, m.1 as int)
    } by {
        let m = s[k];
        match p.kind {
            Kind::Queen => {
                let a = sliding_axis_moves(board, c, f, r);
                if k < a.len() {
                    lemma_axis_props(board, c, f, r, k);
                } else {
                    lemma_diagonal_props(board, c, f, r, k - a.len());
                }
            },
            Kind::Rook => {
                lemma_axis_props(board, c, f, r, k);
            },
            Kind::Bishop => {
                lemma_diagonal_props(board, c, f, r, k);
            },
            Kind::Knight => {
                lemma_knight_props(board, c, f, r, k);
            },
            Kind::Pawn => {
                lemma_pawn_props(board, history, p, k);
            },
            Kind::King => {
                lemma_keep_uncovered_subset(
                    board,
                    history,
                    opposite(c),
                    king_steps(board, c, f, r),
                );
                let steps = king_steps(board, c, f, r);
                assert(steps.contains(m));
                let j = choose|j: int| 0 <= j < steps.len() && steps[j] == m;
                lemma_king_steps_props(board, c, f, r, j);
            },
        }
    }
}

/// A pawn destination lies on the board and holds no friendly piece.
proof fn lemma_pawn_props(board: Seq<Piece>, history: Seq<Move>, p: Piece, k: int)
    requires
        distinct_positions(board),
        p.kind == Kind::Pawn,
        0 <= k < pawn_moves(board, history, p).len(),
    ensures
        ({
            let m = pawn_moves(board, history, p)[k];
            on_board(m.0 as int, m.1 as int) && !occupied_by(board, p.color, m.0 as int, m.1 as int)
        }),
{
    let m = pawn_moves(board, history, p)[k];
    let c = p.color;
    if occupied_by(board, c, m.0 as int, m.1 as int) {
        assert(occupied_at(board, m.0 as int, m.1 as int));
        // the only component that allows an occupied destination is a
        // diagonal capture, and it demands the enemy's color there
        assert(occupied_by(board, opposite(c), m.0 as int, m.1 as int));
        crate::piece::lemma_one_color_per_square(board, c, opposite(c), m.0 as int, m.1 as int);
    }
}

/// The color of the piece standing on (f, r), if any. On a board with
/// duplicate squares the scan reports one of the occupants.
fn occupant(board: &Vec<Piece>, f: u8, r: u8) -> (res: Option<PieceColor>)
    ensures
        match res {
            Some(c) => occupied_by(board@, c, f as int, r as int),
            None => !occupied_at(board@, f as int, r as int),
        },
{
    let n = board.len();
    for i in 0..n
        invariant
            n == board@.len(),
            forall|j: int|
                0 <= j < i ==> !((#[trigger] board@[j]).pos.0 == f && board@[j].pos.1 == r),
    {
        if board[i].pos.0 == f && board[i].pos.1 == r {
            return Some(board[i].color);
        }
    }
    None
}

/// Walk one ray, collecting the squares `ray_moves` describes.
fn ray(board: &Vec<Piece>, c: PieceColor, f: u8, r: u8, df: i8, dr: i8, fuel: u8) -> (res: Vec<
    Position,
>)
    requires
        distinct_positions(board@),
        -1 <= df <= 1,
        -1 <= dr <= 1,
    ensures
        res@ == ray_moves(board@, c, f as int, r as int, df as int, dr as int, fuel as nat),
    decreases fuel,
{
    let mut res: Vec<Position> = Vec::new();
    if fuel == 0 {
        return res;
    }
    let nf: i16 = f as i16 + df as i16;
    let nr: i16 = r as i16 + dr as i16;
    if nf < 0 || nf > 7 || nr < 0 || nr > 7 {
        return res;
    }
    let nfu: u8 = nf as u8;
    let nru: u8 = nr as u8;
    match occupant(board, nfu, nru) {
        Some(oc) => {
            if oc != c {
                res.push((nfu, nru));
            } else {
                proof {
                    if occupied_by(board@, opposite(c), nf as int, nr as int) {
                        crate::piece::lemma_one_color_per_square(
                            board@,
                            c,
                            opposite(c),
                            nf as int,
                            nr as int,
                        );
                    }
                }
            }
        },
        None => {
            res.push((nfu, nru));
            let mut rest = ray(board, c, nfu, nru, df, dr, fuel - 1);
            res.append(&mut rest);
        },
    }
    res
}

/// Append the jump candidate for offset (df, dr), if any.
fn push_jump(
    res: &mut Vec<Position>,
    board: &Vec<Piece>,
    c: PieceColor,
    f: u8,
    r: u8,
    df: i8,
    dr: i8,
)
    requires
        distinct_positions(board@),
        -2 <= df <= 2,
        -2 <= dr <= 2,
    ensures
        final(res)@ == old(res)@ + jump_cand(board@, c, f as int, r as int, df as int, dr as int),
{
    let nf: i16 = f as i16 + df as i16;
    let nr: i16 = r as i16 + dr as i16;
    if nf < 0 || nf > 7 || nr < 0 || nr > 7 {
        assert(res@ =~= res@ + jump_cand(board@, c, f as int, r as int, df as int, dr as int));
        return ;
    }
    let nfu: u8 = nf as u8;
    let nru: u8 = nr as u8;
    let ghost pre = res@;
    match occupant(board, nfu, nru) {
        Some(oc) => {
            if oc != c {
                proof {
                    if occupied_by(board@, c, nf as int, nr as int) {
                        crate::piece::lemma_one_color_per_square(
                            board@,
                            c,
                            oc,
                            nf as int,
                            nr as int,
                        );
                    }
                }
                res.push((nfu, nru));
            } else {
                assert(res@ =~= res@ + jump_cand(
                    board@,
                    c,
                    f as int,
                    r as int,
                    df as int,
                    dr as int,
                ));
            }
        },
        None => {
            res.push((nfu, nru));
        },
    }
    assert(final(res)@ =~= pre + jump_cand(board@, c, f as int, r as int, df as int, dr as int));
}

/// True when `m` occurs in `v`.
pub(crate) fn contains_pos(v: &Vec<Position>, m: Position) -> (b: bool)
    ensures
        b == v@.contains(m),
{
    let n = v.len();
    for i in 0..n
        invariant
            n == v@.len(),
            forall|j: int| 0 <= j < i ==> v@[j] != m,
    {
        if v[i].0 == m.0 && v[i].1 == m.1 {
            assert(v@[i as int] == m);
            return true;
        }
    }
    false
}

/// The knight's moves, mirroring `knight_moves`.
fn moves_knight(board: &Vec<Piece>, c: PieceColor, f: u8, r: u8) -> (res: Vec<Position>)
    requires
        distinct_positions(board@),
    ensures
        res@ == knight_moves(board@, c, f as int, r as int),
{
    let mut res: Vec<Position> = Vec::new();
    push_jump(&mut res, board, c, f, r, -2, 1);
    push_jump(&mut res, board, c, f, r, -2, -1);
    push_jump(&mut res, board, c, f, r, 2, 1);
    push_jump(&mut res, board, c, f, r, 2, -1);
    push_jump(&mut res, board, c, f, r, -1, 2);
    push_jump(&mut res, board, c, f, r, -1, -2);
    push_jump(&mut res, board, c, f, r, 1, 2);
    push_jump(&mut res, board, c, f, r, 1, -2);
    res
}

/// The pawn's moves, mirroring `pawn_moves`.
fn moves_pawn(board: &Vec<Piece>, history: &Vec<Move>, p: &Piece) -> (res: Vec<Position>)
    requires
        distinct_positions(board@),
        p.kind == Kind::Pawn,
    ensures
        res@ == pawn_moves(board@, history@, *p),
{
    let mut res: Vec<Position> = Vec::new();
    let f = p.pos.0;
    let r = p.pos.1;
    let d: i16 = if matches!(p.color, PieceColor::White) {
        1
    } else {
        -1
    };
    assert(d == pawn_dir(p.color));

    // single push
    let nr: i16 = r as i16 + d;
    if f < 8 && 0 <= nr && nr <= 7 {
        if occupant(board, f, nr as u8).is_none() {
            res.push((f, nr as u8));
        }
    }
    assert(res@ =~= pawn_single(board@, *p));

    // double push
    let start: u8 = if matches!(p.color, PieceColor::White) {
        1
    } else {
        6
    };
    let nr2: i16 = r as i16 + 2 * d;
    if r == start && f < 8 && 0 <= nr2 && nr2 <= 7 {
        if occupant(board, f, nr as u8).is_none() && occupant(board, f, nr2 as u8).is_none() {
            res.push((f, nr2 as u8));
        }
    }
    assert(res@ =~= pawn_single(board@, *p) + pawn_double(board@, *p));

    // diagonal captures, lower file first
    let ghost pre_caps = res@;
    push_pawn_capture(&mut res, board, p, -1);
    push_pawn_capture(&mut res, board, p, 1);
    assert(res@ =~= pre_caps + pawn_capture(board@, *p, -1) + pawn_capture(board@, *p, 1));

    // en passant
    let ghost pre_ep = res@;
    if history.len() > 0 {
        let lm = &history[history.len() - 1];
        let estart: u8 = if matches!(p.color, PieceColor::White) {
            6
        } else {
            1
        };
        let double_push = lm.piece.kind == Kind::Pawn && lm.piece.color != p.color && lm.from.0
            == lm.to.0 && lm.from.1 == estart && lm.to.1 as i16 == estart as i16 - 2 * d;
        assert(double_push == last_is_enemy_double_push(history@, p.color));
        let lf = lm.to.0;
        if double_push && r == lm.to.1 && (lf as i16 == f as i16 - 1 || lf as i16 == f as i16 + 1)
            && lf < 8 && 0 <= nr && nr <= 7 {
            if occupant(board, lf, nr as u8).is_none() {
                res.push((lf, nr as u8));
            }
        }
    }
    assert(res@ =~= pre_ep + pawn_en_passant(board@, history@, *p));
    res
}

/// Append the pawn's diagonal capture toward `df`, if any.
fn push_pawn_capture(res: &mut Vec<Position>, board: &Vec<Piece>, p: &Piece, df: i8)
    requires
        distinct_positions(board@),
        p.kind == Kind::Pawn,
        -1 <= df <= 1,
    ensures
        final(res)@ == old(res)@ + pawn_capture(board@, *p, df as int),
{
    let nf: i16 = p.pos.0 as i16 + df as i16;
    let nr: i16 = p.pos.1 as i16 + (if matches!(p.color, PieceColor::White) {
        1
    } else {
        -1
    });
    assert(nr == p.pos.1 + pawn_dir(p.color));
    let ghost pre = res@;
    if 0 <= nf && nf <= 7 && 0 <= nr && nr <= 7 {
        match occupant(board, nf as u8, nr as u8) {
            Some(oc) => {
                if oc != p.color {
                    res.push((nf as u8, nr as u8));
                } else {
                    proof {
                        if occupied_by(board@, opposite(p.color), nf as int, nr as int) {
                            crate::piece::lemma_one_color_per_square(
                                board@,
                                p.color,
                                opposite(p.color),
                                nf as int,
                                nr as int,
                            );
                        }
                    }
                }
            },
            None => {},
        }
    }
    assert(final(res)@ =~= pre + pawn_capture(board@, *p, df as int));
}

/// True when some piece of color `c` other than a king covers `m`.
fn covered(board: &Vec<Piece>, history: &Vec<Move>, c: PieceColor, m: Position) -> (b: bool)
    requires
        distinct_positions(board@),
    ensures
        b == covered_by_nonking(board@, history@, c, m),
{
    let n = board.len();
    for i in 0..n
        invariant
            n == board@.len(),
            distinct_positions(board@),
            forall|j: int|
                0 <= j < i ==> !((#[trigger] board@[j]).color == c && board@[j].kind != Kind::King
                    && nonking_moves(board@, history@, board@[j]).contains(m)),
    {
        let p = board[i];
        if p.color == c && p.kind != Kind::King {
            let mv = moves_nonking(board, history, &p);
            if contains_pos(&mv, m) {
                return true;
            }
        }
    }
    false
}

/// Moves of a non-king piece, mirroring `nonking_moves`.
fn moves_nonking(board: &Vec<Piece>, history: &Vec<Move>, p: &Piece) -> (res: Vec<Position>)
    requires
        distinct_positions(board@),
        p.kind != Kind::King,
    ensures
        res@ == nonking_moves(board@, history@, *p),
{
    let f = p.pos.0;
    let r = p.pos.1;
    let c = p.color;
    match p.kind {
        Kind::Queen => {
            let mut res = ray(board, c, f, r, 1, 0, 8);
            let mut m2 = ray(board, c, f, r, -1, 0, 8);
            let mut m3 = ray(board, c, f, r, 0, 1, 8);
            let mut m4 = ray(board, c, f, r, 0, -1, 8);
            let mut m5 = ray(board, c, f, r, 1, 1, 8);
            let mut m6 = ray(board, c, f, r, 1, -1, 8);
            let mut m7 = ray(board, c, f, r, -1, 1, 8);
            let mut m8 = ray(board, c, f, r, -1, -1, 8);
            res.append(&mut m2);
            res.append(&mut m3);
            res.append(&mut m4);
            res.append(&mut m5);
            res.append(&mut m6);
            res.append(&mut m7);
            res.append(&mut m8);
            res
        },
        Kind::Rook => {
            let mut res = ray(board, c, f, r, 1, 0, 8);
            let mut m2 = ray(board, c, f, r, -1, 0, 8);
            let mut m3 = ray(board, c, f, r, 0, 1, 8);
            let mut m4 = ray(board, c, f, r, 0, -1, 8);
            res.append(&mut m2);
            res.append(&mut m3);
            res.append(&mut m4);
            res
        },
        Kind::Bishop => {
            let mut res = ray(board, c, f, r, 1, 1, 8);
            let mut m2 = ray(board, c, f, r, 1, -1, 8);
            let mut m3 = ray(board, c, f, r, -1, 1, 8);
            let mut m4 = ray(board, c, f, r, -1, -1, 8);
            res.append(&mut m2);
            res.append(&mut m3);
            res.append(&mut m4);
            res
        },
        Kind::Knight => moves_knight(board, c, f, r),
        Kind::Pawn => moves_pawn(board, history, p),
        Kind::King => {
            // unreachable under the precondition
            Vec::new()
        },
    }
}

/// Step lemma for filtering candidates front to back.
proof fn lemma_keep_uncovered_push(
    board: Seq<Piece>,
    history: Seq<Move>,
    c: PieceColor,
    cands: Seq<Position>,
    m: Position,
)
    ensures
        keep_uncovered(board, history, c, cands.push(m)) == if covered_by_nonking(
            board,
            history,
            c,
            m,
        ) {
            keep_uncovered(board, history, c, cands)
        } else {
            keep_uncovered(board, history, c, cands).push(m)
        },
{
    assert(cands.push(m).drop_last() =~= cands);
    assert(cands.push(m).last() == m);
}

/// The king's moves, mirroring `king_moves`.
fn moves_king(board: &Vec<Piece>, history: &Vec<Move>, p: &Piece) -> (res: Vec<Position>)
    requires
        distinct_positions(board@),
    ensures
        res@ == king_moves(board@, history@, *p),
{
    let f = p.pos.0;
    let r = p.pos.1;
    let c = p.color;
    let mut cands: Vec<Position> = Vec::new();
    push_jump(&mut cands, board, c, f, r, -1, -1);
    push_jump(&mut cands, board, c, f, r, -1, 0);
    push_jump(&mut cands, board, c, f, r, -1, 1);
    push_jump(&mut cands, board, c, f, r, 0, -1);
    push_jump(&mut cands, board, c, f, r, 0, 1);
    push_jump(&mut cands, board, c, f, r, 1, -1);
    push_jump(&mut cands, board, c, f, r, 1, 0);
    push_jump(&mut cands, board, c, f, r, 1, 1);
    assert(cands@ == king_steps(board@, c, f as int, r as int));

    let enemy = if matches!(c, PieceColor::White) {
        PieceColor::Black
    } else {
        PieceColor::White
    };
    assert(enemy == opposite(c));
    let mut res: Vec<Position> = Vec::new();
    let n = cands.len();
    for i in 0..n
        invariant
            n == cands@.len(),
            distinct_positions(board@),
            enemy == opposite(c),
            res@ == keep_uncovered(board@, history@, enemy, cands@.take(i as int)),
    {
        let m = cands[i];
        if !covered(board, history, enemy, m) {
            res.push(m);
        }
        proof {
            assert(cands@.take(i + 1).drop_last() =~= cands@.take(i as int));
            assert(cands@.take(i + 1) =~= cands@.take(i as int).push(cands@[i as int]));
            let mi = cands@[i as int];
            lemma_keep_uncovered_push(board@, history@, enemy, cands@.take(i as int), mi);
        }
    }
    assert(cands@.take(n as int) =~= cands@);
    res
}

impl Piece {
    /// All pseudo-legal destinations of this piece on the given board
    /// snapshot with the given history, in the engine's fixed scan
    /// order. Pure: the result depends on nothing but the arguments.
    pub fn get_moves(&self, pieces: &Vec<Piece>, moves: &Vec<Move>) -> (res: Vec<Position>)
        requires
            distinct_positions(pieces@),
        ensures
            res@ == generate_moves(pieces@, moves@, *self),
    {
        if self.kind == Kind::King {
            moves_king(pieces, moves, self)
        } else {
            moves_nonking(pieces, moves, self)
        }
    }
}

} // verus!
