//! Laws the engine satisfies, stated over the same spec functions the
//! executable functions are proved against.

use vstd::prelude::*;

use crate::piece::{Kind, Move, Piece, PieceColor, Position};
use crate::piece::{occupied_at, occupied_by, on_board, opposite};
use crate::generate::{
    covered_by_nonking, generate_moves, jump_cand, keep_uncovered, king_steps, knight_moves,
    pawn_moves,
};

verus! {

/// Filtering covered squares keeps everything when nothing is covered.
proof fn lemma_keep_uncovered_all(
    board: Seq<Piece>,
    history: Seq<Move>,
    c: PieceColor,
    cands: Seq<Position>,
)
    requires
        forall|k: int|
            0 <= k < cands.len() ==> !covered_by_nonking(board, history, c, #[trigger] cands[k]),
    ensures
        keep_uncovered(board, history, c, cands) == cands,
    decreases cands.len(),
{
    if cands.len() == 0 {
        assert(keep_uncovered(board, history, c, cands) =~= cands);
    } else {
        lemma_keep_uncovered_all(board, history, c, cands.drop_last());
        assert(keep_uncovered(board, history, c, cands) =~= cands);
    }
}

/// No piece of the board covers anything when no piece has color `c`.
proof fn lemma_nothing_covered(board: Seq<Piece>, history: Seq<Move>, c: PieceColor, m: Position)
    requires
        forall|i: int| 0 <= i < board.len() ==> (#[trigger] board[i]).color != c,
    ensures
        !covered_by_nonking(board, history, c, m),
{
}

/// A king alone in its corner has exactly the three in-board
/// neighbors, in row-major scan order, whatever the history says.
pub proof fn lemma_lone_king_corner(board: Seq<Piece>, history: Seq<Move>)
    requires
        board.len() == 1,
        board[0].kind == Kind::King,
        board[0].color == PieceColor::White,
        board[0].pos == (0u8, 0u8),
    ensures
        generate_moves(board, history, board[0]) == seq![(0u8, 1u8), (1u8, 0u8), (1u8, 1u8)],
{
    assert forall|c: PieceColor, f: int, r: int|
        !(f == 0 && r == 0) implies !occupied_by(board, c, f, r) by {
        if occupied_by(board, c, f, r) {
            let i = choose|i: int|
                0 <= i < board.len() && (#[trigger] board[i]).pos.0 == f && board[i].pos.1 == r
                    && board[i].color == c;
            assert(i == 0);
        }
    }
    let steps = king_steps(board, PieceColor::White, 0, 0);
    assert(steps =~= seq![(0u8, 1u8), (1u8, 0u8), (1u8, 1u8)]);
    assert forall|k: int|
        0 <= k < steps.len() implies !covered_by_nonking(
        board,
        history,
        PieceColor::Black,
        #[trigger] steps[k],
    ) by {
        lemma_nothing_covered(board, history, PieceColor::Black, steps[k]);
    }
    lemma_keep_uncovered_all(board, history, PieceColor::Black, steps);
}

/// A king alone in the middle of the board has exactly its eight
/// neighbors, in row-major scan order, its own square excluded,
/// whatever the history says.
pub proof fn lemma_lone_king_middle(board: Seq<Piece>, history: Seq<Move>)
    requires
        board.len() == 1,
        board[0].kind == Kind::King,
        board[0].color == PieceColor::White,
        board[0].pos == (3u8, 3u8),
    ensures
        generate_moves(board, history, board[0]) == seq![
            (2u8, 2u8),
            (2u8, 3u8),
            (2u8, 4u8),
            (3u8, 2u8),
            (3u8, 4u8),
            (4u8, 2u8),
            (4u8, 3u8),
            (4u8, 4u8),
        ],
{
    assert forall|c: PieceColor, f: int, r: int|
        !(f == 3 && r == 3) implies !occupied_by(board, c, f, r) by {
        if occupied_by(board, c, f, r) {
            let i = choose|i: int|
                0 <= i < board.len() && (#[trigger] board[i]).pos.0 == f && board[i].pos.1 == r
                    && board[i].color == c;
            assert(i == 0);
        }
    }
    let steps = king_steps(board, PieceColor::White, 3, 3);
    assert(steps =~= seq![
        (2u8, 2u8),
        (2u8, 3u8),
        (2u8, 4u8),
        (3u8, 2u8),
        (3u8, 4u8),
        (4u8, 2u8),
        (4u8, 3u8),
        (4u8, 4u8),
    ]);
    assert forall|k: int|
        0 <= k < steps.len() implies !covered_by_nonking(
        board,
        history,
        PieceColor::Black,
        #[trigger] steps[k],
    ) by {
        lemma_nothing_covered(board, history, PieceColor::Black, steps[k]);
    }
    lemma_keep_uncovered_all(board, history, PieceColor::Black, steps);
}

/// On a board whose pieces all stand on (f, r), no other square is
/// occupied.
proof fn lemma_only_own_square(
    board: Seq<Piece>,
    c: PieceColor,
    f: int,
    r: int,
    tf: int,
    tr: int,
)
    requires
        forall|i: int|
            0 <= i < board.len() ==> (#[trigger] board[i]).pos.0 == f && board[i].pos.1 == r,
        !(tf == f && tr == r),
    ensures
        !occupied_by(board, c, tf, tr),
{
    if occupied_by(board, c, tf, tr) {
        let i = choose|i: int|
            0 <= i < board.len() && (#[trigger] board[i]).pos.0 == tf && board[i].pos.1 == tr
                && board[i].color == c;
    }
}

/// On a board whose only occupied square is the knight's own, the
/// knight has one move for each of its eight jump offsets that lands
/// in bounds: two from a corner, more toward the middle, all eight
/// from the interior.
pub proof fn lemma_knight_count(board: Seq<Piece>, c: PieceColor, f: int, r: int)
    requires
        on_board(f, r),
        forall|i: int|
            0 <= i < board.len() ==> (#[trigger] board[i]).pos.0 == f && board[i].pos.1 == r,
    ensures
        knight_moves(board, c, f, r).len() == (if on_board(f - 2, r + 1) {
            1int
        } else {
            0int
        }) + (if on_board(f - 2, r - 1) {
            1int
        } else {
            0int
        }) + (if on_board(f + 2, r + 1) {
            1int
        } else {
            0int
        }) + (if on_board(f + 2, r - 1) {
            1int
        } else {
            0int
        }) + (if on_board(f - 1, r + 2) {
            1int
        } else {
            0int
        }) + (if on_board(f - 1, r - 2) {
            1int
        } else {
            0int
        }) + (if on_board(f + 1, r + 2) {
            1int
        } else {
            0int
        }) + (if on_board(f + 1, r - 2) {
            1int
        } else {
            0int
        }),
{
    lemma_only_own_square(board, c, f, r, f - 2, r + 1);
    lemma_only_own_square(board, c, f, r, f - 2, r - 1);
    lemma_only_own_square(board, c, f, r, f + 2, r + 1);
    lemma_only_own_square(board, c, f, r, f + 2, r - 1);
    lemma_only_own_square(board, c, f, r, f - 1, r + 2);
    lemma_only_own_square(board, c, f, r, f - 1, r - 2);
    lemma_only_own_square(board, c, f, r, f + 1, r + 2);
    lemma_only_own_square(board, c, f, r, f + 1, r - 2);
    assert(jump_cand(board, c, f, r, -2, 1).len() == if on_board(f - 2, r + 1) {
        1int
    } else {
        0int
    });
    assert(jump_cand(board, c, f, r, -2, -1).len() == if on_board(f - 2, r - 1) {
        1int
    } else {
        0int
    });
    assert(jump_cand(board, c, f, r, 2, 1).len() == if on_board(f + 2, r + 1) {
        1int
    } else {
        0int
    });
    assert(jump_cand(board, c, f, r, 2, -1).len() == if on_board(f + 2, r - 1) {
        1int
    } else {
        0int
    });
    assert(jump_cand(board, c, f, r, -1, 2).len() == if on_board(f - 1, r + 2) {
        1int
    } else {
        0int
    });
    assert(jump_cand(board, c, f, r, -1, -2).len() == if on_board(f - 1, r - 2) {
        1int
    } else {
        0int
    });
    assert(jump_cand(board, c, f, r, 1, 2).len() == if on_board(f + 1, r + 2) {
        1int
    } else {
        0int
    });
    assert(jump_cand(board, c, f, r, 1, -2).len() == if on_board(f + 1, r - 2) {
        1int
    } else {
        0int
    });
}

/// A white pawn on (4, 4) with (3, 5) empty is offered (3, 5) exactly
/// when the immediately preceding move was a black pawn's double push
/// from (3, 6) to (3, 4).
pub proof fn lemma_en_passant_offer(board: Seq<Piece>, history: Seq<Move>, p: Piece)
    requires
        p.kind == Kind::Pawn,
        p.color == PieceColor::White,
        p.pos == (4u8, 4u8),
        !occupied_at(board, 3, 5),
    ensures
        generate_moves(board, history, p).contains((3u8, 5u8)) <==> (history.len() > 0
            && history.last().piece.kind == Kind::Pawn && history.last().piece.color
            == PieceColor::Black && history.last().from == (3u8, 6u8) && history.last().to == (
        3u8,
        4u8,
        )),
{
    let s = generate_moves(board, history, p);
    assert(s == pawn_moves(board, history, p));
    let rhs = history.len() > 0 && history.last().piece.kind == Kind::Pawn
        && history.last().piece.color == PieceColor::Black && history.last().from == (3u8, 6u8)
        && history.last().to == (3u8, 4u8);
    if rhs {
        assert(history.last().from.0 == 3 && history.last().from.1 == 6);
        assert(crate::generate::pawn_en_passant(board, history, p) == seq![(3u8, 5u8)]);
        assert(s[s.len() - 1] == (3u8, 5u8));
        assert(s.contains((3u8, 5u8)));
    } else {
        if s.contains((3u8, 5u8)) {
            let k = choose|k: int| 0 <= k < s.len() && s[k] == (3u8, 5u8);
            // the single push targets file 4, the double push needs
            // rank 1, the captures need an occupant on the target: the
            // square can come only out of the en passant component,
            // whose condition pins the preceding move down
            assert(!occupied_by(board, opposite(p.color), 3, 5)) by {
                if occupied_by(board, opposite(p.color), 3, 5) {
                    assert(occupied_at(board, 3, 5));
                }
            }
            let ep = crate::generate::pawn_en_passant(board, history, p);
            assert(ep.len() > 0);
            assert(history.last().to.0 == 3 || history.last().to.0 == 5);
            assert(history.last().to.0 == 3);
            assert(history.last().from == (3u8, 6u8));
            assert(history.last().to == (3u8, 4u8));
        }
    }
}

/// Move generation keeps no hidden state: the result is a function of
/// the piece, the board snapshot and the history alone, so two queries
/// with identical snapshot arguments yield identical ordered output.
pub proof fn lemma_generate_moves_deterministic(
    p: Piece,
    board1: Seq<Piece>,
    history1: Seq<Move>,
    board2: Seq<Piece>,
    history2: Seq<Move>,
)
    requires
        board1 == board2,
        history1 == history2,
    ensures
        generate_moves(board1, history1, p) == generate_moves(board2, history2, p),
{
}

} // verus!

