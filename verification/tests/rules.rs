use chess::rules::{in_check, is_checkmate, is_stalemate};
use chess::{Kind, Move, Piece, PieceColor, Turn};

#[test]
fn promotion_to_queen_changes_only_kind() {
    let mut pawn = Piece::white(Kind::Pawn, (2, 7));
    pawn.promotion(Kind::Queen);

    assert!(pawn.kind == Kind::Queen);
    assert!(pawn.color == PieceColor::White);
    assert!(pawn.pos == (2, 7));
}

#[test]
fn promotion_to_pawn_is_rejected() {
    let mut pawn = Piece::black(Kind::Pawn, (5, 0));
    pawn.promotion(Kind::Pawn);

    assert!(pawn.kind == Kind::Pawn);
    assert!(pawn.color == PieceColor::Black);
    assert!(pawn.pos == (5, 0));
}

#[test]
fn promotion_to_king_is_rejected() {
    let mut pawn = Piece::white(Kind::Pawn, (2, 7));
    pawn.promotion(Kind::King);

    assert!(pawn.kind == Kind::Pawn);
}

#[test]
fn promotion_of_non_pawn_is_rejected() {
    let mut rook = Piece::white(Kind::Rook, (0, 0));
    rook.promotion(Kind::Queen);

    assert!(rook.kind == Kind::Rook);
}

#[test]
fn is_move_valid_accepts_generated_moves_only() {
    let pieces: Vec<Piece> = vec![Piece::white(Kind::Rook, (0, 0))];

    let (ok, off) = pieces[0].is_move_valid((0, 5), &pieces, &vec![]);
    assert!(ok);
    assert_eq!(off, 0);

    let (ok, off) = pieces[0].is_move_valid((1, 1), &pieces, &vec![]);
    assert!(!ok);
    assert_eq!(off, 0);
}

#[test]
fn is_move_valid_encodes_en_passant_offset() {
    let pieces: Vec<Piece> = vec![
        Piece::white(Kind::Pawn, (4, 4)),
        Piece::black(Kind::Pawn, (3, 4)),
    ];
    let history = vec![Move {
        piece: Piece::black(Kind::Pawn, (3, 6)),
        from: (3, 6),
        to: (3, 4),
    }];

    let (ok, off) = pieces[0].is_move_valid((3, 5), &pieces, &history);
    assert!(ok);
    assert_eq!(off, -1);
}

#[test]
fn black_en_passant_offset_points_up() {
    let pieces: Vec<Piece> = vec![
        Piece::black(Kind::Pawn, (4, 3)),
        Piece::white(Kind::Pawn, (5, 3)),
    ];
    let history = vec![Move {
        piece: Piece::white(Kind::Pawn, (5, 1)),
        from: (5, 1),
        to: (5, 3),
    }];

    let (ok, off) = pieces[0].is_move_valid((5, 2), &pieces, &history);
    assert!(ok);
    assert_eq!(off, 1);
}

#[test]
fn rook_on_the_same_rank_gives_check() {
    let pieces: Vec<Piece> = vec![
        Piece::white(Kind::King, (0, 0)),
        Piece::black(Kind::King, (7, 7)),
        Piece::black(Kind::Rook, (7, 0)),
    ];

    assert!(in_check(&pieces, PieceColor::White, &vec![]));
    assert!(!in_check(&pieces, PieceColor::Black, &vec![]));
}

#[test]
fn blocked_rook_gives_no_check() {
    let pieces: Vec<Piece> = vec![
        Piece::white(Kind::King, (0, 0)),
        Piece::white(Kind::Bishop, (3, 0)),
        Piece::black(Kind::King, (7, 7)),
        Piece::black(Kind::Rook, (7, 0)),
    ];

    assert!(!in_check(&pieces, PieceColor::White, &vec![]));
}

#[test]
fn pinned_rook_may_only_move_along_the_pin() {
    let pieces: Vec<Piece> = vec![
        Piece::white(Kind::King, (0, 0)),
        Piece::white(Kind::Rook, (0, 1)),
        Piece::black(Kind::Rook, (0, 7)),
        Piece::black(Kind::King, (7, 7)),
    ];

    // pseudo-legal moves range over the whole rank and file
    let pseudo = pieces[1].get_moves(&pieces, &vec![]);
    assert!(pseudo.contains(&(5, 1)));

    // legal moves stay on the king's file, up to capturing the pinner
    let legal = pieces[1].legal_moves(&pieces, &vec![]);
    assert_eq!(legal, vec![(0, 2), (0, 3), (0, 4), (0, 5), (0, 6), (0, 7)]);
}

#[test]
fn protected_queen_delivers_checkmate() {
    let pieces: Vec<Piece> = vec![
        Piece::white(Kind::King, (0, 0)),
        Piece::black(Kind::Queen, (1, 1)),
        Piece::black(Kind::King, (2, 2)),
    ];

    assert!(in_check(&pieces, PieceColor::White, &vec![]));
    assert!(is_checkmate(&pieces, PieceColor::White, &vec![]));
}

#[test]
fn unprotected_queen_can_be_captured_so_no_checkmate() {
    let pieces: Vec<Piece> = vec![
        Piece::white(Kind::King, (0, 0)),
        Piece::black(Kind::Queen, (1, 1)),
        Piece::black(Kind::King, (7, 7)),
    ];

    assert!(in_check(&pieces, PieceColor::White, &vec![]));
    assert!(!is_checkmate(&pieces, PieceColor::White, &vec![]));

    let legal = pieces[0].legal_moves(&pieces, &vec![]);
    assert_eq!(legal, vec![(1, 1)]);
}

#[test]
fn cornered_king_without_check_is_stalemated() {
    let pieces: Vec<Piece> = vec![
        Piece::white(Kind::King, (0, 0)),
        Piece::black(Kind::Queen, (1, 2)),
        Piece::black(Kind::King, (7, 7)),
    ];

    assert!(!in_check(&pieces, PieceColor::White, &vec![]));
    assert!(is_stalemate(&pieces, PieceColor::White, &vec![]));
    assert!(!is_checkmate(&pieces, PieceColor::White, &vec![]));
}

#[test]
fn checkmate_needs_the_check() {
    let pieces: Vec<Piece> = vec![
        Piece::white(Kind::King, (0, 0)),
        Piece::black(Kind::King, (7, 7)),
    ];

    assert!(!is_checkmate(&pieces, PieceColor::White, &vec![]));
    assert!(!is_stalemate(&pieces, PieceColor::White, &vec![]));
}

#[test]
fn rook_must_block_the_check() {
    let pieces: Vec<Piece> = vec![
        Piece::white(Kind::King, (0, 0)),
        Piece::white(Kind::Rook, (5, 5)),
        Piece::black(Kind::Rook, (0, 7)),
        Piece::black(Kind::King, (7, 0)),
    ];

    assert!(in_check(&pieces, PieceColor::White, &vec![]));
    // of all the rook's rank-and-file moves, only the interposition on
    // the king's file resolves the check
    let legal = pieces[1].legal_moves(&pieces, &vec![]);
    assert_eq!(legal, vec![(0, 5)]);
    assert!(!is_checkmate(&pieces, PieceColor::White, &vec![]));
}

#[test]
fn black_is_checkmated_by_protected_queen() {
    let pieces: Vec<Piece> = vec![
        Piece::black(Kind::King, (7, 7)),
        Piece::white(Kind::Queen, (6, 6)),
        Piece::white(Kind::King, (5, 5)),
    ];

    assert!(in_check(&pieces, PieceColor::Black, &vec![]));
    assert!(is_checkmate(&pieces, PieceColor::Black, &vec![]));
}

#[test]
fn any_piece_with_a_move_refutes_stalemate() {
    // the cornered king has no move, but the pawn does
    let pieces: Vec<Piece> = vec![
        Piece::white(Kind::King, (0, 0)),
        Piece::white(Kind::Pawn, (6, 1)),
        Piece::black(Kind::Queen, (1, 2)),
        Piece::black(Kind::King, (7, 7)),
    ];

    assert!(pieces[0].legal_moves(&pieces, &vec![]).is_empty());
    assert!(!is_stalemate(&pieces, PieceColor::White, &vec![]));
}

#[test]
fn turn_alternates_between_the_sides() {
    let mut turn = Turn::default();
    assert!(turn.0 == PieceColor::White);

    turn.change();
    assert!(turn.0 == PieceColor::Black);

    turn.change();
    assert!(turn.0 == PieceColor::White);
}

#[test]
fn constructors_set_color_kind_and_square() {
    let w = Piece::white(Kind::Bishop, (2, 0));
    let b = Piece::black(Kind::Knight, (6, 7));

    assert!(w.color == PieceColor::White && w.kind == Kind::Bishop && w.pos == (2, 0));
    assert!(b.color == PieceColor::Black && b.kind == Kind::Knight && b.pos == (6, 7));
}
