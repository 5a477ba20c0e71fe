use chess::{Kind, Move, Piece};

#[test]
fn rook_rays_stop_at_first_occupied_square() {
    // right ray: empty, empty, enemy capture; up ray: empty squares to
    // a friendly blocker, excluded; left and down rays: none
    let pieces: Vec<Piece> = vec![
        Piece::white(Kind::Rook, (0, 0)),
        Piece::white(Kind::Pawn, (0, 3)),
        Piece::black(Kind::Pawn, (3, 0)),
    ];

    assert_eq!(
        pieces[0].get_moves(&pieces, &vec![]),
        vec![(1, 0), (2, 0), (3, 0), (0, 1), (0, 2)]
    );
}

#[test]
fn bishop_rays_in_fixed_order() {
    // from (2, 2): up-right to (7, 7), down-right to (4, 0), up-left to
    // (0, 4), down-left to (0, 0)
    let pieces: Vec<Piece> = vec![Piece::white(Kind::Bishop, (2, 2))];

    assert_eq!(
        pieces[0].get_moves(&pieces, &vec![]),
        vec![
            (3, 3),
            (4, 4),
            (5, 5),
            (6, 6),
            (7, 7),
            (3, 1),
            (4, 0),
            (1, 3),
            (0, 4),
            (1, 1),
            (0, 0)
        ]
    );
}

#[test]
fn queen_covers_axes_then_diagonals() {
    let pieces: Vec<Piece> = vec![
        Piece::white(Kind::Queen, (0, 0)),
        Piece::black(Kind::Pawn, (2, 0)),
        Piece::black(Kind::Pawn, (0, 2)),
        Piece::black(Kind::Pawn, (2, 2)),
    ];

    assert_eq!(
        pieces[0].get_moves(&pieces, &vec![]),
        vec![(1, 0), (2, 0), (0, 1), (0, 2), (1, 1), (2, 2)]
    );
}

#[test]
fn knight_from_corner_has_two_moves() {
    let pieces: Vec<Piece> = vec![Piece::white(Kind::Knight, (0, 0))];

    assert_eq!(pieces[0].get_moves(&pieces, &vec![]), vec![(2, 1), (1, 2)]);
}

#[test]
fn knight_from_edge_has_four_moves() {
    let pieces: Vec<Piece> = vec![Piece::white(Kind::Knight, (0, 4))];

    assert_eq!(
        pieces[0].get_moves(&pieces, &vec![]),
        vec![(2, 5), (2, 3), (1, 6), (1, 2)]
    );
}

#[test]
fn knight_from_interior_has_eight_moves() {
    let pieces: Vec<Piece> = vec![Piece::white(Kind::Knight, (3, 3))];

    assert_eq!(
        pieces[0].get_moves(&pieces, &vec![]),
        vec![
            (1, 4),
            (1, 2),
            (5, 4),
            (5, 2),
            (2, 5),
            (2, 1),
            (4, 5),
            (4, 1)
        ]
    );
}

#[test]
fn knight_jumps_over_but_not_onto_friends() {
    let pieces: Vec<Piece> = vec![
        Piece::white(Kind::Knight, (0, 0)),
        Piece::white(Kind::Pawn, (1, 1)),
        Piece::white(Kind::Pawn, (2, 1)),
        Piece::black(Kind::Pawn, (1, 2)),
    ];

    assert_eq!(pieces[0].get_moves(&pieces, &vec![]), vec![(1, 2)]);
}

#[test]
fn pawn_single_and_double_push_from_start() {
    let pieces: Vec<Piece> = vec![Piece::white(Kind::Pawn, (4, 1))];

    assert_eq!(pieces[0].get_moves(&pieces, &vec![]), vec![(4, 2), (4, 3)]);
}

#[test]
fn pawn_double_push_blocked_by_piece_ahead() {
    let pieces: Vec<Piece> = vec![
        Piece::white(Kind::Pawn, (4, 1)),
        Piece::black(Kind::Rook, (4, 3)),
    ];

    assert_eq!(pieces[0].get_moves(&pieces, &vec![]), vec![(4, 2)]);
}

#[test]
fn pawn_fully_blocked_has_no_forward_move() {
    let pieces: Vec<Piece> = vec![
        Piece::white(Kind::Pawn, (4, 1)),
        Piece::black(Kind::Rook, (4, 2)),
    ];

    assert_eq!(pieces[0].get_moves(&pieces, &vec![]), Vec::<(u8, u8)>::new());
}

#[test]
fn pawn_captures_diagonally_never_straight() {
    let pieces: Vec<Piece> = vec![
        Piece::white(Kind::Pawn, (4, 4)),
        Piece::black(Kind::Pawn, (3, 5)),
        Piece::black(Kind::Pawn, (5, 5)),
        Piece::black(Kind::Pawn, (4, 5)),
    ];

    assert_eq!(pieces[0].get_moves(&pieces, &vec![]), vec![(3, 5), (5, 5)]);
}

#[test]
fn black_pawn_moves_toward_lower_ranks() {
    let pieces: Vec<Piece> = vec![
        Piece::black(Kind::Pawn, (4, 6)),
        Piece::white(Kind::Rook, (3, 5)),
    ];

    assert_eq!(
        pieces[0].get_moves(&pieces, &vec![]),
        vec![(4, 5), (4, 4), (3, 5)]
    );
}

#[test]
fn en_passant_offered_after_enemy_double_push() {
    let black_pawn = Piece::black(Kind::Pawn, (3, 4));
    let pieces: Vec<Piece> = vec![Piece::white(Kind::Pawn, (4, 4)), black_pawn];
    let history = vec![Move {
        piece: Piece::black(Kind::Pawn, (3, 6)),
        from: (3, 6),
        to: (3, 4),
    }];

    assert_eq!(
        pieces[0].get_moves(&pieces, &history),
        vec![(4, 5), (3, 5)]
    );
}

#[test]
fn en_passant_absent_without_the_double_push() {
    let pieces: Vec<Piece> = vec![
        Piece::white(Kind::Pawn, (4, 4)),
        Piece::black(Kind::Pawn, (3, 4)),
    ];
    // the same position, but the black pawn arrived one rank at a time
    let history = vec![Move {
        piece: Piece::black(Kind::Pawn, (3, 5)),
        from: (3, 5),
        to: (3, 4),
    }];

    assert_eq!(pieces[0].get_moves(&pieces, &history), vec![(4, 5)]);
    assert_eq!(pieces[0].get_moves(&pieces, &vec![]), vec![(4, 5)]);
}

#[test]
fn generate_moves_is_stable_across_calls() {
    let pieces: Vec<Piece> = vec![
        Piece::white(Kind::Queen, (3, 3)),
        Piece::black(Kind::Pawn, (3, 6)),
        Piece::white(Kind::Knight, (6, 3)),
    ];

    let first = pieces[0].get_moves(&pieces, &vec![]);
    let second = pieces[0].get_moves(&pieces, &vec![]);
    assert_eq!(first, second);
}
