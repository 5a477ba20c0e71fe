use chess::{Kind, Piece};

#[test]
fn king_in_the_corner() {
    let pieces: Vec<Piece> = vec![Piece::white(Kind::King, (0, 0))];

    assert!(pieces[0].get_moves(&pieces, &vec![]) == vec![(0, 1), (1, 0), (1, 1)]);
}

#[test]
fn king_in_the_middle() {
    let pieces: Vec<Piece> = vec![Piece::white(Kind::King, (3, 3))];

    assert!(
        pieces[0].get_moves(&pieces, &vec![])
            == vec![(2, 2), (2, 3), (2, 4), (3, 2), (3, 4), (4, 2), (4, 3), (4, 4)]
    );
}

#[test]
fn king_avoids_covered_squares() {
    // a black rook on (7, 1) covers the whole rank 1: the king may not
    // step onto it
    let pieces: Vec<Piece> = vec![
        Piece::white(Kind::King, (0, 0)),
        Piece::black(Kind::Rook, (7, 1)),
    ];

    assert_eq!(pieces[0].get_moves(&pieces, &vec![]), vec![(1, 0)]);
}

#[test]
fn king_steps_are_identical_across_calls() {
    let pieces: Vec<Piece> = vec![
        Piece::white(Kind::King, (3, 3)),
        Piece::black(Kind::Knight, (5, 5)),
    ];

    let first = pieces[0].get_moves(&pieces, &vec![]);
    let second = pieces[0].get_moves(&pieces, &vec![]);
    assert_eq!(first, second);
}

#[test]
fn black_king_blocked_by_friends() {
    let pieces: Vec<Piece> = vec![
        Piece::black(Kind::King, (7, 7)),
        Piece::black(Kind::Pawn, (6, 7)),
        Piece::black(Kind::Pawn, (6, 6)),
    ];

    assert_eq!(pieces[0].get_moves(&pieces, &vec![]), vec![(7, 6)]);
}
