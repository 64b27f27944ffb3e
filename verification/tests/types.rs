use brandobot_core::zobrist::SplitMix64;
use brandobot_core::types::{
    file_of, make_square, rank_of, square_from_uci, square_to_uci, Color, Piece, PieceType,
};

const KINDS: [PieceType; 6] = [
    PieceType::Pawn,
    PieceType::Knight,
    PieceType::Bishop,
    PieceType::Rook,
    PieceType::Queen,
    PieceType::King,
];

#[test]
fn a_kind_letter_reads_back_as_the_kind() {
    for kind in KINDS {
        assert_eq!(PieceType::from_char(kind.to_char()), Some(kind));
    }
    assert_eq!(PieceType::from_char('x'), None);
    assert_eq!(PieceType::from_char('N'), None);
}

#[test]
fn piece_letters_are_uppercase_for_white() {
    let white_knight = Piece {
        color: Color::White,
        piece_type: PieceType::Knight,
    };
    let black_queen = Piece {
        color: Color::Black,
        piece_type: PieceType::Queen,
    };
    assert_eq!(white_knight.to_char(), 'N');
    assert_eq!(black_queen.to_char(), 'q');
}

#[test]
fn square_names_read_back_as_squares() {
    for square in 0..64u8 {
        let name = square_to_uci(square);
        assert_eq!(square_from_uci(&name), Some(square));
        assert_eq!(make_square(file_of(square), rank_of(square)), square);
    }
    assert_eq!(square_to_uci(make_square(4, 3)), "e4");
    assert_eq!(square_from_uci("i1"), None);
    assert_eq!(square_from_uci("a9"), None);
    assert_eq!(square_from_uci("a"), None);
}

#[test]
fn all_piece_kinds_come_in_index_order() {
    assert_eq!(PieceType::ALL.len(), 6);
    for (i, kind) in PieceType::ALL.iter().enumerate() {
        assert_eq!(kind.index(), i);
    }
    assert_eq!(PieceType::ALL, KINDS);
}

#[test]
fn splitmix_matches_the_reference_and_is_deterministic() {
    let mut zero = SplitMix64::new(0);
    assert_eq!(zero.next(), 0xE220_A839_7B1D_CDAF);
    let mut a = SplitMix64::new(0x1234_5678);
    let mut b = SplitMix64::new(0x1234_5678);
    for _ in 0..100 {
        assert_eq!(a.next(), b.next());
    }
}
