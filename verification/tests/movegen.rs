use brandobot_core::board::Board;
use brandobot_core::movegen::{apply_uci_move, generate_legal, is_playable, perft};

fn check(fen: &str, expected: &[u64]) {
    let mut board = Board::from_fen(fen).unwrap();
    for (index, &nodes) in expected.iter().enumerate() {
        let depth = index as u32 + 1;
        assert_eq!(perft(&mut board, depth), nodes, "{fen} at depth {depth}");
    }
}

#[test]
fn perft_matches_published_counts() {
    // The six canonical Chess Programming Wiki positions, to published counts.
    check(
        "rnbqkbnr/pppppppp/8/8/8/8/PPPPPPPP/RNBQKBNR w KQkq - 0 1",
        &[20, 400, 8902, 197281, 4865609],
    );
    check(
        "r3k2r/p1ppqpb1/bn2pnp1/3PN3/1p2P3/2N2Q1p/PPPBBPPP/R3K2R w KQkq - 0 1",
        &[48, 2039, 97862, 4085603],
    );
    check(
        "8/2p5/3p4/KP5r/1R3p1k/8/4P1P1/8 w - - 0 1",
        &[14, 191, 2812, 43238, 674624],
    );
    check(
        "r3k2r/Pppp1ppp/1b3nbN/nP6/BBP1P3/q4N2/Pp1P2PP/R2Q1RK1 w kq - 0 1",
        &[6, 264, 9467, 422333],
    );
    check(
        "rnbq1k1r/pp1Pbppp/2p5/8/2B5/8/PPP1NnPP/RNBQK2R w KQ - 1 8",
        &[44, 1486, 62379, 2103487],
    );
    check(
        "r4rk1/1pp1qppp/p1np1n2/2b1p1B1/2B1P1b1/P1NP1N2/1PP1QPPP/R4RK1 w - - 0 10",
        &[46, 2079, 89890],
    );
}

fn playable(fen: &str, plies: u16) -> bool {
    is_playable(&Board::from_fen(fen).unwrap(), plies)
}

#[test]
fn the_start_position_is_playable() {
    assert!(playable("rnbqkbnr/pppppppp/8/8/8/8/PPPPPPPP/RNBQKBNR w KQkq - 0 1", 10));
    assert!(playable("4k3/8/8/3pP3/8/8/8/4K3 w - d6 0 2", 1));
    // An en-passant square no pawn can capture onto is never played.
    assert!(playable("4k3/8/8/8/8/8/8/4K3 w - e6 0 1", 1));
    let mut board = Board::from_fen("4k3/8/8/8/8/8/8/4K3 w - e6 0 1").unwrap();
    assert_eq!(generate_legal(&mut board).len(), 5);
}

#[test]
fn positions_move_generation_cannot_play_are_refused() {
    // No black king.
    assert!(!playable("8/8/8/8/8/8/8/4K3 w - - 0 1", 1));
    // Two white kings.
    assert!(!playable("4k3/8/8/8/8/8/8/3KK3 w - - 0 1", 1));
    // A white pawn on the eighth rank.
    assert!(!playable("P3k3/8/8/8/8/8/8/4K3 w - - 0 1", 1));
    // A black pawn on the first rank.
    assert!(!playable("4k3/8/8/8/8/8/8/p3K3 w - - 0 1", 1));
    // A castling right without its rook.
    assert!(!playable("4k3/8/8/8/8/8/8/4K3 w K - 0 1", 1));
    // An en-passant square a pawn could capture onto, with no pawn in front
    // of it.
    assert!(!playable("4k3/8/8/4P3/8/8/8/4K3 w - d6 0 1", 1));
    // The side not to move is in check.
    assert!(!playable("4k3/8/8/8/8/8/8/4R1K1 w - - 0 1", 1));
    // The clocks cannot count the moves.
    assert!(!playable("4k3/8/8/8/8/8/8/4K3 w - - 65530 1", 10));
    assert!(playable("4k3/8/8/8/8/8/8/4K3 w - - 65530 1", 4));
}

#[test]
fn a_uci_move_is_played_when_legal() {
    let mut board = Board::startpos();
    assert!(apply_uci_move(&mut board, "e2e4"));
    assert_eq!(
        board.to_fen(),
        "rnbqkbnr/pppppppp/8/8/4P3/8/PPPP1PPP/RNBQKBNR b KQkq e3 0 1"
    );
    assert!(apply_uci_move(&mut board, "g8f6"));
    assert_eq!(
        board.to_fen(),
        "rnbqkb1r/pppppppp/5n2/8/4P3/8/PPPP1PPP/RNBQKBNR w KQkq - 1 2"
    );
}

#[test]
fn an_illegal_or_malformed_uci_move_leaves_the_board() {
    let mut board = Board::startpos();
    let before = board.to_fen();
    assert!(!apply_uci_move(&mut board, "e2e5"));
    assert!(!apply_uci_move(&mut board, "e7e5"));
    assert!(!apply_uci_move(&mut board, "zz"));
    assert!(!apply_uci_move(&mut board, "e2e4x"));
    assert_eq!(board.to_fen(), before);
}

#[test]
fn a_uci_promotion_picks_the_named_piece() {
    let mut board = Board::from_fen("8/4P1k1/8/8/8/8/8/4K3 w - - 0 1").unwrap();
    assert!(!apply_uci_move(&mut board, "e7e8"));
    assert!(apply_uci_move(&mut board, "e7e8n"));
    assert_eq!(board.to_fen(), "4N3/6k1/8/8/8/8/8/4K3 b - - 0 1");
    let mut board = Board::from_fen("8/4P1k1/8/8/8/8/8/4K3 w - - 0 1").unwrap();
    assert!(apply_uci_move(&mut board, "e7e8q"));
    assert_eq!(board.to_fen(), "4Q3/6k1/8/8/8/8/8/4K3 b - - 0 1");
}

#[test]
fn perft_at_depth_zero_counts_the_position() {
    let mut board = Board::startpos();
    assert_eq!(perft(&mut board, 0), 1);
    let mut stalemate = Board::from_fen("7k/5Q2/6K1/8/8/8/8/8 b - - 0 1").unwrap();
    assert!(generate_legal(&mut stalemate).is_empty());
    assert_eq!(perft(&mut stalemate, 3), 0);
}
