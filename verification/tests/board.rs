use brandobot_core::board::{Board, STARTPOS_FEN};
use brandobot_core::movegen::generate_legal;

#[test]
fn fen_round_trips() {
    for fen in [
        STARTPOS_FEN,
        "r3k2r/p1ppqpb1/bn2pnp1/3PN3/1p2P3/2N2Q1p/PPPBBPPP/R3K2R w KQkq - 0 1",
        "8/2p5/3p4/KP5r/1R3p1k/8/4P1P1/8 w - - 0 1",
        "rnbq1k1r/pp1Pbppp/2p5/8/2B5/8/PPP1NnPP/RNBQK2R w KQ - 1 8",
        "4k3/8/8/8/8/8/8/4K3 b - - 5 39",
    ] {
        let board = Board::from_fen(fen).unwrap();
        assert_eq!(board.to_fen(), fen, "round trip for {fen}");
    }
}

#[test]
fn zobrist_initialized_from_scratch_matches() {
    let board =
        Board::from_fen("r3k2r/p1ppqpb1/bn2pnp1/3PN3/1p2P3/2N2Q1p/PPPBBPPP/R3K2R w KQkq - 0 1")
            .unwrap();
    assert_eq!(board.zobrist(), board.compute_zobrist());
}

fn walk(board: &mut Board, depth: u32) {
    if depth == 0 {
        return;
    }
    for mv in generate_legal(board) {
        let fen_before = board.to_fen();
        let zobrist_before = board.zobrist();
        let undo = board.make_move(mv);
        // The incrementally maintained key equals a from-scratch recompute.
        assert_eq!(board.zobrist(), board.compute_zobrist(), "after {}", mv.to_uci());
        walk(board, depth - 1);
        board.unmake_move(mv, undo);
        assert_eq!(board.to_fen(), fen_before, "fen after unmaking {}", mv.to_uci());
        assert_eq!(board.zobrist(), zobrist_before, "zobrist after unmaking {}", mv.to_uci());
    }
}

#[test]
fn make_unmake_restores_board_and_zobrist() {
    // Kiwipete exercises captures, castling, en passant, and promotions.
    let mut board =
        Board::from_fen("r3k2r/p1ppqpb1/bn2pnp1/3PN3/1p2P3/2N2Q1p/PPPBBPPP/R3K2R w KQkq - 0 1")
            .unwrap();
    walk(&mut board, 3);
}

#[test]
fn startpos_is_the_start_fen() {
    let board = Board::startpos();
    assert_eq!(board.to_fen(), STARTPOS_FEN);
    let read = Board::from_fen(STARTPOS_FEN).unwrap();
    assert_eq!(read.zobrist(), board.zobrist());
}

#[test]
fn omitted_fields_take_their_defaults() {
    let board = Board::from_fen("4k3/8/8/8/8/8/8/4K3 b").unwrap();
    assert_eq!(board.to_fen(), "4k3/8/8/8/8/8/8/4K3 b - - 0 1");
}

#[test]
fn unicode_whitespace_separates_fields() {
    let board = Board::from_fen("4k3/8/8/8/8/8/8/4K3\u{3000}w\tKQ  e3\u{a0}+7 12").unwrap();
    assert_eq!(board.to_fen(), "4k3/8/8/8/8/8/8/4K3 w KQ e3 7 12");
}

#[test]
fn unparsable_clocks_read_as_defaults() {
    let board = Board::from_fen("4k3/8/8/8/8/8/8/4K3 w - - x 70000").unwrap();
    assert_eq!(board.to_fen(), "4k3/8/8/8/8/8/8/4K3 w - - 0 1");
}

#[test]
fn each_refusal_names_its_cause() {
    assert_eq!(
        Board::from_fen("8/8/8").err().unwrap(),
        "FEN needs at least placement and side, got 1"
    );
    assert_eq!(
        Board::from_fen("8/8/8 w").err().unwrap(),
        "FEN board needs 8 ranks, got 3"
    );
    assert_eq!(
        Board::from_fen("8/8/8/8/8/8/8/4X3 w").err().unwrap(),
        "bad piece letter 'X'"
    );
    assert_eq!(
        Board::from_fen("8/8/8/8/8/8/8/8k w").err().unwrap(),
        "rank '8k' overflows"
    );
    assert_eq!(
        Board::from_fen("8/8/8/8/8/8/8/8 x").err().unwrap(),
        "bad side to move 'x'"
    );
    assert_eq!(
        Board::from_fen("8/8/8/8/8/8/8/8 w KX").err().unwrap(),
        "bad castling right 'X'"
    );
    assert_eq!(
        Board::from_fen("8/8/8/8/8/8/8/8 w - e9").err().unwrap(),
        "bad ep 'e9'"
    );
}

#[test]
fn rank_counts_past_a_byte_are_reported() {
    assert!(Board::fen_counts_overflow("99999999999999999999999999999/8/8/8/8/8/8/8 w"));
    assert!(!Board::fen_counts_overflow(STARTPOS_FEN));
}

#[test]
fn a_written_fen_reads_back_through_a_game() {
    let mut board = Board::startpos();
    for _ in 0..12 {
        let moves = generate_legal(&mut board);
        let mv = moves[moves.len() / 2];
        board.make_move(mv);
        let text = board.to_fen();
        let read = Board::from_fen(&text).unwrap();
        assert_eq!(read.to_fen(), text);
        assert_eq!(read.zobrist(), board.zobrist());
        assert_eq!(read.side_to_move(), board.side_to_move());
        assert_eq!(read.castling_rights(), board.castling_rights());
        assert_eq!(read.en_passant(), board.en_passant());
    }
}
