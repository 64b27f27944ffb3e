use brandobot_core::board::Board;
use brandobot_core::chess_move::Move;
use brandobot_core::movegen::generate_legal;
use brandobot_core::nnue::Network;
use brandobot_core::types::{make_square, Color, PieceType};

const FEATURE_WEIGHTS: usize = 768 * 256;
const HIDDEN: usize = 256;
const OUTPUT_WEIGHTS: usize = 2 * 256;

fn pattern(index: usize) -> i16 {
    ((index as u64).wrapping_mul(2_654_435_761) >> 8).rem_euclid(17) as i16 - 8
}

/// The byte image of a deterministic, non-trivial network — varied small
/// weights so the equivalence and symmetry checks are meaningful.
fn network_bytes(output_bias: i32) -> Vec<u8> {
    let mut bytes = Vec::new();
    bytes.extend_from_slice(b"BNN1");
    for value in [768i32, 256, 255, 64, 400] {
        bytes.extend_from_slice(&value.to_le_bytes());
    }
    for i in 0..FEATURE_WEIGHTS {
        bytes.extend_from_slice(&pattern(i).to_le_bytes());
    }
    for i in 0..HIDDEN {
        bytes.extend_from_slice(&pattern(i + 7).to_le_bytes());
    }
    for i in 0..OUTPUT_WEIGHTS {
        bytes.extend_from_slice(&pattern(i + 3).to_le_bytes());
    }
    bytes.extend_from_slice(&output_bias.to_le_bytes());
    bytes
}

fn deterministic() -> Network {
    Network::from_bytes(&network_bytes(25)).unwrap()
}

#[test]
fn start_position_evaluates_to_a_bounded_score() {
    let score = deterministic().evaluate(&Board::startpos());
    assert!(score.abs() < 30_000, "score {score} is out of sane range");
}

#[test]
fn color_mirror_swapping_side_to_move_negates() {
    let net = deterministic();
    let position = Board::from_fen("4k3/8/8/8/3N4/8/8/4K3 w - - 0 1").unwrap();
    let mirror = Board::from_fen("4k3/8/8/3n4/8/8/8/4K3 b - - 0 1").unwrap();

    assert_eq!(net.evaluate(&mirror), -net.evaluate(&position));
}

#[test]
fn incremental_add_remove_matches_a_full_refresh() {
    let net = deterministic();
    let before = Board::from_fen("4k3/8/8/8/3N4/8/8/4K3 w - - 0 1").unwrap();
    let after = Board::from_fen("4k3/8/8/5N2/8/8/8/4K3 w - - 0 1").unwrap();

    let mut accumulator = net.fresh_accumulator(&before);
    net.remove_piece(&mut accumulator, Color::White, PieceType::Knight, make_square(3, 3));
    net.add_piece(&mut accumulator, Color::White, PieceType::Knight, make_square(5, 4));

    assert_eq!(accumulator, net.fresh_accumulator(&after));
}

#[test]
fn add_then_remove_restores_the_accumulator() {
    let net = deterministic();
    let initial = net.fresh_accumulator(&Board::startpos());

    let mut accumulator = initial.clone();
    net.add_piece(&mut accumulator, Color::Black, PieceType::Rook, make_square(3, 3));
    net.remove_piece(&mut accumulator, Color::Black, PieceType::Rook, make_square(3, 3));

    assert_eq!(accumulator, initial);
}

fn legal(board: &mut Board, uci: &str) -> Move {
    generate_legal(board)
        .iter()
        .copied()
        .find(|candidate| candidate.to_uci() == uci)
        .unwrap_or_else(|| panic!("{uci} is not legal"))
}

fn assert_incremental(net: &Network, fen: &str, uci: &str) {
    let mut board = Board::from_fen(fen).unwrap();
    let mv = legal(&mut board, uci);

    let mut accumulator = net.fresh_accumulator(&board);
    net.apply_move(&mut accumulator, &board, mv);
    board.make_move(mv);

    assert_eq!(accumulator, net.fresh_accumulator(&board), "after {uci} from {fen}");
}

#[test]
fn apply_move_matches_a_full_refresh_for_every_move_type() {
    let net = deterministic();
    // quiet, capture, en passant, both castles, promotion, promotion-capture.
    assert_incremental(
        &net,
        "rnbqkbnr/pppppppp/8/8/8/8/PPPPPPPP/RNBQKBNR w KQkq - 0 1",
        "e2e4",
    );
    assert_incremental(
        &net,
        "rnbqkbnr/ppp1pppp/8/3p4/4P3/8/PPPP1PPP/RNBQKBNR w KQkq d6 0 2",
        "e4d5",
    );
    assert_incremental(
        &net,
        "rnbqkbnr/ppp1pppp/8/3pP3/8/8/PPPP1PPP/RNBQKBNR w KQkq d6 0 3",
        "e5d6",
    );
    assert_incremental(
        &net,
        "rnbqk2r/pppp1ppp/5n2/2b1p3/2B1P3/5N2/PPPP1PPP/RNBQK2R w KQkq - 4 4",
        "e1g1",
    );
    assert_incremental(
        &net,
        "r3k2r/pppqbppp/2npbn2/4p3/4P3/2NPBN2/PPPQBPPP/R3K2R w KQkq - 0 1",
        "e1c1",
    );
    assert_incremental(&net, "4k3/P7/8/8/8/8/8/4K3 w - - 0 1", "a7a8q");
    assert_incremental(&net, "1r2k3/P7/8/8/8/8/8/4K3 w - - 0 1", "a7b8q");
}

#[test]
fn apply_move_stays_consistent_through_a_game() {
    let net = deterministic();
    let mut board = Board::startpos();
    let mut accumulator = net.fresh_accumulator(&board);
    for uci in [
        "e2e4", "e7e5", "g1f3", "b8c6", "f1b5", "a7a6", "b5c6", "d7c6", "e1g1", "f8d6", "d2d4",
        "e5d4", "f3d4", "g8f6", "b1c3", "e8g8",
    ] {
        let mv = legal(&mut board, uci);
        net.apply_move(&mut accumulator, &board, mv);
        board.make_move(mv);
        assert_eq!(accumulator, net.fresh_accumulator(&board), "after {uci}");
    }
}

#[test]
fn output_is_clamped_below_the_mate_threshold() {
    // An output bias this large forces the raw score past the limit.
    let net = Network::from_bytes(&network_bytes(10_000_000)).unwrap();
    assert_eq!(net.evaluate(&Board::startpos()), 30_000);
}

#[test]
fn to_bytes_round_trips_through_from_bytes() {
    let net = deterministic();
    let loaded = Network::from_bytes(&net.to_bytes()).unwrap();

    let board =
        Board::from_fen("r1bqkbnr/pppp1ppp/2n5/4p3/4P3/5N2/PPPP1PPP/RNBQKB1R w KQkq - 0 1")
            .unwrap();
    assert_eq!(loaded.evaluate(&board), net.evaluate(&board));
}

#[test]
fn from_bytes_rejects_a_bad_magic() {
    let mut bytes = deterministic().to_bytes();
    bytes[0] = b'X';
    assert!(Network::from_bytes(&bytes).is_err());
}

#[test]
fn from_bytes_rejects_a_wrong_dimension() {
    let mut bytes = deterministic().to_bytes();
    bytes[4..8].copy_from_slice(&512i32.to_le_bytes()); // input dimension
    assert!(Network::from_bytes(&bytes).is_err());
}

#[test]
fn from_bytes_rejects_a_truncated_file() {
    let mut bytes = deterministic().to_bytes();
    bytes.truncate(bytes.len() - 1);
    assert!(Network::from_bytes(&bytes).is_err());
}

#[test]
fn refusals_name_their_cause() {
    let mut bytes = deterministic().to_bytes();
    bytes[4..8].copy_from_slice(&(-3i32).to_le_bytes());
    assert_eq!(
        Network::from_bytes(&bytes).err().unwrap(),
        "network input dimension is -3, expected 768"
    );
    let mut bytes = deterministic().to_bytes();
    bytes[20..24].copy_from_slice(&401i32.to_le_bytes());
    assert_eq!(
        Network::from_bytes(&bytes).err().unwrap(),
        "network SCALE is 401, expected 400"
    );
    assert_eq!(
        Network::from_bytes(&[0u8; 10]).err().unwrap(),
        "network file is 10 bytes, expected 394780"
    );
    let mut bytes = deterministic().to_bytes();
    bytes[1] = b'X';
    assert_eq!(
        Network::from_bytes(&bytes).err().unwrap(),
        "network file has a bad magic header"
    );
}

#[test]
fn the_serialized_image_has_the_documented_layout() {
    let bytes = deterministic().to_bytes();
    assert_eq!(bytes.len(), 394_780);
    assert_eq!(&bytes[0..4], b"BNN1");
    assert_eq!(&bytes[4..8], &768i32.to_le_bytes());
    assert_eq!(&bytes[24..26], &pattern(0).to_le_bytes());
    assert_eq!(&bytes[394_776..], &25i32.to_le_bytes());
}

#[test]
fn a_mirrored_middlegame_negates_the_network_score() {
    let net = deterministic();
    let position = Board::from_fen(
        "r1bqk2r/pppp1ppp/2n2n2/2b1p3/2B1P3/3P1N2/PPP2PPP/RNBQK2R w KQkq - 0 1",
    )
    .unwrap();
    let mirror = Board::from_fen(
        "rnbqk2r/ppp2ppp/3p1n2/2b1p3/2B1P3/2N2N2/PPPP1PPP/R1BQK2R b KQkq - 0 1",
    )
    .unwrap();
    assert_eq!(net.evaluate(&mirror), -net.evaluate(&position));
}
