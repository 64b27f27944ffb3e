use brandobot_core::board::Board;
use brandobot_core::eval::{
    eg_position_value, evaluate, game_phase, king_safety, material_placement, mg_position_value,
    mobility, Score,
};
use brandobot_core::types::{Color, PieceType};

#[test]
fn game_phase_tracks_non_pawn_material() {
    assert_eq!(game_phase(&Board::startpos()), 24);
    let bare_kings = Board::from_fen("8/8/8/4k3/8/8/4K3/8 w - - 0 1").unwrap();
    assert_eq!(game_phase(&bare_kings), 0);
}

#[test]
fn start_position_evaluates_to_zero() {
    assert_eq!(evaluate(&Board::startpos()), 0);
}

#[test]
fn color_mirror_negates_evaluation() {
    let white_knight = Board::from_fen("4k3/8/8/8/3N4/8/8/4K3 w - - 0 1").unwrap();
    let black_knight = Board::from_fen("4k3/8/8/3n4/8/8/8/4K3 w - - 0 1").unwrap();

    assert_eq!(evaluate(&black_knight), -evaluate(&white_knight));
}

#[test]
fn tapered_evaluation_uses_pesto_material_and_position() {
    let board = Board::from_fen("4k3/8/8/8/3N4/8/8/4K3 w - - 0 1").unwrap();

    assert_eq!(material_placement(&board).tapered(game_phase(&board)), 307);
}

#[test]
fn mobility_rewards_the_freer_side() {
    let central = Board::from_fen("4k3/8/8/8/3N4/8/8/4K3 w - - 0 1").unwrap();
    let cornered = Board::from_fen("4k3/8/8/8/8/8/8/N3K3 w - - 0 1").unwrap();

    assert!(mobility(&central).mg > mobility(&cornered).mg);
}

#[test]
fn mobility_is_symmetric_at_the_start() {
    assert_eq!(mobility(&Board::startpos()), Score::default());
}

#[test]
fn king_safety_rewards_pawn_shield() {
    let sheltered = Board::from_fen("6k1/8/8/8/8/8/5PPP/6K1 w - - 0 1").unwrap();
    let exposed = Board::from_fen("6k1/8/8/8/5PPP/8/8/6K1 w - - 0 1").unwrap();

    assert!(king_safety(&sheltered).mg > king_safety(&exposed).mg);
    assert_eq!(king_safety(&sheltered).eg, 0);
}

#[test]
fn king_safety_penalizes_attacks_on_king_ring() {
    let sheltered = Board::from_fen("6k1/8/8/8/8/8/5PPP/6K1 w - - 0 1").unwrap();
    let attacked = Board::from_fen("6k1/8/8/8/8/8/5PPP/r5K1 w - - 0 1").unwrap();

    assert!(king_safety(&attacked).mg < king_safety(&sheltered).mg);
}

#[test]
fn tables_are_read_from_the_mover_side() {
    // A white knight on d4 reads the published row for rank 4; a black knight
    // on d5 reads the same entry.
    assert_eq!(mg_position_value(PieceType::Knight, Color::White, 27), 13);
    assert_eq!(mg_position_value(PieceType::Knight, Color::Black, 35), 13);
    assert_eq!(eg_position_value(PieceType::Pawn, Color::White, 48), 178);
    assert_eq!(eg_position_value(PieceType::Pawn, Color::Black, 8), 178);
}

#[test]
fn tapering_rounds_toward_zero() {
    let score = Score { mg: -25, eg: 0 };
    // -25 * 12 / 24 = -12.5, rounded toward zero.
    assert_eq!(score.tapered(12), -12);
    assert_eq!(Score { mg: 25, eg: 0 }.tapered(12), 12);
}

#[test]
fn a_king_on_its_last_rank_has_no_shield() {
    let board = Board::from_fen("4K3/8/8/8/8/8/PPP5/k7 w - - 0 1").unwrap();
    assert_eq!(king_safety(&board).eg, 0);
    // Neither king has a rank in front of it; only ring pressure counts.
    let bare = Board::from_fen("4K3/8/8/8/8/8/8/k7 w - - 0 1").unwrap();
    assert_eq!(king_safety(&bare).mg, king_safety(&board).mg);
}

#[test]
fn a_mirrored_middlegame_evaluates_to_the_negated_score() {
    let position = Board::from_fen(
        "r1bqk2r/pppp1ppp/2n2n2/2b1p3/2B1P3/3P1N2/PPP2PPP/RNBQK2R w KQkq - 0 1",
    )
    .unwrap();
    let mirror = Board::from_fen(
        "rnbqk2r/ppp2ppp/3p1n2/2b1p3/2B1P3/2N2N2/PPPP1PPP/R1BQK2R b KQkq - 0 1",
    )
    .unwrap();
    assert_ne!(evaluate(&position), 0);
    assert_eq!(evaluate(&mirror), -evaluate(&position));
}
