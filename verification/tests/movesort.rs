use brandobot_core::board::Board;
use brandobot_core::chess_move::Move;
use brandobot_core::movegen::generate_legal;
use brandobot_core::movesort::{
    evaluate_move_value, get_moves_to_dequiet, gives_check, history_index, in_check,
    prioritize_in_context, prioritize_legal_moves, sort_mvv_lva, OrderingContext, HISTORY_SIZE,
};

#[test]
fn ordering_groups_checks_then_captures_then_quiets() {
    let mut board =
        Board::from_fen("rnbqkbnr/pppp1ppp/8/4p2Q/4P3/8/PPPP1PPP/RNB1KBNR w KQkq - 0 1").unwrap();
    let ordered = prioritize_legal_moves(&mut board, false);
    // Rank each move by its group; the sequence must be non-decreasing.
    let ranks: Vec<u8> = ordered
        .iter()
        .map(|&mv| {
            if gives_check(&mut board.clone(), mv) {
                0
            } else if mv.is_capture() {
                1
            } else {
                2
            }
        })
        .collect();
    let mut sorted = ranks.clone();
    sorted.sort_unstable();
    assert_eq!(ranks, sorted, "moves must be grouped checks, captures, quiets");
}

#[test]
fn mvv_lva_prefers_capturing_the_higher_value_victim() {
    // White can play e4xd5 (pawn takes queen) or Qa1xa7 (queen takes pawn).
    let mut board = Board::from_fen("6k1/p7/8/3q4/4P3/8/8/Q3K3 w - - 0 1").unwrap();
    let captures: Vec<Move> = generate_legal(&mut board)
        .into_iter()
        .filter(|mv| mv.is_capture())
        .collect();
    let ordered = sort_mvv_lva(&board, captures);
    assert_eq!(ordered[0].to_uci(), "e4d5");
}

#[test]
fn every_legal_move_is_ordered_once() {
    let mut board =
        Board::from_fen("r3k2r/p1ppqpb1/bn2pnp1/3PN3/1p2P3/2N2Q1p/PPPBBPPP/R3K2R w KQkq - 0 1")
            .unwrap();
    let mut legal: Vec<u16> = generate_legal(&mut board).iter().map(|mv| mv.0).collect();
    let mut ordered: Vec<u16> =
        prioritize_legal_moves(&mut board, false).iter().map(|mv| mv.0).collect();
    legal.sort_unstable();
    ordered.sort_unstable();
    assert_eq!(legal, ordered);
}

#[test]
fn a_promotion_is_worth_a_queen() {
    let mut board = Board::from_fen("4k3/P7/8/8/8/8/8/4K3 w - - 0 1").unwrap();
    let promotion = generate_legal(&mut board)
        .into_iter()
        .find(|mv| mv.to_uci() == "a7a8q")
        .unwrap();
    assert_eq!(evaluate_move_value(&board, promotion, false), 1025);
}

#[test]
fn quiescence_keeps_only_noisy_moves_unless_in_check() {
    let mut board = Board::from_fen("6k1/p7/8/3q4/4P3/8/8/Q3K3 w - - 0 1").unwrap();
    assert!(!in_check(&board));
    let noisy = get_moves_to_dequiet(&mut board, false);
    for mv in &noisy {
        assert!(mv.is_capture() || gives_check(&mut board.clone(), *mv));
    }
    let mut checked = Board::from_fen("4k3/8/8/8/8/8/8/r3K3 w - - 0 1").unwrap();
    assert!(in_check(&checked));
    let evasions = get_moves_to_dequiet(&mut checked, false);
    assert_eq!(evasions.len(), generate_legal(&mut checked).len());
}

#[test]
fn killers_lead_the_quiet_group_and_history_orders_the_rest() {
    use_context_ordering();
}

fn use_context_ordering() {
    let fen = "4k3/8/8/8/8/8/8/R3K3 w - - 0 1";
    let mut board = Board::from_fen(fen).unwrap();
    let plain = prioritize_legal_moves(&mut board, false);
    let quiets: Vec<Move> = plain
        .iter()
        .copied()
        .filter(|mv| !mv.is_capture() && !gives_check(&mut board.clone(), *mv))
        .collect();
    let (killer, favoured) = (quiets[quiets.len() - 1], quiets[quiets.len() - 2]);
    let mut history = vec![0i32; HISTORY_SIZE];
    history[history_index(board.side_to_move(), favoured)] = 50;
    let context = OrderingContext {
        killers: [Some(killer), None],
        history: &history,
    };
    let ordered = prioritize_in_context(&mut board, false, &context);
    assert_eq!(ordered.len(), plain.len());
    let first_quiet = ordered
        .iter()
        .position(|mv| quiets.contains(mv))
        .unwrap();
    assert_eq!(ordered[first_quiet], killer);
    assert_eq!(ordered[first_quiet + 1], favoured);
    // The other quiet moves keep their value order.
    let rest: Vec<Move> = ordered[first_quiet + 2..].to_vec();
    let expected: Vec<Move> = quiets
        .iter()
        .copied()
        .filter(|mv| *mv != killer && *mv != favoured)
        .collect();
    assert_eq!(rest, expected);
}
