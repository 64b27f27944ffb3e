use brandobot_core::board::Board;
use brandobot_core::chess_move::Move;
use brandobot_core::movegen::generate_legal;
use brandobot_core::search::{
    budget_fits, compute_budget_ms, history_index, is_mate_score, mate_in_moves, order_tt_move_first,
    value_from_tt, value_to_tt, SearchLimits, SearchResult, Searcher, MATE,
};
use brandobot_core::tt::ExclusiveTranspositionTable;
use brandobot_core::types::Color;
use std::time::Instant;

const STARTPOS: &str = "rnbqkbnr/pppppppp/8/8/8/8/PPPPPPPP/RNBQKBNR w KQkq - 0 1";
const MIDGAME: &str = "r1bqk2r/pppp1ppp/2n2n2/2b1p3/2B1P3/3P1N2/PPP2PPP/RNBQK2R w KQkq - 0 1";
const MATE_IN_ONE: &str = "6k1/5ppp/8/8/8/8/5PPP/R5K1 w - - 0 1";

fn best(fen: &str, depth: i32) -> String {
    let mut board = Board::from_fen(fen).unwrap();
    let mut table = ExclusiveTranspositionTable::new();
    let mut searcher = Searcher::new(&mut table);
    searcher
        .best_move(&mut board, depth)
        .expect("a legal move exists")
        .to_uci()
}

fn run_search(fen: &str, limits: SearchLimits) -> SearchResult {
    let mut board = Board::from_fen(fen).unwrap();
    let mut table = ExclusiveTranspositionTable::new();
    let mut searcher = Searcher::new(&mut table);
    searcher.search(&mut board, &limits, Instant::now())
}

/// Every history score, read through the slots of all from/to pairs.
fn all_history<T: brandobot_core::tt::TranspositionTable>(searcher: &Searcher<T>) -> Vec<i32> {
    let mut scores = Vec::new();
    for side in [Color::White, Color::Black] {
        for word in 0..4096u16 {
            scores.push(searcher.history_score(side, Move(word)));
        }
    }
    scores
}

#[test]
fn records_the_pesto_shift_in_the_threatened_mate_position() {
    assert_eq!(
        best(
            "1r3rk1/p1p3pp/3bp3/1p1P1q2/P3pP2/2B1P2P/1P4Q1/4K1NR b K - 0 1",
            3
        ),
        "f5g6"
    );
}

#[test]
fn moves_the_king_out_of_a_mating_net() {
    assert_eq!(
        best(
            "1r1qr3/pppbbQ1k/2n1p1p1/2PpP3/3P4/2P2N2/P1B2PP1/1RB1K3 b - - 0 1",
            3
        ),
        "h7h8"
    );
}

#[test]
fn finds_the_mate_in_three() {
    assert_eq!(best("r5rk/5p1p/5R2/4B3/8/8/7P/7K w", 3), "f6a6");
}

#[test]
fn declines_to_sacrifice_the_rook() {
    assert_ne!(
        best("2r3k1/6p1/5p1p/p2r4/3p4/6B1/PPP2PPP/R3R1K1 w - - 0 1", 3),
        "e1e8"
    );
}

#[test]
fn budget_honors_movetime() {
    let limits = SearchLimits {
        move_time_ms: Some(1000),
        ..Default::default()
    };
    assert_eq!(compute_budget_ms(Color::White, &limits), Some(950));
}

#[test]
fn budget_in_sudden_death_is_a_thirtieth_plus_increment() {
    let limits = SearchLimits {
        white_time_ms: Some(60_000),
        white_increment_ms: 1_000,
        ..Default::default()
    };
    // 60000/30 + 0.7*1000 - 50 = 2000 + 700 - 50.
    assert_eq!(compute_budget_ms(Color::White, &limits), Some(2_650));
}

#[test]
fn budget_divides_by_moves_to_go() {
    let limits = SearchLimits {
        white_time_ms: Some(60_000),
        moves_to_go: Some(10),
        ..Default::default()
    };
    assert_eq!(compute_budget_ms(Color::White, &limits), Some(5_950));
}

#[test]
fn budget_is_capped_at_forty_percent() {
    let limits = SearchLimits {
        white_time_ms: Some(1_000),
        moves_to_go: Some(1),
        ..Default::default()
    };
    // remaining/1 = 1000, capped to 400, minus 50.
    assert_eq!(compute_budget_ms(Color::White, &limits), Some(350));
}

#[test]
fn budget_is_none_without_a_clock_or_movetime() {
    let limits = SearchLimits {
        max_depth: 4,
        ..Default::default()
    };
    assert_eq!(compute_budget_ms(Color::White, &limits), None);
}

#[test]
fn budget_uses_the_black_clock_for_black() {
    let limits = SearchLimits {
        white_time_ms: Some(1),
        black_time_ms: Some(30_000),
        black_increment_ms: 100,
        ..Default::default()
    };
    // 30000/30 + 70 - 50.
    assert_eq!(compute_budget_ms(Color::Black, &limits), Some(1_020));
    // A moves-to-go of zero counts as one.
    let limits = SearchLimits {
        white_time_ms: Some(1_000),
        moves_to_go: Some(0),
        ..Default::default()
    };
    assert_eq!(compute_budget_ms(Color::White, &limits), Some(350));
}

#[test]
fn mate_score_survives_a_tt_round_trip() {
    let root_relative = MATE - 5;
    let stored = value_to_tt(root_relative, 3);
    assert_eq!(value_from_tt(stored, 3), root_relative);
}

#[test]
fn ordinary_scores_are_stored_unchanged() {
    assert_eq!(value_to_tt(120, 7), 120);
    assert_eq!(value_from_tt(-120, 7), -120);
    assert_eq!(value_to_tt(-(MATE - 2), 4), -(MATE + 2));
    assert_eq!(value_from_tt(-(MATE + 2), 4), -(MATE - 2));
}

#[test]
fn mate_scores_count_moves() {
    assert!(is_mate_score(MATE - 1));
    assert!(is_mate_score(-(MATE - 4)));
    assert!(!is_mate_score(30_000));
    assert_eq!(mate_in_moves(MATE - 1), Some(1));
    assert_eq!(mate_in_moves(MATE - 5), Some(3));
    assert_eq!(mate_in_moves(-(MATE - 4)), Some(-2));
    assert_eq!(mate_in_moves(250), None);
}

#[test]
fn the_table_move_goes_first() {
    let moves = vec![Move(1), Move(2), Move(3), Move(4)];
    let ordered = order_tt_move_first(moves.clone(), Some(Move(3)));
    assert_eq!(ordered, vec![Move(3), Move(1), Move(2), Move(4)]);
    assert_eq!(order_tt_move_first(moves.clone(), Some(Move(9))), moves);
    assert_eq!(order_tt_move_first(moves.clone(), None), moves);
}

#[test]
fn search_reaches_the_requested_depth() {
    let result = run_search(
        STARTPOS,
        SearchLimits {
            max_depth: 4,
            ..Default::default()
        },
    );
    assert_eq!(result.depth, 4);
    assert!(result.best_move.is_some());
}

#[test]
fn a_tiny_budget_still_returns_a_move() {
    let result = run_search(
        MIDGAME,
        SearchLimits {
            max_depth: 64,
            move_time_ms: Some(1),
            ..Default::default()
        },
    );
    assert!(result.best_move.is_some());
}

#[test]
fn a_movetime_search_stays_within_a_sane_bound() {
    let result = run_search(
        MIDGAME,
        SearchLimits {
            max_depth: 64,
            move_time_ms: Some(200),
            ..Default::default()
        },
    );
    assert!(result.best_move.is_some());
    assert!(result.elapsed_ms < 2_000, "elapsed {}", result.elapsed_ms);
}

#[test]
fn node_limit_binds_the_search() {
    let result = run_search(
        STARTPOS,
        SearchLimits {
            max_depth: 64,
            node_limit: Some(50_000),
            ..Default::default()
        },
    );
    assert!(result.best_move.is_some());
    assert!(result.nodes >= 50_000, "nodes {}", result.nodes);
    assert!(result.nodes < 60_000, "nodes {}", result.nodes);
}

#[test]
fn node_limit_search_is_deterministic() {
    let limits = SearchLimits {
        max_depth: 64,
        node_limit: Some(20_000),
        ..Default::default()
    };
    let first = run_search(MIDGAME, limits);
    let second = run_search(MIDGAME, limits);
    assert_eq!(first.best_move, second.best_move);
    assert_eq!(first.nodes, second.nodes);
}

#[test]
fn a_tiny_node_budget_still_returns_a_move() {
    let result = run_search(
        MIDGAME,
        SearchLimits {
            max_depth: 64,
            node_limit: Some(1),
            ..Default::default()
        },
    );
    assert!(result.best_move.is_some());
}

#[test]
fn pv_first_move_is_the_best_move() {
    let result = run_search(
        STARTPOS,
        SearchLimits {
            max_depth: 4,
            ..Default::default()
        },
    );
    assert_eq!(
        result.principal_variation.first().copied(),
        result.best_move
    );
}

#[test]
fn pv_is_a_legal_sequence() {
    let result = run_search(
        MIDGAME,
        SearchLimits {
            max_depth: 4,
            ..Default::default()
        },
    );
    let mut board = Board::from_fen(MIDGAME).unwrap();
    for mv in &result.principal_variation {
        let legal = generate_legal(&mut board);
        assert!(legal.contains(mv), "{} not legal", mv.to_uci());
        board.make_move(*mv);
    }
}

#[test]
fn a_faster_mate_scores_higher() {
    let mate_in_one = run_search(
        MATE_IN_ONE,
        SearchLimits {
            max_depth: 4,
            ..Default::default()
        },
    );
    let mate_in_three = run_search(
        "r5rk/5p1p/5R2/4B3/8/8/7P/7K w",
        SearchLimits {
            max_depth: 4,
            ..Default::default()
        },
    );
    assert!(is_mate_score(mate_in_one.score));
    assert!(is_mate_score(mate_in_three.score));
    assert!(mate_in_one.score > mate_in_three.score);
    assert_eq!(mate_in_moves(mate_in_one.score), Some(1));
    assert_eq!(mate_in_moves(mate_in_three.score), Some(3));
}

fn nodes_after(fen: &str, depth: i32, warm: bool) -> u64 {
    let mut board = Board::from_fen(fen).unwrap();
    let mut table = ExclusiveTranspositionTable::new();
    if warm {
        let mut warmup = Searcher::new(&mut table);
        warmup.best_move(&mut board, depth - 1);
    }
    let mut searcher = Searcher::new(&mut table);
    searcher.best_move(&mut board, depth);
    searcher.nodes()
}

#[test]
fn a_warm_table_reduces_nodes() {
    let cold = nodes_after(MIDGAME, 5, false);
    let warm = nodes_after(MIDGAME, 5, true);
    assert!(warm < cold, "warm {warm} should be < cold {cold}");
}

#[test]
fn killers_and_history_update_on_a_quiet_cutoff() {
    let mut board = Board::from_fen("4k3/8/8/8/8/8/8/R3K3 w - - 0 1").unwrap();
    let mut table = ExclusiveTranspositionTable::new();
    let mut searcher = Searcher::new(&mut table);

    // A new searcher starts empty.
    assert!((0..128).all(|ply| searcher.killers_at(ply) == [None, None]));
    assert!(all_history(&searcher).iter().all(|&score| score == 0));

    let quiets: Vec<Move> = generate_legal(&mut board)
        .into_iter()
        .filter(|mv| !mv.is_capture() && mv.promotion().is_none())
        .collect();
    let (first, second) = (quiets[0], quiets[1]);

    // A quiet cutoff stores a killer and adds depth squared.
    searcher.record_cutoff(&board, first, 4, 0);
    assert_eq!(searcher.killers_at(0)[0], Some(first));
    assert_eq!(searcher.history_score(board.side_to_move(), first), 16);
    assert!(history_index(board.side_to_move(), first) < 8192);

    // A distinct killer shifts into the first slot.
    searcher.record_cutoff(&board, second, 3, 0);
    assert_eq!(searcher.killers_at(0), [Some(second), Some(first)]);

    // Recording the same killer leaves the slots unchanged.
    searcher.record_cutoff(&board, second, 2, 0);
    assert_eq!(searcher.killers_at(0), [Some(second), Some(first)]);
}

#[test]
fn history_accumulates_across_iterations() {
    let mut board = Board::from_fen(MIDGAME).unwrap();
    let mut table = ExclusiveTranspositionTable::new();
    let mut searcher = Searcher::new(&mut table);
    searcher.search(
        &mut board,
        &SearchLimits {
            max_depth: 5,
            ..Default::default()
        },
        Instant::now(),
    );
    assert!(all_history(&searcher).iter().any(|&score| score > 0));
}

#[test]
fn capture_tree_lists_every_legal_move_with_its_replies() {
    let mut board = Board::from_fen(MATE_IN_ONE).unwrap();
    let legal = generate_legal(&mut board);
    let mut table = ExclusiveTranspositionTable::new();
    let mut searcher = Searcher::new(&mut table);
    let tree = searcher.capture_tree(&mut board, 2, 2, 0);
    assert_eq!(tree.len(), legal.len());
    for node in &tree {
        assert!(legal.contains(&node.mv));
    }
    let mate = tree.iter().find(|node| node.mv.to_uci() == "a1a8").unwrap();
    assert!(is_mate_score(mate.value));
    assert!(mate.children.is_empty());
    assert!(searcher.capture_tree(&mut board, 2, 0, 0).is_empty());
}

#[test]
fn a_budget_that_would_overflow_is_refused() {
    let fits = SearchLimits {
        white_time_ms: Some(60_000),
        ..Default::default()
    };
    assert!(budget_fits(Color::White, &fits));
    let huge_clock = SearchLimits {
        white_time_ms: Some(u64::MAX),
        ..Default::default()
    };
    assert!(!budget_fits(Color::White, &huge_clock));
    assert!(budget_fits(Color::Black, &huge_clock));
    let huge_increment = SearchLimits {
        black_time_ms: Some(1_000),
        black_increment_ms: u64::MAX / 2,
        ..Default::default()
    };
    assert!(!budget_fits(Color::Black, &huge_increment));
    let fixed = SearchLimits {
        move_time_ms: Some(5),
        white_time_ms: Some(u64::MAX),
        ..Default::default()
    };
    assert!(budget_fits(Color::White, &fixed));
}

#[test]
fn a_depth_zero_search_still_names_a_move() {
    let mv = best(STARTPOS, 0);
    let mut board = Board::from_fen(STARTPOS).unwrap();
    assert!(generate_legal(&mut board).iter().any(|m| m.to_uci() == mv));
}

#[test]
fn a_warm_table_still_yields_a_principal_variation() {
    let mut board = Board::from_fen(MIDGAME).unwrap();
    let mut table = ExclusiveTranspositionTable::new();
    let limits = SearchLimits {
        max_depth: 4,
        ..Default::default()
    };
    {
        let mut warmup = Searcher::new(&mut table);
        warmup.search(&mut board, &limits, Instant::now());
    }
    let mut searcher = Searcher::new(&mut table);
    let result = searcher.search(&mut board, &limits, Instant::now());
    assert!(!result.principal_variation.is_empty());
    assert_eq!(result.principal_variation.first().copied(), result.best_move);
    let mut line = Board::from_fen(MIDGAME).unwrap();
    for mv in &result.principal_variation {
        assert!(generate_legal(&mut line).contains(mv));
        line.make_move(*mv);
    }
}

#[test]
fn a_checkmated_side_scores_the_mate_distance() {
    // White is mated (the fool's mate): the root has no move.
    let mut board =
        Board::from_fen("rnb1kbnr/pppp1ppp/8/4p3/6Pq/5P2/PPPPP2P/RNBQKBNR w KQkq - 1 3").unwrap();
    let mut table = ExclusiveTranspositionTable::new();
    let mut searcher = Searcher::new(&mut table);
    let result = searcher.search(
        &mut board,
        &SearchLimits {
            max_depth: 2,
            ..Default::default()
        },
        Instant::now(),
    );
    assert_eq!(result.best_move, None);
    assert_eq!(result.score, -MATE);
}

#[test]
fn a_node_budget_stops_at_exactly_its_count() {
    for budget in [1u64, 7, 1234, 20_000] {
        let result = run_search(
            MIDGAME,
            SearchLimits {
                max_depth: 64,
                node_limit: Some(budget),
                ..Default::default()
            },
        );
        assert_eq!(result.nodes, budget);
        assert!(result.best_move.is_some());
    }
}

#[test]
fn a_completed_iteration_leaves_a_principal_variation() {
    let result = run_search(
        MIDGAME,
        SearchLimits {
            max_depth: 3,
            ..Default::default()
        },
    );
    assert_eq!(result.depth, 3);
    assert!(!result.principal_variation.is_empty());
    assert_eq!(result.principal_variation.first(), result.best_move.as_ref());
}
