use brandobot_core::attacks::{
    bishop_attacks, bishop_deltas, king_attacks, knight_attacks, pawn_attacks, rook_attacks,
    rook_deltas, slider_attacks_on_the_fly,
};
use brandobot_core::magic::{count_ones, find_magic, slider_mask, tables};
use brandobot_core::types::Color;
use brandobot_core::zobrist::SplitMix64;

#[test]
fn magic_tables_match_the_on_the_fly_attacks() {
    let attacks = tables(u64::MAX).expect("every square finds a magic");
    let mut rng = SplitMix64::new(7);
    for square in 0u8..64 {
        let s = square as usize;
        assert_eq!(attacks.knight[s], knight_attacks(square));
        assert_eq!(attacks.king[s], king_attacks(square));
        assert_eq!(attacks.white_pawn[s], pawn_attacks(Color::White, square));
        assert_eq!(attacks.black_pawn[s], pawn_attacks(Color::Black, square));
        for _ in 0..64 {
            let occupancy = rng.next() & rng.next();
            assert_eq!(
                attacks.rook[s].attacks(occupancy),
                slider_attacks_on_the_fly(square, occupancy, &rook_deltas()),
                "rook on {square}"
            );
            assert_eq!(
                attacks.bishop[s].attacks(occupancy),
                bishop_attacks(square, occupancy),
                "bishop on {square}"
            );
            assert_eq!(attacks.rook[s].attacks(occupancy), rook_attacks(square, occupancy));
        }
    }
}

#[test]
fn slider_masks_leave_out_the_board_edges() {
    // Rook on a1: b1..g1 and a2..a7.
    assert_eq!(slider_mask(0, &rook_deltas()), 0x0001_0101_0101_017E);
    // Bishop on a1: b2..g7.
    assert_eq!(slider_mask(0, &bishop_deltas()), 0x0040_2010_0804_0200);
    // Rook on d4 sees ten relevant squares, bishop on d4 nine.
    assert_eq!(count_ones(slider_mask(27, &rook_deltas())), 10);
    assert_eq!(count_ones(slider_mask(27, &bishop_deltas())), 9);
    assert_eq!(count_ones(slider_mask(0, &rook_deltas())), 12);
}

#[test]
fn find_magic_draws_three_outputs_per_candidate() {
    let mask = slider_mask(0, &rook_deltas());
    let mut rng = SplitMix64::new(1);
    assert!(find_magic(0, &rook_deltas(), mask, &mut rng, 0).is_none());
    let mut fresh = SplitMix64::new(1);
    assert_eq!(rng.next(), fresh.next());

    let mut rng = SplitMix64::new(1);
    let magic = find_magic(0, &rook_deltas(), mask, &mut rng, 1_000_000).expect("a magic");
    assert_eq!(magic.mask, mask);
    assert_eq!(magic.shift, 64 - 12);
    assert_eq!(magic.table.len(), 1 << 12);
    // The magic is the AND of three consecutive draws, and the generator
    // stops right after them.
    let after = rng.next();
    let mut replay = SplitMix64::new(1);
    let mut outputs = vec![replay.next(), replay.next(), replay.next()];
    let mut found = false;
    while outputs.len() < 3_000_003 {
        let n = outputs.len();
        outputs.push(replay.next());
        if outputs[n] == after && outputs[n - 3] & outputs[n - 2] & outputs[n - 1] == magic.magic {
            found = true;
            break;
        }
        outputs.push(replay.next());
        outputs.push(replay.next());
    }
    assert!(found);
    // A blocker on b1 stops the rook there.
    assert_eq!(magic.attacks(0x2), slider_attacks_on_the_fly(0, 0x2, &rook_deltas()));
}

#[test]
fn count_ones_counts_set_bits() {
    assert_eq!(count_ones(0), 0);
    assert_eq!(count_ones(u64::MAX), 64);
    assert_eq!(count_ones(0xFF00_0000_0000_0001), 9);
}

#[test]
fn tables_give_up_when_no_candidate_may_be_tried() {
    assert!(tables(0).is_none());
    let mask = slider_mask(27, &bishop_deltas());
    let mut rng = SplitMix64::new(5);
    assert!(find_magic(27, &bishop_deltas(), mask, &mut rng, 0).is_none());
}
