use brandobot_core::attacks::{
    bishop_attacks, bishop_deltas, king_attacks, knight_attacks, pawn_attacks, queen_attacks,
    rook_attacks, rook_deltas, slider_attacks_on_the_fly,
};
use brandobot_core::types::Color;
use brandobot_core::zobrist::SplitMix64;

#[test]
fn magic_lookup_matches_on_the_fly() {
    let mut rng = SplitMix64::new(7);
    for square in 0u8..64 {
        for _ in 0..64 {
            let occupancy = rng.next() & rng.next();
            assert_eq!(
                rook_attacks(square, occupancy),
                slider_attacks_on_the_fly(square, occupancy, &rook_deltas()),
                "rook on {square}"
            );
            assert_eq!(
                bishop_attacks(square, occupancy),
                slider_attacks_on_the_fly(square, occupancy, &bishop_deltas()),
                "bishop on {square}"
            );
        }
    }
}

#[test]
fn knight_in_a_corner_has_two_moves() {
    assert_eq!(knight_attacks(0).count_ones(), 2);
}

#[test]
fn rook_on_an_empty_board_sees_fourteen_squares() {
    for square in 0u8..64 {
        assert_eq!(rook_attacks(square, 0).count_ones(), 14);
    }
}

#[test]
fn slider_stops_at_the_first_blocker() {
    // A rook on a1 with a blocker on a4 sees a2, a3, a4 and the first rank.
    let blocker = 1u64 << 24;
    let expected = (1u64 << 8) | (1u64 << 16) | (1u64 << 24) | 0xFE;
    assert_eq!(rook_attacks(0, blocker), expected);
}

#[test]
fn queen_is_rook_plus_bishop() {
    let occupancy = 0x0000_1200_0048_0000u64;
    for square in 0u8..64 {
        assert_eq!(
            queen_attacks(square, occupancy),
            rook_attacks(square, occupancy) | bishop_attacks(square, occupancy)
        );
    }
}

#[test]
fn edge_pawn_attacks_one_square() {
    assert_eq!(pawn_attacks(Color::White, 8), 1u64 << 17);
    assert_eq!(pawn_attacks(Color::Black, 55), 1u64 << 46);
    assert_eq!(pawn_attacks(Color::White, 63), 0);
}

#[test]
fn king_in_the_centre_has_eight_neighbours() {
    assert_eq!(king_attacks(27).count_ones(), 8);
    assert_eq!(king_attacks(0).count_ones(), 3);
}
