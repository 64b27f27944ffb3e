//! The 4-bit move flags. Bit 3 marks a promotion and bit 2 a capture.
use vstd::prelude::*;

verus! {

pub const QUIET: u16 = 0;

pub const DOUBLE_PAWN_PUSH: u16 = 1;

pub const KING_CASTLE: u16 = 2;

pub const QUEEN_CASTLE: u16 = 3;

pub const CAPTURE: u16 = 4;

pub const EN_PASSANT: u16 = 5;

pub const PROMO_KNIGHT: u16 = 8;

pub const PROMO_BISHOP: u16 = 9;

pub const PROMO_ROOK: u16 = 10;

pub const PROMO_QUEEN: u16 = 11;

pub const PROMO_KNIGHT_CAPTURE: u16 = 12;

pub const PROMO_BISHOP_CAPTURE: u16 = 13;

pub const PROMO_ROOK_CAPTURE: u16 = 14;

pub const PROMO_QUEEN_CAPTURE: u16 = 15;

pub const CAPTURE_BIT: u16 = 4;

pub const PROMOTION_BIT: u16 = 8;

} // verus!
