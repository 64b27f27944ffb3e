//! The PeSTO piece-square tables, as published: rank 8 first, from White's
//! side. The evaluation flips them to the engine's a1 = 0 order and mirrors
//! them by rank for Black.
use vstd::prelude::*;

use crate::types::PieceType;

verus! {

pub open spec fn mg_pawn_human(i: u8) -> int {
    match i {
        0 => 0,
        1 => 0,
        2 => 0,
        3 => 0,
        4 => 0,
        5 => 0,
        6 => 0,
        7 => 0,
        8 => 98,
        9 => 134,
        10 => 61,
        11 => 95,
        12 => 68,
        13 => 126,
        14 => 34,
        15 => -11,
        16 => -6,
        17 => 7,
        18 => 26,
        19 => 31,
        20 => 65,
        21 => 56,
        22 => 25,
        23 => -20,
        24 => -14,
        25 => 13,
        26 => 6,
        27 => 21,
        28 => 23,
        29 => 12,
        30 => 17,
        31 => -23,
        32 => -27,
        33 => -2,
        34 => -5,
        35 => 12,
        36 => 17,
        37 => 6,
        38 => 10,
        39 => -25,
        40 => -26,
        41 => -4,
        42 => -4,
        43 => -10,
        44 => 3,
        45 => 3,
        46 => 33,
        47 => -12,
        48 => -35,
        49 => -1,
        50 => -20,
        51 => -23,
        52 => -15,
        53 => 24,
        54 => 38,
        55 => -22,
        56 => 0,
        57 => 0,
        58 => 0,
        59 => 0,
        60 => 0,
        61 => 0,
        62 => 0,
        _ => 0,
    }
}

fn mg_pawn_at(index: usize) -> (r: i32)
    requires
        index < 64,
    ensures
        r == mg_pawn_human(index as u8),
{
    match index {
        0 => 0,
        1 => 0,
        2 => 0,
        3 => 0,
        4 => 0,
        5 => 0,
        6 => 0,
        7 => 0,
        8 => 98,
        9 => 134,
        10 => 61,
        11 => 95,
        12 => 68,
        13 => 126,
        14 => 34,
        15 => -11,
        16 => -6,
        17 => 7,
        18 => 26,
        19 => 31,
        20 => 65,
        21 => 56,
        22 => 25,
        23 => -20,
        24 => -14,
        25 => 13,
        26 => 6,
        27 => 21,
        28 => 23,
        29 => 12,
        30 => 17,
        31 => -23,
        32 => -27,
        33 => -2,
        34 => -5,
        35 => 12,
        36 => 17,
        37 => 6,
        38 => 10,
        39 => -25,
        40 => -26,
        41 => -4,
        42 => -4,
        43 => -10,
        44 => 3,
        45 => 3,
        46 => 33,
        47 => -12,
        48 => -35,
        49 => -1,
        50 => -20,
        51 => -23,
        52 => -15,
        53 => 24,
        54 => 38,
        55 => -22,
        56 => 0,
        57 => 0,
        58 => 0,
        59 => 0,
        60 => 0,
        61 => 0,
        62 => 0,
        _ => 0,
    }
}

pub open spec fn mg_knight_human(i: u8) -> int {
    match i {
        0 => -167,
        1 => -89,
        2 => -34,
        3 => -49,
        4 => 61,
        5 => -97,
        6 => -15,
        7 => -107,
        8 => -73,
        9 => -41,
        10 => 72,
        11 => 36,
        12 => 23,
        13 => 62,
        14 => 7,
        15 => -17,
        16 => -47,
        17 => 60,
        18 => 37,
        19 => 65,
        20 => 84,
        21 => 129,
        22 => 73,
        23 => 44,
        24 => -9,
        25 => 17,
        26 => 19,
        27 => 53,
        28 => 37,
        29 => 69,
        30 => 18,
        31 => 22,
        32 => -13,
        33 => 4,
        34 => 16,
        35 => 13,
        36 => 28,
        37 => 19,
        38 => 21,
        39 => -8,
        40 => -23,
        41 => -9,
        42 => 12,
        43 => 10,
        44 => 19,
        45 => 17,
        46 => 25,
        47 => -16,
        48 => -29,
        49 => -53,
        50 => -12,
        51 => -3,
        52 => -1,
        53 => 18,
        54 => -14,
        55 => -19,
        56 => -105,
        57 => -21,
        58 => -58,
        59 => -33,
        60 => -17,
        61 => -28,
        62 => -19,
        _ => -23,
    }
}

fn mg_knight_at(index: usize) -> (r: i32)
    requires
        index < 64,
    ensures
        r == mg_knight_human(index as u8),
{
    match index {
        0 => -167,
        1 => -89,
        2 => -34,
        3 => -49,
        4 => 61,
        5 => -97,
        6 => -15,
        7 => -107,
        8 => -73,
        9 => -41,
        10 => 72,
        11 => 36,
        12 => 23,
        13 => 62,
        14 => 7,
        15 => -17,
        16 => -47,
        17 => 60,
        18 => 37,
        19 => 65,
        20 => 84,
        21 => 129,
        22 => 73,
        23 => 44,
        24 => -9,
        25 => 17,
        26 => 19,
        27 => 53,
        28 => 37,
        29 => 69,
        30 => 18,
        31 => 22,
        32 => -13,
        33 => 4,
        34 => 16,
        35 => 13,
        36 => 28,
        37 => 19,
        38 => 21,
        39 => -8,
        40 => -23,
        41 => -9,
        42 => 12,
        43 => 10,
        44 => 19,
        45 => 17,
        46 => 25,
        47 => -16,
        48 => -29,
        49 => -53,
        50 => -12,
        51 => -3,
        52 => -1,
        53 => 18,
        54 => -14,
        55 => -19,
        56 => -105,
        57 => -21,
        58 => -58,
        59 => -33,
        60 => -17,
        61 => -28,
        62 => -19,
        _ => -23,
    }
}

pub open spec fn mg_bishop_human(i: u8) -> int {
    match i {
        0 => -29,
        1 => 4,
        2 => -82,
        3 => -37,
        4 => -25,
        5 => -42,
        6 => 7,
        7 => -8,
        8 => -26,
        9 => 16,
        10 => -18,
        11 => -13,
        12 => 30,
        13 => 59,
        14 => 18,
        15 => -47,
        16 => -16,
        17 => 37,
        18 => 43,
        19 => 40,
        20 => 35,
        21 => 50,
        22 => 37,
        23 => -2,
        24 => -4,
        25 => 5,
        26 => 19,
        27 => 50,
        28 => 37,
        29 => 37,
        30 => 7,
        31 => -2,
        32 => -6,
        33 => 13,
        34 => 13,
        35 => 26,
        36 => 34,
        37 => 12,
        38 => 10,
        39 => 4,
        40 => 0,
        41 => 15,
        42 => 15,
        43 => 15,
        44 => 14,
        45 => 27,
        46 => 18,
        47 => 10,
        48 => 4,
        49 => 15,
        50 => 16,
        51 => 0,
        52 => 7,
        53 => 21,
        54 => 33,
        55 => 1,
        56 => -33,
        57 => -3,
        58 => -14,
        59 => -21,
        60 => -13,
        61 => -12,
        62 => -39,
        _ => -21,
    }
}

fn mg_bishop_at(index: usize) -> (r: i32)
    requires
        index < 64,
    ensures
        r == mg_bishop_human(index as u8),
{
    match index {
        0 => -29,
        1 => 4,
        2 => -82,
        3 => -37,
        4 => -25,
        5 => -42,
        6 => 7,
        7 => -8,
        8 => -26,
        9 => 16,
        10 => -18,
        11 => -13,
        12 => 30,
        13 => 59,
        14 => 18,
        15 => -47,
        16 => -16,
        17 => 37,
        18 => 43,
        19 => 40,
        20 => 35,
        21 => 50,
        22 => 37,
        23 => -2,
        24 => -4,
        25 => 5,
        26 => 19,
        27 => 50,
        28 => 37,
        29 => 37,
        30 => 7,
        31 => -2,
        32 => -6,
        33 => 13,
        34 => 13,
        35 => 26,
        36 => 34,
        37 => 12,
        38 => 10,
        39 => 4,
        40 => 0,
        41 => 15,
        42 => 15,
        43 => 15,
        44 => 14,
        45 => 27,
        46 => 18,
        47 => 10,
        48 => 4,
        49 => 15,
        50 => 16,
        51 => 0,
        52 => 7,
        53 => 21,
        54 => 33,
        55 => 1,
        56 => -33,
        57 => -3,
        58 => -14,
        59 => -21,
        60 => -13,
        61 => -12,
        62 => -39,
        _ => -21,
    }
}

pub open spec fn mg_rook_human(i: u8) -> int {
    match i {
        0 => 32,
        1 => 42,
        2 => 32,
        3 => 51,
        4 => 63,
        5 => 9,
        6 => 31,
        7 => 43,
        8 => 27,
        9 => 32,
        10 => 58,
        11 => 62,
        12 => 80,
        13 => 67,
        14 => 26,
        15 => 44,
        16 => -5,
        17 => 19,
        18 => 26,
        19 => 36,
        20 => 17,
        21 => 45,
        22 => 61,
        23 => 16,
        24 => -24,
        25 => -11,
        26 => 7,
        27 => 26,
        28 => 24,
        29 => 35,
        30 => -8,
        31 => -20,
        32 => -36,
        33 => -26,
        34 => -12,
        35 => -1,
        36 => 9,
        37 => -7,
        38 => 6,
        39 => -23,
        40 => -45,
        41 => -25,
        42 => -16,
        43 => -17,
        44 => 3,
        45 => 0,
        46 => -5,
        47 => -33,
        48 => -44,
        49 => -16,
        50 => -20,
        51 => -9,
        52 => -1,
        53 => 11,
        54 => -6,
        55 => -71,
        56 => -19,
        57 => -13,
        58 => 1,
        59 => 17,
        60 => 16,
        61 => 7,
        62 => -37,
        _ => -26,
    }
}

fn mg_rook_at(index: usize) -> (r: i32)
    requires
        index < 64,
    ensures
        r == mg_rook_human(index as u8),
{
    match index {
        0 => 32,
        1 => 42,
        2 => 32,
        3 => 51,
        4 => 63,
        5 => 9,
        6 => 31,
        7 => 43,
        8 => 27,
        9 => 32,
        10 => 58,
        11 => 62,
        12 => 80,
        13 => 67,
        14 => 26,
        15 => 44,
        16 => -5,
        17 => 19,
        18 => 26,
        19 => 36,
        20 => 17,
        21 => 45,
        22 => 61,
        23 => 16,
        24 => -24,
        25 => -11,
        26 => 7,
        27 => 26,
        28 => 24,
        29 => 35,
        30 => -8,
        31 => -20,
        32 => -36,
        33 => -26,
        34 => -12,
        35 => -1,
        36 => 9,
        37 => -7,
        38 => 6,
        39 => -23,
        40 => -45,
        41 => -25,
        42 => -16,
        43 => -17,
        44 => 3,
        45 => 0,
        46 => -5,
        47 => -33,
        48 => -44,
        49 => -16,
        50 => -20,
        51 => -9,
        52 => -1,
        53 => 11,
        54 => -6,
        55 => -71,
        56 => -19,
        57 => -13,
        58 => 1,
        59 => 17,
        60 => 16,
        61 => 7,
        62 => -37,
        _ => -26,
    }
}

pub open spec fn mg_queen_human(i: u8) -> int {
    match i {
        0 => -28,
        1 => 0,
        2 => 29,
        3 => 12,
        4 => 59,
        5 => 44,
        6 => 43,
        7 => 45,
        8 => -24,
        9 => -39,
        10 => -5,
        11 => 1,
        12 => -16,
        13 => 57,
        14 => 28,
        15 => 54,
        16 => -13,
        17 => -17,
        18 => 7,
        19 => 8,
        20 => 29,
        21 => 56,
        22 => 47,
        23 => 57,
        24 => -27,
        25 => -27,
        26 => -16,
        27 => -16,
        28 => -1,
        29 => 17,
        30 => -2,
        31 => 1,
        32 => -9,
        33 => -26,
        34 => -9,
        35 => -10,
        36 => -2,
        37 => -4,
        38 => 3,
        39 => -3,
        40 => -14,
        41 => 2,
        42 => -11,
        43 => -2,
        44 => -5,
        45 => 2,
        46 => 14,
        47 => 5,
        48 => -35,
        49 => -8,
        50 => 11,
        51 => 2,
        52 => 8,
        53 => 15,
        54 => -3,
        55 => 1,
        56 => -1,
        57 => -18,
        58 => -9,
        59 => 10,
        60 => -15,
        61 => -25,
        62 => -31,
        _ => -50,
    }
}

fn mg_queen_at(index: usize) -> (r: i32)
    requires
        index < 64,
    ensures
        r == mg_queen_human(index as u8),
{
    match index {
        0 => -28,
        1 => 0,
        2 => 29,
        3 => 12,
        4 => 59,
        5 => 44,
        6 => 43,
        7 => 45,
        8 => -24,
        9 => -39,
        10 => -5,
        11 => 1,
        12 => -16,
        13 => 57,
        14 => 28,
        15 => 54,
        16 => -13,
        17 => -17,
        18 => 7,
        19 => 8,
        20 => 29,
        21 => 56,
        22 => 47,
        23 => 57,
        24 => -27,
        25 => -27,
        26 => -16,
        27 => -16,
        28 => -1,
        29 => 17,
        30 => -2,
        31 => 1,
        32 => -9,
        33 => -26,
        34 => -9,
        35 => -10,
        36 => -2,
        37 => -4,
        38 => 3,
        39 => -3,
        40 => -14,
        41 => 2,
        42 => -11,
        43 => -2,
        44 => -5,
        45 => 2,
        46 => 14,
        47 => 5,
        48 => -35,
        49 => -8,
        50 => 11,
        51 => 2,
        52 => 8,
        53 => 15,
        54 => -3,
        55 => 1,
        56 => -1,
        57 => -18,
        58 => -9,
        59 => 10,
        60 => -15,
        61 => -25,
        62 => -31,
        _ => -50,
    }
}

pub open spec fn mg_king_human(i: u8) -> int {
    match i {
        0 => -65,
        1 => 23,
        2 => 16,
        3 => -15,
        4 => -56,
        5 => -34,
        6 => 2,
        7 => 13,
        8 => 29,
        9 => -1,
        10 => -20,
        11 => -7,
        12 => -8,
        13 => -4,
        14 => -38,
        15 => -29,
        16 => -9,
        17 => 24,
        18 => 2,
        19 => -16,
        20 => -20,
        21 => 6,
        22 => 22,
        23 => -22,
        24 => -17,
        25 => -20,
        26 => -12,
        27 => -27,
        28 => -30,
        29 => -25,
        30 => -14,
        31 => -36,
        32 => -49,
        33 => -1,
        34 => -27,
        35 => -39,
        36 => -46,
        37 => -44,
        38 => -33,
        39 => -51,
        40 => -14,
        41 => -14,
        42 => -22,
        43 => -46,
        44 => -44,
        45 => -30,
        46 => -15,
        47 => -27,
        48 => 1,
        49 => 7,
        50 => -8,
        51 => -64,
        52 => -43,
        53 => -16,
        54 => 9,
        55 => 8,
        56 => -15,
        57 => 36,
        58 => 12,
        59 => -54,
        60 => 8,
        61 => -28,
        62 => 24,
        _ => 14,
    }
}

fn mg_king_at(index: usize) -> (r: i32)
    requires
        index < 64,
    ensures
        r == mg_king_human(index as u8),
{
    match index {
        0 => -65,
        1 => 23,
        2 => 16,
        3 => -15,
        4 => -56,
        5 => -34,
        6 => 2,
        7 => 13,
        8 => 29,
        9 => -1,
        10 => -20,
        11 => -7,
        12 => -8,
        13 => -4,
        14 => -38,
        15 => -29,
        16 => -9,
        17 => 24,
        18 => 2,
        19 => -16,
        20 => -20,
        21 => 6,
        22 => 22,
        23 => -22,
        24 => -17,
        25 => -20,
        26 => -12,
        27 => -27,
        28 => -30,
        29 => -25,
        30 => -14,
        31 => -36,
        32 => -49,
        33 => -1,
        34 => -27,
        35 => -39,
        36 => -46,
        37 => -44,
        38 => -33,
        39 => -51,
        40 => -14,
        41 => -14,
        42 => -22,
        43 => -46,
        44 => -44,
        45 => -30,
        46 => -15,
        47 => -27,
        48 => 1,
        49 => 7,
        50 => -8,
        51 => -64,
        52 => -43,
        53 => -16,
        54 => 9,
        55 => 8,
        56 => -15,
        57 => 36,
        58 => 12,
        59 => -54,
        60 => 8,
        61 => -28,
        62 => 24,
        _ => 14,
    }
}

pub open spec fn eg_pawn_human(i: u8) -> int {
    match i {
        0 => 0,
        1 => 0,
        2 => 0,
        3 => 0,
        4 => 0,
        5 => 0,
        6 => 0,
        7 => 0,
        8 => 178,
        9 => 173,
        10 => 158,
        11 => 134,
        12 => 147,
        13 => 132,
        14 => 165,
        15 => 187,
        16 => 94,
        17 => 100,
        18 => 85,
        19 => 67,
        20 => 56,
        21 => 53,
        22 => 82,
        23 => 84,
        24 => 32,
        25 => 24,
        26 => 13,
        27 => 5,
        28 => -2,
        29 => 4,
        30 => 17,
        31 => 17,
        32 => 13,
        33 => 9,
        34 => -3,
        35 => -7,
        36 => -7,
        37 => -8,
        38 => 3,
        39 => -1,
        40 => 4,
        41 => 7,
        42 => -6,
        43 => 1,
        44 => 0,
        45 => -5,
        46 => -1,
        47 => -8,
        48 => 13,
        49 => 8,
        50 => 8,
        51 => 10,
        52 => 13,
        53 => 0,
        54 => 2,
        55 => -7,
        56 => 0,
        57 => 0,
        58 => 0,
        59 => 0,
        60 => 0,
        61 => 0,
        62 => 0,
        _ => 0,
    }
}

fn eg_pawn_at(index: usize) -> (r: i32)
    requires
        index < 64,
    ensures
        r == eg_pawn_human(index as u8),
{
    match index {
        0 => 0,
        1 => 0,
        2 => 0,
        3 => 0,
        4 => 0,
        5 => 0,
        6 => 0,
        7 => 0,
        8 => 178,
        9 => 173,
        10 => 158,
        11 => 134,
        12 => 147,
        13 => 132,
        14 => 165,
        15 => 187,
        16 => 94,
        17 => 100,
        18 => 85,
        19 => 67,
        20 => 56,
        21 => 53,
        22 => 82,
        23 => 84,
        24 => 32,
        25 => 24,
        26 => 13,
        27 => 5,
        28 => -2,
        29 => 4,
        30 => 17,
        31 => 17,
        32 => 13,
        33 => 9,
        34 => -3,
        35 => -7,
        36 => -7,
        37 => -8,
        38 => 3,
        39 => -1,
        40 => 4,
        41 => 7,
        42 => -6,
        43 => 1,
        44 => 0,
        45 => -5,
        46 => -1,
        47 => -8,
        48 => 13,
        49 => 8,
        50 => 8,
        51 => 10,
        52 => 13,
        53 => 0,
        54 => 2,
        55 => -7,
        56 => 0,
        57 => 0,
        58 => 0,
        59 => 0,
        60 => 0,
        61 => 0,
        62 => 0,
        _ => 0,
    }
}

pub open spec fn eg_knight_human(i: u8) -> int {
    match i {
        0 => -58,
        1 => -38,
        2 => -13,
        3 => -28,
        4 => -31,
        5 => -27,
        6 => -63,
        7 => -99,
        8 => -25,
        9 => -8,
        10 => -25,
        11 => -2,
        12 => -9,
        13 => -25,
        14 => -24,
        15 => -52,
        16 => -24,
        17 => -20,
        18 => 10,
        19 => 9,
        20 => -1,
        21 => -9,
        22 => -19,
        23 => -41,
        24 => -17,
        25 => 3,
        26 => 22,
        27 => 22,
        28 => 22,
        29 => 11,
        30 => 8,
        31 => -18,
        32 => -18,
        33 => -6,
        34 => 16,
        35 => 25,
        36 => 16,
        37 => 17,
        38 => 4,
        39 => -18,
        40 => -23,
        41 => -3,
        42 => -1,
        43 => 15,
        44 => 10,
        45 => -3,
        46 => -20,
        47 => -22,
        48 => -42,
        49 => -20,
        50 => -10,
        51 => -5,
        52 => -2,
        53 => -20,
        54 => -23,
        55 => -44,
        56 => -29,
        57 => -51,
        58 => -23,
        59 => -15,
        60 => -22,
        61 => -18,
        62 => -50,
        _ => -64,
    }
}

fn eg_knight_at(index: usize) -> (r: i32)
    requires
        index < 64,
    ensures
        r == eg_knight_human(index as u8),
{
    match index {
        0 => -58,
        1 => -38,
        2 => -13,
        3 => -28,
        4 => -31,
        5 => -27,
        6 => -63,
        7 => -99,
        8 => -25,
        9 => -8,
        10 => -25,
        11 => -2,
        12 => -9,
        13 => -25,
        14 => -24,
        15 => -52,
        16 => -24,
        17 => -20,
        18 => 10,
        19 => 9,
        20 => -1,
        21 => -9,
        22 => -19,
        23 => -41,
        24 => -17,
        25 => 3,
        26 => 22,
        27 => 22,
        28 => 22,
        29 => 11,
        30 => 8,
        31 => -18,
        32 => -18,
        33 => -6,
        34 => 16,
        35 => 25,
        36 => 16,
        37 => 17,
        38 => 4,
        39 => -18,
        40 => -23,
        41 => -3,
        42 => -1,
        43 => 15,
        44 => 10,
        45 => -3,
        46 => -20,
        47 => -22,
        48 => -42,
        49 => -20,
        50 => -10,
        51 => -5,
        52 => -2,
        53 => -20,
        54 => -23,
        55 => -44,
        56 => -29,
        57 => -51,
        58 => -23,
        59 => -15,
        60 => -22,
        61 => -18,
        62 => -50,
        _ => -64,
    }
}

pub open spec fn eg_bishop_human(i: u8) -> int {
    match i {
        0 => -14,
        1 => -21,
        2 => -11,
        3 => -8,
        4 => -7,
        5 => -9,
        6 => -17,
        7 => -24,
        8 => -8,
        9 => -4,
        10 => 7,
        11 => -12,
        12 => -3,
        13 => -13,
        14 => -4,
        15 => -14,
        16 => 2,
        17 => -8,
        18 => 0,
        19 => -1,
        20 => -2,
        21 => 6,
        22 => 0,
        23 => 4,
        24 => -3,
        25 => 9,
        26 => 12,
        27 => 9,
        28 => 14,
        29 => 10,
        30 => 3,
        31 => 2,
        32 => -6,
        33 => 3,
        34 => 13,
        35 => 19,
        36 => 7,
        37 => 10,
        38 => -3,
        39 => -9,
        40 => -12,
        41 => -3,
        42 => 8,
        43 => 10,
        44 => 13,
        45 => 3,
        46 => -7,
        47 => -15,
        48 => -14,
        49 => -18,
        50 => -7,
        51 => -1,
        52 => 4,
        53 => -9,
        54 => -15,
        55 => -27,
        56 => -23,
        57 => -9,
        58 => -23,
        59 => -5,
        60 => -9,
        61 => -16,
        62 => -5,
        _ => -17,
    }
}

fn eg_bishop_at(index: usize) -> (r: i32)
    requires
        index < 64,
    ensures
        r == eg_bishop_human(index as u8),
{
    match index {
        0 => -14,
        1 => -21,
        2 => -11,
        3 => -8,
        4 => -7,
        5 => -9,
        6 => -17,
        7 => -24,
        8 => -8,
        9 => -4,
        10 => 7,
        11 => -12,
        12 => -3,
        13 => -13,
        14 => -4,
        15 => -14,
        16 => 2,
        17 => -8,
        18 => 0,
        19 => -1,
        20 => -2,
        21 => 6,
        22 => 0,
        23 => 4,
        24 => -3,
        25 => 9,
        26 => 12,
        27 => 9,
        28 => 14,
        29 => 10,
        30 => 3,
        31 => 2,
        32 => -6,
        33 => 3,
        34 => 13,
        35 => 19,
        36 => 7,
        37 => 10,
        38 => -3,
        39 => -9,
        40 => -12,
        41 => -3,
        42 => 8,
        43 => 10,
        44 => 13,
        45 => 3,
        46 => -7,
        47 => -15,
        48 => -14,
        49 => -18,
        50 => -7,
        51 => -1,
        52 => 4,
        53 => -9,
        54 => -15,
        55 => -27,
        56 => -23,
        57 => -9,
        58 => -23,
        59 => -5,
        60 => -9,
        61 => -16,
        62 => -5,
        _ => -17,
    }
}

pub open spec fn eg_rook_human(i: u8) -> int {
    match i {
        0 => 13,
        1 => 10,
        2 => 18,
        3 => 15,
        4 => 12,
        5 => 12,
        6 => 8,
        7 => 5,
        8 => 11,
        9 => 13,
        10 => 13,
        11 => 11,
        12 => -3,
        13 => 3,
        14 => 8,
        15 => 3,
        16 => 7,
        17 => 7,
        18 => 7,
        19 => 5,
        20 => 4,
        21 => -3,
        22 => -5,
        23 => -3,
        24 => 4,
        25 => 3,
        26 => 13,
        27 => 1,
        28 => 2,
        29 => 1,
        30 => -1,
        31 => 2,
        32 => 3,
        33 => 5,
        34 => 8,
        35 => 4,
        36 => -5,
        37 => -6,
        38 => -8,
        39 => -11,
        40 => -4,
        41 => 0,
        42 => -5,
        43 => -1,
        44 => -7,
        45 => -12,
        46 => -8,
        47 => -16,
        48 => -6,
        49 => -6,
        50 => 0,
        51 => 2,
        52 => -9,
        53 => -9,
        54 => -11,
        55 => -3,
        56 => -9,
        57 => 2,
        58 => 3,
        59 => -1,
        60 => -5,
        61 => -13,
        62 => 4,
        _ => -20,
    }
}

fn eg_rook_at(index: usize) -> (r: i32)
    requires
        index < 64,
    ensures
        r == eg_rook_human(index as u8),
{
    match index {
        0 => 13,
        1 => 10,
        2 => 18,
        3 => 15,
        4 => 12,
        5 => 12,
        6 => 8,
        7 => 5,
        8 => 11,
        9 => 13,
        10 => 13,
        11 => 11,
        12 => -3,
        13 => 3,
        14 => 8,
        15 => 3,
        16 => 7,
        17 => 7,
        18 => 7,
        19 => 5,
        20 => 4,
        21 => -3,
        22 => -5,
        23 => -3,
        24 => 4,
        25 => 3,
        26 => 13,
        27 => 1,
        28 => 2,
        29 => 1,
        30 => -1,
        31 => 2,
        32 => 3,
        33 => 5,
        34 => 8,
        35 => 4,
        36 => -5,
        37 => -6,
        38 => -8,
        39 => -11,
        40 => -4,
        41 => 0,
        42 => -5,
        43 => -1,
        44 => -7,
        45 => -12,
        46 => -8,
        47 => -16,
        48 => -6,
        49 => -6,
        50 => 0,
        51 => 2,
        52 => -9,
        53 => -9,
        54 => -11,
        55 => -3,
        56 => -9,
        57 => 2,
        58 => 3,
        59 => -1,
        60 => -5,
        61 => -13,
        62 => 4,
        _ => -20,
    }
}

pub open spec fn eg_queen_human(i: u8) -> int {
    match i {
        0 => -9,
        1 => 22,
        2 => 22,
        3 => 27,
        4 => 27,
        5 => 19,
        6 => 10,
        7 => 20,
        8 => -17,
        9 => 20,
        10 => 32,
        11 => 41,
        12 => 58,
        13 => 25,
        14 => 30,
        15 => 0,
        16 => -20,
        17 => 6,
        18 => 9,
        19 => 49,
        20 => 47,
        21 => 35,
        22 => 19,
        23 => 9,
        24 => 3,
        25 => 22,
        26 => 24,
        27 => 45,
        28 => 57,
        29 => 40,
        30 => 57,
        31 => 36,
        32 => -18,
        33 => 28,
        34 => 19,
        35 => 47,
        36 => 31,
        37 => 34,
        38 => 39,
        39 => 23,
        40 => -16,
        41 => -27,
        42 => 15,
        43 => 6,
        44 => 9,
        45 => 17,
        46 => 10,
        47 => 5,
        48 => -22,
        49 => -23,
        50 => -30,
        51 => -16,
        52 => -16,
        53 => -23,
        54 => -36,
        55 => -32,
        56 => -33,
        57 => -28,
        58 => -22,
        59 => -43,
        60 => -5,
        61 => -32,
        62 => -20,
        _ => -41,
    }
}

fn eg_queen_at(index: usize) -> (r: i32)
    requires
        index < 64,
    ensures
        r == eg_queen_human(index as u8),
{
    match index {
        0 => -9,
        1 => 22,
        2 => 22,
        3 => 27,
        4 => 27,
        5 => 19,
        6 => 10,
        7 => 20,
        8 => -17,
        9 => 20,
        10 => 32,
        11 => 41,
        12 => 58,
        13 => 25,
        14 => 30,
        15 => 0,
        16 => -20,
        17 => 6,
        18 => 9,
        19 => 49,
        20 => 47,
        21 => 35,
        22 => 19,
        23 => 9,
        24 => 3,
        25 => 22,
        26 => 24,
        27 => 45,
        28 => 57,
        29 => 40,
        30 => 57,
        31 => 36,
        32 => -18,
        33 => 28,
        34 => 19,
        35 => 47,
        36 => 31,
        37 => 34,
        38 => 39,
        39 => 23,
        40 => -16,
        41 => -27,
        42 => 15,
        43 => 6,
        44 => 9,
        45 => 17,
        46 => 10,
        47 => 5,
        48 => -22,
        49 => -23,
        50 => -30,
        51 => -16,
        52 => -16,
        53 => -23,
        54 => -36,
        55 => -32,
        56 => -33,
        57 => -28,
        58 => -22,
        59 => -43,
        60 => -5,
        61 => -32,
        62 => -20,
        _ => -41,
    }
}

pub open spec fn eg_king_human(i: u8) -> int {
    match i {
        0 => -74,
        1 => -35,
        2 => -18,
        3 => -18,
        4 => -11,
        5 => 15,
        6 => 4,
        7 => -17,
        8 => -12,
        9 => 17,
        10 => 14,
        11 => 17,
        12 => 17,
        13 => 38,
        14 => 23,
        15 => 11,
        16 => 10,
        17 => 17,
        18 => 23,
        19 => 15,
        20 => 20,
        21 => 45,
        22 => 44,
        23 => 13,
        24 => -8,
        25 => 22,
        26 => 24,
        27 => 27,
        28 => 26,
        29 => 33,
        30 => 26,
        31 => 3,
        32 => -18,
        33 => -4,
        34 => 21,
        35 => 24,
        36 => 27,
        37 => 23,
        38 => 9,
        39 => -11,
        40 => -19,
        41 => -3,
        42 => 11,
        43 => 21,
        44 => 23,
        45 => 16,
        46 => 7,
        47 => -9,
        48 => -27,
        49 => -11,
        50 => 4,
        51 => 13,
        52 => 14,
        53 => 4,
        54 => -5,
        55 => -17,
        56 => -53,
        57 => -34,
        58 => -21,
        59 => -11,
        60 => -28,
        61 => -14,
        62 => -24,
        _ => -43,
    }
}

fn eg_king_at(index: usize) -> (r: i32)
    requires
        index < 64,
    ensures
        r == eg_king_human(index as u8),
{
    match index {
        0 => -74,
        1 => -35,
        2 => -18,
        3 => -18,
        4 => -11,
        5 => 15,
        6 => 4,
        7 => -17,
        8 => -12,
        9 => 17,
        10 => 14,
        11 => 17,
        12 => 17,
        13 => 38,
        14 => 23,
        15 => 11,
        16 => 10,
        17 => 17,
        18 => 23,
        19 => 15,
        20 => 20,
        21 => 45,
        22 => 44,
        23 => 13,
        24 => -8,
        25 => 22,
        26 => 24,
        27 => 27,
        28 => 26,
        29 => 33,
        30 => 26,
        31 => 3,
        32 => -18,
        33 => -4,
        34 => 21,
        35 => 24,
        36 => 27,
        37 => 23,
        38 => 9,
        39 => -11,
        40 => -19,
        41 => -3,
        42 => 11,
        43 => 21,
        44 => 23,
        45 => 16,
        46 => 7,
        47 => -9,
        48 => -27,
        49 => -11,
        50 => 4,
        51 => 13,
        52 => 14,
        53 => 4,
        54 => -5,
        55 => -17,
        56 => -53,
        57 => -34,
        58 => -21,
        59 => -11,
        60 => -28,
        61 => -14,
        62 => -24,
        _ => -43,
    }
}

/// Entry `i` of the published table of `piece`, middlegame (`mg`) or endgame.
pub open spec fn human_entry(mg: bool, piece: PieceType, i: int) -> int {
    if mg {
        match piece {
            PieceType::Pawn => mg_pawn_human(i as u8),
            PieceType::Knight => mg_knight_human(i as u8),
            PieceType::Bishop => mg_bishop_human(i as u8),
            PieceType::Rook => mg_rook_human(i as u8),
            PieceType::Queen => mg_queen_human(i as u8),
            PieceType::King => mg_king_human(i as u8),
        }
    } else {
        match piece {
            PieceType::Pawn => eg_pawn_human(i as u8),
            PieceType::Knight => eg_knight_human(i as u8),
            PieceType::Bishop => eg_bishop_human(i as u8),
            PieceType::Rook => eg_rook_human(i as u8),
            PieceType::Queen => eg_queen_human(i as u8),
            PieceType::King => eg_king_human(i as u8),
        }
    }
}

/// Entry `index` of the published table of `piece`.
pub fn human_value(mg: bool, piece: PieceType, index: usize) -> (r: i32)
    requires
        index < 64,
    ensures
        r == human_entry(mg, piece, index as int),
{
    if mg {
        match piece {
            PieceType::Pawn => mg_pawn_at(index),
            PieceType::Knight => mg_knight_at(index),
            PieceType::Bishop => mg_bishop_at(index),
            PieceType::Rook => mg_rook_at(index),
            PieceType::Queen => mg_queen_at(index),
            PieceType::King => mg_king_at(index),
        }
    } else {
        match piece {
            PieceType::Pawn => eg_pawn_at(index),
            PieceType::Knight => eg_knight_at(index),
            PieceType::Bishop => eg_bishop_at(index),
            PieceType::Rook => eg_rook_at(index),
            PieceType::Queen => eg_queen_at(index),
            PieceType::King => eg_king_at(index),
        }
    }
}

/// Every published entry lies within 200 centipawns.
pub proof fn lemma_tables_bounded(mg: bool, piece: PieceType, i: int)
    requires
        0 <= i < 64,
    ensures
        -200 <= human_entry(mg, piece, i) <= 200,
{
}

} // verus!
