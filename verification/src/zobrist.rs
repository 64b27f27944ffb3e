//! Zobrist hashing — the key identifying a position in the transposition table.
//!
//! Keys are the outputs of a SplitMix64 generator from a fixed seed, so hashes
//! are stable across runs. The n-th output of SplitMix64 depends only on the
//! seed and n, so a single key can be computed directly (`key_at`) without
//! materialising the whole table; `keys` builds the table by running the
//! generator, and both agree.
use vstd::prelude::*;
use vstd::wrapping::u64_specs::{wrapping_add, wrapping_mul};

verus! {

/// The seed of the Zobrist key generator.
pub const ZOBRIST_SEED: u64 = 0x0BAD_C0DE_DEAD_BEEF;

/// SplitMix64's state increment.
pub const GOLDEN_GAMMA: u64 = 0x9E37_79B9_7F4A_7C15;

/// SplitMix64's output function of a state.
pub open spec fn mix(z: u64) -> u64 {
    let a = wrapping_mul(z ^ (z >> 30u64), 0xBF58_476D_1CE4_E5B9u64);
    let b = wrapping_mul(a ^ (a >> 27u64), 0x94D0_49BB_1331_11EBu64);
    b ^ (b >> 31u64)
}

/// The generator's state after `n` steps from `seed`.
pub open spec fn splitmix_state(seed: u64, n: nat) -> u64 {
    ((seed + n * GOLDEN_GAMMA) % 0x1_0000_0000_0000_0000) as u64
}

/// The `n`-th output (counting from 0) of the generator seeded with `seed`.
pub open spec fn splitmix_output(seed: u64, n: nat) -> u64 {
    mix(splitmix_state(seed, n + 1))
}

/// The `n`-th Zobrist key: piece keys come first (index
/// `color * 384 + piece * 64 + square`), then the side key (768), the sixteen
/// castling keys (769..785) and the eight en-passant file keys (785..793).
pub open spec fn zobrist_key(n: nat) -> u64 {
    splitmix_output(ZOBRIST_SEED, n)
}

pub open spec fn piece_key_index(color: int, piece: int, square: int) -> int {
    color * 384 + piece * 64 + square
}

pub const SIDE_KEY_INDEX: u64 = 768;

pub const CASTLING_KEY_INDEX: u64 = 769;

pub const EN_PASSANT_KEY_INDEX: u64 = 785;

pub proof fn lemma_state_step(seed: u64, n: nat)
    ensures
        wrapping_add(splitmix_state(seed, n), GOLDEN_GAMMA) == splitmix_state(seed, n + 1),
{
    let m: int = 0x1_0000_0000_0000_0000;
    vstd::arithmetic::div_mod::lemma_add_mod_noop(seed + n * GOLDEN_GAMMA, GOLDEN_GAMMA as int, m);
    vstd::arithmetic::div_mod::lemma_small_mod(GOLDEN_GAMMA as nat, m as nat);
    assert(seed + (n + 1) * GOLDEN_GAMMA == seed + n * GOLDEN_GAMMA + GOLDEN_GAMMA) by (nonlinear_arith);
}

fn mix_exec(z: u64) -> (r: u64)
    ensures
        r == mix(z),
{
    let a = (z ^ (z >> 30)).wrapping_mul(0xBF58_476D_1CE4_E5B9);
    let b = (a ^ (a >> 27)).wrapping_mul(0x94D0_49BB_1331_11EB);
    b ^ (b >> 31)
}

/// The `n`-th Zobrist key, computed directly from the seed.
pub fn key_at(n: u64) -> (r: u64)
    requires
        n < 1000,
    ensures
        r == zobrist_key(n as nat),
{
    let state = ZOBRIST_SEED.wrapping_add((n + 1).wrapping_mul(GOLDEN_GAMMA));
    proof {
        let m: int = 0x1_0000_0000_0000_0000;
        let prod = (n + 1) * GOLDEN_GAMMA;
        assert(wrapping_mul((n + 1) as u64, GOLDEN_GAMMA) == prod % m);
        vstd::arithmetic::div_mod::lemma_add_mod_noop_right(ZOBRIST_SEED as int, prod, m);
        vstd::arithmetic::div_mod::lemma_small_mod(ZOBRIST_SEED as nat, m as nat);
        vstd::arithmetic::div_mod::lemma_mod_bound(prod, m);
        assert(state == splitmix_state(ZOBRIST_SEED, (n + 1) as nat));
    }
    mix_exec(state)
}

/// The state of a generator seeded with `seed` after `k` calls of `next`, as
/// `next` steps it.
pub open spec fn stepped(seed: u64, k: nat) -> u64
    decreases k,
{
    if k == 0 {
        seed
    } else {
        wrapping_add(stepped(seed, (k - 1) as nat), GOLDEN_GAMMA)
    }
}

/// A generator is fully determined by its seed: after `k` calls of `next`
/// from `new(seed)` its state is `splitmix_state(seed, k)`, and the next call
/// returns `splitmix_output(seed, k)`, whatever else has run.
pub proof fn law_generator_follows_its_seed(seed: u64, k: nat)
    ensures
        stepped(seed, k) == splitmix_state(seed, k),
        mix(stepped(seed, k + 1)) == splitmix_output(seed, k),
    decreases k,
{
    if k == 0 {
        vstd::arithmetic::div_mod::lemma_small_mod(seed as nat, 0x1_0000_0000_0000_0000);
    } else {
        law_generator_follows_its_seed(seed, (k - 1) as nat);
        lemma_state_step(seed, (k - 1) as nat);
    }
    lemma_state_step(seed, k);
}

/// A small, fast, fully deterministic PRNG (Vigna's SplitMix64) used to seed the
/// Zobrist keys.
pub struct SplitMix64 {
    state: u64,
}

impl View for SplitMix64 {
    type V = u64;

    closed spec fn view(&self) -> u64 {
        self.state
    }
}

impl SplitMix64 {
    pub fn new(seed: u64) -> (r: SplitMix64)
        ensures
            r@ == seed,
    {
        SplitMix64 { state: seed }
    }

    pub fn next(&mut self) -> (r: u64)
        ensures
            final(self)@ == wrapping_add(old(self)@, GOLDEN_GAMMA),
            r == mix(final(self)@),
    {
        self.state = self.state.wrapping_add(0x9E37_79B9_7F4A_7C15);
        mix_exec(self.state)
    }
}

pub struct Zobrist {
    pub piece_square: [[[u64; 64]; 6]; 2],
    pub side_to_move: u64,
    /// Indexed by the 4-bit castling-rights mask.
    pub castling: [u64; 16],
    /// Indexed by the file of the en-passant square.
    pub en_passant_file: [u64; 8],
}

impl Zobrist {
    /// Every entry is the generator output at its key index.
    pub open spec fn is_standard(&self) -> bool {
        &&& forall|c: int, p: int, s: int|
            0 <= c < 2 && 0 <= p < 6 && 0 <= s < 64 ==> #[trigger] self.piece_square[c][p][s]
                == zobrist_key(piece_key_index(c, p, s) as nat)
        &&& self.side_to_move == zobrist_key(768)
        &&& forall|i: int| 0 <= i < 16 ==> #[trigger] self.castling[i] == zobrist_key((769 + i) as nat)
        &&& forall|i: int|
            0 <= i < 8 ==> #[trigger] self.en_passant_file[i] == zobrist_key((785 + i) as nat)
    }
}

/// The Zobrist key table, generated from the fixed seed.
pub fn keys() -> (z: Zobrist)
    ensures
        z.is_standard(),
{
    let mut rng = SplitMix64::new(ZOBRIST_SEED);
    proof {
        assert(rng@ == splitmix_state(ZOBRIST_SEED, 0)) by {
            vstd::arithmetic::div_mod::lemma_small_mod(ZOBRIST_SEED as nat, 0x1_0000_0000_0000_0000);
        }
    }
    let mut piece_square = [[[0u64; 64]; 6]; 2];
    let mut c: usize = 0;
    while c < 2
        invariant
            c <= 2,
            rng@ == splitmix_state(ZOBRIST_SEED, (c * 384) as nat),
            forall|c2: int, p: int, s: int|
                0 <= c2 < c && 0 <= p < 6 && 0 <= s < 64 ==> #[trigger] piece_square[c2][p][s]
                    == zobrist_key(piece_key_index(c2, p, s) as nat),
        decreases 2 - c,
    {
        let mut p: usize = 0;
        while p < 6
            invariant
                c < 2,
                p <= 6,
                rng@ == splitmix_state(ZOBRIST_SEED, (c * 384 + p * 64) as nat),
                forall|c2: int, p2: int, s: int|
                    0 <= c2 < c && 0 <= p2 < 6 && 0 <= s < 64 ==> #[trigger] piece_square[c2][p2][s]
                        == zobrist_key(piece_key_index(c2, p2, s) as nat),
                forall|p2: int, s: int|
                    0 <= p2 < p && 0 <= s < 64 ==> #[trigger] piece_square[c as int][p2][s]
                        == zobrist_key(piece_key_index(c as int, p2, s) as nat),
            decreases 6 - p,
        {
            let mut s: usize = 0;
            while s < 64
                invariant
                    c < 2,
                    p < 6,
                    s <= 64,
                    rng@ == splitmix_state(ZOBRIST_SEED, (c * 384 + p * 64 + s) as nat),
                    forall|c2: int, p2: int, s2: int|
                        0 <= c2 < c && 0 <= p2 < 6 && 0 <= s2 < 64
                            ==> #[trigger] piece_square[c2][p2][s2] == zobrist_key(
                            piece_key_index(c2, p2, s2) as nat,
                        ),
                    forall|p2: int, s2: int|
                        0 <= p2 < p && 0 <= s2 < 64 ==> #[trigger] piece_square[c as int][p2][s2]
                            == zobrist_key(piece_key_index(c as int, p2, s2) as nat),
                    forall|s2: int|
                        0 <= s2 < s ==> #[trigger] piece_square[c as int][p as int][s2]
                            == zobrist_key(piece_key_index(c as int, p as int, s2) as nat),
                decreases 64 - s,
            {
                proof {
                    lemma_state_step(ZOBRIST_SEED, (c * 384 + p * 64 + s) as nat);
                }
                let v = rng.next();
                piece_square[c][p][s] = v;
                s = s + 1;
            }
            p = p + 1;
        }
        c = c + 1;
    }
    proof {
        lemma_state_step(ZOBRIST_SEED, 768);
    }
    let side_to_move = rng.next();
    let mut castling = [0u64; 16];
    let mut i: usize = 0;
    while i < 16
        invariant
            i <= 16,
            rng@ == splitmix_state(ZOBRIST_SEED, (769 + i) as nat),
            forall|j: int| 0 <= j < i ==> #[trigger] castling[j] == zobrist_key((769 + j) as nat),
        decreases 16 - i,
    {
        proof {
            lemma_state_step(ZOBRIST_SEED, (769 + i) as nat);
        }
        castling[i] = rng.next();
        i = i + 1;
    }
    let mut en_passant_file = [0u64; 8];
    let mut i: usize = 0;
    while i < 8
        invariant
            i <= 8,
            rng@ == splitmix_state(ZOBRIST_SEED, (785 + i) as nat),
            forall|j: int|
                0 <= j < i ==> #[trigger] en_passant_file[j] == zobrist_key((785 + j) as nat),
        decreases 8 - i,
    {
        proof {
            lemma_state_step(ZOBRIST_SEED, (785 + i) as nat);
        }
        en_passant_file[i] = rng.next();
        i = i + 1;
    }
    Zobrist { piece_square, side_to_move, castling, en_passant_file }
}

} // verus!
