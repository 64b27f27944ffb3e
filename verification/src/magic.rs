//! Magic bitboards for the sliders.
//!
//! For each square, the relevant occupancy (`mask`) of a slider is hashed by a
//! multiplication with a "magic" number; the top bits of the product index a
//! table of precomputed attack sets. A magic is searched with a seeded
//! generator until every subset of the mask lands on a slot that holds its own
//! attack set (two subsets may share a slot only when their attacks agree).
use vstd::prelude::*;
use vstd::wrapping::u64_specs::{wrapping_mul, wrapping_sub};

use crate::attacks::{
    bishop_attack, bishop_deltas, bits, king_target, knight_target, lemma_ray_closed_form,
    offset_bit, on_board, pawn_attacks,
    pawn_target, ray_attack, ray_attacks, ray_square, reaches_in, rook_attack, rook_deltas,
    slider_attacks_on_the_fly, step, unit,
};
use crate::types::{file_of, group_bitboard, in_bb, rank_of, square_bb, Bitboard, Color, Square};
use crate::zobrist::{lemma_state_step, mix, splitmix_state, SplitMix64};

verus! {

broadcast use group_bitboard;

/// `s` holds no square outside `mask`.
pub open spec fn is_subset(s: u64, mask: u64) -> bool {
    s & !mask == 0
}

/// The subset of `mask` that follows `s` in the carry-rippler walk.
pub open spec fn next_subset(s: u64, mask: u64) -> u64 {
    wrapping_sub(s, mask) & mask
}

/// The carry-rippler step moves to the smallest subset above `s`, and wraps
/// to zero after the full mask.
proof fn lemma_ripple(s: u64, mask: u64, t: u64, occ: u64)
    by (bit_vector)
    ensures
        s & !mask == 0 ==> next_subset(s, mask) & !mask == 0,
        (s & !mask == 0 && s != mask) ==> s < next_subset(s, mask),
        (s & !mask == 0 && s == mask) ==> next_subset(s, mask) == 0,
        (s & !mask == 0 && t & !mask == 0 && s < t) ==> next_subset(s, mask) <= t,
        t & !mask == 0 ==> t <= mask,
        (occ & mask) & !mask == 0,
        (s ^ t == 0) == (s == t),
{
}

/// The top `b` bits of a word index a table of `2^b` slots.
proof fn lemma_slot_bound(y: u64, sh: u32, b: u32)
    by (bit_vector)
    requires
        1 <= b <= 31,
        sh + b == 64,
    ensures
        (y >> sh) < (1u64 << b),
        (1u64 << b) <= 0x8000_0000,
{
}

/// Every slot lies inside a table of `2^(64 - shift)` entries.
proof fn lemma_slot_in_range(y: u64, magic: u64, shift: u32)
    requires
        33 <= shift <= 63,
    ensures
        0 <= magic_slot(y, magic, shift) < (1u64 << ((64 - shift) as u32)),
        (1u64 << ((64 - shift) as u32)) <= 0x8000_0000,
{
    lemma_slot_bound(wrapping_mul(y, magic), shift, (64 - shift) as u32);
}

/// How many of the first `n` squares `x` holds.
pub open spec fn count_bits(x: u64, n: nat) -> nat
    decreases n,
{
    if n == 0 {
        0
    } else {
        count_bits(x, (n - 1) as nat) + if in_bb(x, n - 1) {
            1nat
        } else {
            0nat
        }
    }
}

/// The number of squares in `x`.
pub open spec fn popcount(x: u64) -> nat {
    count_bits(x, 64)
}

/// The number of squares in `x`.
pub fn count_ones(x: u64) -> (r: u32)
    ensures
        r == popcount(x),
{
    let mut c: u32 = 0;
    let mut i: u8 = 0;
    while i < 64
        invariant
            i <= 64,
            c <= i,
            c == count_bits(x, i as nat),
        decreases 64 - i,
    {
        let bit = square_bb(i);
        proof {
            crate::types::lemma_empty_iff_zero(x & bit);
            if in_bb(x, i as int) {
                assert(in_bb(x & bit, i as int));
            }
        }
        if x & bit != 0 {
            c = c + 1;
        }
        i = i + 1;
    }
    c
}

/// The slot that occupancy `occ` hashes to under `magic`, keeping the top
/// `64 - shift` bits of the product.
pub open spec fn magic_slot(occ: u64, magic: u64, shift: u32) -> int {
    (wrapping_mul(occ, magic) >> shift) as int
}

/// A slider on `square` moving along `deltas` attacks `t` under occupancy `occ`.
pub open spec fn slides(square: int, deltas: Seq<(i8, i8)>, occ: u64, t: int) -> bool {
    exists|i: int|
        0 <= i < deltas.len() && #[trigger] ray_attack(
            square,
            deltas[i].0 as int,
            deltas[i].1 as int,
            bits(occ),
            t,
        )
}

/// Directions of at most one step along each axis.
pub open spec fn unit_deltas(deltas: Seq<(i8, i8)>) -> bool {
    forall|i: int|
        0 <= i < deltas.len() ==> -1 <= #[trigger] deltas[i].0 <= 1 && -1 <= deltas[i].1 <= 1
}

/// A slider's magic lookup for one square.
pub struct SliderMagic {
    pub mask: Bitboard,
    pub magic: u64,
    pub shift: u32,
    pub table: Vec<Bitboard>,
}

impl SliderMagic {
    /// The table has one slot per value of the top `64 - shift` bits.
    pub open spec fn sized(&self) -> bool {
        &&& 33 <= self.shift <= 63
        &&& self.table@.len() == (1u64 << ((64 - self.shift) as u32)) as int
    }

    /// The table entry that occupancy `occ` hashes to.
    pub open spec fn lookup(&self, occ: u64) -> u64 {
        self.table@[magic_slot(occ & self.mask, self.magic, self.shift)]
    }

    /// This is the lookup of a slider on `square` moving along `deltas`: its
    /// mask holds the relevant blocker squares, and every occupancy finds the
    /// attacks that the occupied squares of the mask allow.
    pub open spec fn answers(&self, square: int, deltas: Seq<(i8, i8)>) -> bool {
        &&& self.sized()
        &&& forall|t: int| #[trigger] in_bb(self.mask, t) == relevant(square, deltas, t)
        &&& forall|occ: u64, t: int| #[trigger]
            in_bb(self.lookup(occ), t) == slides(square, deltas, occ & self.mask, t)
    }

    /// The attack set stored for `occupancy`.
    pub fn attacks(&self, occupancy: Bitboard) -> (r: Bitboard)
        requires
            self.sized(),
        ensures
            r == self.lookup(occupancy),
    {
        let product = (occupancy & self.mask).wrapping_mul(self.magic);
        proof {
            lemma_slot_bound(product, self.shift, (64 - self.shift) as u32);
        }
        let index = (product >> self.shift) as usize;
        self.table[index]
    }
}

/// Places `references[j]` in the slot of `blockers[j]` for every `j`, or
/// gives `None` where two blockers with different attacks share a slot.
fn fill_table(blockers: &Vec<u64>, references: &Vec<u64>, magic: u64, shift: u32, size: usize) -> (r:
    Option<Vec<u64>>)
    requires
        blockers@.len() == references@.len(),
        33 <= shift <= 63,
        size == (1u64 << ((64 - shift) as u32)),
    ensures
        r matches Some(table) ==> {
            &&& table@.len() == size
            &&& forall|j: int|
                0 <= j < blockers@.len() ==> table@[magic_slot(#[trigger] blockers@[j], magic, shift)]
                    == references@[j]
        },
        r is None ==> exists|j: int, k: int|
            0 <= j < blockers@.len() && 0 <= k < blockers@.len() && magic_slot(
                #[trigger] blockers@[j],
                magic,
                shift,
            ) == magic_slot(#[trigger] blockers@[k], magic, shift) && references@[j] != references@[k],
{
    let mut table: Vec<u64> = Vec::new();
    let mut filled: Vec<bool> = Vec::new();
    while table.len() < size
        invariant
            table@.len() == filled@.len(),
            table@.len() <= size,
            forall|x: int| 0 <= x < filled@.len() ==> !#[trigger] filled@[x],
        decreases size - table@.len(),
    {
        table.push(u64::MAX);
        filled.push(false);
    }
    assert forall|k: int| 0 <= k < blockers@.len() implies 0 <= #[trigger] magic_slot(
        blockers@[k],
        magic,
        shift,
    ) < size by {
        lemma_slot_in_range(blockers@[k], magic, shift);
    }
    let mut j: usize = 0;
    while j < blockers.len()
        invariant
            blockers@.len() == references@.len(),
            forall|k: int|
                0 <= k < blockers@.len() ==> 0 <= #[trigger] magic_slot(blockers@[k], magic, shift)
                    < size,
            33 <= shift <= 63,
            size == (1u64 << ((64 - shift) as u32)),
            j <= blockers@.len(),
            table@.len() == size,
            filled@.len() == size,
            forall|k: int|
                0 <= k < j ==> #[trigger] filled@[magic_slot(blockers@[k], magic, shift)] && table@[magic_slot(
                    blockers@[k],
                    magic,
                    shift,
                )] == references@[k],
            forall|x: int|
                0 <= x < size && #[trigger] filled@[x] ==> exists|k: int|
                    0 <= k < j && magic_slot(#[trigger] blockers@[k], magic, shift) == x && table@[x]
                        == references@[k],
        decreases blockers@.len() - j,
    {
        let product = blockers[j].wrapping_mul(magic);
        proof {
            lemma_slot_bound(product, shift, (64 - shift) as u32);
        }
        let slot = (product >> shift) as usize;
        assert(slot == magic_slot(blockers@[j as int], magic, shift));
        let ghost old_table = table@;
        let ghost old_filled = filled@;
        if !filled[slot] {
            table.set(slot, references[j]);
            filled.set(slot, true);
        } else if table[slot] != references[j] {
            proof {
                let k = choose|k: int|
                    0 <= k < j && magic_slot(#[trigger] blockers@[k], magic, shift) == slot
                        && table@[slot as int] == references@[k];
                assert(magic_slot(blockers@[j as int], magic, shift) == magic_slot(
                    blockers@[k],
                    magic,
                    shift,
                ));
            }
            return None;
        }
        proof {
            assert forall|k: int| 0 <= k < j + 1 implies #[trigger] filled@[magic_slot(
                blockers@[k],
                magic,
                shift,
            )] && table@[magic_slot(blockers@[k], magic, shift)] == references@[k] by {
                if k < j {
                    assert(old_filled[magic_slot(blockers@[k], magic, shift)]);
                }
            }
            assert forall|x: int| 0 <= x < size && #[trigger] filled@[x] implies exists|k: int|
                0 <= k < j + 1 && magic_slot(#[trigger] blockers@[k], magic, shift) == x && table@[x]
                    == references@[k] by {
                if x == slot {
                    assert(magic_slot(blockers@[j as int], magic, shift) == x);
                } else {
                    assert(old_filled[x]);
                    let k = choose|k: int|
                        0 <= k < j && magic_slot(#[trigger] blockers@[k], magic, shift) == x
                            && old_table[x] == references@[k];
                    assert(magic_slot(blockers@[k], magic, shift) == x);
                }
            }
        }
        j = j + 1;
    }
    assert forall|k: int| 0 <= k < blockers@.len() implies table@[magic_slot(
        #[trigger] blockers@[k],
        magic,
        shift,
    )] == references@[k] by {
        assert(filled@[magic_slot(blockers@[k], magic, shift)]);
    }
    Some(table)
}

/// Every subset of `mask`, in increasing order, each with the attack set a
/// slider on `square` has when exactly that subset is occupied.
#[verifier::spinoff_prover]
fn blockers_and_attacks(square: Square, deltas: &[(i8, i8)], mask: u64) -> (r: (Vec<u64>, Vec<u64>))
    requires
        square < 64,
        unit_deltas(deltas@),
    ensures
        r.0@.len() == r.1@.len(),
        forall|j: int| 0 <= j < r.0@.len() ==> is_subset(#[trigger] r.0@[j], mask),
        forall|j: int, t: int|
            0 <= j < r.0@.len() ==> #[trigger] in_bb(r.1@[j], t) == slides(
                square as int,
                deltas@,
                r.0@[j],
                t,
            ),
        forall|s: u64| #[trigger] is_subset(s, mask) ==> exists|j: int| 0 <= j < r.0@.len() && r.0@[j] == s,
{
    let mut blockers: Vec<u64> = Vec::new();
    let mut references: Vec<u64> = Vec::new();
    let mut subset: u64 = 0;
    assert(is_subset(0u64, mask)) by {
        crate::types::lemma_empty_iff_zero(0u64 & !mask);
    }
    loop
        invariant
            square < 64,
            unit_deltas(deltas@),
            is_subset(subset, mask),
            blockers@.len() == references@.len(),
            forall|j: int| 0 <= j < blockers@.len() ==> is_subset(#[trigger] blockers@[j], mask),
            forall|j: int, t: int|
                0 <= j < blockers@.len() ==> #[trigger] in_bb(references@[j], t) == slides(
                    square as int,
                    deltas@,
                    blockers@[j],
                    t,
                ),
            forall|s: u64|
                #[trigger] is_subset(s, mask) && s < subset ==> exists|j: int|
                    0 <= j < blockers@.len() && blockers@[j] == s,
        ensures
            blockers@.len() == references@.len(),
            forall|j: int| 0 <= j < blockers@.len() ==> is_subset(#[trigger] blockers@[j], mask),
            forall|j: int, t: int|
                0 <= j < blockers@.len() ==> #[trigger] in_bb(references@[j], t) == slides(
                    square as int,
                    deltas@,
                    blockers@[j],
                    t,
                ),
            forall|s: u64| #[trigger]
                is_subset(s, mask) ==> exists|j: int| 0 <= j < blockers@.len() && blockers@[j] == s,
        decreases mask - subset,
    {
        let attacks = slider_attacks_on_the_fly(square, subset, deltas);
        let ghost before = blockers@.len();
        let ghost old_blockers = blockers@;
        blockers.push(subset);
        references.push(attacks);
        proof {
            assert(blockers@[before as int] == subset);
            assert forall|s: u64| #[trigger] is_subset(s, mask) && s <= subset implies exists|j: int|
                0 <= j < blockers@.len() && blockers@[j] == s by {
                if s < subset {
                    let j = choose|j: int| 0 <= j < before && old_blockers[j] == s;
                    assert(blockers@[j] == old_blockers[j]);
                } else {
                    assert(blockers@[before as int] == s);
                }
            }
        }
        if subset == mask {
            proof {
                assert forall|s: u64| #[trigger] is_subset(s, mask) implies exists|j: int|
                    0 <= j < blockers@.len() && blockers@[j] == s by {
                    lemma_ripple(subset, mask, s, 0);
                    assert(s <= subset);
                }
            }
            break;
        }
        let next = subset.wrapping_sub(mask) & mask;
        proof {
            lemma_ripple(subset, mask, next, 0);
            assert(next == next_subset(subset, mask));
            assert(subset < next <= mask);
            assert forall|s: u64| #[trigger] is_subset(s, mask) && s < next implies exists|j: int|
                0 <= j < blockers@.len() && blockers@[j] == s by {
                lemma_ripple(subset, mask, s, 0);
                assert(s <= subset);
            }
        }
        subset = next;
    }
    (blockers, references)
}

/// A table that holds the attacks of every subset of the mask in that
/// subset's slot answers every occupancy.
proof fn lemma_table_complete(
    square: int,
    deltas: Seq<(i8, i8)>,
    blockers: Seq<u64>,
    references: Seq<u64>,
    m: SliderMagic,
)
    requires
        blockers.len() == references.len(),
        forall|j: int, t: int|
            0 <= j < blockers.len() ==> #[trigger] in_bb(references[j], t) == slides(
                square,
                deltas,
                blockers[j],
                t,
            ),
        forall|s: u64| #[trigger]
            is_subset(s, m.mask) ==> exists|j: int| 0 <= j < blockers.len() && blockers[j] == s,
        forall|j: int|
            0 <= j < blockers.len() ==> m.table@[magic_slot(#[trigger] blockers[j], m.magic, m.shift)]
                == references[j],
    ensures
        forall|occ: u64, t: int| #[trigger]
            in_bb(m.lookup(occ), t) == slides(square, deltas, occ & m.mask, t),
{
    assert forall|occ: u64, t: int| #[trigger]
        in_bb(m.lookup(occ), t) == slides(square, deltas, occ & m.mask, t) by {
        lemma_ripple(0, m.mask, 0, occ);
        assert(is_subset(occ & m.mask, m.mask));
        let j = choose|j: int| 0 <= j < blockers.len() && blockers[j] == occ & m.mask;
        assert(m.table@[magic_slot(blockers[j], m.magic, m.shift)] == references[j]);
        assert(in_bb(references[j], t) == slides(square, deltas, blockers[j], t));
    }
}

/// Two subsets of `mask` whose attacks differ share a slot under `magic`.
pub open spec fn collides(square: int, deltas: Seq<(i8, i8)>, mask: u64, magic: u64, shift: u32) -> bool {
    exists|s1: u64, s2: u64, t: int|
        is_subset(s1, mask) && is_subset(s2, mask) && #[trigger] magic_slot(s1, magic, shift)
            == #[trigger] magic_slot(s2, magic, shift) && #[trigger] slides(square, deltas, s1, t)
            != slides(square, deltas, s2, t)
}

/// `magic` is kept for the slider on `square`: its product with the mask
/// puts at least six bits in the top byte, and no two subsets of the mask
/// with different attacks share a slot.
pub open spec fn accepted(square: int, deltas: Seq<(i8, i8)>, mask: u64, magic: u64) -> bool {
    &&& popcount(wrapping_mul(mask, magic) & 0xFF00_0000_0000_0000) >= 6
    &&& !collides(square, deltas, mask, magic, (64 - popcount(mask)) as u32)
}

/// Two different bitboards differ on some square.
proof fn lemma_differ_somewhere(a: u64, b: u64)
    requires
        a != b,
    ensures
        exists|t: int| #[trigger] in_bb(a, t) != in_bb(b, t),
{
    lemma_ripple(a, 0, b, 0);
    crate::types::lemma_empty_iff_zero(a ^ b);
    let t = choose|t: int| #[trigger] in_bb(a ^ b, t);
    assert(in_bb(a, t) != in_bb(b, t));
}

/// Two subsets that `fill_table` found sharing a slot with different attacks
/// are a collision.
proof fn lemma_clash_collides(
    square: int,
    deltas: Seq<(i8, i8)>,
    mask: u64,
    magic: u64,
    shift: u32,
    blockers: Seq<u64>,
    references: Seq<u64>,
)
    requires
        blockers.len() == references.len(),
        forall|j: int| 0 <= j < blockers.len() ==> is_subset(#[trigger] blockers[j], mask),
        forall|j: int, t: int|
            0 <= j < blockers.len() ==> #[trigger] in_bb(references[j], t) == slides(
                square,
                deltas,
                blockers[j],
                t,
            ),
        exists|j: int, k: int|
            0 <= j < blockers.len() && 0 <= k < blockers.len() && magic_slot(
                #[trigger] blockers[j],
                magic,
                shift,
            ) == magic_slot(#[trigger] blockers[k], magic, shift) && references[j] != references[k],
    ensures
        collides(square, deltas, mask, magic, shift),
{
    let (j, k) = choose|j: int, k: int|
        0 <= j < blockers.len() && 0 <= k < blockers.len() && magic_slot(
            #[trigger] blockers[j],
            magic,
            shift,
        ) == magic_slot(#[trigger] blockers[k], magic, shift) && references[j] != references[k];
    lemma_differ_somewhere(references[j], references[k]);
    let t = choose|t: int| #[trigger] in_bb(references[j], t) != in_bb(references[k], t);
    assert(is_subset(blockers[j], mask) && is_subset(blockers[k], mask));
    assert(slides(square, deltas, blockers[j], t) != slides(square, deltas, blockers[k], t));
}

/// A table holding every subset's attacks in its slot leaves no collision.
proof fn lemma_filled_no_collision(
    square: int,
    deltas: Seq<(i8, i8)>,
    mask: u64,
    magic: u64,
    shift: u32,
    blockers: Seq<u64>,
    references: Seq<u64>,
    table: Seq<u64>,
)
    requires
        blockers.len() == references.len(),
        forall|j: int, t: int|
            0 <= j < blockers.len() ==> #[trigger] in_bb(references[j], t) == slides(
                square,
                deltas,
                blockers[j],
                t,
            ),
        forall|s: u64| #[trigger]
            is_subset(s, mask) ==> exists|j: int| 0 <= j < blockers.len() && blockers[j] == s,
        forall|j: int|
            0 <= j < blockers.len() ==> table[magic_slot(#[trigger] blockers[j], magic, shift)]
                == references[j],
    ensures
        !collides(square, deltas, mask, magic, shift),
{
    if collides(square, deltas, mask, magic, shift) {
        let (s1, s2, t) = choose|s1: u64, s2: u64, t: int|
            is_subset(s1, mask) && is_subset(s2, mask) && #[trigger] magic_slot(s1, magic, shift)
                == #[trigger] magic_slot(s2, magic, shift) && #[trigger] slides(
                square,
                deltas,
                s1,
                t,
            ) != slides(square, deltas, s2, t);
        let j1 = choose|j: int| 0 <= j < blockers.len() && blockers[j] == s1;
        let j2 = choose|j: int| 0 <= j < blockers.len() && blockers[j] == s2;
        assert(table[magic_slot(blockers[j1], magic, shift)] == references[j1]);
        assert(table[magic_slot(blockers[j2], magic, shift)] == references[j2]);
        assert(in_bb(references[j1], t) == slides(square, deltas, blockers[j1], t));
        assert(in_bb(references[j2], t) == slides(square, deltas, blockers[j2], t));
    }
}

/// The magic candidate drawn at attempt `k` from a generator seeded with
/// `seed`: the AND of three consecutive outputs (few bits set).
pub open spec fn candidate(seed: u64, k: nat) -> u64 {
    mix(splitmix_state(seed, 3 * k + 1)) & mix(splitmix_state(seed, 3 * k + 2)) & mix(
        splitmix_state(seed, 3 * k + 3),
    )
}

/// Searches a magic for a slider on `square` with relevant occupancy `mask`,
/// trying at most `tries` candidates drawn from `rng`.
///
/// A candidate is kept only if the product of the mask puts at least six bits
/// in the top byte and no two subsets of the mask with different attacks
/// share a slot; the table it returns then gives, for every occupancy, the
/// attacks of the slider when the occupied squares of the mask block it.
pub fn find_magic(
    square: Square,
    deltas: &[(i8, i8)],
    mask: Bitboard,
    rng: &mut SplitMix64,
    tries: u64,
) -> (r: Option<SliderMagic>)
    requires
        square < 64,
        unit_deltas(deltas@),
        1 <= popcount(mask) <= 31,
    ensures
        r matches Some(m) ==> {
            &&& m.mask == mask
            &&& m.shift == 64 - popcount(mask)
            &&& m.sized()
            &&& forall|occ: u64, t: int| #[trigger]
                in_bb(m.lookup(occ), t) == slides(square as int, deltas@, occ & mask, t)
            &&& exists|k: nat|
                k < tries && m.magic == candidate(old(rng)@, k) && accepted(
                    square as int,
                    deltas@,
                    mask,
                    m.magic,
                ) && (forall|j: nat|
                    j < k ==> !#[trigger] accepted(
                        square as int,
                        deltas@,
                        mask,
                        candidate(old(rng)@, j),
                    )) && final(rng)@ == splitmix_state(old(rng)@, 3 * k + 3)
        },
        r is None ==> final(rng)@ == splitmix_state(old(rng)@, 3 * tries as nat) && forall|k: nat|
            k < tries ==> !#[trigger] accepted(square as int, deltas@, mask, candidate(old(rng)@, k)),
{
    let ghost seed = rng@;
    let relevant_bits = count_ones(mask);
    let shift: u32 = 64 - relevant_bits;
    proof {
        lemma_slot_in_range(0, 0, shift);
    }
    let size = (1u64 << relevant_bits) as usize;
    let (blockers, references) = blockers_and_attacks(square, deltas, mask);
    proof {
        vstd::arithmetic::div_mod::lemma_small_mod(seed as nat, 0x1_0000_0000_0000_0000);
        assert(rng@ == splitmix_state(seed, 0));
    }
    let mut attempt: u64 = 0;
    while attempt < tries
        invariant
            square < 64,
            attempt <= tries,
            seed == old(rng)@,
            rng@ == splitmix_state(seed, 3 * attempt as nat),
            33 <= shift <= 63,
            shift == 64 - popcount(mask),
            size == (1u64 << ((64 - shift) as u32)),
            blockers@.len() == references@.len(),
            forall|j: int, t: int|
                0 <= j < blockers@.len() ==> #[trigger] in_bb(references@[j], t) == slides(
                    square as int,
                    deltas@,
                    blockers@[j],
                    t,
                ),
            forall|s: u64| #[trigger]
                is_subset(s, mask) ==> exists|j: int| 0 <= j < blockers@.len() && blockers@[j] == s,
            forall|j: int| 0 <= j < blockers@.len() ==> is_subset(#[trigger] blockers@[j], mask),
            forall|j: nat|
                j < attempt ==> !#[trigger] accepted(square as int, deltas@, mask, candidate(seed, j)),
        decreases tries - attempt,
    {
        let a = rng.next();
        proof {
            lemma_state_step(seed, (3 * attempt) as nat);
        }
        let b = rng.next();
        proof {
            lemma_state_step(seed, (3 * attempt + 1) as nat);
        }
        let c = rng.next();
        proof {
            lemma_state_step(seed, (3 * attempt + 2) as nat);
        }
        let magic = a & b & c;
        assert(magic == candidate(seed, attempt as nat));
        let k = attempt;
        attempt = attempt + 1;
        if count_ones(mask.wrapping_mul(magic) & 0xFF00_0000_0000_0000) < 6 {
            assert(!accepted(square as int, deltas@, mask, candidate(seed, k as nat)));
            continue;
        }
        match fill_table(&blockers, &references, magic, shift, size) {
            Some(table) => {
                let m = SliderMagic { mask, magic, shift, table };
                proof {
                    lemma_table_complete(square as int, deltas@, blockers@, references@, m);
                    lemma_filled_no_collision(
                        square as int,
                        deltas@,
                        mask,
                        magic,
                        shift,
                        blockers@,
                        references@,
                        table@,
                    );
                    assert(m.magic == candidate(seed, k as nat));
                    assert(accepted(square as int, deltas@, mask, m.magic));
                }
                return Some(m);
            },
            None => {
                proof {
                    lemma_clash_collides(
                        square as int,
                        deltas@,
                        mask,
                        magic,
                        shift,
                        blockers@,
                        references@,
                    );
                    assert(!accepted(square as int, deltas@, mask, candidate(seed, k as nat)));
                }
            },
        }
    }
    None
}

/// The edge files and ranks as bitboards.
proof fn lemma_edges(t: u64)
    by (bit_vector)
    requires
        t < 64,
    ensures
        ((0x8080_8080_8080_8080u64 >> t) & 1u64 == 1u64) == (t % 8 == 7),
        ((0x0101_0101_0101_0101u64 >> t) & 1u64 == 1u64) == (t % 8 == 0),
        ((0xFF00_0000_0000_0000u64 >> t) & 1u64 == 1u64) == (t / 8 == 7),
        ((0x0000_0000_0000_00FFu64 >> t) & 1u64 == 1u64) == (t / 8 == 0),
{
}

/// The squares from which one more step along (df, dr) leaves the board.
fn edge_ahead(df: i8, dr: i8) -> (r: Bitboard)
    requires
        -1 <= df <= 1,
        -1 <= dr <= 1,
    ensures
        forall|t: int|
            0 <= t < 64 ==> #[trigger] in_bb(r, t) == !on_board(t % 8 + df, t / 8 + dr),
{
    let mut e: u64 = 0;
    if df == 1 {
        e = e | 0x8080_8080_8080_8080;
    } else if df == -1 {
        e = e | 0x0101_0101_0101_0101;
    }
    if dr == 1 {
        e = e | 0xFF00_0000_0000_0000;
    } else if dr == -1 {
        e = e | 0x0000_0000_0000_00FF;
    }
    proof {
        assert forall|t: int| 0 <= t < 64 implies #[trigger] in_bb(e, t) == !on_board(
            t % 8 + df,
            t / 8 + dr,
        ) by {
            lemma_edges(t as u64);
        }
    }
    e
}

/// `t` is a relevant blocker square for a slider on `square` moving along
/// `deltas`: it lies on one of its rays over an empty board, and is not the
/// last square of that ray before the edge.
pub open spec fn relevant(square: int, deltas: Seq<(i8, i8)>, t: int) -> bool {
    exists|i: int|
        0 <= i < deltas.len() && #[trigger] ray_attack(
            square,
            deltas[i].0 as int,
            deltas[i].1 as int,
            bits(0u64),
            t,
        ) && on_board(t % 8 + deltas[i].0, t / 8 + deltas[i].1)
}

/// The relevant-occupancy mask for a slider: ray squares excluding the board
/// edges (a blocker on the edge never changes the attack set).
pub fn slider_mask(square: Square, deltas: &[(i8, i8)]) -> (r: Bitboard)
    requires
        square < 64,
        unit_deltas(deltas@),
    ensures
        forall|t: int| #[trigger] in_bb(r, t) == relevant(square as int, deltas@, t),
{
    let mut mask: u64 = 0;
    let mut k: usize = 0;
    while k < deltas.len()
        invariant
            square < 64,
            unit_deltas(deltas@),
            k <= deltas@.len(),
            forall|t: int| #[trigger]
                in_bb(mask, t) == exists|i: int|
                    0 <= i < k && #[trigger] ray_attack(
                        square as int,
                        deltas@[i].0 as int,
                        deltas@[i].1 as int,
                        bits(0u64),
                        t,
                    ) && on_board(t % 8 + deltas@[i].0, t / 8 + deltas@[i].1),
        decreases deltas@.len() - k,
    {
        let (df, dr) = deltas[k];
        let ray = ray_attacks(square, 0, df, dr);
        let edge = edge_ahead(df, dr);
        let part = ray & !edge;
        proof {
            assert forall|t: int| #[trigger]
                in_bb(mask | part, t) == exists|i: int|
                    0 <= i < k + 1 && #[trigger] ray_attack(
                        square as int,
                        deltas@[i].0 as int,
                        deltas@[i].1 as int,
                        bits(0u64),
                        t,
                    ) && on_board(t % 8 + deltas@[i].0, t / 8 + deltas@[i].1) by {
                if in_bb(part, t) {
                    assert(ray_attack(
                        square as int,
                        deltas@[k as int].0 as int,
                        deltas@[k as int].1 as int,
                        bits(0u64),
                        t,
                    ));
                }
                if !(0 <= t < 64) {
                    assert(!in_bb(mask | part, t));
                    if exists|i: int|
                        0 <= i < k + 1 && #[trigger] ray_attack(
                            square as int,
                            deltas@[i].0 as int,
                            deltas@[i].1 as int,
                            bits(0u64),
                            t,
                        ) && on_board(t % 8 + deltas@[i].0, t / 8 + deltas@[i].1) {
                        let i = choose|i: int|
                            0 <= i < k + 1 && #[trigger] ray_attack(
                                square as int,
                                deltas@[i].0 as int,
                                deltas@[i].1 as int,
                                bits(0u64),
                                t,
                            ) && on_board(t % 8 + deltas@[i].0, t / 8 + deltas@[i].1);
                        crate::attacks::lemma_ray_on_board(
                            square as int % 8,
                            square as int / 8,
                            deltas@[i].0 as int,
                            deltas@[i].1 as int,
                            bits(0u64),
                            t,
                            7,
                        );
                    }
                }
            }
        }
        mask = mask | part;
        k = k + 1;
    }
    mask
}

/// `t` is the square `d` away from `s`, and on the board.
pub open spec fn leap_to(s: int, d: (i8, i8), t: int) -> bool {
    on_board(s % 8 + d.0, s / 8 + d.1) && t == (s / 8 + d.1) * 8 + s % 8 + d.0
}

/// A leaper on `s` with moves `deltas` attacks `t`.
pub open spec fn leaps(s: int, deltas: Seq<(i8, i8)>, t: int) -> bool {
    exists|i: int| 0 <= i < deltas.len() && #[trigger] leap_to(s, deltas[i], t)
}

/// For each square, the squares a leaper with moves `deltas` attacks from it.
pub fn leaper_table(deltas: &[(i8, i8)]) -> (r: Vec<Bitboard>)
    requires
        forall|i: int|
            0 <= i < deltas@.len() ==> -2 <= #[trigger] deltas@[i].0 <= 2 && -2 <= deltas@[i].1
                <= 2,
    ensures
        r@.len() == 64,
        forall|s: int, t: int| 0 <= s < 64 ==> #[trigger] in_bb(r@[s], t) == leaps(s, deltas@, t),
{
    let mut table: Vec<Bitboard> = Vec::new();
    let mut square: u8 = 0;
    while square < 64
        invariant
            square <= 64,
            table@.len() == square,
            forall|i: int|
                0 <= i < deltas@.len() ==> -2 <= #[trigger] deltas@[i].0 <= 2 && -2
                    <= deltas@[i].1 <= 2,
            forall|s: int, t: int|
                0 <= s < square ==> #[trigger] in_bb(table@[s], t) == leaps(s, deltas@, t),
        decreases 64 - square,
    {
        let file = file_of(square) as i8;
        let rank = rank_of(square) as i8;
        let mut bitboard: u64 = 0;
        let mut k: usize = 0;
        while k < deltas.len()
            invariant
                square < 64,
                file == square % 8,
                rank == square / 8,
                k <= deltas@.len(),
                forall|i: int|
                    0 <= i < deltas@.len() ==> -2 <= #[trigger] deltas@[i].0 <= 2 && -2
                        <= deltas@[i].1 <= 2,
                forall|t: int| #[trigger]
                    in_bb(bitboard, t) == exists|i: int|
                        0 <= i < k && #[trigger] leap_to(square as int, deltas@[i], t),
            decreases deltas@.len() - k,
        {
            let (df, dr) = deltas[k];
            let bit = offset_bit(file, rank, df, dr);
            proof {
                assert forall|t: int| #[trigger]
                    in_bb(bitboard | bit, t) == exists|i: int|
                        0 <= i < k + 1 && #[trigger] leap_to(square as int, deltas@[i], t) by {
                    if in_bb(bit, t) {
                        assert(leap_to(square as int, deltas@[k as int], t));
                    }
                }
            }
            bitboard = bitboard | bit;
            k = k + 1;
        }
        let ghost before = table@;
        table.push(bitboard);
        proof {
            assert forall|s: int, t: int| 0 <= s < square + 1 implies #[trigger] in_bb(
                table@[s],
                t,
            ) == leaps(s, deltas@, t) by {
                if s < square {
                    assert(table@[s] == before[s]);
                }
            }
        }
        square = square + 1;
    }
    table
}

/// For each square, the squares a pawn of `color` attacks from it.
pub fn pawn_table(color: Color) -> (r: Vec<Bitboard>)
    ensures
        r@.len() == 64,
        forall|s: int, t: int|
            0 <= s < 64 ==> #[trigger] in_bb(r@[s], t) == pawn_target(color, s, t),
{
    let mut table: Vec<Bitboard> = Vec::new();
    let mut square: u8 = 0;
    while square < 64
        invariant
            square <= 64,
            table@.len() == square,
            forall|s: int, t: int|
                0 <= s < square ==> #[trigger] in_bb(table@[s], t) == pawn_target(color, s, t),
        decreases 64 - square,
    {
        let bitboard = pawn_attacks(color, square);
        let ghost before = table@;
        table.push(bitboard);
        proof {
            assert forall|s: int, t: int| 0 <= s < square + 1 implies #[trigger] in_bb(
                table@[s],
                t,
            ) == pawn_target(color, s, t) by {
                if s < square {
                    assert(table@[s] == before[s]);
                }
            }
        }
        square = square + 1;
    }
    table
}

/// The four rook directions.
pub open spec fn rook_moves() -> Seq<(i8, i8)> {
    seq![(1i8, 0i8), (-1i8, 0i8), (0i8, 1i8), (0i8, -1i8)]
}

/// The four bishop directions.
pub open spec fn bishop_moves() -> Seq<(i8, i8)> {
    seq![(1i8, 1i8), (1i8, -1i8), (-1i8, 1i8), (-1i8, -1i8)]
}

/// The eight knight moves.
pub open spec fn knight_moves() -> Seq<(i8, i8)> {
    seq![(1i8, 2i8), (2i8, 1i8), (2i8, -1i8), (1i8, -2i8), (-1i8, -2i8), (-2i8, -1i8), (-2i8, 1i8), (-1i8, 2i8)]
}

/// The eight king moves.
pub open spec fn king_moves() -> Seq<(i8, i8)> {
    seq![(1i8, 0i8), (1i8, 1i8), (0i8, 1i8), (-1i8, 1i8), (-1i8, 0i8), (-1i8, -1i8), (0i8, -1i8), (1i8, -1i8)]
}

/// The eight knight moves, as (file, rank) offsets.
pub fn knight_deltas() -> (r: [(i8, i8); 8])
    ensures
        r@ == knight_moves(),
{
    let r = [(1, 2), (2, 1), (2, -1), (1, -2), (-1, -2), (-2, -1), (-2, 1), (-1, 2)];
    assert(r@ =~= knight_moves());
    r
}

/// The eight king moves, as (file, rank) offsets.
pub fn king_deltas() -> (r: [(i8, i8); 8])
    ensures
        r@ == king_moves(),
{
    let r = [(1, 0), (1, 1), (0, 1), (-1, 1), (-1, 0), (-1, -1), (0, -1), (1, -1)];
    assert(r@ =~= king_moves());
    r
}

/// From generator state `g`, none of the first `tries` candidates is kept
/// for a slider on `square` with relevant occupancy `mask` (or the mask has a
/// size no table is built for).
pub open spec fn fails_from(square: int, deltas: Seq<(i8, i8)>, mask: u64, g: u64, tries: u64) -> bool {
    popcount(mask) < 1 || popcount(mask) > 31 || forall|k: nat|
        k < tries ==> !#[trigger] accepted(square, deltas, mask, candidate(g, k))
}

/// `mask` holds exactly the relevant blocker squares of the slider.
pub open spec fn is_slider_mask(square: int, deltas: Seq<(i8, i8)>, mask: u64) -> bool {
    forall|t: int| #[trigger] in_bb(mask, t) == relevant(square, deltas, t)
}

/// For a slider on `square`, the magic search gives up within `tries`
/// candidates from some generator state.
pub open spec fn no_magic_within(square: int, deltas: Seq<(i8, i8)>, tries: u64) -> bool {
    exists|mask: u64, g: u64|
        is_slider_mask(square, deltas, mask) && #[trigger] fails_from(square, deltas, mask, g, tries)
}

/// The magic lookups of a slider moving along `deltas`, one per square, or
/// `None` where some square finds no magic within `tries` candidates.
fn slider_magics(deltas: &[(i8, i8)], rng: &mut SplitMix64, tries: u64) -> (r: Option<Vec<SliderMagic>>)
    requires
        unit_deltas(deltas@),
    ensures
        r matches Some(v) ==> v@.len() == 64 && forall|s: int|
            0 <= s < 64 ==> #[trigger] v@[s].answers(s, deltas@),
        r is None ==> exists|s: int| 0 <= s < 64 && #[trigger] no_magic_within(s, deltas@, tries),
{
    let mut magics: Vec<SliderMagic> = Vec::new();
    let mut square: u8 = 0;
    while square < 64
        invariant
            square <= 64,
            unit_deltas(deltas@),
            magics@.len() == square,
            forall|s: int| 0 <= s < square ==> #[trigger] magics@[s].answers(s, deltas@),
        decreases 64 - square,
    {
        let mask = slider_mask(square, deltas);
        let relevant_bits = count_ones(mask);
        let ghost g = rng@;
        if relevant_bits < 1 || relevant_bits > 31 {
            proof {
                assert(fails_from(square as int, deltas@, mask, g, tries));
                assert(no_magic_within(square as int, deltas@, tries));
            }
            return None;
        }
        match find_magic(square, deltas, mask, rng, tries) {
            Some(m) => {
                let ghost before = magics@;
                magics.push(m);
                proof {
                    assert forall|s: int| 0 <= s < square + 1 implies #[trigger] magics@[s].answers(
                        s,
                        deltas@,
                    ) by {
                        if s < square {
                            assert(magics@[s] == before[s]);
                        }
                    }
                }
            },
            None => {
                proof {
                    assert(fails_from(square as int, deltas@, mask, g, tries));
                    assert(no_magic_within(square as int, deltas@, tries));
                }
                return None;
            },
        }
        square = square + 1;
    }
    Some(magics)
}

/// Every attack table: leapers by square, sliders by magic lookup.
pub struct Attacks {
    pub knight: Vec<Bitboard>,
    pub king: Vec<Bitboard>,
    pub white_pawn: Vec<Bitboard>,
    pub black_pawn: Vec<Bitboard>,
    pub rook: Vec<SliderMagic>,
    pub bishop: Vec<SliderMagic>,
}

impl Attacks {
    /// Each table holds what its piece attacks from each square.
    pub open spec fn well_formed(&self) -> bool {
        &&& self.knight@.len() == 64
        &&& self.king@.len() == 64
        &&& self.white_pawn@.len() == 64
        &&& self.black_pawn@.len() == 64
        &&& self.rook@.len() == 64
        &&& self.bishop@.len() == 64
        &&& forall|s: int, t: int|
            0 <= s < 64 ==> #[trigger] in_bb(self.knight@[s], t) == leaps(s, knight_moves(), t)
        &&& forall|s: int, t: int|
            0 <= s < 64 ==> #[trigger] in_bb(self.king@[s], t) == leaps(s, king_moves(), t)
        &&& forall|s: int, t: int|
            0 <= s < 64 ==> #[trigger] in_bb(self.white_pawn@[s], t) == pawn_target(Color::White, s, t)
        &&& forall|s: int, t: int|
            0 <= s < 64 ==> #[trigger] in_bb(self.black_pawn@[s], t) == pawn_target(Color::Black, s, t)
        &&& forall|s: int|
            0 <= s < 64 ==> #[trigger] self.rook@[s].answers(s, rook_moves())
        &&& forall|s: int|
            0 <= s < 64 ==> #[trigger] self.bishop@[s].answers(s, bishop_moves())
    }
}

/// Builds every attack table, searching the slider magics with a generator of
/// fixed seed (rooks square by square, then bishops), at most `tries`
/// candidates per square; `None` where some square finds no magic in time.
pub fn tables(tries: u64) -> (r: Option<Attacks>)
    ensures
        r matches Some(a) ==> a.well_formed(),
        r is None ==> exists|s: int|
            #![trigger no_magic_within(s, rook_moves(), tries)]
            #![trigger no_magic_within(s, bishop_moves(), tries)]
            0 <= s < 64 && (no_magic_within(s, rook_moves(), tries) || no_magic_within(
                s,
                bishop_moves(),
                tries,
            )),
{
    let mut rng = SplitMix64::new(0xF00D_CAFE_1234_5678);
    let rook_dirs = rook_deltas();
    let bishop_dirs = bishop_deltas();
    let knight_dirs = knight_deltas();
    let king_dirs = king_deltas();
    assert(rook_dirs@ == rook_moves() && bishop_dirs@ == bishop_moves());
    let rook = match slider_magics(&rook_dirs, &mut rng, tries) {
        Some(v) => v,
        None => {
            proof {
                let s = choose|s: int| 0 <= s < 64 && #[trigger] no_magic_within(s, rook_dirs@, tries);
                assert(no_magic_within(s, rook_moves(), tries));
            }
            return None;
        },
    };
    let bishop = match slider_magics(&bishop_dirs, &mut rng, tries) {
        Some(v) => v,
        None => {
            proof {
                let s = choose|s: int|
                    0 <= s < 64 && #[trigger] no_magic_within(s, bishop_dirs@, tries);
                assert(no_magic_within(s, bishop_moves(), tries));
            }
            return None;
        },
    };
    let knight = leaper_table(&knight_dirs);
    let king = leaper_table(&king_dirs);
    Some(
        Attacks {
            knight,
            king,
            white_pawn: pawn_table(Color::White),
            black_pawn: pawn_table(Color::Black),
            rook,
            bishop,
        },
    )
}

/// A ray that reaches `t` under `occ1` reaches it under `occ2` when the two
/// agree on the relevant blocker squares of that ray.
#[verifier::spinoff_prover]
#[verifier::rlimit(40)]
proof fn lemma_ray_relevant_only(
    s: int,
    df: int,
    dr: int,
    occ1: spec_fn(int) -> bool,
    occ2: spec_fn(int) -> bool,
    t: int,
)
    requires
        0 <= s < 64,
        unit(df),
        unit(dr),
        !(df == 0 && dr == 0),
        forall|q: int|
            #![trigger occ1(q)]
            #![trigger occ2(q)]
            ray_attack(s, df, dr, bits(0u64), q) && on_board(q % 8 + df, q / 8 + dr) ==> occ1(q)
                == occ2(q),
        ray_attack(s, df, dr, occ1, t),
    ensures
        ray_attack(s, df, dr, occ2, t),
{
    let f = s % 8;
    let r = s / 8;
    lemma_ray_closed_form(f, r, df, dr, occ1, t, 7);
    lemma_ray_closed_form(f, r, df, dr, occ2, t, 7);
    let k = choose|k: int| k <= 7 && #[trigger] reaches_in(f, r, df, dr, occ1, t, k);
    assert forall|j: int| 1 <= j < k implies !occ2(#[trigger] ray_square(f, r, df, dr, j)) by {
        let q = ray_square(f, r, df, dr, j);
        assert(on_board(step(f, df, j), step(r, dr, j)));
        assert(on_board(step(f, df, j + 1), step(r, dr, j + 1)));
        assert(q % 8 == step(f, df, j) && q / 8 == step(r, dr, j));
        assert(step(f, df, j) + df == step(f, df, j + 1));
        assert(step(r, dr, j) + dr == step(r, dr, j + 1));
        lemma_ray_closed_form(f, r, df, dr, bits(0u64), q, 7);
        assert forall|i: int| 1 <= i < j implies !bits(0u64)(#[trigger] ray_square(f, r, df, dr, i)) by {}
        assert(reaches_in(f, r, df, dr, bits(0u64), q, j));
        assert(ray_attack(s, df, dr, bits(0u64), q));
        assert(!occ1(q));
    }
    assert(reaches_in(f, r, df, dr, occ2, t, k));
}

/// Blockers outside the mask never change what a magic lookup answers: it
/// gives the slider's attacks under the full occupancy.
pub proof fn law_lookup_matches_on_the_fly(
    m: SliderMagic,
    square: int,
    deltas: Seq<(i8, i8)>,
    occ: u64,
)
    requires
        0 <= square < 64,
        m.answers(square, deltas),
        unit_deltas(deltas),
        forall|i: int| 0 <= i < deltas.len() ==> #[trigger] deltas[i] != (0i8, 0i8),
    ensures
        forall|t: int| #[trigger] in_bb(m.lookup(occ), t) == slides(square, deltas, occ, t),
{
    assert forall|t: int| #[trigger] in_bb(m.lookup(occ), t) == slides(square, deltas, occ, t) by {
        assert(in_bb(m.lookup(occ), t) == slides(square, deltas, occ & m.mask, t));
        assert forall|i: int| 0 <= i < deltas.len() implies #[trigger] ray_attack(
            square,
            deltas[i].0 as int,
            deltas[i].1 as int,
            bits(occ & m.mask),
            t,
        ) == ray_attack(square, deltas[i].0 as int, deltas[i].1 as int, bits(occ), t) by {
            let df = deltas[i].0 as int;
            let dr = deltas[i].1 as int;
            assert(deltas[i] != (0i8, 0i8));
            assert forall|q: int|
                #![trigger bits(occ & m.mask)(q)]
                #![trigger bits(occ)(q)]
                ray_attack(square, df, dr, bits(0u64), q) && on_board(q % 8 + df, q / 8 + dr) implies bits(
                occ & m.mask,
            )(q) == bits(occ)(q) by {
                assert(relevant(square, deltas, q));
                assert(in_bb(m.mask, q));
            }
            if ray_attack(square, df, dr, bits(occ & m.mask), t) {
                lemma_ray_relevant_only(square, df, dr, bits(occ & m.mask), bits(occ), t);
            }
            if ray_attack(square, df, dr, bits(occ), t) {
                lemma_ray_relevant_only(square, df, dr, bits(occ), bits(occ & m.mask), t);
            }
        }
        if slides(square, deltas, occ, t) {
            let i = choose|i: int|
                0 <= i < deltas.len() && #[trigger] ray_attack(
                    square,
                    deltas[i].0 as int,
                    deltas[i].1 as int,
                    bits(occ),
                    t,
                );
            assert(ray_attack(
                square,
                deltas[i].0 as int,
                deltas[i].1 as int,
                bits(occ & m.mask),
                t,
            ));
        }
        if slides(square, deltas, occ & m.mask, t) {
            let i = choose|i: int|
                0 <= i < deltas.len() && #[trigger] ray_attack(
                    square,
                    deltas[i].0 as int,
                    deltas[i].1 as int,
                    bits(occ & m.mask),
                    t,
                );
            assert(ray_attack(square, deltas[i].0 as int, deltas[i].1 as int, bits(occ), t));
        }
    }
}

/// Sliding along the rook directions is the rook's attack.
proof fn lemma_rook_slides(s: int, occ: u64, t: int)
    ensures
        slides(s, rook_moves(), occ, t) == rook_attack(s, bits(occ), t),
{
    let d = rook_moves();
    assert(d[0] == (1i8, 0i8) && d[1] == (-1i8, 0i8) && d[2] == (0i8, 1i8) && d[3] == (0i8, -1i8));
    if rook_attack(s, bits(occ), t) {
        if ray_attack(s, 1, 0, bits(occ), t) {
            assert(ray_attack(s, d[0].0 as int, d[0].1 as int, bits(occ), t));
        } else if ray_attack(s, -1, 0, bits(occ), t) {
            assert(ray_attack(s, d[1].0 as int, d[1].1 as int, bits(occ), t));
        } else if ray_attack(s, 0, 1, bits(occ), t) {
            assert(ray_attack(s, d[2].0 as int, d[2].1 as int, bits(occ), t));
        } else {
            assert(ray_attack(s, d[3].0 as int, d[3].1 as int, bits(occ), t));
        }
    }
}

/// Sliding along the bishop directions is the bishop's attack.
proof fn lemma_bishop_slides(s: int, occ: u64, t: int)
    ensures
        slides(s, bishop_moves(), occ, t) == bishop_attack(s, bits(occ), t),
{
    let d = bishop_moves();
    assert(d[0] == (1i8, 1i8) && d[1] == (1i8, -1i8) && d[2] == (-1i8, 1i8) && d[3] == (-1i8, -1i8));
    if bishop_attack(s, bits(occ), t) {
        if ray_attack(s, 1, 1, bits(occ), t) {
            assert(ray_attack(s, d[0].0 as int, d[0].1 as int, bits(occ), t));
        } else if ray_attack(s, 1, -1, bits(occ), t) {
            assert(ray_attack(s, d[1].0 as int, d[1].1 as int, bits(occ), t));
        } else if ray_attack(s, -1, 1, bits(occ), t) {
            assert(ray_attack(s, d[2].0 as int, d[2].1 as int, bits(occ), t));
        } else {
            assert(ray_attack(s, d[3].0 as int, d[3].1 as int, bits(occ), t));
        }
    }
}

/// The tables agree with the on-the-fly attack generators: for every square
/// and occupancy, the rook and bishop lookups give the slider attacks, and the
/// knight and king tables the leaper attacks.
pub proof fn law_tables_match_on_the_fly(a: Attacks, s: int, occ: u64)
    requires
        a.well_formed(),
        0 <= s < 64,
    ensures
        forall|t: int| #[trigger] in_bb(a.rook@[s].lookup(occ), t) == rook_attack(s, bits(occ), t),
        forall|t: int|
            #[trigger] in_bb(a.bishop@[s].lookup(occ), t) == bishop_attack(s, bits(occ), t),
        forall|t: int| #[trigger] in_bb(a.knight@[s], t) == knight_target(s, t),
        forall|t: int| #[trigger] in_bb(a.king@[s], t) == king_target(s, t),
{
    assert forall|t: int| #[trigger] in_bb(a.knight@[s], t) == knight_target(s, t) by {
        lemma_knight_leaps(s, t);
    }
    assert forall|t: int| #[trigger] in_bb(a.king@[s], t) == king_target(s, t) by {
        lemma_king_leaps(s, t);
    }
    let rd = rook_moves();
    let bd = bishop_moves();
    assert(rd[0] == (1i8, 0i8) && rd[1] == (-1i8, 0i8) && rd[2] == (0i8, 1i8) && rd[3] == (0i8, -1i8));
    assert(bd[0] == (1i8, 1i8) && bd[1] == (1i8, -1i8) && bd[2] == (-1i8, 1i8) && bd[3] == (-1i8, -1i8));
    assert(a.rook@[s].answers(s, rd));
    assert(a.bishop@[s].answers(s, bd));
    law_lookup_matches_on_the_fly(a.rook@[s], s, rd, occ);
    law_lookup_matches_on_the_fly(a.bishop@[s], s, bd, occ);
    assert forall|t: int| #[trigger] in_bb(a.rook@[s].lookup(occ), t) == rook_attack(s, bits(occ), t) by {
        lemma_rook_slides(s, occ, t);
    }
    assert forall|t: int| #[trigger]
        in_bb(a.bishop@[s].lookup(occ), t) == bishop_attack(s, bits(occ), t) by {
        lemma_bishop_slides(s, occ, t);
    }
}

/// Leaping by the knight moves is the knight's attack.
proof fn lemma_knight_leaps(s: int, t: int)
    requires
        0 <= s < 64,
    ensures
        leaps(s, knight_moves(), t) == knight_target(s, t),
{
    let d = knight_moves();
    assert(d[0] == (1i8, 2i8) && d[1] == (2i8, 1i8) && d[2] == (2i8, -1i8) && d[3] == (1i8, -2i8));
    assert(d[4] == (-1i8, -2i8) && d[5] == (-2i8, -1i8) && d[6] == (-2i8, 1i8) && d[7] == (-1i8, 2i8));
    if knight_target(s, t) {
        assert(t == (t / 8) * 8 + t % 8);
        let df = t % 8 - s % 8;
        let dr = t / 8 - s / 8;
        if df == 1 && dr == 2 {
            assert(leap_to(s, d[0], t));
        } else if df == 2 && dr == 1 {
            assert(leap_to(s, d[1], t));
        } else if df == 2 && dr == -1 {
            assert(leap_to(s, d[2], t));
        } else if df == 1 && dr == -2 {
            assert(leap_to(s, d[3], t));
        } else if df == -1 && dr == -2 {
            assert(leap_to(s, d[4], t));
        } else if df == -2 && dr == -1 {
            assert(leap_to(s, d[5], t));
        } else if df == -2 && dr == 1 {
            assert(leap_to(s, d[6], t));
        } else {
            assert(leap_to(s, d[7], t));
        }
    }
    if leaps(s, knight_moves(), t) {
        let i = choose|i: int| 0 <= i < d.len() && #[trigger] leap_to(s, d[i], t);
        let nf = s % 8 + d[i].0;
        let nr = s / 8 + d[i].1;
        assert(t % 8 == nf && t / 8 == nr);
    }
}

/// Leaping by the king moves is the king's attack.
proof fn lemma_king_leaps(s: int, t: int)
    requires
        0 <= s < 64,
    ensures
        leaps(s, king_moves(), t) == king_target(s, t),
{
    let d = king_moves();
    assert(d[0] == (1i8, 0i8) && d[1] == (1i8, 1i8) && d[2] == (0i8, 1i8) && d[3] == (-1i8, 1i8));
    assert(d[4] == (-1i8, 0i8) && d[5] == (-1i8, -1i8) && d[6] == (0i8, -1i8) && d[7] == (1i8, -1i8));
    if king_target(s, t) {
        assert(t == (t / 8) * 8 + t % 8);
        let df = t % 8 - s % 8;
        let dr = t / 8 - s / 8;
        if df == 1 && dr == 0 {
            assert(leap_to(s, d[0], t));
        } else if df == 1 && dr == 1 {
            assert(leap_to(s, d[1], t));
        } else if df == 0 && dr == 1 {
            assert(leap_to(s, d[2], t));
        } else if df == -1 && dr == 1 {
            assert(leap_to(s, d[3], t));
        } else if df == -1 && dr == 0 {
            assert(leap_to(s, d[4], t));
        } else if df == -1 && dr == -1 {
            assert(leap_to(s, d[5], t));
        } else if df == 0 && dr == -1 {
            assert(leap_to(s, d[6], t));
        } else {
            assert(leap_to(s, d[7], t));
        }
    }
    if leaps(s, king_moves(), t) {
        let i = choose|i: int| 0 <= i < d.len() && #[trigger] leap_to(s, d[i], t);
        let nf = s % 8 + d[i].0;
        let nr = s / 8 + d[i].1;
        assert(t % 8 == nf && t / 8 == nr);
    }
}

} // verus!
