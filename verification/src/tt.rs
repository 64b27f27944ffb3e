//! TranspositionTable — a Zobrist-keyed cache of evaluated positions with a
//! replace-by-depth-and-age policy. Two backends: `ExclusiveTranspositionTable`
//! for single-threaded search and `LocklessTranspositionTable`, a lockless
//! atomic table, for parallel search.
use vstd::prelude::*;

use std::sync::atomic::AtomicU64;

use crate::chess_move::Move;

verus! {

#[derive(Clone, Copy, PartialEq, Eq, Debug, Structural)]
pub enum Flag {
    Exact,
    LowerBound,
    UpperBound,
}

/// The name of a flag in a listing of the table.
pub open spec fn flag_text(flag: Flag) -> Seq<char> {
    match flag {
        Flag::Exact => seq!['E', 'X', 'A', 'C', 'T'],
        Flag::LowerBound => seq!['L', 'O', 'W', 'E', 'R', '_', 'B', 'O', 'U', 'N', 'D'],
        Flag::UpperBound => seq!['U', 'P', 'P', 'E', 'R', '_', 'B', 'O', 'U', 'N', 'D'],
    }
}

/// The name of a flag: `EXACT`, `LOWER_BOUND` or `UPPER_BOUND`.
pub fn flag_name(flag: Flag) -> (r: &'static str)
    ensures
        r@ == flag_text(flag),
{
    match flag {
        Flag::Exact => {
            proof {
                reveal_strlit("EXACT");
            }
            "EXACT"
        },
        Flag::LowerBound => {
            proof {
                reveal_strlit("LOWER_BOUND");
            }
            "LOWER_BOUND"
        },
        Flag::UpperBound => {
            proof {
                reveal_strlit("UPPER_BOUND");
            }
            "UPPER_BOUND"
        },
    }
}

#[derive(Clone, Copy, PartialEq, Eq, Debug, Structural)]
pub struct HashEntry {
    pub zobrist: u64,
    pub best_move: Option<Move>,
    pub depth: i32,
    pub value: i32,
    pub flag: Flag,
    /// The position's halfmove clock at store time, used for aging.
    pub age: u16,
}

/// 2^20 + 7, a prime.
pub const TABLE_SIZE: usize = 1_048_583;

/// The slot a key lives in.
pub open spec fn slot_of(zobrist: u64) -> int {
    zobrist as int % TABLE_SIZE as int
}

fn slot_index(zobrist: u64) -> (r: usize)
    ensures
        r == slot_of(zobrist),
        r < TABLE_SIZE,
{
    (zobrist % TABLE_SIZE as u64) as usize
}

/// The replacement policy: store into an empty slot, or over an older or
/// shallower entry.
pub open spec fn should_replace(stored: Option<HashEntry>, entry: HashEntry) -> bool {
    match stored {
        None => true,
        Some(s) => entry.age > s.age || entry.depth > s.depth,
    }
}

/// What a probe of `zobrist` finds among `slots`. A table always has
/// `TABLE_SIZE` slots; a shorter one finds nothing past its end.
pub open spec fn probe_slots(slots: Seq<Option<HashEntry>>, zobrist: u64) -> Option<HashEntry> {
    if slot_of(zobrist) >= slots.len() {
        None
    } else {
        match slots[slot_of(zobrist)] {
            Some(s) => if s.zobrist == zobrist {
                Some(s)
            } else {
                None
            },
            None => None,
        }
    }
}

/// The slots after offering `entry`.
pub open spec fn replace_slots(slots: Seq<Option<HashEntry>>, entry: HashEntry) -> Seq<
    Option<HashEntry>,
> {
    let i = slot_of(entry.zobrist);
    if i < slots.len() && should_replace(slots[i], entry) {
        slots.update(i, Some(entry))
    } else {
        slots
    }
}

/// The occupied slots' entries, in slot order.
pub open spec fn live_entries(slots: Seq<Option<HashEntry>>) -> Seq<HashEntry>
    decreases slots.len(),
{
    if slots.len() == 0 {
        seq![]
    } else {
        live_entries(slots.drop_last()) + match slots.last() {
            Some(e) => seq![e],
            None => seq![],
        }
    }
}

/// A Zobrist-keyed cache of evaluated positions. `probe` finds the stored
/// entry whose key matches, regardless of depth: the search decides whether it
/// is deep enough to cut, and even a shallow entry seeds move ordering with
/// its best move. `replace` stores an entry if its slot is empty, the entry is
/// newer (greater age), or it was searched deeper.
pub trait TranspositionTable {
    fn probe(&self, zobrist: u64) -> Option<HashEntry>;

    fn replace(&mut self, entry: HashEntry);
}

/// The single-threaded backend: a slot table owned by one search.
pub struct ExclusiveTranspositionTable {
    table: Vec<Option<HashEntry>>,
}

impl View for ExclusiveTranspositionTable {
    type V = Seq<Option<HashEntry>>;

    closed spec fn view(&self) -> Seq<Option<HashEntry>> {
        self.table@
    }
}

impl ExclusiveTranspositionTable {
    pub fn new() -> (t: ExclusiveTranspositionTable)
        ensures
            t@ == Seq::new(TABLE_SIZE as nat, |i: int| None::<HashEntry>),
    {
        let mut table: Vec<Option<HashEntry>> = Vec::new();
        let mut i: usize = 0;
        while i < TABLE_SIZE
            invariant
                i <= TABLE_SIZE,
                table@ == Seq::new(i as nat, |k: int| None::<HashEntry>),
            decreases TABLE_SIZE - i,
        {
            table.push(None);
            i = i + 1;
            proof {
                assert(table@ =~= Seq::new(i as nat, |k: int| None::<HashEntry>));
            }
        }
        ExclusiveTranspositionTable { table }
    }

    /// A snapshot of the live entries, in slot order.
    pub fn entries(&self) -> (r: Vec<HashEntry>)
        ensures
            r@ == live_entries(self@),
    {
        let mut out: Vec<HashEntry> = Vec::new();
        let mut i: usize = 0;
        while i < self.table.len()
            invariant
                i <= self.table@.len(),
                out@ == live_entries(self.table@.take(i as int)),
            decreases self.table.len() - i,
        {
            assert(self.table@.take(i + 1).drop_last() =~= self.table@.take(i as int));
            if let Some(entry) = self.table[i] {
                out.push(entry);
            }
            i = i + 1;
        }
        assert(self.table@.take(self.table@.len() as int) =~= self.table@);
        out
    }
}

impl Default for ExclusiveTranspositionTable {
    fn default() -> (t: ExclusiveTranspositionTable)
        ensures
            t@ == Seq::new(TABLE_SIZE as nat, |i: int| None::<HashEntry>),
    {
        ExclusiveTranspositionTable::new()
    }
}

impl TranspositionTable for ExclusiveTranspositionTable {
    fn probe(&self, zobrist: u64) -> (r: Option<HashEntry>)
        ensures
            r == probe_slots(self@, zobrist),
    {
        let index = slot_index(zobrist);
        if index >= self.table.len() {
            return None;
        }
        match self.table[index] {
            Some(stored) => if stored.zobrist == zobrist {
                Some(stored)
            } else {
                None
            },
            None => None,
        }
    }

    fn replace(&mut self, entry: HashEntry)
        ensures
            final(self)@ == replace_slots(old(self)@, entry),
            final(self)@.len() == old(self)@.len(),
    {
        let index = slot_index(entry.zobrist);
        if index >= self.table.len() {
            return;
        }
        let replace = match self.table[index] {
            None => true,
            Some(stored) => entry.age > stored.age || entry.depth > stored.depth,
        };
        if replace {
            self.table.set(index, Some(entry));
        }
    }
}

/// A probe after a replace finds the offered entry when the policy stored it,
/// and what it found before otherwise; keys in other slots are unaffected.
pub proof fn law_probe_after_replace(
    slots: Seq<Option<HashEntry>>,
    entry: HashEntry,
    other: u64,
)
    requires
        slots.len() == TABLE_SIZE,
    ensures
        probe_slots(replace_slots(slots, entry), entry.zobrist) == if should_replace(
            slots[slot_of(entry.zobrist)],
            entry,
        ) {
            Some(entry)
        } else {
            probe_slots(slots, entry.zobrist)
        },
        slot_of(other) != slot_of(entry.zobrist) ==> probe_slots(replace_slots(slots, entry), other)
            == probe_slots(slots, other),
{
}

/// The packed code of a flag.
pub open spec fn flag_code(f: Flag) -> u64 {
    match f {
        Flag::Exact => 0,
        Flag::LowerBound => 1,
        Flag::UpperBound => 2,
    }
}

/// The flag a packed code stands for.
pub open spec fn flag_of_code(c: u64) -> Flag {
    if c == 0 {
        Flag::Exact
    } else if c == 1 {
        Flag::LowerBound
    } else {
        Flag::UpperBound
    }
}

/// The move bits of a packed entry; 0 stands for no move.
pub open spec fn move_bits(m: Option<Move>) -> u64 {
    match m {
        Some(mv) => mv.0 as u64,
        None => 0,
    }
}

/// The 60-bit data word of an entry: best_move 16 | depth 8 | value 18 |
/// flag 2 | age 16, from the low bits up.
pub open spec fn pack_word(e: HashEntry) -> u64 {
    move_bits(e.best_move) | (((e.depth as i8) as u8) as u64) << 16u64 | (((e.value as i64)
        as u64) & 0x3FFFF) << 24u64 | flag_code(e.flag) << 42u64 | (e.age as u64) << 44u64
}

/// The depth field of a data word, sign-extended.
pub open spec fn word_depth(data: u64) -> i32 {
    (((data >> 16u64) & 0xFF) as u8) as i8 as i32
}

/// The value field of a data word, sign-extended from 18 bits.
pub open spec fn word_value(data: u64) -> i32 {
    (((((data >> 24u64) & 0x3FFFF) << 46u64) as i64) >> 46u64) as i32
}

/// The age field of a data word.
pub open spec fn word_age(data: u64) -> u16 {
    ((data >> 44u64) & 0xFFFF) as u16
}

/// The entry a data word decodes to under `zobrist`.
pub open spec fn unpack_word(data: u64, zobrist: u64) -> HashEntry {
    HashEntry {
        zobrist,
        best_move: if data & 0xFFFF != 0 {
            Some(Move((data & 0xFFFF) as u16))
        } else {
            None
        },
        depth: word_depth(data),
        value: word_value(data),
        flag: flag_of_code((data >> 42u64) & 3),
        age: word_age(data),
    }
}

/// An entry the 60-bit word holds exactly: a depth that fits 8 signed bits, a
/// value that fits 18, and a move other than the `a1a1` sentinel.
pub open spec fn packable(e: HashEntry) -> bool {
    &&& -128 <= e.depth <= 127
    &&& -131072 <= e.value <= 131071
    &&& e.best_move != Some(Move(0))
}

proof fn lemma_fields(m: u64, d: u64, v: u64, f: u64, a: u64)
    requires
        m < 0x10000,
        d < 0x100,
        v < 0x40000,
        f < 4,
        a < 0x10000,
    ensures
        (m | d << 16u64 | v << 24u64 | f << 42u64 | a << 44u64) & 0xFFFF == m,
        ((m | d << 16u64 | v << 24u64 | f << 42u64 | a << 44u64) >> 16u64) & 0xFF == d,
        ((m | d << 16u64 | v << 24u64 | f << 42u64 | a << 44u64) >> 24u64) & 0x3FFFF == v,
        ((m | d << 16u64 | v << 24u64 | f << 42u64 | a << 44u64) >> 42u64) & 3 == f,
        ((m | d << 16u64 | v << 24u64 | f << 42u64 | a << 44u64) >> 44u64) & 0xFFFF == a,
{
    assert((m | d << 16u64 | v << 24u64 | f << 42u64 | a << 44u64) & 0xFFFF == m) by (bit_vector)
        requires
            m < 0x10000,
            d < 0x100,
            v < 0x40000,
            f < 4,
            a < 0x10000,
    ;
    assert(((m | d << 16u64 | v << 24u64 | f << 42u64 | a << 44u64) >> 16u64) & 0xFF == d)
        by (bit_vector)
        requires
            m < 0x10000,
            d < 0x100,
            v < 0x40000,
            f < 4,
            a < 0x10000,
    ;
    assert(((m | d << 16u64 | v << 24u64 | f << 42u64 | a << 44u64) >> 24u64) & 0x3FFFF == v)
        by (bit_vector)
        requires
            m < 0x10000,
            d < 0x100,
            v < 0x40000,
            f < 4,
            a < 0x10000,
    ;
    assert(((m | d << 16u64 | v << 24u64 | f << 42u64 | a << 44u64) >> 42u64) & 3 == f)
        by (bit_vector)
        requires
            m < 0x10000,
            d < 0x100,
            v < 0x40000,
            f < 4,
            a < 0x10000,
    ;
    assert(((m | d << 16u64 | v << 24u64 | f << 42u64 | a << 44u64) >> 44u64) & 0xFFFF == a)
        by (bit_vector)
        requires
            m < 0x10000,
            d < 0x100,
            v < 0x40000,
            f < 4,
            a < 0x10000,
    ;
}

/// Every packable entry survives packing and unpacking under its own key.
pub proof fn law_pack_round_trip(e: HashEntry)
    requires
        packable(e),
    ensures
        unpack_word(pack_word(e), e.zobrist) == e,
{
    let m = move_bits(e.best_move);
    let depth = e.depth;
    let value = e.value;
    let d = ((depth as i8) as u8) as u64;
    let v = ((value as i64) as u64) & 0x3FFFF;
    let f = flag_code(e.flag);
    let a = e.age as u64;
    assert((((depth as i8) as u8) as u64) < 0x100) by (bit_vector);
    assert((((value as i64) as u64) & 0x3FFFF) < 0x40000) by (bit_vector);
    assert(m < 0x10000) by {
        if let Some(mv) = e.best_move {
            let x = mv.0;
            assert((x as u64) < 0x10000) by (bit_vector);
        }
    }
    lemma_fields(m, d, v, f, a);
    let w = pack_word(e);
    assert(word_depth(w) == depth) by {
        assert(-128 <= depth <= 127 ==> ((((depth as i8) as u8) as u64) as u8) as i8 as i32
            == depth) by (bit_vector);
    }
    assert(word_value(w) == value) by {
        assert(-131072 <= value <= 131071 ==> (((((value as i64) as u64) & 0x3FFFF) << 46u64)
            as i64 >> 46u64) as i32 == value) by (bit_vector);
    }
    assert(word_age(w) == e.age) by {
        let age = e.age;
        assert(((age as u64) as u16) == age) by (bit_vector);
    }
    if let Some(mv) = e.best_move {
        let x = mv.0;
        assert(x != 0 ==> (x as u64) != 0) by (bit_vector);
        assert(((x as u64) as u16) == x) by (bit_vector);
        assert(mv == Move(x));
    }
}

/// What a probe of `zobrist` reads from a slot holding `key` and `data`: an
/// all-zero slot is empty; otherwise the entry when the checksum holds.
pub open spec fn slot_reading(key: u64, data: u64, zobrist: u64) -> Option<HashEntry> {
    if key == 0 && data == 0 {
        None
    } else if key ^ data == zobrist {
        Some(unpack_word(data, zobrist))
    } else {
        None
    }
}

/// What offering `entry` to a slot holding `stored_key` and `stored` writes:
/// the checksum key and packed data, when the slot is empty (all zero) or the
/// entry is newer or deeper.
pub open spec fn store_decision(stored_key: u64, stored: u64, entry: HashEntry) -> Option<(u64, u64)> {
    if (stored_key == 0 && stored == 0) || entry.age > word_age(stored) || entry.depth > word_depth(
        stored,
    ) {
        Some((entry.zobrist ^ pack_word(entry), pack_word(entry)))
    } else {
        None
    }
}

/// One slot of the lockless table: the `key` checksum and the packed-entry
/// `data`. All-zero is empty.
struct AtomicSlot {
    key: AtomicU64,
    data: AtomicU64,
}

impl AtomicSlot {
    fn empty() -> AtomicSlot {
        AtomicSlot { key: AtomicU64::new(0), data: AtomicU64::new(0) }
    }
}

/// The lockless parallel backend: a slot table of atomic word pairs using the
/// key-XOR-data trick. Each entry packs into one 60-bit `data` word and the slot
/// stores `key = zobrist ^ data`, so `probe` trusts a slot only when
/// `key ^ data` reproduces the probed zobrist. A torn read — `key` from one
/// store, `data` from another — fails that checksum and reads as a miss, never a
/// wrong-position hit.
pub struct LocklessTranspositionTable {
    table: Vec<AtomicSlot>,
}

/// The depth field of a stored word.
fn stored_depth(data: u64) -> (r: i32)
    ensures
        r == word_depth(data),
{
    ((data >> 16u64) & 0xFF) as u8 as i8 as i32
}

/// The age field of a stored word.
fn stored_age(data: u64) -> (r: u16)
    ensures
        r == word_age(data),
{
    ((data >> 44u64) & 0xFFFF) as u16
}

impl LocklessTranspositionTable {
    #[verifier::type_invariant]
    spec fn sized(self) -> bool {
        self.table@.len() == TABLE_SIZE
    }

    pub fn new() -> LocklessTranspositionTable {
        let mut table: Vec<AtomicSlot> = Vec::new();
        let mut i: usize = 0;
        while i < TABLE_SIZE
            invariant
                i <= TABLE_SIZE,
                table@.len() == i,
            decreases TABLE_SIZE - i,
        {
            table.push(AtomicSlot::empty());
            i = i + 1;
        }
        LocklessTranspositionTable { table }
    }

    /// Pack an entry's fields (everything but the zobrist) into one 60-bit word.
    pub fn pack(entry: HashEntry) -> (r: u64)
        ensures
            r == pack_word(entry),
    {
        let best_move: u64 = match entry.best_move {
            Some(mv) => mv.0 as u64,
            None => 0,
        };
        let depth = ((entry.depth as i8) as u8) as u64;
        let value = ((entry.value as i64) as u64) & 0x3FFFF;
        let flag: u64 = match entry.flag {
            Flag::Exact => 0,
            Flag::LowerBound => 1,
            Flag::UpperBound => 2,
        };
        let age = entry.age as u64;
        best_move | depth << 16u64 | value << 24u64 | flag << 42u64 | age << 44u64
    }

    /// Decode a packed word; the zobrist is supplied by the caller (not stored).
    pub fn unpack(data: u64, zobrist: u64) -> (r: HashEntry)
        ensures
            r == unpack_word(data, zobrist),
    {
        let move_bits = (data & 0xFFFF) as u16;
        let best_move = if move_bits != 0 {
            Some(Move(move_bits))
        } else {
            None
        };
        let depth = stored_depth(data);
        // Sign-extend the value: lift its high bit to bit 63, then shift back.
        let raw = (data >> 24u64) & 0x3FFFF;
        let value = (((raw << 46u64) as i64) >> 46u64) as i32;
        let code = (data >> 42u64) & 3;
        let flag = if code == 0 {
            Flag::Exact
        } else if code == 1 {
            Flag::LowerBound
        } else {
            Flag::UpperBound
        };
        let age = stored_age(data);
        proof {
            assert((data & 0xFFFF != 0) == (((data & 0xFFFF) as u16) != 0)) by (bit_vector);
        }
        HashEntry { zobrist, best_move, depth, value, flag, age }
    }

    /// What a slot holding the words `key` and `data` gives a probe of
    /// `zobrist`: nothing for an empty (all-zero) slot, else the decoded entry
    /// when the checksum `key ^ data` reproduces the zobrist.
    pub fn read_slot(key: u64, data: u64, zobrist: u64) -> (r: Option<HashEntry>)
        ensures
            r == slot_reading(key, data, zobrist),
    {
        if key == 0 && data == 0 {
            None
        } else if key ^ data == zobrist {
            Some(LocklessTranspositionTable::unpack(data, zobrist))
        } else {
            None
        }
    }

    /// The words to write into a slot holding `stored_key` and `stored` when
    /// offering `entry`: its checksum key and packed data, when the slot is
    /// empty or the entry is newer or deeper than the stored one.
    pub fn words_to_store(stored_key: u64, stored: u64, entry: HashEntry) -> (r: Option<(u64, u64)>)
        ensures
            r == store_decision(stored_key, stored, entry),
    {
        let depth = stored_depth(stored);
        let age = stored_age(stored);
        if (stored_key == 0 && stored == 0) || entry.age > age || entry.depth > depth {
            let data = LocklessTranspositionTable::pack(entry);
            Some((entry.zobrist ^ data, data))
        } else {
            None
        }
    }

    /// The entry stored for `zobrist`, if the slot's checksum reproduces it.
    /// The slot's two words are read from atomics other threads may be
    /// writing, so what they hold is not stated; the result is what
    /// `read_slot` gives for the words read, and a hit is always an entry for
    /// the probed key.
    pub fn probe_shared(&self, zobrist: u64) -> (r: Option<HashEntry>)
        ensures
            exists|key: u64, data: u64| r == slot_reading(key, data, zobrist),
            r matches Some(e) ==> e.zobrist == zobrist && exists|data: u64|
                e == unpack_word(data, zobrist),
    {
        proof {
            use_type_invariant(self);
        }
        let slot = &self.table[slot_index(zobrist)];
        let data = slot.data.load(std::sync::atomic::Ordering::Relaxed);
        let key = slot.key.load(std::sync::atomic::Ordering::Relaxed);
        // The checksum holds only when both words come from the same store.
        LocklessTranspositionTable::read_slot(key, data, zobrist)
    }

    /// Best-effort replace-by-age-or-depth, callable from several threads at
    /// once. An empty (all-zero) slot takes any entry; a lost race costs nodes,
    /// never legality. The words written are those `words_to_store` gives for
    /// the words read; the atomics' contents are not stated.
    pub fn replace_shared(&self, entry: HashEntry) {
        proof {
            use_type_invariant(self);
        }
        let slot = &self.table[slot_index(entry.zobrist)];
        let stored = slot.data.load(std::sync::atomic::Ordering::Relaxed);
        let stored_key = slot.key.load(std::sync::atomic::Ordering::Relaxed);
        if let Some((key, data)) = LocklessTranspositionTable::words_to_store(stored_key, stored, entry) {
            slot.key.store(key, std::sync::atomic::Ordering::Relaxed);
            slot.data.store(data, std::sync::atomic::Ordering::Relaxed);
        }
    }

    /// Store a data word into `zobrist`'s slot without its key, as a writer
    /// interrupted between its two stores leaves the slot.
    pub fn overwrite_data(&self, zobrist: u64, data: u64) {
        proof {
            use_type_invariant(self);
        }
        let slot = &self.table[slot_index(zobrist)];
        slot.data.store(data, std::sync::atomic::Ordering::Relaxed);
    }
}

impl Default for LocklessTranspositionTable {
    fn default() -> LocklessTranspositionTable {
        LocklessTranspositionTable::new()
    }
}

impl TranspositionTable for LocklessTranspositionTable {
    fn probe(&self, zobrist: u64) -> (r: Option<HashEntry>)
        ensures
            exists|key: u64, data: u64| r == slot_reading(key, data, zobrist),
            r matches Some(e) ==> e.zobrist == zobrist && exists|data: u64|
                e == unpack_word(data, zobrist),
    {
        self.probe_shared(zobrist)
    }

    fn replace(&mut self, entry: HashEntry) {
        self.replace_shared(entry)
    }
}

} // verus!
