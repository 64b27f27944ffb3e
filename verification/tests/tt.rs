use brandobot_core::chess_move::Move;
use brandobot_core::tt::{
    flag_name, ExclusiveTranspositionTable, Flag, HashEntry, LocklessTranspositionTable,
    TranspositionTable,
};

fn entry(depth: i32, age: u16) -> HashEntry {
    HashEntry {
        zobrist: 0xABCD,
        best_move: None,
        depth,
        value: 20,
        flag: Flag::Exact,
        age,
    }
}

#[test]
fn stores_into_an_empty_slot() {
    let mut table = ExclusiveTranspositionTable::new();
    let stored = entry(5, 0);
    table.replace(stored);
    assert_eq!(table.probe(0xABCD), Some(stored));
}

#[test]
fn replaces_when_age_is_greater() {
    let mut table = ExclusiveTranspositionTable::new();
    table.replace(entry(5, 0));
    let newer = entry(5, 2);
    table.replace(newer);
    assert_eq!(table.probe(0xABCD), Some(newer));
}

#[test]
fn replaces_when_depth_is_greater_and_age_equal() {
    let mut table = ExclusiveTranspositionTable::new();
    table.replace(entry(4, 0));
    let deeper = entry(5, 0);
    table.replace(deeper);
    assert_eq!(table.probe(0xABCD), Some(deeper));
}

#[test]
fn keeps_entry_when_depth_is_lesser_and_age_equal() {
    let mut table = ExclusiveTranspositionTable::new();
    let deeper = entry(5, 0);
    table.replace(deeper);
    table.replace(entry(4, 0));
    assert_eq!(table.probe(0xABCD), Some(deeper));
}

#[test]
fn a_probe_of_a_colliding_key_misses() {
    let mut table = ExclusiveTranspositionTable::new();
    table.replace(entry(5, 0));
    // Same slot, different key.
    assert_eq!(table.probe(0xABCD + 1_048_583), None);
    assert_eq!(table.entries(), vec![entry(5, 0)]);
}

fn full_entry(
    zobrist: u64,
    best_move: Option<Move>,
    depth: i32,
    value: i32,
    flag: Flag,
    age: u16,
) -> HashEntry {
    HashEntry {
        zobrist,
        best_move,
        depth,
        value,
        flag,
        age,
    }
}

#[test]
fn lockless_entry_round_trips_through_packing() {
    // Every field survives the 60-bit codec, including a None move, the depth
    // and value extremes (negative quiescence depth, ±mate), all three flags,
    // and the full 16-bit age range.
    let cases = [
        full_entry(0x1, None, 0, 0, Flag::Exact, 0),
        full_entry(
            0x2,
            Some(Move(0xFFFF)),
            64,
            99_999,
            Flag::LowerBound,
            65_535,
        ),
        full_entry(0x3, Some(Move(1)), -5, -99_999, Flag::UpperBound, 100),
        full_entry(0x4, Some(Move(0x0ABC)), 12, -54_321, Flag::Exact, 7),
    ];
    for entry in cases {
        let data = LocklessTranspositionTable::pack(entry);
        assert_eq!(LocklessTranspositionTable::unpack(data, entry.zobrist), entry);
    }
}

#[test]
fn lockless_stores_and_probes() {
    let mut table = LocklessTranspositionTable::new();
    let stored = full_entry(0xDEAD_BEEF, Some(Move(0x1234)), 7, 42, Flag::Exact, 3);
    table.replace(stored);
    assert_eq!(table.probe(0xDEAD_BEEF), Some(stored));
    assert_eq!(table.probe(0xFEED_FACE), None);
}

#[test]
fn lockless_rejects_a_torn_read() {
    // A torn read — `key` from one store, `data` from another — fails the
    // key-XOR-data checksum and reads as a miss, never a wrong-position hit.
    let mut table = LocklessTranspositionTable::new();
    let zobrist = 0xDEAD_BEEF;
    let stored = full_entry(zobrist, Some(Move(0x1234)), 7, 42, Flag::Exact, 3);
    let intruder = full_entry(zobrist, Some(Move(0x5678)), 9, -88, Flag::LowerBound, 4);
    table.replace(stored);
    assert_eq!(table.probe(zobrist), Some(stored));
    // Overwrite only the data word, leaving the old key: the checksum breaks.
    table.overwrite_data(zobrist, LocklessTranspositionTable::pack(intruder));
    assert_eq!(table.probe(zobrist), None);
}

#[test]
fn lockless_keeps_the_deeper_entry() {
    let mut table = LocklessTranspositionTable::new();
    let zobrist = 0x99;
    let deep = full_entry(zobrist, None, 8, 10, Flag::Exact, 0);
    table.replace(deep);
    table.replace(full_entry(zobrist, None, 3, 20, Flag::Exact, 0));
    assert_eq!(table.probe(zobrist), Some(deep));
}

#[test]
fn a_shared_table_is_written_through_a_shared_reference() {
    let table = LocklessTranspositionTable::new();
    let stored = full_entry(0x77, Some(Move(0x0042)), 2, -7, Flag::UpperBound, 1);
    table.replace_shared(stored);
    assert_eq!(table.probe_shared(0x77), Some(stored));
}

#[test]
fn flags_are_listed_by_name() {
    assert_eq!(flag_name(Flag::Exact), "EXACT");
    assert_eq!(flag_name(Flag::LowerBound), "LOWER_BOUND");
    assert_eq!(flag_name(Flag::UpperBound), "UPPER_BOUND");
}

#[test]
fn a_slot_reads_back_only_when_its_checksum_matches() {
    let entry = full_entry(0xDEAD_BEEF, Some(Move(0x0123)), 7, -150, Flag::UpperBound, 12);
    let data = LocklessTranspositionTable::pack(entry);
    let key = entry.zobrist ^ data;
    assert_eq!(
        LocklessTranspositionTable::read_slot(key, data, entry.zobrist),
        Some(entry)
    );
    assert_eq!(
        LocklessTranspositionTable::read_slot(key ^ 1, data, entry.zobrist),
        None
    );
    assert_eq!(LocklessTranspositionTable::read_slot(0, 0, 0xDEAD_BEEF), None);
}

#[test]
fn a_slot_is_written_only_for_a_newer_or_deeper_entry() {
    let stored = LocklessTranspositionTable::pack(full_entry(9, None, 5, 0, Flag::Exact, 3));
    let deeper = full_entry(9, None, 6, 10, Flag::Exact, 3);
    let data = LocklessTranspositionTable::pack(deeper);
    assert_eq!(
        LocklessTranspositionTable::words_to_store(1, stored, deeper),
        Some((9 ^ data, data))
    );
    let newer = full_entry(9, None, 1, 10, Flag::Exact, 4);
    assert!(LocklessTranspositionTable::words_to_store(1, stored, newer).is_some());
    let shallower = full_entry(9, None, 4, 10, Flag::Exact, 3);
    assert_eq!(LocklessTranspositionTable::words_to_store(1, stored, shallower), None);
    let same = full_entry(9, None, 5, 10, Flag::Exact, 3);
    assert_eq!(LocklessTranspositionTable::words_to_store(1, stored, same), None);
    assert!(LocklessTranspositionTable::words_to_store(0, 0, full_entry(9, None, 0, 0, Flag::Exact, 0)).is_some());
}

#[test]
fn an_empty_lockless_slot_reads_as_a_miss_and_takes_any_entry() {
    let mut table = LocklessTranspositionTable::new();
    assert_eq!(table.probe(0), None);
    assert_eq!(LocklessTranspositionTable::read_slot(0, 0, 0), None);
    let e = full_entry(0x99, None, 0, 10, Flag::Exact, 0);
    table.replace(e);
    assert_eq!(table.probe(0x99), Some(e));
}
