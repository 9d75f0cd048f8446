use squab::record::{DecodeError, Record};
use squab::record_pairs::{key, mate_key, PairPosition, PairingError, RecordPairs};

const FLAG_PAIRED_READ_1: u16 = 0x41;
const FLAG_PAIRED_READ_2: u16 = 0x81;
const FLAG_PAIRED_ONLY: u16 = 0x01;
const FLAG_SECONDARY: u16 = 0x100;
const FLAG_SUPPLEMENTARY: u16 = 0x800;

fn build_record(
    name: &str,
    flag: u16,
    ref_id: i32,
    pos: i32,
    next_ref_id: i32,
    next_pos: i32,
    tlen: i32,
) -> Record {
    Record {
        read_name: name.as_bytes().to_vec(),
        flag,
        ref_id,
        pos,
        next_ref_id,
        next_pos,
        tlen,
    }
}

fn ok(record: Record) -> Result<Record, DecodeError> {
    Ok(record)
}

fn failure(message: &str) -> Result<Record, DecodeError> {
    Err(DecodeError {
        message: String::from(message),
    })
}

fn drain_all(pairs: &mut RecordPairs) -> Vec<Record> {
    let mut singletons = pairs.singletons();
    let mut out = Vec::new();
    while let Some(record) = singletons.next() {
        out.push(record);
    }
    out
}

#[test]
fn test_mate() {
    assert_eq!(PairPosition::First.mate(), PairPosition::Second);
    assert_eq!(PairPosition::Second.mate(), PairPosition::First);
}

#[test]
fn test_try_from_flag() {
    let flag = 0x41;
    assert_eq!(
        PairPosition::try_from_flag(flag),
        Some(PairPosition::First)
    );

    let flag = 0x81;
    assert_eq!(
        PairPosition::try_from_flag(flag),
        Some(PairPosition::Second)
    );

    let flag = 0x01;
    assert!(PairPosition::try_from_flag(flag).is_none());
}

#[test]
fn test_mate_key_matches_true_mates_key() {
    let a = build_record("r1", FLAG_PAIRED_READ_1, 0, 10, 0, 50, 40);
    let b = build_record("r1", FLAG_PAIRED_READ_2, 0, 50, 0, 10, -40);

    assert_eq!(mate_key(&a), key(&b));
    assert_eq!(mate_key(&b), key(&a));
}

#[test]
fn test_key_is_none_without_designation() {
    let record = build_record("r1", FLAG_PAIRED_ONLY, 0, 10, 0, 50, 40);
    assert!(key(&record).is_none());
    assert!(mate_key(&record).is_none());
}

#[test]
fn test_pair_emitted_in_first_second_order_either_arrival() {
    let a1 = build_record("r1", FLAG_PAIRED_READ_1, 0, 10, 0, 50, 40);
    let a2 = build_record("r1", FLAG_PAIRED_READ_2, 0, 50, 0, 10, -40);

    let mut pairs = RecordPairs::new(vec![ok(a1.clone()), ok(a2.clone())], false);
    assert_eq!(pairs.next_pair(), Some(Ok((a1.clone(), a2.clone()))));
    assert_eq!(pairs.next_pair(), None);
    assert!(drain_all(&mut pairs).is_empty());

    let mut pairs = RecordPairs::new(vec![ok(a2.clone()), ok(a1.clone())], false);
    assert_eq!(pairs.next_pair(), Some(Ok((a1, a2))));
    assert_eq!(pairs.next_pair(), None);
    assert!(drain_all(&mut pairs).is_empty());
}

#[test]
fn test_pair_emitted_across_unrelated_records() {
    let a1 = build_record("r1", FLAG_PAIRED_READ_1, 0, 10, 0, 50, 40);
    let b1 = build_record("r2", FLAG_PAIRED_READ_1, 1, 5, 1, 95, 90);
    let b2 = build_record("r2", FLAG_PAIRED_READ_2, 1, 95, 1, 5, -90);
    let a2 = build_record("r1", FLAG_PAIRED_READ_2, 0, 50, 0, 10, -40);

    let mut pairs = RecordPairs::new(
        vec![ok(a1.clone()), ok(b1.clone()), ok(b2.clone()), ok(a2.clone())],
        false,
    );
    assert_eq!(pairs.next_pair(), Some(Ok((b1, b2))));
    assert_eq!(pairs.next_pair(), Some(Ok((a1, a2))));
    assert_eq!(pairs.next_pair(), None);
    assert!(drain_all(&mut pairs).is_empty());
}

#[test]
fn test_unmatched_record_drained_exactly_once() {
    let a1 = build_record("r1", FLAG_PAIRED_READ_1, 0, 10, 0, 50, 40);
    let b1 = build_record("r2", FLAG_PAIRED_READ_1, 0, 100, 0, 120, 20);
    let a2 = build_record("r1", FLAG_PAIRED_READ_2, 0, 50, 0, 10, -40);

    let mut pairs = RecordPairs::new(vec![ok(a1.clone()), ok(b1.clone()), ok(a2.clone())], false);
    assert_eq!(pairs.next_pair(), Some(Ok((a1, a2))));
    assert_eq!(pairs.next_pair(), None);
    assert_eq!(pairs.buffered_count(), 1);

    let singletons = drain_all(&mut pairs);
    assert_eq!(singletons, vec![b1]);
}

#[test]
fn test_primary_only_excludes_secondary_and_supplementary() {
    let a1 = build_record("r1", FLAG_PAIRED_READ_1, 0, 10, 0, 50, 40);
    let secondary = build_record("r3", FLAG_PAIRED_READ_1 | FLAG_SECONDARY, 0, 10, 0, 50, 40);
    let supplementary =
        build_record("r4", FLAG_PAIRED_READ_2 | FLAG_SUPPLEMENTARY, 0, 50, 0, 10, -40);
    let a2 = build_record("r1", FLAG_PAIRED_READ_2, 0, 50, 0, 10, -40);

    let mut pairs = RecordPairs::new(
        vec![
            ok(a1.clone()),
            ok(secondary),
            ok(supplementary),
            ok(a2.clone()),
        ],
        true,
    );
    assert_eq!(pairs.next_pair(), Some(Ok((a1, a2))));
    assert_eq!(pairs.next_pair(), None);
    assert!(drain_all(&mut pairs).is_empty());
}

#[test]
fn test_without_filtering_secondary_records_participate() {
    let secondary = build_record("r3", FLAG_PAIRED_READ_1 | FLAG_SECONDARY, 0, 10, 0, 50, 40);

    let mut pairs = RecordPairs::new(vec![ok(secondary.clone())], false);
    assert_eq!(pairs.next_pair(), None);
    assert_eq!(drain_all(&mut pairs), vec![secondary]);
}

#[test]
fn test_decode_failure_is_forwarded_and_isolated() {
    let a1 = build_record("r1", FLAG_PAIRED_READ_1, 0, 10, 0, 50, 40);
    let a2 = build_record("r1", FLAG_PAIRED_READ_2, 0, 50, 0, 10, -40);

    let mut pairs = RecordPairs::new(
        vec![ok(a1.clone()), failure("truncated block"), ok(a2.clone())],
        false,
    );
    assert_eq!(
        pairs.next_pair(),
        Some(Err(PairingError::Decode(DecodeError {
            message: String::from("truncated block"),
        })))
    );
    assert_eq!(pairs.next_pair(), Some(Ok((a1, a2))));
    assert_eq!(pairs.next_pair(), None);
    assert!(drain_all(&mut pairs).is_empty());
}

#[test]
fn test_record_without_designation_is_surfaced() {
    let odd = build_record("r9", FLAG_PAIRED_ONLY, 0, 10, 0, 50, 40);

    let mut pairs = RecordPairs::new(vec![ok(odd.clone())], false);
    assert_eq!(
        pairs.next_pair(),
        Some(Err(PairingError::Designation(odd)))
    );
    assert_eq!(pairs.next_pair(), None);
    assert!(drain_all(&mut pairs).is_empty());
}

#[test]
fn test_second_drain_is_empty() {
    let b1 = build_record("r2", FLAG_PAIRED_READ_1, 0, 100, 0, 120, 20);

    let mut pairs = RecordPairs::new(vec![ok(b1.clone())], false);
    assert_eq!(pairs.next_pair(), None);
    assert_eq!(drain_all(&mut pairs), vec![b1]);
    assert!(drain_all(&mut pairs).is_empty());
    assert_eq!(pairs.buffered_count(), 0);
}

#[test]
fn test_three_records_one_pair_one_singleton() {
    let a1 = build_record("r1", FLAG_PAIRED_READ_1, 0, 10, 0, 50, 40);
    let b1 = build_record("r2", FLAG_PAIRED_READ_1, 0, 100, 0, 120, 20);
    let a2 = build_record("r1", FLAG_PAIRED_READ_2, 0, 50, 0, 10, -40);

    let mut pairs = RecordPairs::new(vec![ok(a1.clone()), ok(b1.clone()), ok(a2.clone())], false);
    assert_eq!(pairs.next_pair(), Some(Ok((a1, a2))));
    assert_eq!(pairs.next_pair(), None);
    assert_eq!(pairs.buffered_count(), 1);
    assert_eq!(drain_all(&mut pairs), vec![b1]);
}

#[test]
fn test_identical_keys_last_write_wins() {
    let first = build_record("r1", FLAG_PAIRED_READ_1, 0, 10, 0, 50, 40);
    let mut second = first.clone();
    second.flag |= FLAG_SUPPLEMENTARY;
    assert_ne!(first, second);
    assert_eq!(key(&first), key(&second));

    let mut pairs = RecordPairs::new(vec![ok(first), ok(second.clone())], false);
    assert_eq!(pairs.next_pair(), None);
    assert_eq!(drain_all(&mut pairs), vec![second.clone()]);

    let mate = build_record("r1", FLAG_PAIRED_READ_2, 0, 50, 0, 10, -40);
    let first = build_record("r1", FLAG_PAIRED_READ_1, 0, 10, 0, 50, 40);
    let mut pairs = RecordPairs::new(
        vec![ok(first), ok(second.clone()), ok(mate.clone())],
        false,
    );
    assert_eq!(pairs.next_pair(), Some(Ok((second, mate))));
    assert_eq!(pairs.next_pair(), None);
    assert!(drain_all(&mut pairs).is_empty());
}

#[test]
fn test_extreme_template_length_pairs() {
    let a1 = build_record("r1", FLAG_PAIRED_READ_1, 0, 10, 0, 50, i32::MIN);
    let mut a2 = build_record("r1", FLAG_PAIRED_READ_2, 0, 50, 0, 10, 0);

    let mut pairs = RecordPairs::new(vec![ok(a1.clone()), ok(a2.clone())], false);
    assert_eq!(pairs.next_pair(), None);
    assert_eq!(pairs.buffered_count(), 2);

    a2.tlen = i32::MIN;
    let mut pairs = RecordPairs::new(vec![ok(a1.clone()), ok(a2.clone())], false);
    assert_eq!(pairs.next_pair(), None);
    assert_eq!(pairs.buffered_count(), 2);
}

#[test]
fn test_empty_input() {
    let mut pairs = RecordPairs::new(Vec::new(), false);
    assert_eq!(pairs.next_pair(), None);
    assert_eq!(pairs.buffered_count(), 0);
    assert!(drain_all(&mut pairs).is_empty());
}
