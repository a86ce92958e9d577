use rource::codec::{log_to_bytes, serialize_logs, CodecError};
use rource::external::{external_sort, merge_runs, SortChunk};
use rource::ingest::{encode_batch, IngestionAggregator};
use rource::record::{GourceActionType, GourceLogFormat};
use rource::sort::{merge_two, select_min, sort_records};
use rource::spool::batch_log_write;
use std::cmp::Ordering;

fn rec(timestamp: i64, file: &str, kind: GourceActionType, username: &str) -> GourceLogFormat {
    GourceLogFormat {
        timestamp,
        username: username.to_string(),
        kind,
        file: file.to_string(),
    }
}

fn spool_of(records: &[GourceLogFormat]) -> Vec<u8> {
    let mut bytes = Vec::new();
    batch_log_write(&mut bytes, serialize_logs(records).unwrap());
    bytes
}

fn is_ordered(v: &[GourceLogFormat]) -> bool {
    v.windows(2).all(|w| w[0].cmp_key(&w[1]) != Ordering::Greater)
}

fn three_changes() -> Vec<GourceLogFormat> {
    vec![
        rec(100, "root/a.txt", GourceActionType::M, "alice"),
        rec(50, "root/b.txt", GourceActionType::A, "bob"),
        rec(100, "root/a.txt", GourceActionType::A, "carol"),
    ]
}

fn three_changes_sorted() -> Vec<GourceLogFormat> {
    vec![
        rec(50, "root/b.txt", GourceActionType::A, "bob"),
        rec(100, "root/a.txt", GourceActionType::A, "carol"),
        rec(100, "root/a.txt", GourceActionType::M, "alice"),
    ]
}

#[test]
fn key_orders_by_time_file_action_user() {
    let a = rec(1, "b", GourceActionType::A, "z");
    let b = rec(2, "a", GourceActionType::A, "a");
    assert_eq!(a.cmp_key(&b), Ordering::Less);
    let c = rec(1, "a", GourceActionType::D, "z");
    assert_eq!(c.cmp_key(&a), Ordering::Less);
    let d = rec(1, "a", GourceActionType::M, "z");
    assert_eq!(d.cmp_key(&c), Ordering::Less);
    let e = rec(1, "a", GourceActionType::M, "y");
    assert_eq!(e.cmp_key(&d), Ordering::Less);
    assert_eq!(e.cmp_key(&e.clone()), Ordering::Equal);
    assert!(!d.le_key(&e));
    assert_eq!(rec(1, "ab", GourceActionType::A, "u").cmp_key(&rec(1, "a", GourceActionType::A, "u")), Ordering::Greater);
}

#[test]
fn text_compares_by_utf8_bytes() {
    let a = rec(1, "Z", GourceActionType::A, "u");
    let b = rec(1, "é", GourceActionType::A, "u");
    assert_eq!(a.cmp_key(&b), Ordering::Less);
    assert_eq!(a.file.cmp(&b.file), Ordering::Less);
}

#[test]
fn action_letters_and_ordinals() {
    assert_eq!(GourceActionType::A.letter(), "A");
    assert_eq!(GourceActionType::M.letter(), "M");
    assert_eq!(GourceActionType::D.letter(), "D");
    assert_eq!(GourceActionType::D.to_ordinal(), 2);
    assert_eq!(GourceActionType::from_ordinal(1), Some(GourceActionType::M));
    assert_eq!(GourceActionType::from_ordinal(3), None);
}

#[test]
fn sort_records_orders_by_key() {
    let out = sort_records(&three_changes());
    assert_eq!(out, three_changes_sorted());
}

#[test]
fn sorting_sorted_input_is_identity() {
    let sorted = three_changes_sorted();
    assert_eq!(sort_records(&sorted), sorted);
    let run = external_sort(spool_of(&sorted), 1).unwrap();
    assert_eq!(run.records, sorted);
}

#[test]
fn merge_two_is_stable_and_ordered() {
    let a = vec![rec(1, "a", GourceActionType::A, "x"), rec(3, "a", GourceActionType::A, "x")];
    let b = vec![rec(2, "a", GourceActionType::A, "x"), rec(3, "a", GourceActionType::A, "x")];
    let m = merge_two(a, b);
    let ts: Vec<i64> = m.iter().map(|r| r.timestamp).collect();
    assert_eq!(ts, vec![1, 2, 3, 3]);
}

#[test]
fn select_min_prefers_lowest_index_on_ties() {
    let heads = vec![
        None,
        Some(rec(5, "a", GourceActionType::A, "x")),
        Some(rec(3, "a", GourceActionType::A, "x")),
        Some(rec(3, "a", GourceActionType::A, "x")),
    ];
    assert_eq!(select_min(&heads), Some(2));
    assert_eq!(select_min(&vec![None, None]), None);
    assert_eq!(select_min(&vec![]), None);
}

#[test]
fn three_changes_in_one_record_chunks() {
    let run = external_sort(spool_of(&three_changes()), 1).unwrap();
    assert_eq!(run.chunks, 3);
    assert_eq!(run.records, three_changes_sorted());
}

#[test]
fn three_changes_in_one_chunk() {
    let run = external_sort(spool_of(&three_changes()), 1 << 20).unwrap();
    assert_eq!(run.chunks, 1);
    assert_eq!(run.records, three_changes_sorted());
}

fn synthetic(n: usize) -> Vec<GourceLogFormat> {
    (0..n)
        .map(|i| {
            let k = (i * 7919) % n;
            let kind = match i % 3 {
                0 => GourceActionType::A,
                1 => GourceActionType::M,
                _ => GourceActionType::D,
            };
            rec(1_000_000 + (k % 997) as i64, &format!("dir/file{:05}", k), kind, &format!("user{:03}", i % 50))
        })
        .collect()
}

#[test]
fn ten_thousand_records_in_ten_chunks_match_in_memory_sort() {
    let input = synthetic(10_000);
    let frame = log_to_bytes(&input[0]).unwrap().data.len() as u64 + 2;
    for r in &input {
        assert_eq!(log_to_bytes(r).unwrap().data.len() as u64 + 2, frame);
    }
    let run = external_sort(spool_of(&input), 1000 * frame).unwrap();
    assert_eq!(run.chunks, 10);
    let reference = sort_records(&input);
    assert!(is_ordered(&reference));
    let left: Vec<Vec<u8>> = run.records.iter().map(|r| log_to_bytes(r).unwrap().data).collect();
    let right: Vec<Vec<u8>> = reference.iter().map(|r| log_to_bytes(r).unwrap().data).collect();
    assert_eq!(left, right);
}

#[test]
fn empty_spool_gives_nothing_and_no_chunks() {
    let run = external_sort(Vec::new(), 64).unwrap();
    assert!(run.records.is_empty());
    assert_eq!(run.chunks, 0);
}

#[test]
fn chunk_count_and_output_do_not_depend_on_arrival_order() {
    let input = synthetic(300);
    let mut reversed = input.clone();
    reversed.reverse();
    let frame = log_to_bytes(&input[0]).unwrap().data.len() as u64 + 2;
    let a = external_sort(spool_of(&input), 40 * frame).unwrap();
    let b = external_sort(spool_of(&reversed), 40 * frame).unwrap();
    assert_eq!(a.chunks, 8);
    assert_eq!(a.chunks, b.chunks);
    assert_eq!(a.records, b.records);
    assert_eq!(a.records.len(), 300);
    assert!(is_ordered(&a.records));
}

#[test]
fn corrupt_spool_fails_the_sort() {
    let mut bytes = spool_of(&three_changes());
    bytes.extend_from_slice(&[2, 0, 0xff, 0xff]);
    assert!(matches!(external_sort(bytes, 1), Err(CodecError::CorruptRecord)));
}

#[test]
fn sort_chunk_flushes_when_over_budget() {
    let mut c = SortChunk::new(10);
    assert!(c.push(rec(3, "a", GourceActionType::A, "x"), 6).is_none());
    assert!(c.push(rec(1, "a", GourceActionType::A, "x"), 4).is_none());
    let full = c.push(rec(2, "a", GourceActionType::A, "x"), 1).unwrap();
    assert_eq!(full.iter().map(|r| r.timestamp).collect::<Vec<_>>(), vec![1, 3]);
    let last = c.finish().unwrap();
    assert_eq!(last.len(), 1);
    assert!(SortChunk::new(5).finish().is_none());
}

#[test]
fn merge_runs_orders_everything() {
    let runs = vec![
        vec![rec(1, "a", GourceActionType::A, "x"), rec(4, "a", GourceActionType::A, "x")],
        vec![],
        vec![rec(2, "a", GourceActionType::A, "x"), rec(3, "a", GourceActionType::A, "x")],
    ];
    let m = merge_runs(runs);
    assert_eq!(m.iter().map(|r| r.timestamp).collect::<Vec<_>>(), vec![1, 2, 3, 4]);
}

#[test]
fn buffered_aggregator_sorts_in_memory() {
    let mut agg = IngestionAggregator::new(false);
    agg.add_batch(vec![three_changes()[0].clone()]).unwrap();
    agg.add_batch(three_changes()[1..].to_vec()).unwrap();
    let out = agg.finish(1).unwrap();
    assert_eq!(out.chunks, 0);
    assert_eq!(out.records, three_changes_sorted());
}

#[test]
fn spooled_aggregator_drops_a_batch_with_a_huge_record() {
    let mut agg = IngestionAggregator::new(true);
    agg.add_batch(three_changes()).unwrap();
    let bad = vec![rec(7, "ok", GourceActionType::A, "x"), rec(8, &"y".repeat(70_000), GourceActionType::A, "x")];
    assert!(matches!(agg.add_batch(bad), Err(CodecError::RecordTooLarge(_))));
    assert_eq!(agg.failed_batches(), 1);
    let out = agg.finish(1).unwrap();
    assert_eq!(out.chunks, 3);
    assert_eq!(out.records, three_changes_sorted());
}

#[test]
fn encode_batch_is_the_concatenated_frames() {
    let input = three_changes();
    assert_eq!(encode_batch(&input).unwrap(), spool_of(&input));
    assert_eq!(encode_batch(&[]).unwrap(), Vec::<u8>::new());
}
