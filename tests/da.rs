use rooch_da::{
    collect_chunks, parse_u128, parse_u64, Hash256, IndexError, LastExecutedSearch, LedgerError,
    LedgerTxGetter, RecordError, SearchStep, SegmentID, SliceError, TxOrderHashBlock,
    TxOrderHashBlockGetter,
};

fn hash_of(seed: u8) -> Hash256 {
    let mut bytes = [0u8; 32];
    for (i, b) in bytes.iter_mut().enumerate() {
        *b = seed.wrapping_mul(31).wrapping_add(i as u8 * 7);
    }
    Hash256 { bytes }
}

fn names(list: &[&str]) -> Vec<String> {
    list.iter().map(|s| s.to_string()).collect()
}

fn contiguous_index(first: u64, count: u64) -> TxOrderHashBlockGetter {
    let records: Vec<TxOrderHashBlock> = (0..count)
        .map(|i| TxOrderHashBlock::new(first + i, hash_of(i as u8), (i / 10) as u128))
        .collect();
    match TxOrderHashBlockGetter::from_records(records) {
        Ok(g) => g,
        Err(e) => panic!("contiguous records refused: {:?}", e),
    }
}

/// Runs the search against a store in which exactly the first `k` records are executed.
fn run_search(n: usize, k: usize) -> (Option<usize>, usize) {
    let mut search = LastExecutedSearch::new(n);
    let mut queries = 0;
    loop {
        match search.step() {
            SearchStep::Query(i) => {
                assert!(i < n);
                queries += 1;
                search.observe(i < k);
            }
            SearchStep::Done(r) => return (r, queries),
        }
    }
}

#[test]
fn record_line_round_trip() {
    let record = TxOrderHashBlock::new(42, hash_of(3), 7);
    let line = record.to_line();
    let expected = format!("42:0x{}:7", record.tx_hash.bytes.iter().map(|b| format!("{:02x}", b)).collect::<String>());
    assert_eq!(line, expected);
    assert_eq!(TxOrderHashBlock::parse(&line), Ok(record));
}

#[test]
fn record_round_trip_extremes() {
    for record in [
        TxOrderHashBlock::new(0, Hash256 { bytes: [0u8; 32] }, 0),
        TxOrderHashBlock::new(u64::MAX, Hash256 { bytes: [0xffu8; 32] }, u128::MAX),
    ] {
        assert_eq!(TxOrderHashBlock::parse(&record.to_line()), Ok(record));
    }
}

#[test]
fn record_parse_example() {
    let hex = "00112233445566778899aabbccddeeff00112233445566778899aabbccddeeff";
    let r = TxOrderHashBlock::parse(&format!("42:0x{}:7", hex)).unwrap();
    assert_eq!(r.tx_order, 42);
    assert_eq!(r.block_number, 7);
    assert_eq!(r.tx_hash.bytes[0], 0x00);
    assert_eq!(r.tx_hash.bytes[1], 0x11);
    assert_eq!(r.tx_hash.bytes[31], 0xff);
    let upper = TxOrderHashBlock::parse(&format!("42:{}:7", hex.to_uppercase())).unwrap();
    assert_eq!(upper, r);
}

#[test]
fn record_parse_errors() {
    let hex = format!("0x{}", "ab".repeat(32));
    assert_eq!(TxOrderHashBlock::parse("1:2"), Err(RecordError::FieldCount));
    assert_eq!(TxOrderHashBlock::parse(&format!("1:{}:2:3", hex)), Err(RecordError::FieldCount));
    assert_eq!(TxOrderHashBlock::parse(""), Err(RecordError::FieldCount));
    assert_eq!(TxOrderHashBlock::parse(&format!("x:{}:2", hex)), Err(RecordError::TxOrder));
    assert_eq!(TxOrderHashBlock::parse(&format!(":{}:2", hex)), Err(RecordError::TxOrder));
    assert_eq!(TxOrderHashBlock::parse(&format!("18446744073709551616:{}:2", hex)), Err(RecordError::TxOrder));
    assert_eq!(TxOrderHashBlock::parse("1:0xabc:2"), Err(RecordError::TxHash));
    assert_eq!(TxOrderHashBlock::parse(&format!("1:{}g:2", &hex[..hex.len() - 1])), Err(RecordError::TxHash));
    assert_eq!(TxOrderHashBlock::parse(&format!("1:{}:", hex)), Err(RecordError::BlockNumber));
    assert_eq!(TxOrderHashBlock::parse(&format!("1:{}:2 ", hex)), Err(RecordError::BlockNumber));
}

#[test]
fn decimal_parsing() {
    assert_eq!(parse_u64(b"0"), Some(0));
    assert_eq!(parse_u64(b"+5"), Some(5));
    assert_eq!(parse_u64(b"007"), Some(7));
    assert_eq!(parse_u64(b"18446744073709551615"), Some(u64::MAX));
    assert_eq!(parse_u64(b"18446744073709551616"), None);
    assert_eq!(parse_u64(b""), None);
    assert_eq!(parse_u64(b"+"), None);
    assert_eq!(parse_u64(b"-1"), None);
    assert_eq!(parse_u64(b"1a"), None);
    assert_eq!(parse_u128(b"340282366920938463463374607431768211455"), Some(u128::MAX));
    assert_eq!(parse_u128(b"340282366920938463463374607431768211456"), None);
    assert_eq!(parse_u128(b"340282366920938463463374607431768211450"), Some(u128::MAX - 5));
}

#[test]
fn hash_text_forms() {
    let h = hash_of(9);
    let text = h.to_text();
    assert!(text.starts_with("0x"));
    assert_eq!(text.len(), 66);
    assert_eq!(text, text.to_lowercase());
    assert_eq!(Hash256::parse(&text), Some(h));
    assert_eq!(Hash256::parse(&text[2..]), Some(h));
    assert_eq!(Hash256::parse(&text.to_uppercase()[2..]), Some(h));
    assert_eq!(Hash256::parse(&text[..65]), None);
    assert_eq!(Hash256::parse(&format!("{}00", text)), None);
    assert_eq!(Hash256::parse(&format!("0X{}", &text[2..])), None);
    assert_eq!(Hash256::parse(""), None);
}

#[test]
fn segment_id_text() {
    let id = SegmentID { chunk_id: 12, segment_number: 3 };
    assert_eq!(id.to_file_name(), "12_3");
    assert_eq!(SegmentID::parse("12_3"), Some(id));
    assert_eq!(SegmentID::parse("12_3_4"), None);
    assert_eq!(SegmentID::parse("12-3"), None);
    assert_eq!(SegmentID::parse("_3"), None);
    assert_eq!(SegmentID::parse("12_"), None);
    assert_eq!(SegmentID::parse("12_18446744073709551616"), None);
    let big = SegmentID { chunk_id: u128::MAX, segment_number: u64::MAX };
    assert_eq!(SegmentID::parse(&big.to_file_name()), Some(big));
}

#[test]
fn chunks_grouped_by_id() {
    let (chunks, min, max) = collect_chunks(&names(&["1_0", "notes.txt", "1_1", "2_0"])).unwrap();
    assert_eq!(chunks.len(), 2);
    assert_eq!(chunks.get(&1), Some(&vec![0u64, 1]));
    assert_eq!(chunks.get(&2), Some(&vec![0u64]));
    assert_eq!(min, 1);
    assert_eq!(max, 2);
}

#[test]
fn chunks_keep_directory_order() {
    let (chunks, min, max) = collect_chunks(&names(&["7_2", "5_0", "7_0", "7_1"])).unwrap();
    assert_eq!(chunks.get(&7), Some(&vec![2u64, 0, 1]));
    assert_eq!(chunks.get(&5), Some(&vec![0u64]));
    assert_eq!((min, max), (5, 7));
}

#[test]
fn no_segments_is_an_error() {
    assert_eq!(collect_chunks(&names(&["readme", "a_b", "1_2_3"])).err(), Some(LedgerError::NoSegments));
    assert_eq!(collect_chunks(&[]).err(), Some(LedgerError::NoSegments));
    assert!(LedgerTxGetter::new("segments".to_string(), &names(&["x"])).is_err());
}

#[test]
fn load_unknown_chunk() {
    let getter = LedgerTxGetter::new("segments".to_string(), &names(&["1_0", "1_1", "2_0"])).unwrap();
    assert_eq!(getter.get_min_chunk_id(), 1);
    assert_eq!(getter.get_max_chunk_id(), 2);
    assert_eq!(getter.segment_dir(), "segments");
    assert_eq!(getter.segments_to_load(9, true), Err(LedgerError::ChunkNotFound(9)));
    assert_eq!(getter.segments_to_load(9, false), Ok(None));
    assert_eq!(
        getter.segments_to_load(1, true),
        Ok(Some(vec![
            SegmentID { chunk_id: 1, segment_number: 0 },
            SegmentID { chunk_id: 1, segment_number: 1 },
        ]))
    );
}

#[test]
fn slice_inclusive_range() {
    let index = contiguous_index(0, 100);
    let s = index.slice(10, 20).unwrap();
    assert_eq!(s.len(), 11);
    for (k, r) in s.iter().enumerate() {
        assert_eq!(r.tx_order, 10 + k as u64);
        assert_eq!(*r, index.record(10 + k));
    }
    assert_eq!(index.slice(0, 99).unwrap().len(), 100);
    assert_eq!(index.slice(99, 99).unwrap().len(), 1);
}

#[test]
fn slice_end_before_start() {
    let index = contiguous_index(0, 100);
    assert_eq!(index.slice(5, 4), Err(SliceError::EndBeforeStart));
}

#[test]
fn slice_missing_orders() {
    let index = contiguous_index(50, 10);
    assert_eq!(index.slice(49, 55), Err(SliceError::StartNotFound));
    assert_eq!(index.slice(60, 60), Err(SliceError::StartNotFound));
    assert_eq!(index.slice(55, 60), Err(SliceError::EndNotFound));
    assert_eq!(index.slice(55, u64::MAX), Err(SliceError::EndNotFound));
    let empty = contiguous_index(0, 0);
    assert_eq!(empty.slice(0, 0), Err(SliceError::StartNotFound));
}

#[test]
fn index_from_lines() {
    let records: Vec<TxOrderHashBlock> =
        (0..5u64).map(|i| TxOrderHashBlock::new(100 + i, hash_of(i as u8), 3)).collect();
    let lines: Vec<String> = records.iter().map(|r| r.to_line()).collect();
    let index = TxOrderHashBlockGetter::load_from_lines(&lines).unwrap();
    assert_eq!(index.len(), 5);
    for (i, r) in records.iter().enumerate() {
        assert_eq!(index.record(i), *r);
    }
    assert_eq!(index.position_of(103), Some(3));
    assert_eq!(index.position_of(105), None);
}

#[test]
fn index_load_errors() {
    let mut lines: Vec<String> =
        (0..5u64).map(|i| TxOrderHashBlock::new(i, hash_of(i as u8), 0).to_line()).collect();
    let mut bad = lines.clone();
    bad[3] = "3:zz:0".to_string();
    assert_eq!(
        TxOrderHashBlockGetter::load_from_lines(&bad).err(),
        Some(IndexError::Record { line: 3, error: RecordError::TxHash })
    );
    bad.push(String::new());
    assert_eq!(
        TxOrderHashBlockGetter::load_from_lines(&bad).err(),
        Some(IndexError::Record { line: 3, error: RecordError::TxHash })
    );
    lines[2] = TxOrderHashBlock::new(7, hash_of(2), 0).to_line();
    assert_eq!(TxOrderHashBlockGetter::load_from_lines(&lines).err(), Some(IndexError::Gap { line: 2 }));
    let descending = vec![TxOrderHashBlock::new(2, hash_of(0), 0), TxOrderHashBlock::new(1, hash_of(1), 0)];
    assert_eq!(TxOrderHashBlockGetter::from_records(descending).err(), Some(IndexError::Gap { line: 1 }));
    assert_eq!(TxOrderHashBlockGetter::load_from_lines(&[]).unwrap().len(), 0);
}

#[test]
fn last_executed_boundaries() {
    for n in 1..=40usize {
        // ceil(log2 n) + 1
        let bound = usize::BITS - (n - 1).leading_zeros() + 1;
        for k in 0..=n {
            let (r, queries) = run_search(n, k);
            assert_eq!(r, if k == 0 { None } else { Some(k - 1) }, "n={} k={}", n, k);
            assert!(queries as u32 <= bound, "n={} k={} queries={}", n, k, queries);
        }
    }
}

#[test]
fn last_executed_cases() {
    assert_eq!(run_search(100, 100).0, Some(99));
    assert_eq!(run_search(100, 0).0, None);
    assert_eq!(run_search(100, 37).0, Some(36));
    assert_eq!(run_search(1, 1).0, Some(0));
    assert_eq!(run_search(1, 0).0, None);
}

#[test]
fn last_executed_empty_index_asks_nothing() {
    let index = contiguous_index(0, 0);
    let search = index.search_last_executed();
    assert_eq!(search.step(), SearchStep::Done(None));
    assert_eq!(run_search(0, 0), (None, 0));
}

#[test]
fn find_last_executed_with_store() {
    let index = contiguous_index(1000, 50);
    for k in [0usize, 1, 17, 49, 50] {
        let executed: std::collections::HashSet<Hash256> =
            (0..k).map(|i| index.record(i).tx_hash).collect();
        let calls = std::cell::Cell::new(0u32);
        let r: Result<Option<TxOrderHashBlock>, String> = index.find_last_executed(|h| {
            calls.set(calls.get() + 1);
            Ok(executed.contains(&h))
        });
        let expected = if k == 0 { None } else { Some(index.record(k - 1)) };
        assert_eq!(r, Ok(expected));
        assert!(calls.get() <= 8, "k={} calls={}", k, calls.get());
    }
}

#[test]
fn find_last_executed_empty_and_failing_store() {
    let empty = contiguous_index(0, 0);
    let r: Result<Option<TxOrderHashBlock>, String> =
        empty.find_last_executed(|_| panic!("an empty index asks nothing"));
    assert_eq!(r, Ok(None));
    let index = contiguous_index(0, 10);
    let r: Result<Option<TxOrderHashBlock>, String> =
        index.find_last_executed(|_| Err("store unavailable".to_string()));
    assert_eq!(r, Err("store unavailable".to_string()));
}

#[test]
fn find_last_executed_non_monotone_store() {
    let index = contiguous_index(0, 64);
    for pattern in [0x5555_5555_5555_5555u64, 0xf0f0_0f0f_ff00_00ffu64, 1, 1 << 63, u64::MAX - 1] {
        let executed = |i: usize| pattern >> i & 1 == 1;
        let r: Result<Option<TxOrderHashBlock>, String> = index.find_last_executed(|h| {
            let i = (0..64).find(|&i| index.record(i).tx_hash == h).expect("a hash of the index");
            Ok(executed(i))
        });
        match r.unwrap() {
            Some(rec) => {
                let j = rec.tx_order as usize;
                assert!(executed(j));
                assert!(j + 1 == 64 || !executed(j + 1));
            }
            None => assert!(!executed(0)),
        }
    }
}

#[test]
fn canonical_line_reads_back_unchanged() {
    let line = format!("42:0x{}:7", "0123456789abcdef".repeat(4));
    let record = TxOrderHashBlock::parse(&line).unwrap();
    assert_eq!(record.to_line(), line);
    let loose = format!("+042:{}:07", "0123456789ABCDEF".repeat(4));
    let same = TxOrderHashBlock::parse(&loose).unwrap();
    assert_eq!(same, record);
    assert_eq!(same.to_line(), line);
}
