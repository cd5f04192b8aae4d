use sonnerie_core::{BlockPlace, CommitError, InsertError, Metadata, RowFormat, Timestamp, Transaction};

fn f64_row(ts: u64, v: f64) -> Vec<u8> {
    let mut r = ts.to_be_bytes().to_vec();
    r.extend_from_slice(&v.to_be_bytes());
    r
}

fn u32_row(ts: u64, v: u32) -> Vec<u8> {
    let mut r = ts.to_be_bytes().to_vec();
    r.extend_from_slice(&v.to_be_bytes());
    r
}

fn decode_f64(row: &[u8]) -> (u64, f64) {
    let mut t = [0u8; 8];
    t.copy_from_slice(&row[0..8]);
    let mut v = [0u8; 8];
    v.copy_from_slice(&row[8..16]);
    (u64::from_be_bytes(t), f64::from_be_bytes(v))
}

fn ts_of(row: &[u8]) -> u64 {
    let mut t = [0u8; 8];
    t.copy_from_slice(&row[0..8]);
    u64::from_be_bytes(t)
}

fn write_tx(md: &Metadata) -> Transaction {
    md.as_write_transaction()
}

fn series_a(md: &mut Metadata) -> u64 {
    let mut tx = write_tx(md);
    let id = tx.create_series("a", "f64").unwrap();
    let rows = vec![f64_row(10, 1.0), f64_row(20, 2.0), f64_row(30, 3.0)];
    assert_eq!(tx.insert_into_series(id, &rows), Ok(()));
    tx.commit(md).unwrap();
    id
}

#[test]
fn insert_and_read_back() {
    let mut md = Metadata::new();
    let id = series_a(&mut md);
    let rd = md.as_read_transaction();
    let got: Vec<(u64, f64)> = rd
        .read_series(id, Timestamp(0), Timestamp(100))
        .iter()
        .map(|r| decode_f64(r))
        .collect();
    assert_eq!(got, vec![(10, 1.0), (20, 2.0), (30, 3.0)]);
}

#[test]
fn out_of_order_insert_is_refused() {
    let mut md = Metadata::new();
    let id = series_a(&mut md);
    let mut tx = write_tx(&md);
    let rows = vec![f64_row(20, 9.0), f64_row(25, 9.5)];
    assert_eq!(tx.insert_into_series(id, &rows), Err(InsertError::OrderError));
    assert_eq!(tx.read_series(id, Timestamp(0), Timestamp(100)).len(), 3);
    drop(tx);
    let rd = md.as_read_transaction();
    let got: Vec<u64> = rd.read_series(id, Timestamp(0), Timestamp(100)).iter().map(|r| ts_of(r)).collect();
    assert_eq!(got, vec![10, 20, 30]);
}

#[test]
fn equal_timestamps_are_refused() {
    let mut md = Metadata::new();
    let id = series_a(&mut md);
    let mut tx = write_tx(&md);
    assert_eq!(tx.insert_into_series(id, &vec![f64_row(30, 1.0)]), Err(InsertError::OrderError));
    assert_eq!(
        tx.insert_into_series(id, &vec![f64_row(40, 1.0), f64_row(40, 2.0)]),
        Err(InsertError::OrderError)
    );
    assert_eq!(tx.insert_into_series(id, &vec![f64_row(40, 1.0)]), Ok(()));
}

#[test]
fn tail_block_fills_before_a_new_one() {
    let mut md = Metadata::new();
    let mut tx = write_tx(&md);
    let id = tx.create_series("b", "u32").unwrap();
    let first: Vec<Vec<u8>> = (1..=300u64).map(|t| u32_row(t, t as u32)).collect();
    assert_eq!(tx.insert_into_series(id, &first), Ok(()));
    assert_eq!(tx.block_count(id), Some(1));
    tx.commit(&mut md).unwrap();
    // one block of 342 rows of 12 bytes: 4104 bytes
    assert_eq!(md.next_offset(), 4104);

    let mut tx = write_tx(&md);
    let second: Vec<Vec<u8>> = (301..=400u64).map(|t| u32_row(t, t as u32)).collect();
    assert_eq!(tx.insert_into_series(id, &second), Ok(()));
    assert_eq!(tx.block_count(id), Some(2));
    tx.commit(&mut md).unwrap();
    assert_eq!(md.next_offset(), 8208);

    let rd = md.as_read_transaction();
    let got: Vec<u64> = rd.read_series(id, Timestamp(0), Timestamp(u64::MAX)).iter().map(|r| ts_of(r)).collect();
    assert_eq!(got, (1..=400u64).collect::<Vec<u64>>());
}

#[test]
fn reader_keeps_its_snapshot() {
    let mut md = Metadata::new();
    let id = series_a(&mut md);
    let before = md.as_read_transaction();
    let mut w = write_tx(&md);
    assert_eq!(w.insert_into_series(id, &vec![f64_row(40, 4.0)]), Ok(()));
    w.commit(&mut md).unwrap();
    assert_eq!(before.read_series(id, Timestamp(0), Timestamp(100)).len(), 3);
    let after = md.as_read_transaction();
    assert_eq!(after.read_series(id, Timestamp(0), Timestamp(100)).len(), 4);
}

#[test]
fn create_with_other_format_is_refused() {
    let mut md = Metadata::new();
    let mut tx = write_tx(&md);
    let c = tx.create_series("c", "f64");
    assert!(c.is_some());
    assert_eq!(tx.create_series("c", "u32"), None);
    assert_eq!(tx.series_format_string("c"), Some("f64".to_string()));
    tx.commit(&mut md).unwrap();
    let rd = md.as_read_transaction();
    assert_eq!(rd.series_format_string("c"), Some("f64".to_string()));
    assert_eq!(rd.series_id("c"), c);
}

#[test]
fn create_twice_returns_same_id() {
    let md = Metadata::new();
    let mut tx = write_tx(&md);
    let a = tx.create_series("x", "u8,i16").unwrap();
    let b = tx.create_series("x", "u8,i16").unwrap();
    assert_eq!(a, b);
    let other = tx.create_series("y", "u8,i16").unwrap();
    assert_ne!(a, other);
}

#[test]
fn uncommitted_writes_leave_catalog_unchanged() {
    let mut md = Metadata::new();
    let id = series_a(&mut md);
    let offset = md.next_offset();
    let generation = md.committed_generation();
    {
        let mut tx = write_tx(&md);
        assert_eq!(tx.insert_into_series(id, &vec![f64_row(5000, 1.0)]), Ok(()));
        let z = tx.create_series("z", "u64");
        assert!(z.is_some());
        // dropped without commit
    }
    assert_eq!(md.next_offset(), offset);
    assert_eq!(md.recovered_next_offset(), offset);
    assert_eq!(md.committed_generation(), generation);
    let rd = md.as_read_transaction();
    assert_eq!(rd.series_id("z"), None);
    assert_eq!(rd.read_series(id, Timestamp(0), Timestamp(u64::MAX)).len(), 3);

    // a later insert that needs a new block allocates it at the cursor
    let mut tx = write_tx(&md);
    let d = tx.create_series("d", "f64").unwrap();
    assert_eq!(tx.insert_into_series(d, &vec![f64_row(1, 1.0)]), Ok(()));
    tx.commit(&mut md).unwrap();
    assert_eq!(md.next_offset(), offset + 4096);
    assert_eq!(md.recovered_next_offset(), md.next_offset());
}

#[test]
fn read_only_transaction_does_not_commit() {
    let mut md = Metadata::new();
    let id = series_a(&mut md);
    let mut rd = md.as_read_transaction();
    assert!(!rd.is_writable());
    assert_eq!(rd.insert_into_series(id, &vec![f64_row(100, 1.0)]), Err(InsertError::NotWritable));
    let generation = md.committed_generation();
    rd.commit(&mut md).unwrap();
    assert_eq!(md.committed_generation(), generation);
}

#[test]
fn generations_advance_on_commit() {
    let mut md = Metadata::new();
    assert_eq!(md.committed_generation(), 0);
    series_a(&mut md);
    assert_eq!(md.committed_generation(), 1);
    let tx = write_tx(&md);
    tx.commit(&mut md).unwrap();
    assert_eq!(md.committed_generation(), 2);
}

#[test]
fn last_generation_is_newest_series() {
    let mut md = Metadata::new();
    let tx = write_tx(&md);
    tx.commit(&mut md).unwrap();
    assert_eq!(md.last_generation(), 0);
    let tx = write_tx(&md);
    tx.commit(&mut md).unwrap();
    let mut tx = write_tx(&md);
    tx.create_series("g", "u8").unwrap();
    tx.commit(&mut md).unwrap();
    assert_eq!(md.committed_generation(), 3);
    assert_eq!(md.last_generation(), 3);
    let tx = write_tx(&md);
    tx.commit(&mut md).unwrap();
    assert_eq!(md.last_generation(), 3);
}

#[test]
fn stored_blocks_install_unchanged() {
    let mut md = Metadata::new();
    assert!(md.install_series(7, "a", 4, "u8"));
    assert!(!md.install_series(7, "b", 4, "u8"));
    assert!(!md.install_series(8, "a", 4, "u8"));
    assert!(!md.install_series(9, "c", 4, "bad"));
    let row = |t: u64| {
        let mut r = t.to_be_bytes().to_vec();
        r.push(1);
        r
    };
    let place = BlockPlace { first_timestamp: 1, last_timestamp: 2, offset: 5000, capacity: 4104, size: 18, generation: 6 };
    assert!(md.install_block(7, place, &vec![row(1), row(2)]));
    assert_eq!(md.next_offset(), 9104);
    assert_eq!(md.committed_generation(), 6);
    assert_eq!(md.last_generation(), 4);
    // overlapping bytes, wrong bounds, out of time order, wrong size
    let overlap = BlockPlace { first_timestamp: 3, last_timestamp: 3, offset: 9000, capacity: 9, size: 9, generation: 6 };
    assert!(!md.install_block(7, overlap, &vec![row(3)]));
    let bounds = BlockPlace { first_timestamp: 4, last_timestamp: 3, offset: 0, capacity: 9, size: 9, generation: 6 };
    assert!(!md.install_block(7, bounds, &vec![row(3)]));
    let early = BlockPlace { first_timestamp: 2, last_timestamp: 2, offset: 0, capacity: 9, size: 9, generation: 6 };
    assert!(!md.install_block(7, early, &vec![row(2)]));
    let sized = BlockPlace { first_timestamp: 3, last_timestamp: 3, offset: 0, capacity: 9, size: 10, generation: 6 };
    assert!(!md.install_block(7, sized, &vec![row(3)]));
    let fits = BlockPlace { first_timestamp: 3, last_timestamp: 3, offset: 0, capacity: 9, size: 9, generation: 6 };
    assert!(md.install_block(7, fits, &vec![row(3)]));
    assert_eq!(md.next_offset(), 9104);
    // a new block goes above every stored one
    let mut tx = write_tx(&md);
    let id = tx.create_series("n", "u8").unwrap();
    assert_eq!(id, 8);
    assert_eq!(tx.insert_into_series(id, &vec![row(1)]), Ok(()));
    assert_eq!(tx.block_places(id)[0].offset, 9104);
    tx.commit(&mut md).unwrap();
    let rd = md.as_read_transaction();
    assert_eq!(rd.read_series(7, Timestamp(0), Timestamp(9)), vec![row(1), row(2), row(3)]);
    assert_eq!(rd.series_generation(7), Some(4));
    assert_eq!(rd.series_generation(8), Some(7));
}

#[test]
fn empty_insert_is_a_no_op() {
    let mut md = Metadata::new();
    let mut tx = write_tx(&md);
    let id = tx.create_series("e", "f64").unwrap();
    assert_eq!(tx.insert_into_series(id, &vec![]), Ok(()));
    assert_eq!(tx.block_count(id), Some(0));
    tx.commit(&mut md).unwrap();
    assert_eq!(md.next_offset(), 0);
}

#[test]
fn single_row_gets_one_block() {
    let mut md = Metadata::new();
    let mut tx = write_tx(&md);
    let id = tx.create_series("s", "u64,u64,u64,u64").unwrap();
    assert_eq!(tx.insert_into_series(id, &vec![vec![7u8; 40]]), Ok(()));
    assert_eq!(tx.block_count(id), Some(1));
    tx.commit(&mut md).unwrap();
    // 4096 rounded up to whole rows of 40 bytes
    assert_eq!(md.next_offset(), 4120);
}

#[test]
fn full_tail_block_gets_a_successor() {
    let mut md = Metadata::new();
    let mut tx = write_tx(&md);
    // rows of 8 + 4088 bytes: exactly one per 4096-byte block
    let fmt = vec!["u64"; 511].join(",");
    let id = tx.create_series("w", &fmt).unwrap();
    let row = |t: u64| {
        let mut r = t.to_be_bytes().to_vec();
        r.resize(4096, 0);
        r
    };
    assert_eq!(tx.insert_into_series(id, &vec![row(1)]), Ok(()));
    assert_eq!(tx.block_count(id), Some(1));
    assert_eq!(tx.insert_into_series(id, &vec![row(2)]), Ok(()));
    assert_eq!(tx.block_count(id), Some(2));
    tx.commit(&mut md).unwrap();
    assert_eq!(md.next_offset(), 8192);
}

#[test]
fn reversed_range_reads_nothing() {
    let mut md = Metadata::new();
    let id = series_a(&mut md);
    let rd = md.as_read_transaction();
    assert!(rd.read_series(id, Timestamp(30), Timestamp(10)).is_empty());
    let middle: Vec<u64> = rd.read_series(id, Timestamp(15), Timestamp(30)).iter().map(|r| ts_of(r)).collect();
    assert_eq!(middle, vec![20, 30]);
    assert!(rd.read_series(id + 100, Timestamp(0), Timestamp(100)).is_empty());
}

#[test]
fn extreme_timestamps_are_stored() {
    let mut md = Metadata::new();
    let mut tx = write_tx(&md);
    let id = tx.create_series("t", "u8").unwrap();
    let rows = vec![vec![0, 0, 0, 0, 0, 0, 0, 0, 1], vec![255, 255, 255, 255, 255, 255, 255, 255, 2]];
    assert_eq!(tx.insert_into_series(id, &rows), Ok(()));
    tx.commit(&mut md).unwrap();
    let rd = md.as_read_transaction();
    let all = rd.read_series(id, Timestamp(0), Timestamp(u64::MAX));
    assert_eq!(all, rows);
    assert_eq!(rd.read_series(id, Timestamp(u64::MAX), Timestamp(u64::MAX)), vec![rows[1].clone()]);
    assert_eq!(rd.read_series(id, Timestamp(0), Timestamp(0)), vec![rows[0].clone()]);
}

#[test]
fn insert_errors() {
    let mut md = Metadata::new();
    let id = series_a(&mut md);
    let mut tx = write_tx(&md);
    assert_eq!(tx.insert_into_series(id + 7, &vec![f64_row(50, 1.0)]), Err(InsertError::NotFound));
    assert_eq!(tx.insert_into_series(id, &vec![vec![0u8; 12]]), Err(InsertError::FormatError));
    assert_eq!(
        tx.insert_into_series(id, &vec![f64_row(50, 1.0), vec![0u8; 17]]),
        Err(InsertError::FormatError)
    );
    assert_eq!(tx.read_series(id, Timestamp(0), Timestamp(u64::MAX)).len(), 3);
}

#[test]
fn format_strings_parse() {
    assert_eq!(RowFormat::parse("f64").map(|f| f.row_size()), Some(16));
    assert_eq!(RowFormat::parse("u32").map(|f| f.row_size()), Some(12));
    assert_eq!(RowFormat::parse("u32").map(|f| f.preferred_block_size()), Some(4104));
    assert_eq!(RowFormat::parse("f64").map(|f| f.preferred_block_size()), Some(4096));
    assert_eq!(RowFormat::parse("u8,i16,u32,f32,i64").map(|f| f.row_size()), Some(8 + 1 + 2 + 4 + 4 + 8));
    assert_eq!(RowFormat::parse(""), None);
    assert_eq!(RowFormat::parse("u33"), None);
    assert_eq!(RowFormat::parse("u8,"), None);
    assert_eq!(RowFormat::parse(",u8"), None);
    assert_eq!(RowFormat::parse("U8"), None);
}

#[test]
fn malformed_format_creates_nothing() {
    let md = Metadata::new();
    let mut tx = write_tx(&md);
    assert_eq!(tx.create_series("bad", "q"), None);
    assert_eq!(tx.series_id("bad"), None);
}

#[test]
fn series_like_matches_patterns() {
    let md = Metadata::new();
    let mut tx = write_tx(&md);
    let a = tx.create_series("cpu.load", "f64").unwrap();
    let b = tx.create_series("cpu.temp", "f64").unwrap();
    let c = tx.create_series("mem.free", "u64").unwrap();
    assert_eq!(
        tx.series_like("cpu.%"),
        vec![("cpu.load".to_string(), a), ("cpu.temp".to_string(), b)]
    );
    assert_eq!(tx.series_like("%.free"), vec![("mem.free".to_string(), c)]);
    assert_eq!(tx.series_like("cpu._oad"), vec![("cpu.load".to_string(), a)]);
    assert_eq!(tx.series_like("CPU%"), vec![]);
    assert_eq!(tx.series_like("%").len(), 3);
    assert_eq!(tx.series_like(""), vec![]);
}

#[test]
fn block_places_and_row_format() {
    let mut md = Metadata::new();
    let id = series_a(&mut md);
    let rd = md.as_read_transaction();
    let f = rd.row_format(id).unwrap();
    assert_eq!((f.row_size(), f.preferred_block_size()), (16, 4096));
    assert_eq!(rd.row_format(id + 1), None);
    let places = rd.block_places(id);
    assert_eq!(places.len(), 1);
    let p = places[0];
    assert_eq!((p.first_timestamp, p.last_timestamp), (10, 30));
    assert_eq!((p.offset, p.capacity, p.size, p.generation), (0, 4096, 48, 1));
    assert!(rd.block_places(id + 1).is_empty());
}

#[test]
fn top_of_file_refuses_only_new_blocks() {
    let mut md = Metadata::new();
    assert!(md.install_series(1, "top", 1, "u8"));
    let row = |t: u64| {
        let mut r = t.to_be_bytes().to_vec();
        r.push(0);
        r
    };
    let place = BlockPlace {
        first_timestamp: 1,
        last_timestamp: 1,
        offset: u64::MAX - 18,
        capacity: 18,
        size: 9,
        generation: 1,
    };
    assert!(md.install_block(1, place, &vec![row(1)]));
    assert_eq!(md.next_offset(), u64::MAX);
    let mut tx = md.as_write_transaction();
    // one more row fits the tail block: no allocation needed
    assert_eq!(tx.insert_into_series(1, &vec![row(2)]), Ok(()));
    // the next one needs a new block past the largest offset
    assert_eq!(tx.insert_into_series(1, &vec![row(3)]), Err(InsertError::IoError));
    let other = tx.create_series("other", "u8").unwrap();
    assert_eq!(tx.insert_into_series(other, &vec![row(1)]), Err(InsertError::IoError));
    assert_eq!(tx.read_series(1, Timestamp(0), Timestamp(9)), vec![row(1), row(2)]);
}

#[test]
fn second_writer_cannot_commit() {
    let mut md = Metadata::new();
    let id = series_a(&mut md);
    let mut w1 = write_tx(&md);
    let mut w2 = write_tx(&md);
    assert_eq!(w1.generation(), w2.generation());
    assert_eq!(w1.insert_into_series(id, &vec![f64_row(40, 4.0)]), Ok(()));
    assert_eq!(w2.insert_into_series(id, &vec![f64_row(50, 5.0)]), Ok(()));
    assert_eq!(w1.commit(&mut md), Ok(()));
    let offset = md.next_offset();
    assert_eq!(w2.commit(&mut md), Err(CommitError::Busy));
    assert_eq!(md.next_offset(), offset);
    let rd = md.as_read_transaction();
    let got: Vec<u64> = rd.read_series(id, Timestamp(0), Timestamp(100)).iter().map(|r| ts_of(r)).collect();
    assert_eq!(got, vec![10, 20, 30, 40]);
    // a read-only transaction always ends cleanly
    assert_eq!(rd.commit(&mut md), Ok(()));
}
