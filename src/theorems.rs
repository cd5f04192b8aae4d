//! What holds of every well-formed catalog and of the operations on it.
use vstd::prelude::*;
use crate::bytes::{lemma_row_ts_bound, row_ts};
use crate::metadata::{
    all_rows, block_end, block_wf, create_series_post, in_range, index_of,
    insert_into_series_post, is_max_end, lemma_after_rows_frame, metadata_after_row, tail_takes_row,
    file_has_room, lemma_after_rows_front, lemma_alloc_end_grows, metadata_after_rows, tail_room, metadata_wf, ranges_disjoint, rows_in_range, rows_sized,
    series_wf, BlockModel, MetadataModel, TransactionModel,
};

verus! {

/// Every block of a series covers an interval of timestamps, and the
/// intervals of two different blocks of one series do not meet.
pub proof fn lemma_blocks_disjoint_in_time(m: MetadataModel, i: int, k1: int, k2: int)
    requires
        metadata_wf(m),
        0 <= i < m.series.len(),
        0 <= k1 < m.series[i].blocks.len(),
        0 <= k2 < m.series[i].blocks.len(),
        k1 != k2,
    ensures
        m.series[i].blocks[k1].first_timestamp <= m.series[i].blocks[k1].last_timestamp,
        m.series[i].blocks[k1].last_timestamp < m.series[i].blocks[k2].first_timestamp
            || m.series[i].blocks[k2].last_timestamp < m.series[i].blocks[k1].first_timestamp,
{
    let s = m.series[i];
    assert(series_wf(s));
    let r = s.row_size as nat;
    assert(block_wf(s.blocks[k1], r));
    assert(block_wf(s.blocks[k2], r));
    let b1 = s.blocks[k1];
    let b2 = s.blocks[k2];
    if b1.rows.len() > 1 {
        assert(row_ts(b1.rows[0]) < row_ts(b1.rows[b1.rows.len() - 1]));
    }
    if b2.rows.len() > 1 {
        assert(row_ts(b2.rows[0]) < row_ts(b2.rows[b2.rows.len() - 1]));
    }
}

/// A block uses at most its capacity, and a whole number of rows of it.
pub proof fn lemma_block_size(m: MetadataModel, i: int, k: int)
    requires
        metadata_wf(m),
        0 <= i < m.series.len(),
        0 <= k < m.series[i].blocks.len(),
    ensures
        m.series[i].blocks[k].size <= m.series[i].blocks[k].capacity,
        m.series[i].blocks[k].size % m.series[i].row_size == 0,
{
    let s = m.series[i];
    assert(series_wf(s));
    let b = s.blocks[k];
    assert(block_wf(b, s.row_size as nat));
    let n = b.rows.len() as int;
    let r = s.row_size as int;
    assert((n * r) % r == 0) by (nonlinear_arith)
        requires
            r > 0,
    ;
}

/// Two different blocks of the catalog never share a byte of the data file.
pub proof fn lemma_blocks_disjoint_in_file(m: MetadataModel, i: int, k: int, j: int, l: int)
    requires
        metadata_wf(m),
        0 <= i < m.series.len(),
        0 <= j < m.series.len(),
        0 <= k < m.series[i].blocks.len(),
        0 <= l < m.series[j].blocks.len(),
        i != j || k != l,
    ensures
        ranges_disjoint(m.series[i].blocks[k], m.series[j].blocks[l]),
{
}

/// The allocation cursor is the largest end of a block's byte range (zero
/// when there is no block).
pub proof fn lemma_next_offset_is_max(m: MetadataModel)
    requires
        metadata_wf(m),
    ensures
        is_max_end(m.series, m.next_offset as int),
{
}

proof fn lemma_all_rows_sized(bs: Seq<BlockModel>, r: nat)
    requires
        forall|l: int| 0 <= l < bs.len() ==> block_wf(#[trigger] bs[l], r),
    ensures
        rows_sized(all_rows(bs), r),
    decreases bs.len(),
{
    if bs.len() > 0 {
        let d = bs.drop_last();
        lemma_all_rows_sized(d, r);
        assert(block_wf(bs[bs.len() - 1], r));
        assert forall|x: int| 0 <= x < all_rows(bs).len() implies #[trigger] all_rows(bs)[x].len() == r by {
            let n = all_rows(d).len();
            if x < n {
                assert(all_rows(bs)[x] == all_rows(d)[x]);
            } else {
                assert(all_rows(bs)[x] == bs.last().rows[x - n]);
            }
        }
    }
}

proof fn lemma_full_range(rows: Seq<Seq<u8>>)
    requires
        forall|x: int| 0 <= x < rows.len() ==> (#[trigger] rows[x]).len() >= 8,
    ensures
        rows_in_range(rows, 0, u64::MAX as nat) == rows,
    decreases rows.len(),
{
    if rows.len() > 0 {
        let d = rows.drop_last();
        assert forall|x: int| 0 <= x < d.len() implies (#[trigger] d[x]).len() >= 8 by {
            assert(d[x] == rows[x]);
        }
        lemma_full_range(d);
        lemma_row_ts_bound(rows.last());
        d.lemma_filter_push(rows.last(), in_range(0, u64::MAX as nat));
        assert(d.push(rows.last()) =~= rows);
    }
}

/// Rows that an insert into a series accepted come back, all of them and in
/// the order given, after the rows the series held, from a read of the whole
/// timestamp range; from an empty series, exactly the inserted rows.
pub proof fn lemma_insert_then_read_all(
    t0: TransactionModel,
    t1: TransactionModel,
    series_id: u64,
    rows: Seq<Seq<u8>>,
)
    requires
        metadata_wf(t0.metadata),
        metadata_wf(t1.metadata),
        insert_into_series_post(t0, t1, series_id, rows, Ok(())),
    ensures
        ({
            let k = index_of(t0.metadata.series, series_id);
            &&& rows_in_range(all_rows(t1.metadata.series[k].blocks), 0, u64::MAX as nat)
                == all_rows(t0.metadata.series[k].blocks) + rows
            &&& t0.metadata.series[k].blocks.len() == 0 ==> rows_in_range(
                all_rows(t1.metadata.series[k].blocks),
                0,
                u64::MAX as nat,
            ) == rows
        }),
{
    let m = t0.metadata;
    let k = index_of(m.series, series_id);
    lemma_after_rows_frame(m, k, rows, m.generation);
    let s2 = t1.metadata.series[k];
    assert(series_wf(s2));
    lemma_all_rows_sized(s2.blocks, s2.row_size as nat);
    assert forall|x: int| 0 <= x < all_rows(s2.blocks).len() implies (#[trigger] all_rows(s2.blocks)[x]).len() >= 8 by {
        assert(all_rows(s2.blocks)[x].len() == s2.row_size);
    }
    lemma_full_range(all_rows(s2.blocks));
    if m.series[k].blocks.len() == 0 {
        assert(all_rows(m.series[k].blocks) + rows =~= rows);
    }
}

/// Creating a series that the same call has just created returns the same
/// id and changes nothing.
pub proof fn lemma_create_series_idempotent(
    t0: TransactionModel,
    t1: TransactionModel,
    t2: TransactionModel,
    name: Seq<char>,
    format: Seq<char>,
    r1: Option<u64>,
    r2: Option<u64>,
)
    requires
        create_series_post(t0, t1, name, format, r1),
        create_series_post(t1, t2, name, format, r2),
        r1 is Some,
    ensures
        r2 == r1,
        t2 == t1,
{
    let ss = t0.metadata.series;
    if exists|i: int| 0 <= i < ss.len() && ss[i].name == name {
        let i = choose|i: int| 0 <= i < ss.len() && ss[i].name == name;
        assert(t1.metadata.series[i].name == name);
    } else {
        let n = ss.len() as int;
        assert(t1.metadata.series[n].name == name);
        assert(t1.metadata.series[n].format == format);
    }
}

/// A row that finds its series' tail block full, or no block at all, opens a
/// new block at the allocation cursor; no block of the catalog reaches past
/// the cursor, so the new block overlaps none of them, and every block
/// already in the catalog keeps its place and rows.
pub proof fn lemma_new_block_above_catalog(m: MetadataModel, k: int, row: Seq<u8>, g: u64)
    requires
        metadata_wf(m),
        0 <= k < m.series.len(),
        !tail_takes_row(m.series[k]),
    ensures
        ({
            let m2 = metadata_after_row(m, k, row, g);
            let n = m.series[k].blocks.len() as int;
            &&& m2.series[k].blocks.len() == n + 1
            &&& m2.series[k].blocks[n].offset == m.next_offset
            &&& forall|i: int, x: int|
                0 <= i < m.series.len() && 0 <= x < m.series[i].blocks.len() ==> block_end(
                    #[trigger] m.series[i].blocks[x],
                ) <= m2.series[k].blocks[n].offset && m2.series[i].blocks[x] == m.series[i].blocks[x]
        }),
{
    let m2 = metadata_after_row(m, k, row, g);
    assert forall|i: int, x: int|
        0 <= i < m.series.len() && 0 <= x < m.series[i].blocks.len() implies m2.series[i].blocks[x]
        == m.series[i].blocks[x] by {
        if i != k {
            assert(m2.series[i] == m.series[i]);
        }
    }
}

/// An insert that has room in the data file leaves every block of the
/// catalog where it was: all of them keep their place, all but the series'
/// tail block keep their rows, and every block the insert allocates lies at or
/// above the allocation cursor it started from, which no block reaches past.
pub proof fn lemma_insert_allocates_above(m: MetadataModel, k: int, rows: Seq<Seq<u8>>, g: u64)
    requires
        0 <= k < m.series.len(),
        m.series[k].row_size > 0,
        rows_sized(rows, m.series[k].row_size as nat),
        file_has_room(m, m.series[k], rows.len()),
    ensures
        ({
            let m2 = metadata_after_rows(m, k, rows, g);
            let n = m.series[k].blocks.len() as int;
            &&& m2.next_offset >= m.next_offset
            &&& m2.series.len() == m.series.len()
            &&& m2.series[k].row_size == m.series[k].row_size
            &&& m2.series[k].block_size == m.series[k].block_size
            &&& m2.series[k].blocks.len() >= n
            &&& forall|i: int, x: int|
                0 <= i < m.series.len() && 0 <= x < m.series[i].blocks.len() ==> (#[trigger] m2.series[i].blocks[x]).offset
                    == m.series[i].blocks[x].offset && m2.series[i].blocks[x].capacity
                    == m.series[i].blocks[x].capacity && (i != k || x < n - 1 ==> m2.series[i].blocks[x]
                    == m.series[i].blocks[x])
            &&& forall|x: int|
                n <= x < m2.series[k].blocks.len() ==> (#[trigger] m2.series[k].blocks[x]).offset
                    >= m.next_offset
        }),
    decreases rows.len(),
{
    if rows.len() > 0 {
        let s = m.series[k];
        let r = s.row_size as int;
        let u = s.block_size as int;
        let row = rows[0];
        let m1 = metadata_after_row(m, k, row, g);
        let s1 = m1.series[k];
        let n = s.blocks.len() as int;
        assert(row.len() == s.row_size);
        assert(tail_takes_row(s) == (tail_room(s) >= r));
        lemma_alloc_end_grows(tail_room(s), m.next_offset as int, rows.len(), r, u);
        if tail_takes_row(s) {
            assert(tail_room(s1) == tail_room(s) - r);
            assert(m1.next_offset == m.next_offset);
        } else {
            assert(tail_room(s1) == u - r);
            assert(m1.next_offset == m.next_offset + u);
        }
        assert((rows.len() - 1) as nat == rows.skip(1).len());
        assert(rows_sized(rows.skip(1), s1.row_size as nat)) by {
            assert forall|x: int| 0 <= x < rows.skip(1).len() implies #[trigger] rows.skip(1)[x].len() == s1.row_size by {
                assert(rows.skip(1)[x] == rows[x + 1]);
            }
        }
        lemma_insert_allocates_above(m1, k, rows.skip(1), g);
        lemma_after_rows_front(m, k, rows, g);
        let m2 = metadata_after_rows(m, k, rows, g);
        assert forall|i: int, x: int|
            0 <= i < m.series.len() && 0 <= x < m.series[i].blocks.len() implies (#[trigger] m2.series[i].blocks[x]).offset
            == m.series[i].blocks[x].offset && m2.series[i].blocks[x].capacity
            == m.series[i].blocks[x].capacity && (i != k || x < n - 1 ==> m2.series[i].blocks[x]
            == m.series[i].blocks[x]) by {
            assert(0 <= x < m1.series[i].blocks.len());
            assert(m2.series[i].blocks[x] == metadata_after_rows(m1, k, rows.skip(1), g).series[i].blocks[x]);
            if i != k {
                assert(m1.series[i] == m.series[i]);
            } else if x < n - 1 || !tail_takes_row(s) {
                assert(m1.series[k].blocks[x] == m.series[k].blocks[x]);
            }
        }
        assert forall|x: int|
            n <= x < m2.series[k].blocks.len() implies (#[trigger] m2.series[k].blocks[x]).offset
            >= m.next_offset by {
            if x < s1.blocks.len() {
                assert(!tail_takes_row(s) && x == n);
                assert(m1.series[k].blocks[x].offset == m.next_offset);
            }
        }
    }
}

} // verus!
