use vstd::prelude::*;
use crate::bytes::{lemma_row_ts_bound, read_be_u64, row_ts};
use crate::format::{block_unit, fields_width, width_fits, RowFormat, TIMESTAMP_BYTES};
use crate::timestamp::Timestamp;

verus! {

broadcast use vstd::std_specs::vec::group_vec_axioms;

/// A contiguous byte range `[offset, offset + capacity)` of the data file that
/// holds a run of rows of one series, in timestamp order.
pub struct Block {
    first_timestamp: Timestamp,
    last_timestamp: Timestamp,
    offset: u64,
    capacity: u64,
    size: u64,
    generation: u64,
    rows: Vec<Vec<u8>>,
}

/// What a block is, as the contracts see it.
pub struct BlockModel {
    pub first_timestamp: u64,
    pub last_timestamp: u64,
    pub offset: u64,
    pub capacity: u64,
    pub size: u64,
    pub generation: u64,
    pub rows: Seq<Seq<u8>>,
}

impl View for Block {
    type V = BlockModel;

    closed spec fn view(&self) -> BlockModel {
        BlockModel {
            first_timestamp: self.first_timestamp.0,
            last_timestamp: self.last_timestamp.0,
            offset: self.offset,
            capacity: self.capacity,
            size: self.size,
            generation: self.generation,
            rows: self.rows.deep_view(),
        }
    }
}

/// A named sequence of fixed-size rows with strictly increasing timestamps.
pub struct Series {
    series_id: u64,
    name: String,
    generation: u64,
    format: String,
    row_size: u64,
    block_size: u64,
    blocks: Vec<Block>,
}

/// What a series is, as the contracts see it.
pub struct SeriesModel {
    pub series_id: u64,
    pub name: Seq<char>,
    pub generation: u64,
    pub format: Seq<char>,
    pub row_size: u64,
    pub block_size: u64,
    pub blocks: Seq<BlockModel>,
}

impl View for Series {
    type V = SeriesModel;

    closed spec fn view(&self) -> SeriesModel {
        SeriesModel {
            series_id: self.series_id,
            name: self.name@,
            generation: self.generation,
            format: self.format@,
            row_size: self.row_size,
            block_size: self.block_size,
            blocks: self.blocks@.map_values(|b: Block| b@),
        }
    }
}

/// The end of a block's byte range in the data file.
pub open spec fn block_end(b: BlockModel) -> int {
    b.offset + b.capacity
}

/// Two byte ranges of the data file share no byte.
pub open spec fn ranges_disjoint(a: BlockModel, b: BlockModel) -> bool {
    block_end(a) <= b.offset || block_end(b) <= a.offset
}

/// Every timestamp of `rows` is above `lo` (when there is one), and they increase strictly.
pub open spec fn ascending_after(lo: Option<nat>, rows: Seq<Seq<u8>>) -> bool {
    &&& forall|i: int, j: int| 0 <= i < j < rows.len() ==> row_ts(rows[i]) < row_ts(rows[j])
    &&& lo matches Some(l) ==> forall|i: int| 0 <= i < rows.len() ==> l < row_ts(rows[i])
}

/// Every row is `r` bytes long.
pub open spec fn rows_sized(rows: Seq<Seq<u8>>, r: nat) -> bool {
    forall|i: int| 0 <= i < rows.len() ==> #[trigger] rows[i].len() == r
}

/// A block of rows of `r` bytes: its rows fill `size` bytes of its capacity,
/// increase strictly, and its timestamp bounds are those of its first and last row.
pub open spec fn block_wf(b: BlockModel, r: nat) -> bool {
    &&& b.rows.len() > 0
    &&& rows_sized(b.rows, r)
    &&& b.size == b.rows.len() * r
    &&& b.size <= b.capacity
    &&& ascending_after(None, b.rows)
    &&& b.first_timestamp == row_ts(b.rows[0])
    &&& b.last_timestamp == row_ts(b.rows.last())
}

/// The blocks of a series lie in increasing timestamp order and do not overlap in time.
pub open spec fn blocks_ordered(blocks: Seq<BlockModel>) -> bool {
    forall|i: int, j: int|
        0 <= i < j < blocks.len() ==> blocks[i].last_timestamp < blocks[j].first_timestamp
}

/// A well-formed series.
pub open spec fn series_wf(s: SeriesModel) -> bool {
    &&& 8 <= s.row_size <= s.block_size
    &&& s.block_size % s.row_size == 0
    &&& forall|k: int| 0 <= k < s.blocks.len() ==> block_wf(#[trigger] s.blocks[k], s.row_size as nat)
    &&& blocks_ordered(s.blocks)
}

/// Every row of a series, in order: its blocks' rows one after the other.
pub open spec fn all_rows(blocks: Seq<BlockModel>) -> Seq<Seq<u8>>
    decreases blocks.len(),
{
    if blocks.len() == 0 {
        Seq::empty()
    } else {
        all_rows(blocks.drop_last()) + blocks.last().rows
    }
}

/// The rows of `rows` whose timestamp lies in `[lo, hi]`, in order.
pub open spec fn rows_in_range(rows: Seq<Seq<u8>>, lo: nat, hi: nat) -> Seq<Seq<u8>> {
    rows.filter(in_range(lo, hi))
}

/// A row's timestamp lies in `[lo, hi]`.
pub open spec fn in_range(lo: nat, hi: nat) -> spec_fn(Seq<u8>) -> bool {
    |r: Seq<u8>| lo <= row_ts(r) <= hi
}

/// The catalog of every series and its blocks, the end of the allocated part
/// of the data file, and the generation of the last committed transaction.
pub struct Metadata {
    series: Vec<Series>,
    next_offset: u64,
    next_series_id: u64,
    generation: u64,
}

/// What the catalog is, as the contracts see it.
pub struct MetadataModel {
    pub series: Seq<SeriesModel>,
    pub next_offset: u64,
    pub next_series_id: u64,
    pub generation: u64,
}

impl View for Metadata {
    type V = MetadataModel;

    closed spec fn view(&self) -> MetadataModel {
        MetadataModel {
            series: self.series@.map_values(|s: Series| s@),
            next_offset: self.next_offset,
            next_series_id: self.next_series_id,
            generation: self.generation,
        }
    }
}

/// Names and ids identify series: no two series share either.
pub open spec fn series_unique(ss: Seq<SeriesModel>) -> bool {
    forall|i: int, j: int|
        0 <= i < ss.len() && 0 <= j < ss.len() && i != j ==> ss[i].series_id != ss[j].series_id
            && ss[i].name != ss[j].name
}

/// No two blocks of the catalog share a byte of the data file.
pub open spec fn file_ranges_disjoint(ss: Seq<SeriesModel>) -> bool {
    forall|i: int, k: int, j: int, l: int|
        0 <= i < ss.len() && 0 <= j < ss.len() && 0 <= k < ss[i].blocks.len() && 0 <= l
            < ss[j].blocks.len() && (i != j || k != l) ==> ranges_disjoint(
            #[trigger] ss[i].blocks[k],
            #[trigger] ss[j].blocks[l],
        )
}

/// `next` is the largest end of a block's byte range (zero when there is no block).
pub open spec fn is_max_end(ss: Seq<SeriesModel>, next: int) -> bool {
    &&& forall|i: int, k: int|
        0 <= i < ss.len() && 0 <= k < ss[i].blocks.len() ==> block_end(#[trigger] ss[i].blocks[k])
            <= next
    &&& next == 0 || exists|i: int, k: int|
        0 <= i < ss.len() && 0 <= k < ss[i].blocks.len() && block_end(#[trigger] ss[i].blocks[k])
            == next
}

/// No series or block carries a generation beyond `g`.
pub open spec fn generations_upto(ss: Seq<SeriesModel>, g: u64) -> bool {
    forall|i: int|
        0 <= i < ss.len() ==> (#[trigger] ss[i]).generation <= g && forall|k: int|
            0 <= k < ss[i].blocks.len() ==> (#[trigger] ss[i].blocks[k]).generation <= g
}

/// A well-formed catalog.
pub open spec fn metadata_wf(m: MetadataModel) -> bool {
    &&& forall|i: int| 0 <= i < m.series.len() ==> series_wf(#[trigger] m.series[i])
    &&& series_unique(m.series)
    &&& forall|i: int| 0 <= i < m.series.len() ==> (#[trigger] m.series[i]).series_id < m.next_series_id
    &&& file_ranges_disjoint(m.series)
    &&& is_max_end(m.series, m.next_offset as int)
    &&& generations_upto(m.series, m.generation)
}

impl Block {
    fn duplicate(&self) -> (r: Block)
        ensures
            r@ == self@,
    {
        let rows = self.rows.clone();
        proof {
            broadcast use vstd::std_specs::vec::vec_clone_deep_view_proof;
            assert(rows.deep_view() == self.rows.deep_view());
        }
        Block {
            first_timestamp: self.first_timestamp,
            last_timestamp: self.last_timestamp,
            offset: self.offset,
            capacity: self.capacity,
            size: self.size,
            generation: self.generation,
            rows,
        }
    }
}

impl Series {
    fn duplicate(&self) -> (r: Series)
        ensures
            r@ == self@,
    {
        let mut blocks: Vec<Block> = Vec::new();
        let mut k: usize = 0;
        while k < self.blocks.len()
            invariant
                k <= self.blocks.len(),
                blocks.len() == k,
                forall|j: int| 0 <= j < k ==> blocks@[j]@ == self.blocks@[j]@,
            decreases self.blocks.len() - k,
        {
            blocks.push(self.blocks[k].duplicate());
            k = k + 1;
        }
        assert(blocks@.map_values(|b: Block| b@) =~= self.blocks@.map_values(|b: Block| b@));
        Series {
            series_id: self.series_id,
            name: self.name.clone(),
            generation: self.generation,
            format: self.format.clone(),
            row_size: self.row_size,
            block_size: self.block_size,
            blocks,
        }
    }
}

impl Metadata {
    fn duplicate(&self) -> (r: Metadata)
        ensures
            r@ == self@,
    {
        let mut series: Vec<Series> = Vec::new();
        let mut i: usize = 0;
        while i < self.series.len()
            invariant
                i <= self.series.len(),
                series.len() == i,
                forall|j: int| 0 <= j < i ==> series@[j]@ == self.series@[j]@,
            decreases self.series.len() - i,
        {
            series.push(self.series[i].duplicate());
            i = i + 1;
        }
        assert(series@.map_values(|s: Series| s@) =~= self.series@.map_values(|s: Series| s@));
        Metadata {
            series,
            next_offset: self.next_offset,
            next_series_id: self.next_series_id,
            generation: self.generation,
        }
    }
}

/// A block has room for one more row of `r` bytes.
pub open spec fn has_room(b: BlockModel, r: nat) -> bool {
    b.capacity - b.size >= r
}

/// `b` with `row` appended, last modified in generation `g`.
pub open spec fn extended(b: BlockModel, row: Seq<u8>, g: u64) -> BlockModel {
    BlockModel {
        last_timestamp: row_ts(row) as u64,
        size: (b.size + row.len()) as u64,
        generation: g,
        rows: b.rows.push(row),
        ..b
    }
}

/// A new block at `offset` of `capacity` bytes, holding `row` alone.
pub open spec fn fresh_block(row: Seq<u8>, offset: u64, capacity: u64, g: u64) -> BlockModel {
    BlockModel {
        first_timestamp: row_ts(row) as u64,
        last_timestamp: row_ts(row) as u64,
        offset,
        capacity,
        size: row.len() as u64,
        generation: g,
        rows: seq![row],
    }
}

/// The tail block of `s` takes one more row, or else a new block is allocated.
pub open spec fn tail_takes_row(s: SeriesModel) -> bool {
    s.blocks.len() > 0 && has_room(s.blocks.last(), s.row_size as nat)
}

/// The blocks of `s` once `row` is stored: appended to the tail block when it
/// has room, else in a new block of the series' allocation unit at `next`.
pub open spec fn blocks_after_row(s: SeriesModel, row: Seq<u8>, next: u64, g: u64) -> Seq<
    BlockModel,
> {
    if tail_takes_row(s) {
        s.blocks.update(s.blocks.len() - 1, extended(s.blocks.last(), row, g))
    } else {
        s.blocks.push(fresh_block(row, next, s.block_size, g))
    }
}

/// The allocation cursor once `row` is stored.
pub open spec fn next_after_row(s: SeriesModel, next: u64) -> int {
    if tail_takes_row(s) {
        next as int
    } else {
        next + s.block_size
    }
}

/// The newest timestamp of a series, if it holds a row.
pub open spec fn series_last(s: SeriesModel) -> Option<nat> {
    if s.blocks.len() == 0 {
        None
    } else {
        Some(s.blocks.last().last_timestamp as nat)
    }
}

proof fn lemma_all_rows_push(blocks: Seq<BlockModel>, b: BlockModel)
    ensures
        all_rows(blocks.push(b)) == all_rows(blocks) + b.rows,
{
    assert(blocks.push(b).drop_last() =~= blocks);
}

proof fn lemma_all_rows_extend(blocks: Seq<BlockModel>, b: BlockModel, row: Seq<u8>, g: u64)
    requires
        blocks.len() > 0,
        b == blocks.last(),
    ensures
        all_rows(blocks.update(blocks.len() - 1, extended(b, row, g))) == all_rows(blocks).push(
            row,
        ),
{
    let nb = blocks.update(blocks.len() - 1, extended(b, row, g));
    assert(nb.drop_last() =~= blocks.drop_last());
    assert(all_rows(nb) =~= all_rows(blocks).push(row));
}

pub(crate) proof fn lemma_series_after_row(s: SeriesModel, row: Seq<u8>, next: u64, g: u64)
    requires
        series_wf(s),
        row.len() == s.row_size,
        series_last(s) matches Some(l) ==> l < row_ts(row),
        row_ts(row) <= u64::MAX,
        !tail_takes_row(s) ==> next + s.block_size <= u64::MAX,
    ensures
        series_wf(SeriesModel { blocks: blocks_after_row(s, row, next, g), ..s }),
        all_rows(blocks_after_row(s, row, next, g)) == all_rows(s.blocks).push(row),
        blocks_after_row(s, row, next, g).last().last_timestamp == row_ts(row),
{
    let r = s.row_size as nat;
    let nb = blocks_after_row(s, row, next, g);
    let s2 = SeriesModel { blocks: nb, ..s };
    if tail_takes_row(s) {
        let last = s.blocks.len() - 1;
        let b = s.blocks.last();
        assert(block_wf(b, r));
        let e = extended(b, row, g);
        lemma_all_rows_extend(s.blocks, b, row, g);
        assert(e.size == e.rows.len() * r) by (nonlinear_arith)
            requires
                e.size == b.size + r,
                b.size == b.rows.len() * r,
                e.rows.len() == b.rows.len() + 1,
        ;
        assert forall|i: int, j: int| 0 <= i < j < e.rows.len() implies row_ts(e.rows[i]) < row_ts(
            e.rows[j],
        ) by {
            if j == e.rows.len() - 1 {
                if i < b.rows.len() - 1 {
                    assert(row_ts(b.rows[i]) < row_ts(b.rows[b.rows.len() - 1]));
                }
            }
        }
        assert(e.rows[0] == b.rows[0]);
        assert(block_wf(e, r));
        assert forall|k: int| 0 <= k < nb.len() implies block_wf(#[trigger] nb[k], r) by {
            if k != last {
                assert(nb[k] == s.blocks[k]);
            }
        }
        assert(blocks_ordered(nb));
    } else {
        let f = fresh_block(row, next, s.block_size, g);
        lemma_all_rows_push(s.blocks, f);
        assert(f.rows.last() == row);
        assert(block_wf(f, r));
        assert forall|k: int| 0 <= k < nb.len() implies block_wf(#[trigger] nb[k], r) by {
            if k < s.blocks.len() {
                assert(nb[k] == s.blocks[k]);
            }
        }
        assert forall|i: int, j: int| 0 <= i < j < nb.len() implies nb[i].last_timestamp
            < nb[j].first_timestamp by {
            if j == s.blocks.len() {
                let t = s.blocks.len() - 1;
                let bt = s.blocks[t];
                assert(block_wf(bt, r));
                assert(bt.first_timestamp <= bt.last_timestamp) by {
                    if bt.rows.len() > 1 {
                        assert(row_ts(bt.rows[0]) < row_ts(bt.rows[bt.rows.len() - 1]));
                    }
                }
                if i < t {
                    assert(s.blocks[i].last_timestamp < bt.first_timestamp);
                }
            } else {
                assert(nb[i] == s.blocks[i] && nb[j] == s.blocks[j]);
            }
        }
    }
}

/// The catalog once `row` is stored in series `k` by a transaction of generation `g`.
pub open spec fn metadata_after_row(m: MetadataModel, k: int, row: Seq<u8>, g: u64) -> MetadataModel {
    let s = m.series[k];
    MetadataModel {
        series: m.series.update(k, SeriesModel { blocks: blocks_after_row(s, row, m.next_offset, g), ..s }),
        next_offset: next_after_row(s, m.next_offset) as u64,
        ..m
    }
}

pub(crate) proof fn lemma_metadata_after_row(m: MetadataModel, k: int, row: Seq<u8>, g: u64)
    requires
        metadata_wf(m),
        0 <= k < m.series.len(),
        row.len() == m.series[k].row_size,
        series_last(m.series[k]) matches Some(l) ==> l < row_ts(row),
        row_ts(row) <= u64::MAX,
        !tail_takes_row(m.series[k]) ==> m.next_offset + m.series[k].block_size <= u64::MAX,
        g <= m.generation,
    ensures
        metadata_wf(metadata_after_row(m, k, row, g)),
{
    let s = m.series[k];
    lemma_series_after_row(s, row, m.next_offset, g);
    let m2 = metadata_after_row(m, k, row, g);
    let ss = m.series;
    let ss2 = m2.series;
    let nb = ss2[k].blocks;
    assert forall|i: int| 0 <= i < ss2.len() implies series_wf(#[trigger] ss2[i]) by {
        if i != k {
            assert(ss2[i] == ss[i]);
        }
    }
    assert(series_unique(ss2)) by {
        assert forall|i: int, j: int|
            0 <= i < ss2.len() && 0 <= j < ss2.len() && i != j implies ss2[i].series_id
            != ss2[j].series_id && ss2[i].name != ss2[j].name by {
            assert(ss[i].series_id != ss[j].series_id && ss[i].name != ss[j].name);
        }
    }
    assert forall|i: int| 0 <= i < ss2.len() implies (#[trigger] ss2[i]).series_id < m2.next_series_id by {
        assert(ss[i].series_id < m.next_series_id);
    }
    if tail_takes_row(s) {
        let t = s.blocks.len() - 1;
        // blocks keep their byte ranges
        assert forall|i: int, x: int|
            0 <= i < ss2.len() && 0 <= x < ss2[i].blocks.len() implies (#[trigger] ss2[i].blocks[x]).offset
            == ss[i].blocks[x].offset && ss2[i].blocks[x].capacity == ss[i].blocks[x].capacity by {
        }
        assert(file_ranges_disjoint(ss2)) by {
            assert forall|i: int, x: int, j: int, y: int|
                0 <= i < ss2.len() && 0 <= j < ss2.len() && 0 <= x < ss2[i].blocks.len() && 0 <= y
                    < ss2[j].blocks.len() && (i != j || x != y) implies ranges_disjoint(
                #[trigger] ss2[i].blocks[x],
                #[trigger] ss2[j].blocks[y],
            ) by {
                assert(ranges_disjoint(ss[i].blocks[x], ss[j].blocks[y]));
            }
        }
        assert(is_max_end(ss2, m2.next_offset as int)) by {
            assert forall|i: int, x: int|
                0 <= i < ss2.len() && 0 <= x < ss2[i].blocks.len() implies block_end(
                #[trigger] ss2[i].blocks[x],
            ) <= m2.next_offset by {
                assert(block_end(ss[i].blocks[x]) <= m.next_offset);
            }
            if m.next_offset != 0 {
                let (i, x) = choose|i: int, x: int|
                    0 <= i < ss.len() && 0 <= x < ss[i].blocks.len() && block_end(
                        #[trigger] ss[i].blocks[x],
                    ) == m.next_offset;
                assert(block_end(ss2[i].blocks[x]) == m2.next_offset);
            }
        }
        assert(generations_upto(ss2, m2.generation)) by {
            assert forall|i: int| 0 <= i < ss2.len() implies (#[trigger] ss2[i]).generation
                <= m2.generation && forall|x: int|
                0 <= x < ss2[i].blocks.len() ==> (#[trigger] ss2[i].blocks[x]).generation
                    <= m2.generation by {
                assert(ss[i].generation <= m.generation);
                assert forall|x: int| 0 <= x < ss2[i].blocks.len() implies (
                #[trigger] ss2[i].blocks[x]).generation <= m2.generation by {
                    assert(ss[i].blocks[x].generation <= m.generation);
                }
            }
        }
    } else {
        let n = s.blocks.len();
        let f = nb[n as int];
        assert(f.offset == m.next_offset);
        assert(file_ranges_disjoint(ss2)) by {
            assert forall|i: int, x: int, j: int, y: int|
                0 <= i < ss2.len() && 0 <= j < ss2.len() && 0 <= x < ss2[i].blocks.len() && 0 <= y
                    < ss2[j].blocks.len() && (i != j || x != y) implies ranges_disjoint(
                #[trigger] ss2[i].blocks[x],
                #[trigger] ss2[j].blocks[y],
            ) by {
                let new_x = i == k && x == n;
                let new_y = j == k && y == n;
                if new_x {
                    assert(block_end(ss[j].blocks[y]) <= m.next_offset);
                    assert(ss2[j].blocks[y] == ss[j].blocks[y]);
                } else if new_y {
                    assert(block_end(ss[i].blocks[x]) <= m.next_offset);
                    assert(ss2[i].blocks[x] == ss[i].blocks[x]);
                } else {
                    assert(ss2[i].blocks[x] == ss[i].blocks[x]);
                    assert(ss2[j].blocks[y] == ss[j].blocks[y]);
                    assert(ranges_disjoint(ss[i].blocks[x], ss[j].blocks[y]));
                }
            }
        }
        assert(is_max_end(ss2, m2.next_offset as int)) by {
            assert forall|i: int, x: int|
                0 <= i < ss2.len() && 0 <= x < ss2[i].blocks.len() implies block_end(
                #[trigger] ss2[i].blocks[x],
            ) <= m2.next_offset by {
                if !(i == k && x == n) {
                    assert(ss2[i].blocks[x] == ss[i].blocks[x]);
                    assert(block_end(ss[i].blocks[x]) <= m.next_offset);
                }
            }
            assert(block_end(ss2[k].blocks[n as int]) == m2.next_offset);
        }
        assert(generations_upto(ss2, m2.generation)) by {
            assert forall|i: int| 0 <= i < ss2.len() implies (#[trigger] ss2[i]).generation
                <= m2.generation && forall|x: int|
                0 <= x < ss2[i].blocks.len() ==> (#[trigger] ss2[i].blocks[x]).generation
                    <= m2.generation by {
                assert(ss[i].generation <= m.generation);
                assert forall|x: int| 0 <= x < ss2[i].blocks.len() implies (
                #[trigger] ss2[i].blocks[x]).generation <= m2.generation by {
                    if !(i == k && x == n) {
                        assert(ss2[i].blocks[x] == ss[i].blocks[x]);
                        assert(ss[i].blocks[x].generation <= m.generation);
                    }
                }
            }
        }
    }
}

/// Why an insert was refused.
#[derive(Debug, Clone, Copy, PartialEq, Eq, Structural)]
pub enum InsertError {
    /// The transaction is read-only.
    NotWritable,
    /// No series has that id.
    NotFound,
    /// A row is not exactly as long as the series' rows.
    FormatError,
    /// A timestamp is not above the one before it, in this call or in storage.
    OrderError,
    /// The new blocks that the rows need would not all end below the largest
    /// 64-bit offset of the data file.
    IoError,
}

/// The catalog once `rows` are stored, one after another, in series `k`.
pub open spec fn metadata_after_rows(m: MetadataModel, k: int, rows: Seq<Seq<u8>>, g: u64) -> MetadataModel
    decreases rows.len(),
{
    if rows.len() == 0 {
        m
    } else {
        metadata_after_row(metadata_after_rows(m, k, rows.drop_last(), g), k, rows.last(), g)
    }
}

/// Some series of the catalog has this id.
pub open spec fn has_series(ss: Seq<SeriesModel>, id: u64) -> bool {
    exists|i: int| 0 <= i < ss.len() && ss[i].series_id == id
}

/// The position of the series with this id.
pub open spec fn index_of(ss: Seq<SeriesModel>, id: u64) -> int {
    choose|i: int| 0 <= i < ss.len() && ss[i].series_id == id
}

/// The free bytes of a series' tail block; none when it has no block.
pub open spec fn tail_room(s: SeriesModel) -> int {
    if s.blocks.len() == 0 {
        0
    } else {
        s.blocks.last().capacity - s.blocks.last().size
    }
}

/// Where the allocation cursor, at `next`, ends once `n` rows of `r` bytes
/// are stored after a tail block with `free` bytes of room: each row that
/// does not fit allocates a new block of `unit` bytes.
pub open spec fn alloc_end(free: int, next: int, n: nat, r: int, unit: int) -> int
    decreases n,
{
    if n == 0 {
        next
    } else if free >= r {
        alloc_end(free - r, next, (n - 1) as nat, r, unit)
    } else {
        alloc_end(unit - r, next + unit, (n - 1) as nat, r, unit)
    }
}

/// The blocks that storing `n` rows in series `s` allocates all end below
/// the largest 64-bit offset.
pub open spec fn file_has_room(m: MetadataModel, s: SeriesModel, n: nat) -> bool {
    alloc_end(tail_room(s), m.next_offset as int, n, s.row_size as int, s.block_size as int) <= u64::MAX
}

pub(crate) proof fn lemma_alloc_end_grows(free: int, next: int, n: nat, r: int, unit: int)
    requires
        unit >= 0,
    ensures
        alloc_end(free, next, n, r, unit) >= next,
        n > 0 && free < r ==> alloc_end(free, next, n, r, unit) >= next + unit,
    decreases n,
{
    if n > 0 {
        if free >= r {
            lemma_alloc_end_grows(free - r, next, (n - 1) as nat, r, unit);
        } else {
            lemma_alloc_end_grows(unit - r, next + unit, (n - 1) as nat, r, unit);
        }
    }
}

proof fn lemma_rows_view(rows: &Vec<Vec<u8>>)
    ensures
        rows.deep_view().len() == rows@.len(),
        forall|i: int| 0 <= i < rows@.len() ==> rows.deep_view()[i] == rows@[i]@,
{
    assert forall|i: int| 0 <= i < rows@.len() implies rows.deep_view()[i] == rows@[i]@ by {
        assert(rows.deep_view()[i] =~= rows@[i]@);
    }
}

fn copy_row(row: &Vec<u8>) -> (r: Vec<u8>)
    ensures
        r@ == row@,
{
    let r = row.clone();
    proof {
        assert(r.deep_view() == row.deep_view());
        assert(r@ =~= r.deep_view());
        assert(row@ =~= row.deep_view());
    }
    r
}

/// Every row is `r` bytes long.
fn rows_have_size(rows: &Vec<Vec<u8>>, r: u64) -> (b: bool)
    ensures
        b == rows_sized(rows.deep_view(), r as nat),
{
    proof {
        lemma_rows_view(rows);
    }
    let mut i: usize = 0;
    while i < rows.len()
        invariant
            i <= rows.len(),
            forall|j: int| 0 <= j < i ==> rows@[j]@.len() == r,
            rows.deep_view().len() == rows@.len(),
            forall|j: int| 0 <= j < rows@.len() ==> rows.deep_view()[j] == rows@[j]@,
        decreases rows.len() - i,
    {
        if rows[i].len() as u64 != r {
            assert(rows.deep_view()[i as int].len() != r);
            return false;
        }
        i = i + 1;
    }
    true
}

/// The timestamps of `rows` increase strictly, and lie above `last` when there is one.
fn rows_ascend(rows: &Vec<Vec<u8>>, last: Option<u64>) -> (b: bool)
    requires
        forall|j: int| 0 <= j < rows@.len() ==> rows@[j]@.len() >= 8,
    ensures
        b == ascending_after(
            match last {
                Some(l) => Some(l as nat),
                None => None,
            },
            rows.deep_view(),
        ),
{
    proof {
        lemma_rows_view(rows);
    }
    let ghost lo = match last {
        Some(l) => Some(l as nat),
        None => None,
    };
    let ghost dv = rows.deep_view();
    let mut prev = last;
    let mut i: usize = 0;
    while i < rows.len()
        invariant
            i <= rows.len(),
            dv == rows.deep_view(),
            dv.len() == rows@.len(),
            forall|j: int| 0 <= j < rows@.len() ==> dv[j] == rows@[j]@,
            forall|j: int| 0 <= j < rows@.len() ==> rows@[j]@.len() >= 8,
            ascending_after(lo, dv.take(i as int)),
            lo == match last {
                Some(l) => Some(l as nat),
                None => None,
            },
            i == 0 ==> prev == last,
            i > 0 ==> prev == Some(row_ts(dv[i - 1]) as u64),
            i > 0 ==> row_ts(dv[i - 1]) <= u64::MAX,
        decreases rows.len() - i,
    {
        let t = read_be_u64(rows[i].as_slice());
        assert(t == row_ts(dv[i as int]));
        match prev {
            Some(p) => {
                if t <= p {
                    return false;
                }
            },
            None => {},
        }
        proof {
            let d2 = dv.take(i + 1);
            assert forall|a: int, c: int| 0 <= a < c < d2.len() implies row_ts(d2[a]) < row_ts(d2[c]) by {
                if c == i as int && a < i - 1 {
                    assert(dv.take(i as int)[a] == dv[a]);
                    assert(dv.take(i as int)[i - 1] == dv[i - 1]);
                } else if c < i {
                    assert(dv.take(i as int)[a] == dv[a]);
                    assert(dv.take(i as int)[c] == dv[c]);
                }
            }
            if lo is Some {
                assert forall|a: int| 0 <= a < d2.len() implies lo->0 < row_ts(d2[a]) by {
                    assert(d2[a] == dv[a]);
                    if a < i {
                        assert(dv.take(i as int)[a] == dv[a]);
                    } else if i > 0 {
                        assert(dv.take(i as int)[i - 1] == dv[i - 1]);
                        assert(lo->0 < row_ts(dv.take(i as int)[i - 1]));
                    } else {
                        assert(last == Some(lo->0 as u64));
                    }
                }
            }
        }
        prev = Some(t);
        i = i + 1;
    }
    assert(dv.take(i as int) =~= dv);
    true
}

impl Series {
    /// The newest timestamp of the series, if it holds a row.
    fn last_timestamp(&self) -> (r: Option<u64>)
        ensures
            match r {
                Some(l) => series_last(self@) == Some(l as nat),
                None => series_last(self@) is None,
            },
    {
        let n = self.blocks.len();
        if n == 0 {
            None
        } else {
            Some(self.blocks[n - 1].last_timestamp.0)
        }
    }

    /// Stores one row: in the tail block when it has room, else in a new
    /// block allocated at `next_offset`.
    fn append_row(&mut self, row: Vec<u8>, next_offset: &mut u64, generation: u64)
        requires
            series_wf(old(self)@),
            row@.len() == old(self)@.row_size,
            series_last(old(self)@) matches Some(l) ==> l < row_ts(row@),
            !tail_takes_row(old(self)@) ==> *old(next_offset) + old(self)@.block_size <= u64::MAX,
        ensures
            final(self)@ == (SeriesModel {
                blocks: blocks_after_row(old(self)@, row@, *old(next_offset), generation),
                ..old(self)@
            }),
            *final(next_offset) == next_after_row(old(self)@, *old(next_offset)),
    {
        let ts = read_be_u64(row.as_slice());
        let ghost row_v = row@;
        assert(row_v =~= row.deep_view());
        let ghost s0 = self@;
        let n = self.blocks.len();
        let room = n > 0 && self.blocks[n - 1].capacity - self.blocks[n - 1].size >= self.row_size;
        proof {
            if n > 0 {
                assert(self.blocks@[n - 1]@ == s0.blocks.last());
                assert(block_wf(s0.blocks.last(), s0.row_size as nat));
            }
        }
        if room {
            let mut b = self.blocks.pop().unwrap();
            assert(b@ == s0.blocks.last());
            b.rows.push(row);
            assert(b.rows.deep_view() =~= s0.blocks.last().rows.push(row_v));
            b.size = b.size + self.row_size;
            b.last_timestamp = Timestamp(ts);
            b.generation = generation;
            self.blocks.push(b);
            assert(self.blocks@.map_values(|b: Block| b@) =~= s0.blocks.update(
                s0.blocks.len() - 1,
                extended(s0.blocks.last(), row_v, generation),
            ));
        } else {
            let mut rows: Vec<Vec<u8>> = Vec::new();
            rows.push(row);
            assert(rows.deep_view() =~= seq![row_v]);
            let b = Block {
                first_timestamp: Timestamp(ts),
                last_timestamp: Timestamp(ts),
                offset: *next_offset,
                capacity: self.block_size,
                size: self.row_size,
                generation,
                rows,
            };
            self.blocks.push(b);
            assert(self.blocks@.map_values(|b: Block| b@) =~= s0.blocks.push(
                fresh_block(row_v, *old(next_offset), s0.block_size, generation),
            ));
            *next_offset = *next_offset + self.block_size;
        }
    }
}

/// A read or write transaction: a private snapshot of the catalog, published
/// by `commit` when it is writable.
pub struct Transaction {
    metadata: Metadata,
    writing: bool,
}

/// What a transaction is, as the contracts see it.
pub struct TransactionModel {
    pub metadata: MetadataModel,
    pub writing: bool,
}

impl View for Transaction {
    type V = TransactionModel;

    closed spec fn view(&self) -> TransactionModel {
        TransactionModel { metadata: self.metadata@, writing: self.writing }
    }
}

/// The series that `create_series` adds.
pub open spec fn new_series(
    id: u64,
    name: Seq<char>,
    generation: u64,
    format: Seq<char>,
    row_size: u64,
    block_size: u64,
) -> SeriesModel {
    SeriesModel { series_id: id, name, generation, format, row_size, block_size, blocks: Seq::empty() }
}

/// What `create_series(name, format)` does to a transaction `t0`, leaving
/// `t1` and returning `r`.
pub open spec fn create_series_post(
    t0: TransactionModel,
    t1: TransactionModel,
    name: Seq<char>,
    format: Seq<char>,
    r: Option<u64>,
) -> bool {
    ({
        let m = t0.metadata;
        let ss = m.series;
        if exists|i: int| 0 <= i < ss.len() && ss[i].name == name {
            &&& t1 == t0
            &&& forall|i: int|
                0 <= i < ss.len() && ss[i].name == name ==> r == if ss[i].format == format {
                    Some(ss[i].series_id)
                } else {
                    None::<u64>
                }
        } else if fields_width(format) is None || !width_fits(fields_width(format)->0) || m.next_series_id == u64::MAX {
            &&& t1 == t0
            &&& r is None
        } else {
            let w = fields_width(format)->0;
            let rs = (TIMESTAMP_BYTES + w) as u64;
            &&& r == Some(m.next_series_id)
            &&& t1 == (TransactionModel {
                metadata: MetadataModel {
                    series: ss.push(
                        new_series(
                            m.next_series_id,
                            name,
                            m.generation,
                            format,
                            rs,
                            block_unit(rs as nat) as u64,
                        ),
                    ),
                    next_series_id: (m.next_series_id + 1) as u64,
                    ..m
                },
                ..t0
            })
        }
    })
}

/// The largest generation among the series, zero when there are none.
pub open spec fn max_series_generation(ss: Seq<SeriesModel>) -> u64
    decreases ss.len(),
{
    if ss.len() == 0 {
        0
    } else {
        let rest = max_series_generation(ss.drop_last());
        if ss.last().generation > rest {
            ss.last().generation
        } else {
            rest
        }
    }
}

impl Metadata {
    /// The catalog is well formed.
    pub open spec fn wf(&self) -> bool {
        metadata_wf(self@)
    }

    /// An empty catalog: no series, nothing allocated, no generation committed.
    pub fn new() -> (r: Metadata)
        ensures
            r.wf(),
            r@.series.len() == 0,
            r@.next_offset == 0,
            r@.next_series_id == 1,
            r@.generation == 0,
    {
        Metadata { series: Vec::new(), next_offset: 0, next_series_id: 1, generation: 0 }
    }

    /// The generation of the last committed write transaction.
    pub fn committed_generation(&self) -> (r: u64)
        ensures
            r == self@.generation,
    {
        self.generation
    }

    /// The largest generation that a series was created in, zero when there
    /// is no series: what a restart takes as the last committed generation.
    pub fn last_generation(&self) -> (r: u64)
        ensures
            r == max_series_generation(self@.series),
    {
        let ghost ss = self@.series;
        let mut best: u64 = 0;
        let mut i: usize = 0;
        assert(ss.take(0) =~= Seq::<SeriesModel>::empty());
        while i < self.series.len()
            invariant
                ss == self@.series,
                i <= ss.len(),
                best == max_series_generation(ss.take(i as int)),
            decreases ss.len() - i,
        {
            assert(self.series@[i as int]@ == ss[i as int]);
            assert(ss.take(i + 1).drop_last() =~= ss.take(i as int));
            if self.series[i].generation > best {
                best = self.series[i].generation;
            }
            i = i + 1;
        }
        assert(ss.take(i as int) =~= ss);
        best
    }

    /// The first byte of the data file that no block holds.
    pub fn next_offset(&self) -> (r: u64)
        ensures
            r == self@.next_offset,
    {
        self.next_offset
    }

    /// Begins a read-only transaction on a snapshot of the catalog.
    pub fn as_read_transaction(&self) -> (t: Transaction)
        ensures
            t@.metadata == self@,
            !t@.writing,
            self.wf() ==> t.wf(),
    {
        Transaction { metadata: self.duplicate(), writing: false }
    }

    /// Begins a write transaction, which tags what it changes with the next generation.
    pub fn as_write_transaction(&self) -> (t: Transaction)
        requires
            self@.generation < u64::MAX,
        ensures
            t@.metadata == (MetadataModel { generation: (self@.generation + 1) as u64, ..self@ }),
            t@.writing,
            self.wf() ==> t.wf(),
    {
        let mut m = self.duplicate();
        m.generation = self.generation + 1;
        Transaction { metadata: m, writing: true }
    }
}

impl Transaction {
    /// The transaction's snapshot is well formed.
    pub open spec fn wf(&self) -> bool {
        metadata_wf(self@.metadata)
    }

    /// The position of the series with id `series_id`.
    fn position_of_id(&self, series_id: u64) -> (r: Option<usize>)
        ensures
            match r {
                Some(k) => k < self@.metadata.series.len() && self@.metadata.series[k as int].series_id
                    == series_id,
                None => !has_series(self@.metadata.series, series_id),
            },
    {
        let mut i: usize = 0;
        while i < self.metadata.series.len()
            invariant
                i <= self.metadata.series@.len(),
                forall|j: int| 0 <= j < i ==> self.metadata.series@[j].series_id != series_id,
            decreases self.metadata.series.len() - i,
        {
            if self.metadata.series[i].series_id == series_id {
                return Some(i);
            }
            i = i + 1;
        }
        None
    }

    /// The position of the series named `name`.
    fn position_of_name(&self, name: &str) -> (r: Option<usize>)
        ensures
            match r {
                Some(k) => k < self@.metadata.series.len() && self@.metadata.series[k as int].name
                    == name@,
                None => forall|j: int|
                    0 <= j < self@.metadata.series.len() ==> self@.metadata.series[j].name != name@,
            },
    {
        let wanted = name.to_owned();
        let mut i: usize = 0;
        while i < self.metadata.series.len()
            invariant
                i <= self.metadata.series@.len(),
                wanted@ == name@,
                forall|j: int| 0 <= j < i ==> self.metadata.series@[j].name@ != name@,
            decreases self.metadata.series.len() - i,
        {
            if self.metadata.series[i].name == wanted {
                return Some(i);
            }
            i = i + 1;
        }
        None
    }

    /// The id of the series named `name`, if there is one.
    pub fn series_id(&self, name: &str) -> (r: Option<u64>)
        requires
            self.wf(),
        ensures
            match r {
                Some(id) => exists|i: int|
                    0 <= i < self@.metadata.series.len() && self@.metadata.series[i].name == name@
                        && self@.metadata.series[i].series_id == id,
                None => forall|i: int|
                    0 <= i < self@.metadata.series.len() ==> self@.metadata.series[i].name != name@,
            },
    {
        match self.position_of_name(name) {
            Some(k) => Some(self.metadata.series[k].series_id),
            None => None,
        }
    }

    /// The format string of the series named `name`, if there is one.
    pub fn series_format_string(&self, name: &str) -> (r: Option<String>)
        requires
            self.wf(),
        ensures
            match r {
                Some(f) => exists|i: int|
                    0 <= i < self@.metadata.series.len() && self@.metadata.series[i].name == name@
                        && self@.metadata.series[i].format == f@,
                None => forall|i: int|
                    0 <= i < self@.metadata.series.len() ==> self@.metadata.series[i].name != name@,
            },
    {
        match self.position_of_name(name) {
            Some(k) => Some(self.metadata.series[k].format.clone()),
            None => None,
        }
    }

    /// Creates the series `name` with row format `format` unless it exists.
    ///
    /// Returns the id of the series: the existing one when it was created with
    /// the same format, a new one when there was none and the format parses;
    /// `None` when it exists with another format, when the format does not
    /// parse, or when every id has been handed out.
    pub fn create_series(&mut self, name: &str, format: &str) -> (r: Option<u64>)
        requires
            old(self).wf(),
            old(self)@.writing,
        ensures
            final(self).wf(),
            create_series_post(old(self)@, final(self)@, name@, format@, r),
    {
        let ghost m = self.metadata@;
        match self.position_of_name(name) {
            Some(k) => {
                proof {
                    assert forall|i: int|
                        0 <= i < m.series.len() && m.series[i].name == name@ implies i == k by {
                        if i != k {
                            assert(m.series[i].name != m.series[k as int].name);
                        }
                    }
                }
                let wanted = format.to_owned();
                if self.metadata.series[k].format == wanted {
                    Some(self.metadata.series[k].series_id)
                } else {
                    None
                }
            },
            None => {
                if self.metadata.next_series_id == u64::MAX {
                    return None;
                }
                match RowFormat::parse(format) {
                    None => None,
                    Some(f) => {
                        let id = self.metadata.next_series_id;
                        let s = Series {
                            series_id: id,
                            name: name.to_owned(),
                            generation: self.metadata.generation,
                            format: format.to_owned(),
                            row_size: f.row_size,
                            block_size: f.preferred_block_size,
                            blocks: Vec::new(),
                        };
                        proof {
                            let r = f.row_size as int;
                            let u = (4096 + r - 1) / r;
                            assert(u >= 1 && (u * r) % r == 0 && u * r >= r) by (nonlinear_arith)
                                requires
                                    u == (4096 + r - 1) / r,
                                    r >= 8,
                            ;
                            assert(s@.blocks =~= Seq::<BlockModel>::empty());
                        }
                        self.metadata.series.push(s);
                        self.metadata.next_series_id = id + 1;
                        proof {
                            let m2 = self.metadata@;
                            assert(m2.series =~= m.series.push(s@));
                            assert(series_unique(m2.series)) by {
                                assert forall|i: int, j: int|
                                    0 <= i < m2.series.len() && 0 <= j < m2.series.len() && i != j implies m2.series[i].series_id
                                    != m2.series[j].series_id && m2.series[i].name != m2.series[j].name by {
                                    if i < m.series.len() && j < m.series.len() {
                                        assert(m.series[i].series_id != m.series[j].series_id);
                                    } else if i < m.series.len() {
                                        assert(m.series[i].series_id < m.next_series_id);
                                    } else {
                                        assert(m.series[j].series_id < m.next_series_id);
                                    }
                                }
                            }
                            assert(file_ranges_disjoint(m2.series)) by {
                                assert forall|i: int, x: int, j: int, y: int|
                                    0 <= i < m2.series.len() && 0 <= j < m2.series.len() && 0 <= x
                                        < m2.series[i].blocks.len() && 0 <= y < m2.series[j].blocks.len()
                                        && (i != j || x != y) implies ranges_disjoint(
                                    #[trigger] m2.series[i].blocks[x],
                                    #[trigger] m2.series[j].blocks[y],
                                ) by {
                                    assert(ranges_disjoint(m.series[i].blocks[x], m.series[j].blocks[y]));
                                }
                            }
                            assert(is_max_end(m2.series, m2.next_offset as int)) by {
                                if m.next_offset != 0 {
                                    let (i, x) = choose|i: int, x: int|
                                        0 <= i < m.series.len() && 0 <= x < m.series[i].blocks.len() && block_end(
                                            #[trigger] m.series[i].blocks[x],
                                        ) == m.next_offset;
                                    assert(m2.series[i].blocks[x] == m.series[i].blocks[x]);
                                }
                            }
                            assert(generations_upto(m2.series, m2.generation)) by {
                                assert forall|i: int| 0 <= i < m2.series.len() implies (#[trigger] m2.series[i]).generation
                                    <= m2.generation && forall|x: int|
                                    0 <= x < m2.series[i].blocks.len() ==> (#[trigger] m2.series[i].blocks[x]).generation
                                        <= m2.generation by {
                                    if i < m.series.len() {
                                        assert(m2.series[i] == m.series[i]);
                                    }
                                }
                            }
                        }
                        Some(id)
                    },
                }
            },
        }
    }
}

/// What `insert_into_series(series_id, rows)` does to a transaction `t0`,
/// leaving `t1` and returning `r`.
pub open spec fn insert_into_series_post(
    t0: TransactionModel,
    t1: TransactionModel,
    series_id: u64,
    dv: Seq<Seq<u8>>,
    r: Result<(), InsertError>,
) -> bool {
    ({
        let m = t0.metadata;
        let k = index_of(m.series, series_id);
        let s = m.series[k];
        if !t0.writing {
            r == Err::<(), InsertError>(InsertError::NotWritable) && t1 == t0
        } else if !has_series(m.series, series_id) {
            r == Err::<(), InsertError>(InsertError::NotFound) && t1 == t0
        } else if !rows_sized(dv, s.row_size as nat) {
            r == Err::<(), InsertError>(InsertError::FormatError) && t1 == t0
        } else if !ascending_after(series_last(s), dv) {
            r == Err::<(), InsertError>(InsertError::OrderError) && t1 == t0
        } else if !file_has_room(m, s, dv.len()) {
            r == Err::<(), InsertError>(InsertError::IoError) && t1 == t0
        } else {
            &&& r is Ok
            &&& t1.writing
            &&& t1.metadata == metadata_after_rows(m, k, dv, m.generation)
            &&& all_rows(t1.metadata.series[k].blocks) == all_rows(s.blocks) + dv
        }
    })
}

/// Storing rows one by one is storing the first, then the others.
pub(crate) proof fn lemma_after_rows_front(m: MetadataModel, k: int, rows: Seq<Seq<u8>>, g: u64)
    requires
        rows.len() > 0,
    ensures
        metadata_after_rows(m, k, rows, g) == metadata_after_rows(
            metadata_after_row(m, k, rows[0], g),
            k,
            rows.skip(1),
            g,
        ),
    decreases rows.len(),
{
    if rows.len() == 1 {
        assert(rows.drop_last() =~= Seq::<Seq<u8>>::empty());
        assert(rows.skip(1) =~= Seq::<Seq<u8>>::empty());
        assert(rows.last() == rows[0]);
        assert(metadata_after_rows(m, k, rows.drop_last(), g) == m);
        assert(metadata_after_rows(m, k, rows, g) == metadata_after_row(m, k, rows[0], g));
    } else {
        let m1 = metadata_after_row(m, k, rows[0], g);
        lemma_after_rows_front(m, k, rows.drop_last(), g);
        assert(rows.drop_last()[0] == rows[0]);
        assert(rows.skip(1).drop_last() =~= rows.drop_last().skip(1));
        assert(rows.skip(1).last() == rows.last());
        assert(metadata_after_rows(m, k, rows, g) == metadata_after_row(
            metadata_after_rows(m, k, rows.drop_last(), g),
            k,
            rows.last(),
            g,
        ));
        assert(metadata_after_rows(m1, k, rows.skip(1), g) == metadata_after_row(
            metadata_after_rows(m1, k, rows.skip(1).drop_last(), g),
            k,
            rows.skip(1).last(),
            g,
        ));
    }
}

pub(crate) proof fn lemma_after_rows_frame(m: MetadataModel, k: int, rows: Seq<Seq<u8>>, g: u64)
    requires
        0 <= k < m.series.len(),
    ensures
        metadata_after_rows(m, k, rows, g).series.len() == m.series.len(),
        metadata_after_rows(m, k, rows, g).series[k] == (SeriesModel {
            blocks: metadata_after_rows(m, k, rows, g).series[k].blocks,
            ..m.series[k]
        }),
        forall|j: int|
            0 <= j < m.series.len() && j != k ==> metadata_after_rows(m, k, rows, g).series[j]
                == m.series[j],
        metadata_after_rows(m, k, rows, g).generation == m.generation,
        metadata_after_rows(m, k, rows, g).next_series_id == m.next_series_id,
    decreases rows.len(),
{
    if rows.len() > 0 {
        lemma_after_rows_frame(m, k, rows.drop_last(), g);
    }
}

impl Transaction {
    /// Appends `rows` to the series with id `series_id`.
    ///
    /// Each row is a stored row of the series: an 8-byte big-endian timestamp
    /// followed by the encoded fields. Rows fill the series' tail block while it
    /// has room; a full or missing tail block gets a new block of the series'
    /// allocation unit at the end of the data file. On any error nothing changes.
    pub fn insert_into_series(&mut self, series_id: u64, rows: &Vec<Vec<u8>>) -> (r: Result<(), InsertError>)
        requires
            old(self).wf(),
        ensures
            final(self).wf(),
            insert_into_series_post(old(self)@, final(self)@, series_id, rows.deep_view(), r),
    {
        if !self.writing {
            return Err(InsertError::NotWritable);
        }
        let ghost m = self.metadata@;
        let ghost dv = rows.deep_view();
        proof {
            lemma_rows_view(rows);
        }
        let k = match self.position_of_id(series_id) {
            None => return Err(InsertError::NotFound),
            Some(k) => k,
        };
        proof {
            let c = index_of(m.series, series_id);
            assert(has_series(m.series, series_id));
            if c != k {
                assert(m.series[c].series_id != m.series[k as int].series_id);
            }
            assert(series_wf(m.series[k as int]));
        }
        let row_size = self.metadata.series[k].row_size;
        if !rows_have_size(rows, row_size) {
            return Err(InsertError::FormatError);
        }
        let last = self.metadata.series[k].last_timestamp();
        proof {
            assert forall|j: int| 0 <= j < rows@.len() implies rows@[j]@.len() >= 8 by {
                assert(dv[j].len() == row_size);
            }
        }
        if !rows_ascend(rows, last) {
            return Err(InsertError::OrderError);
        }
        let block_size = self.metadata.series[k].block_size;
        let next0 = self.metadata.next_offset;
        let ghost s_k = m.series[k as int];
        let ghost total = rows.len() as nat;
        let nb = self.metadata.series[k].blocks.len();
        let mut free: u64 = if nb == 0 {
            0
        } else {
            assert(self.metadata.series@[k as int].blocks@[nb - 1]@ == s_k.blocks.last());
            assert(block_wf(s_k.blocks.last(), s_k.row_size as nat));
            self.metadata.series[k].blocks[nb - 1].capacity - self.metadata.series[k].blocks[nb - 1].size
        };
        let mut cursor: u64 = next0;
        let mut c: usize = 0;
        assert(s_k.block_size >= s_k.row_size);
        while c < rows.len()
            invariant
                self@ == old(self)@,
                m == old(self)@.metadata,
                metadata_wf(m),
                self.writing,
                k < m.series.len(),
                s_k == m.series[k as int],
                has_series(m.series, series_id),
                index_of(m.series, series_id) == k,
                dv == rows.deep_view(),
                rows_sized(dv, s_k.row_size as nat),
                ascending_after(series_last(s_k), dv),
                c <= rows.len(),
                total == rows.len(),
                dv.len() == total,
                next0 == m.next_offset,
                row_size == s_k.row_size,
                block_size == s_k.block_size,
                s_k.block_size >= s_k.row_size,
                alloc_end(free as int, cursor as int, (total - c) as nat, row_size as int, block_size as int)
                    == alloc_end(tail_room(s_k), next0 as int, total, row_size as int, block_size as int),
            decreases rows.len() - c,
        {
            if free >= row_size {
                free = free - row_size;
            } else {
                if cursor > u64::MAX - block_size {
                    proof {
                        lemma_alloc_end_grows(free as int, cursor as int, (total - c) as nat, row_size as int, block_size as int);
                        assert(!file_has_room(m, s_k, dv.len()));
                    }
                    return Err(InsertError::IoError);
                }
                cursor = cursor + block_size;
                free = block_size - row_size;
            }
            c = c + 1;
        }
        assert(alloc_end(tail_room(s_k), next0 as int, total, row_size as int, block_size as int) <= u64::MAX);
        assert(file_has_room(m, s_k, dv.len()));
        let g = self.metadata.generation;
        let ghost old_series = self.metadata.series@;
        let mut s = self.metadata.series.remove(k);
        let mut next = next0;
        let mut i: usize = 0;
        proof {
            assert(s@ == m.series[k as int]);
            assert(m.series.update(k as int, s@) =~= m.series);
            assert(dv.take(0) =~= Seq::<Seq<u8>>::empty());
            assert(all_rows(m.series[k as int].blocks) + dv.take(0) =~= all_rows(m.series[k as int].blocks));
        }
        while i < rows.len()
            invariant
                0 <= k < m.series.len(),
                m == old(self)@.metadata,
                g == m.generation,
                dv == rows.deep_view(),
                dv.len() == rows@.len(),
                forall|j: int| 0 <= j < rows@.len() ==> dv[j] == rows@[j]@,
                rows_sized(dv, m.series[k as int].row_size as nat),
                ascending_after(series_last(m.series[k as int]), dv),
                i <= rows.len(),
                self.metadata.series@ == old_series.remove(k as int),
                old_series.map_values(|x: Series| x@) == m.series,
                self.metadata.next_offset == m.next_offset,
                self.metadata.next_series_id == m.next_series_id,
                self.metadata.generation == m.generation,
                self.writing,
                (MetadataModel { series: m.series.update(k as int, s@), next_offset: next, ..m })
                    == metadata_after_rows(m, k as int, dv.take(i as int), g),
                metadata_wf(MetadataModel { series: m.series.update(k as int, s@), next_offset: next, ..m }),
                all_rows(s@.blocks) == all_rows(m.series[k as int].blocks) + dv.take(i as int),
                i > 0 ==> series_last(s@) == Some(row_ts(dv[i - 1])),
                i == 0 ==> s@ == m.series[k as int],
                alloc_end(tail_room(s@), next as int, (rows.len() - i) as nat, s@.row_size as int, s@.block_size as int)
                    <= u64::MAX,
                s@.block_size == m.series[k as int].block_size,
                s@.row_size == m.series[k as int].row_size,
            decreases rows.len() - i,
        {
            let row = copy_row(&rows[i]);
            let ghost mi = MetadataModel { series: m.series.update(k as int, s@), next_offset: next, ..m };
            proof {
                assert(mi.series[k as int] == s@);
                assert(row@ == dv[i as int]);
                lemma_row_ts_bound(row@);
                if i > 0 {
                    assert(row_ts(dv[i - 1]) < row_ts(dv[i as int]));
                } else {
                    if series_last(s@) is Some {
                        assert(series_last(m.series[k as int])->0 < row_ts(dv[0]));
                    }
                }
                let rem = (rows.len() - i) as nat;
                let sr = s@.row_size as int;
                let su = s@.block_size as int;
                if s@.blocks.len() > 0 {
                    assert(block_wf(s@.blocks.last(), s@.row_size as nat));
                }
                assert(tail_takes_row(s@) == (tail_room(s@) >= sr));
                lemma_alloc_end_grows(tail_room(s@), next as int, rem, sr, su);
                lemma_metadata_after_row(mi, k as int, row@, g);
                lemma_series_after_row(s@, row@, next, g);
                assert(dv.take(i + 1).drop_last() =~= dv.take(i as int));
                assert(dv.take(i + 1).last() == dv[i as int]);
            }
            s.append_row(row, &mut next, g);
            proof {
                let mi2 = MetadataModel { series: m.series.update(k as int, s@), next_offset: next, ..m };
                assert(mi2.series =~= metadata_after_row(mi, k as int, dv[i as int], g).series);
                assert(all_rows(m.series[k as int].blocks) + dv.take(i + 1) =~= (all_rows(
                    m.series[k as int].blocks,
                ) + dv.take(i as int)).push(dv[i as int]));
                let sp = mi.series[k as int];
                if tail_takes_row(sp) {
                    assert(s@.blocks.last() == extended(sp.blocks.last(), dv[i as int], g));
                    assert(tail_room(s@) == tail_room(sp) - sp.row_size);
                } else {
                    assert(s@.blocks.last() == fresh_block(dv[i as int], mi.next_offset, sp.block_size, g));
                    assert(tail_room(s@) == sp.block_size - sp.row_size);
                }
                assert((rows.len() - i) as nat - 1 == (rows.len() - (i + 1)) as nat);
            }
            i = i + 1;
        }
        self.metadata.series.insert(k, s);
        self.metadata.next_offset = next;
        proof {
            assert(dv.take(i as int) =~= dv);
            assert(self.metadata.series@.map_values(|x: Series| x@) =~= m.series.update(k as int, s@));
            lemma_after_rows_frame(m, k as int, dv, g);
        }
        Ok(())
    }
}

proof fn lemma_all_rows_take(blocks: Seq<BlockModel>, k: int)
    requires
        0 <= k < blocks.len(),
    ensures
        all_rows(blocks.take(k + 1)) == all_rows(blocks.take(k)) + blocks[k].rows,
{
    assert(blocks.take(k + 1).drop_last() =~= blocks.take(k));
}

proof fn lemma_all_rows_concat(a: Seq<BlockModel>, b: Seq<BlockModel>)
    ensures
        all_rows(a + b) == all_rows(a) + all_rows(b),
    decreases b.len(),
{
    if b.len() == 0 {
        assert(a + b =~= a);
        assert(all_rows(a) + all_rows(b) =~= all_rows(a));
    } else {
        lemma_all_rows_concat(a, b.drop_last());
        assert((a + b).drop_last() =~= a + b.drop_last());
        assert(all_rows(a + b) =~= all_rows(a) + all_rows(b));
    }
}

/// Every row of a well-formed block lies within the block's timestamp bounds.
proof fn lemma_block_bounds(b: BlockModel, r: nat, i: int)
    requires
        block_wf(b, r),
        0 <= i < b.rows.len(),
    ensures
        b.first_timestamp <= row_ts(b.rows[i]) <= b.last_timestamp,
{
    if 0 < i {
        assert(row_ts(b.rows[0]) < row_ts(b.rows[i]));
    }
    if i < b.rows.len() - 1 {
        assert(row_ts(b.rows[i]) < row_ts(b.rows[b.rows.len() - 1]));
    }
}

proof fn lemma_none_in_range(rows: Seq<Seq<u8>>, lo: nat, hi: nat)
    requires
        forall|i: int| 0 <= i < rows.len() ==> !(lo <= row_ts(#[trigger] rows[i]) <= hi),
    ensures
        rows_in_range(rows, lo, hi) == Seq::<Seq<u8>>::empty(),
{
    let p = in_range(lo, hi);
    assert(rows.all(|x: Seq<u8>| !p(x))) by {
        assert forall|i: int| 0 <= i < rows.len() implies !p(#[trigger] rows[i]) by {}
    }
    rows.lemma_all_neg_filter_empty(p);
    assert(rows_in_range(rows, lo, hi) =~= Seq::<Seq<u8>>::empty());
}

proof fn lemma_range_push(rows: Seq<Seq<u8>>, j: int, lo: nat, hi: nat)
    requires
        0 <= j < rows.len(),
    ensures
        rows_in_range(rows.take(j + 1), lo, hi) == if lo <= row_ts(rows[j]) <= hi {
            rows_in_range(rows.take(j), lo, hi).push(rows[j])
        } else {
            rows_in_range(rows.take(j), lo, hi)
        },
{
    assert(rows.take(j + 1) =~= rows.take(j).push(rows[j]));
    rows.take(j).lemma_filter_push(rows[j], in_range(lo, hi));
}

proof fn lemma_range_concat(a: Seq<Seq<u8>>, b: Seq<Seq<u8>>, lo: nat, hi: nat)
    ensures
        rows_in_range(a + b, lo, hi) == rows_in_range(a, lo, hi) + rows_in_range(b, lo, hi),
{
    Seq::filter_distributes_over_add(a, b, in_range(lo, hi));
}

proof fn lemma_all_rows_above(bs: Seq<BlockModel>, r: nat, t: nat)
    requires
        forall|l: int| 0 <= l < bs.len() ==> block_wf(#[trigger] bs[l], r) && bs[l].first_timestamp > t,
    ensures
        forall|i: int| 0 <= i < all_rows(bs).len() ==> row_ts(#[trigger] all_rows(bs)[i]) > t,
    decreases bs.len(),
{
    if bs.len() > 0 {
        let d = bs.drop_last();
        lemma_all_rows_above(d, r, t);
        let b = bs.last();
        assert(block_wf(bs[bs.len() - 1], r));
        assert forall|i: int| 0 <= i < all_rows(bs).len() implies row_ts(#[trigger] all_rows(bs)[i]) > t by {
            let n = all_rows(d).len();
            if i >= n {
                lemma_block_bounds(b, r, i - n);
            } else {
                assert(all_rows(bs)[i] == all_rows(d)[i]);
            }
        }
    }
}

/// A block whose bounds miss `[lo, hi]` adds nothing to a range read.
proof fn lemma_skip_block(blocks: Seq<BlockModel>, bi: int, r: nat, lo: nat, hi: nat)
    requires
        0 <= bi < blocks.len(),
        block_wf(blocks[bi], r),
        blocks[bi].last_timestamp < lo || blocks[bi].first_timestamp > hi,
    ensures
        rows_in_range(all_rows(blocks.take(bi + 1)), lo, hi) == rows_in_range(all_rows(blocks.take(bi)), lo, hi),
{
    let bm = blocks[bi];
    assert forall|i: int| 0 <= i < bm.rows.len() implies !(lo <= row_ts(#[trigger] bm.rows[i]) <= hi) by {
        lemma_block_bounds(bm, r, i);
    }
    lemma_none_in_range(bm.rows, lo, hi);
    lemma_all_rows_take(blocks, bi);
    lemma_range_concat(all_rows(blocks.take(bi)), bm.rows, lo, hi);
    assert(rows_in_range(all_rows(blocks.take(bi)), lo, hi) + Seq::<Seq<u8>>::empty() =~= rows_in_range(all_rows(blocks.take(bi)), lo, hi));
}

/// A whole block adds its rows in range to a range read.
proof fn lemma_whole_block(blocks: Seq<BlockModel>, bi: int, lo: nat, hi: nat)
    requires
        0 <= bi < blocks.len(),
    ensures
        rows_in_range(all_rows(blocks.take(bi + 1)), lo, hi) == rows_in_range(all_rows(blocks.take(bi)), lo, hi)
            + rows_in_range(blocks[bi].rows, lo, hi),
{
    lemma_all_rows_take(blocks, bi);
    lemma_range_concat(all_rows(blocks.take(bi)), blocks[bi].rows, lo, hi);
}

/// Once a row of a series lies past `hi`, no later row is in range.
proof fn lemma_stop_scan(blocks: Seq<BlockModel>, bi: int, j: int, r: nat, lo: nat, hi: nat)
    requires
        0 <= bi < blocks.len(),
        forall|l: int| 0 <= l < blocks.len() ==> block_wf(#[trigger] blocks[l], r),
        blocks_ordered(blocks),
        0 <= j < blocks[bi].rows.len(),
        row_ts(blocks[bi].rows[j]) > hi,
    ensures
        rows_in_range(all_rows(blocks), lo, hi) == rows_in_range(all_rows(blocks.take(bi)), lo, hi)
            + rows_in_range(blocks[bi].rows.take(j), lo, hi),
{
    let bm = blocks[bi];
    assert(block_wf(bm, r));
    let rest = bm.rows.skip(j);
    assert forall|i: int| 0 <= i < rest.len() implies !(lo <= row_ts(#[trigger] rest[i]) <= hi) by {
        if i > 0 {
            assert(row_ts(bm.rows[j]) < row_ts(bm.rows[j + i]));
        }
    }
    lemma_none_in_range(rest, lo, hi);
    assert(bm.rows =~= bm.rows.take(j) + rest);
    lemma_range_concat(bm.rows.take(j), rest, lo, hi);
    let later = blocks.skip(bi + 1);
    assert forall|l: int| 0 <= l < later.len() implies block_wf(#[trigger] later[l], r)
        && later[l].first_timestamp > hi by {
        assert(later[l] == blocks[bi + 1 + l]);
        assert(block_wf(blocks[bi + 1 + l], r));
        assert(bm.last_timestamp < blocks[bi + 1 + l].first_timestamp);
        lemma_block_bounds(bm, r, j);
    }
    lemma_all_rows_above(later, r, hi);
    assert forall|i: int| 0 <= i < all_rows(later).len() implies !(lo <= row_ts(
        #[trigger] all_rows(later)[i],
    ) <= hi) by {}
    lemma_none_in_range(all_rows(later), lo, hi);
    assert(blocks =~= blocks.take(bi + 1) + later);
    lemma_all_rows_concat(blocks.take(bi + 1), later);
    lemma_whole_block(blocks, bi, lo, hi);
    lemma_range_concat(all_rows(blocks.take(bi + 1)), all_rows(later), lo, hi);
    assert(rows_in_range(all_rows(blocks), lo, hi) =~= rows_in_range(all_rows(blocks.take(bi)), lo, hi)
        + rows_in_range(blocks[bi].rows.take(j), lo, hi));
}

impl Transaction {
    /// The stored rows of the series with id `series_id` whose timestamps lie in
    /// `[first_timestamp, last_timestamp]`, in timestamp order; none when there
    /// is no such series.
    ///
    /// Only blocks whose bounds meet the range are read, and the scan stops at
    /// the first row past `last_timestamp`.
    pub fn read_series(&self, series_id: u64, first_timestamp: Timestamp, last_timestamp: Timestamp) -> (r: Vec<Vec<u8>>)
        requires
            self.wf(),
        ensures
            has_series(self@.metadata.series, series_id) ==> r.deep_view() == rows_in_range(
                all_rows(self@.metadata.series[index_of(self@.metadata.series, series_id)].blocks),
                first_timestamp.0 as nat,
                last_timestamp.0 as nat,
            ),
            !has_series(self@.metadata.series, series_id) ==> r@.len() == 0,
    {
        let mut out: Vec<Vec<u8>> = Vec::new();
        let k = match self.position_of_id(series_id) {
            None => return out,
            Some(k) => k,
        };
        let ghost m = self.metadata@;
        proof {
            let c = index_of(m.series, series_id);
            assert(has_series(m.series, series_id));
            if c != k {
                assert(m.series[c].series_id != m.series[k as int].series_id);
            }
        }
        let s = &self.metadata.series[k];
        let ghost sm = s@;
        let ghost blocks = sm.blocks;
        let ghost r = sm.row_size as nat;
        let ghost lo = first_timestamp.0 as nat;
        let ghost hi = last_timestamp.0 as nat;
        assert(sm == m.series[k as int]);
        assert(series_wf(sm));
        let mut done = false;
        let mut bi: usize = 0;
        proof {
            assert(blocks.take(0) =~= Seq::<BlockModel>::empty());
            assert(out.deep_view() =~= rows_in_range(all_rows(blocks.take(0)), lo, hi));
        }
        while bi < s.blocks.len() && !done
            invariant
                sm == s@,
                blocks == sm.blocks,
                series_wf(sm),
                r == sm.row_size,
                lo == first_timestamp.0,
                hi == last_timestamp.0,
                bi <= blocks.len(),
                blocks.len() == s.blocks@.len(),
                !done ==> out.deep_view() == rows_in_range(all_rows(blocks.take(bi as int)), lo, hi),
                done ==> out.deep_view() == rows_in_range(all_rows(blocks), lo, hi),
            decreases s.blocks.len() - bi, (if done { 0int } else { 1int }),
        {
            let b = &s.blocks[bi];
            let ghost bm = b@;
            let ghost before = out.deep_view();
            assert(bm == blocks[bi as int]);
            assert(block_wf(bm, r));
            if b.last_timestamp.0 >= first_timestamp.0 && b.first_timestamp.0 <= last_timestamp.0 {
                let mut j: usize = 0;
                let mut stop = false;
                proof {
                    assert(bm.rows.take(0) =~= Seq::<Seq<u8>>::empty());
                    assert(out.deep_view() =~= before + rows_in_range(bm.rows.take(0), lo, hi));
                }
                while j < b.rows.len() && !stop
                    invariant
                        bm == b@,
                        block_wf(bm, r),
                        lo == first_timestamp.0,
                        hi == last_timestamp.0,
                        j <= bm.rows.len(),
                        bm.rows.len() == b.rows@.len(),
                        r >= 8,
                        !stop ==> out.deep_view() == before + rows_in_range(bm.rows.take(j as int), lo, hi),
                        stop ==> j > 0 && row_ts(bm.rows[j - 1]) > hi && out.deep_view() == before
                            + rows_in_range(bm.rows.take(j - 1), lo, hi),
                    decreases b.rows.len() - j, (if stop { 0int } else { 1int }),
                {
                    assert(b.rows@[j as int]@ == bm.rows[j as int]) by {
                        assert(b.rows.deep_view()[j as int] =~= b.rows@[j as int]@);
                    }
                    let t = read_be_u64(b.rows[j].as_slice());
                    proof {
                        lemma_range_push(bm.rows, j as int, lo, hi);
                    }
                    if t > last_timestamp.0 {
                        stop = true;
                    } else if t >= first_timestamp.0 {
                        let row = copy_row(&b.rows[j]);
                        let ghost prev = out.deep_view();
                        assert(row@ =~= row.deep_view());
                        out.push(row);
                        assert(out.deep_view() =~= prev.push(bm.rows[j as int]));
                        assert(out.deep_view() =~= before + rows_in_range(bm.rows.take(j + 1), lo, hi));
                    }
                    j = j + 1;
                }
                if stop {
                    done = true;
                    proof {
                        lemma_stop_scan(blocks, bi as int, j - 1, r, lo, hi);
                    }
                } else {
                    proof {
                        assert(bm.rows.take(j as int) =~= bm.rows);
                        lemma_whole_block(blocks, bi as int, lo, hi);
                    }
                }
            } else {
                proof {
                    lemma_skip_block(blocks, bi as int, r, lo, hi);
                }
            }
            bi = bi + 1;
        }
        if !done {
            assert(blocks.take(bi as int) =~= blocks);
        }
        out
    }
}

/// SQL `LIKE` with case-sensitive matching: `%` matches any run of
/// characters, `_` any one character, every other character itself.
pub open spec fn like(p: Seq<char>, s: Seq<char>) -> bool
    decreases p.len() + s.len(),
{
    if p.len() == 0 {
        s.len() == 0
    } else if p[0] == '%' {
        like(p.drop_first(), s) || (s.len() > 0 && like(p, s.drop_first()))
    } else {
        s.len() > 0 && (p[0] == '_' || p[0] == s[0]) && like(p.drop_first(), s.drop_first())
    }
}

/// Names and ids of the series whose names match `p`, in catalog order.
pub open spec fn series_matching(ss: Seq<SeriesModel>, p: Seq<char>) -> Seq<(Seq<char>, u64)>
    decreases ss.len(),
{
    if ss.len() == 0 {
        Seq::empty()
    } else if like(p, ss.last().name) {
        series_matching(ss.drop_last(), p).push((ss.last().name, ss.last().series_id))
    } else {
        series_matching(ss.drop_last(), p)
    }
}

fn chars_of(s: &str) -> (r: Vec<char>)
    ensures
        r@ == s@,
{
    let n = s.unicode_len();
    let mut r: Vec<char> = Vec::new();
    let mut i: usize = 0;
    while i < n
        invariant
            n == s@.len(),
            i <= n,
            r@ == s@.take(i as int),
        decreases n - i,
    {
        r.push(s.get_char(i));
        i = i + 1;
        assert(r@ =~= s@.take(i as int));
    }
    assert(s@.take(n as int) =~= s@);
    r
}

/// `like` of the pattern from `pi` on and the text from `si` on.
fn like_from(p: &Vec<char>, pi: usize, s: &Vec<char>, si: usize) -> (b: bool)
    requires
        pi <= p@.len(),
        si <= s@.len(),
    ensures
        b == like(p@.skip(pi as int), s@.skip(si as int)),
    decreases p@.len() - pi + s@.len() - si,
{
    let ghost ps = p@.skip(pi as int);
    let ghost ss = s@.skip(si as int);
    if pi == p.len() {
        return si == s.len();
    }
    assert(ps.drop_first() =~= p@.skip(pi + 1));
    assert(si < s.len() ==> ss.drop_first() =~= s@.skip(si + 1));
    if p[pi] == '%' {
        if like_from(p, pi + 1, s, si) {
            return true;
        }
        si < s.len() && like_from(p, pi, s, si + 1)
    } else {
        si < s.len() && (p[pi] == '_' || p[pi] == s[si]) && like_from(p, pi + 1, s, si + 1)
    }
}

impl Transaction {
    /// Names and ids of every series whose name matches the SQL `LIKE`
    /// pattern `like_pattern`, case-sensitively.
    pub fn series_like(&self, like_pattern: &str) -> (r: Vec<(String, u64)>)
        requires
            self.wf(),
        ensures
            r@.len() == series_matching(self@.metadata.series, like_pattern@).len(),
            forall|i: int|
                0 <= i < r@.len() ==> (#[trigger] r@[i]).0@ == series_matching(
                    self@.metadata.series,
                    like_pattern@,
                )[i].0 && r@[i].1 == series_matching(self@.metadata.series, like_pattern@)[i].1,
    {
        let p = chars_of(like_pattern);
        let ghost ss = self@.metadata.series;
        let mut out: Vec<(String, u64)> = Vec::new();
        let mut i: usize = 0;
        assert(ss.take(0) =~= Seq::<SeriesModel>::empty());
        while i < self.metadata.series.len()
            invariant
                ss == self@.metadata.series,
                i <= ss.len(),
                p@ == like_pattern@,
                out@.len() == series_matching(ss.take(i as int), p@).len(),
                forall|j: int|
                    0 <= j < out@.len() ==> (#[trigger] out@[j]).0@ == series_matching(ss.take(i as int), p@)[j].0
                        && out@[j].1 == series_matching(ss.take(i as int), p@)[j].1,
            decreases ss.len() - i,
        {
            let name = chars_of(self.metadata.series[i].name.as_str());
            assert(p@.skip(0) =~= p@);
            assert(name@.skip(0) =~= name@);
            assert(ss.take(i + 1).drop_last() =~= ss.take(i as int));
            assert(ss.take(i + 1).last() == ss[i as int]);
            if like_from(&p, 0, &name, 0) {
                out.push((self.metadata.series[i].name.clone(), self.metadata.series[i].series_id));
            }
            i = i + 1;
        }
        assert(ss.take(i as int) =~= ss);
        out
    }

    /// Ends the transaction. A write transaction publishes its snapshot as the
    /// committed catalog, provided it is the one writer since that catalog's
    /// last commit: its generation must follow the committed one. Otherwise
    /// another writer committed first, and `Busy` leaves the catalog as it
    /// was. A read-only transaction leaves the catalog as it was.
    pub fn commit(self, metadata: &mut Metadata) -> (r: Result<(), CommitError>)
        ensures
            self@.writing && old(metadata)@.generation + 1 != self@.metadata.generation ==> {
                &&& r == Err::<(), CommitError>(CommitError::Busy)
                &&& final(metadata)@ == old(metadata)@
            },
            self@.writing && old(metadata)@.generation + 1 == self@.metadata.generation ==> {
                &&& r is Ok
                &&& final(metadata)@ == self@.metadata
            },
            !self@.writing ==> r is Ok && final(metadata)@ == old(metadata)@,
    {
        if self.writing {
            if metadata.generation >= u64::MAX || metadata.generation + 1 != self.metadata.generation {
                return Err(CommitError::Busy);
            }
            *metadata = self.metadata;
        }
        Ok(())
    }

    /// The generation the transaction works in: for a write transaction, the
    /// one its changes are tagged with.
    pub fn generation(&self) -> (r: u64)
        ensures
            r == self@.metadata.generation,
    {
        self.metadata.generation
    }
}

/// Why a transaction could not commit.
#[derive(Debug, Clone, Copy, PartialEq, Eq, Structural)]
pub enum CommitError {
    /// Another write transaction committed since this one began.
    Busy,
}

impl Metadata {
    /// The largest end of a block's byte range, zero when there is no block:
    /// where the next block goes after a restart.
    pub fn recovered_next_offset(&self) -> (r: u64)
        requires
            self.wf(),
        ensures
            is_max_end(self@.series, r as int),
            r == self@.next_offset,
    {
        let ghost ss = self@.series;
        let mut best: u64 = 0;
        let mut i: usize = 0;
        while i < self.series.len()
            invariant
                ss == self@.series,
                metadata_wf(self@),
                i <= ss.len(),
                best <= self.next_offset,
                forall|a: int, x: int| 0 <= a < i && 0 <= x < ss[a].blocks.len() ==> block_end(#[trigger] ss[a].blocks[x]) <= best,
                best == 0 || exists|a: int, x: int| 0 <= a < i && 0 <= x < ss[a].blocks.len() && block_end(#[trigger] ss[a].blocks[x]) == best,
            decreases ss.len() - i,
        {
            let s = &self.series[i];
            assert(s@ == ss[i as int]);
            let mut x: usize = 0;
            while x < s.blocks.len()
                invariant
                    ss == self@.series,
                    metadata_wf(self@),
                    s@ == ss[i as int],
                    i < ss.len(),
                    x <= s.blocks@.len(),
                    best <= self.next_offset,
                    forall|a: int, y: int| 0 <= a < i && 0 <= y < ss[a].blocks.len() ==> block_end(#[trigger] ss[a].blocks[y]) <= best,
                    forall|y: int| 0 <= y < x ==> block_end(#[trigger] ss[i as int].blocks[y]) <= best,
                    best == 0 || exists|a: int, y: int| 0 <= a <= i && 0 <= y < ss[a].blocks.len() && block_end(#[trigger] ss[a].blocks[y]) == best,
                decreases s.blocks.len() - x,
            {
                let b = &s.blocks[x];
                assert(b@ == ss[i as int].blocks[x as int]);
                assert(block_end(ss[i as int].blocks[x as int]) <= self.next_offset);
                let end = b.offset + b.capacity;
                if end > best {
                    best = end;
                }
                x = x + 1;
            }
            i = i + 1;
        }
        proof {
            if self.next_offset != 0 {
                let (a, y) = choose|a: int, y: int| 0 <= a < ss.len() && 0 <= y < ss[a].blocks.len() && block_end(#[trigger] ss[a].blocks[y]) == self.next_offset;
                assert(block_end(ss[a].blocks[y]) <= best);
            }
            if best != 0 {
                let (a, y) = choose|a: int, y: int| 0 <= a < ss.len() && 0 <= y < ss[a].blocks.len() && block_end(#[trigger] ss[a].blocks[y]) == best;
                assert(block_end(ss[a].blocks[y]) <= self.next_offset);
            }
        }
        best
    }
}

impl Transaction {
    /// The number of blocks of the series with id `series_id`, if there is one.
    pub fn block_count(&self, series_id: u64) -> (r: Option<usize>)
        requires
            self.wf(),
        ensures
            has_series(self@.metadata.series, series_id) ==> r == Some(
                self@.metadata.series[index_of(self@.metadata.series, series_id)].blocks.len() as usize,
            ),
            !has_series(self@.metadata.series, series_id) ==> r is None,
    {
        match self.position_of_id(series_id) {
            None => None,
            Some(k) => {
                proof {
                    let m = self@.metadata;
                    let c = index_of(m.series, series_id);
                    assert(has_series(m.series, series_id));
                    if c != k {
                        assert(m.series[c].series_id != m.series[k as int].series_id);
                    }
                }
                Some(self.metadata.series[k].blocks.len())
            },
        }
    }

    /// Whether the transaction may write.
    pub fn is_writable(&self) -> (r: bool)
        ensures
            r == self@.writing,
    {
        self.writing
    }
}

/// Why a record could not be added.
#[derive(Debug, PartialEq, Eq)]
pub enum WriteFailure {
    /// The series (first) exists with another format (second) than the one
    /// given (third).
    HeterogeneousFormats(String, String, String),
    /// The series does not exist, and the format does not parse or no id is left.
    FormatError,
    /// The insert was refused.
    Insert(InsertError),
}

impl Transaction {
    /// Adds one stored row to the series `key` of format `format`, creating
    /// the series when there is none. Returns the series' id.
    pub fn add_record(&mut self, key: &str, format: &str, row: &Vec<u8>) -> (r: Result<u64, WriteFailure>)
        requires
            old(self).wf(),
            old(self)@.writing,
        ensures
            final(self).wf(),
            exists|t1: TransactionModel, c: Option<u64>|
                {
                    &&& create_series_post(old(self)@, t1, key@, format@, c)
                    &&& match c {
                        None => {
                            &&& final(self)@ == t1
                            &&& if exists|i: int|
                                0 <= i < old(self)@.metadata.series.len()
                                    && old(self)@.metadata.series[i].name == key@ {
                                &&& r is Err && r->Err_0 is HeterogeneousFormats
                                &&& r->Err_0->HeterogeneousFormats_0@ == key@
                                &&& r->Err_0->HeterogeneousFormats_2@ == format@
                                &&& forall|i: int|
                                    0 <= i < old(self)@.metadata.series.len()
                                        && old(self)@.metadata.series[i].name == key@
                                        ==> old(self)@.metadata.series[i].format
                                        == r->Err_0->HeterogeneousFormats_1@
                            } else {
                                r == Err::<u64, WriteFailure>(WriteFailure::FormatError)
                            }
                        },
                        Some(id) => exists|ir: Result<(), InsertError>|
                            {
                                &&& insert_into_series_post(t1, final(self)@, id, seq![row@], ir)
                                &&& r == match ir {
                                    Ok(()) => Ok::<u64, WriteFailure>(id),
                                    Err(e) => Err::<u64, WriteFailure>(WriteFailure::Insert(e)),
                                }
                            },
                    }
                },
    {
        let ghost t0 = self@;
        let c = self.create_series(key, format);
        let ghost t1 = self@;
        match c {
            None => {
                match self.position_of_name(key) {
                    Some(k) => {
                        proof {
                            assert forall|i: int|
                                0 <= i < t0.metadata.series.len() && t0.metadata.series[i].name == key@ implies i
                                == k by {
                                if i != k {
                                    assert(t0.metadata.series[i].name != t0.metadata.series[k as int].name);
                                }
                            }
                        }
                        Err(
                            WriteFailure::HeterogeneousFormats(
                                key.to_owned(),
                                self.metadata.series[k].format.clone(),
                                format.to_owned(),
                            ),
                        )
                    },
                    None => {
                        assert(!exists|i: int| 0 <= i < t0.metadata.series.len() && t0.metadata.series[i].name == key@);
                        Err(WriteFailure::FormatError)
                    },
                }
            },
            Some(id) => {
                let mut rows: Vec<Vec<u8>> = Vec::new();
                rows.push(copy_row(row));
                assert(rows.deep_view() =~= seq![row@]) by {
                    assert(rows.deep_view()[0] =~= row@);
                }
                let ir = self.insert_into_series(id, &rows);
                match ir {
                    Ok(()) => Ok(id),
                    Err(e) => Err(WriteFailure::Insert(e)),
                }
            },
        }
    }
}

/// Where a block lies and what it covers, as the catalog records it.
#[derive(Debug, Clone, Copy, PartialEq, Eq, Structural)]
pub struct BlockPlace {
    pub first_timestamp: u64,
    pub last_timestamp: u64,
    pub offset: u64,
    pub capacity: u64,
    pub size: u64,
    pub generation: u64,
}

/// The catalog record of a block.
pub open spec fn place_of(b: BlockModel) -> BlockPlace {
    BlockPlace {
        first_timestamp: b.first_timestamp,
        last_timestamp: b.last_timestamp,
        offset: b.offset,
        capacity: b.capacity,
        size: b.size,
        generation: b.generation,
    }
}

impl Transaction {
    /// The catalog records of the blocks of the series with id `series_id`,
    /// in timestamp order; none when there is no such series.
    pub fn block_places(&self, series_id: u64) -> (r: Vec<BlockPlace>)
        requires
            self.wf(),
        ensures
            has_series(self@.metadata.series, series_id) ==> r@ == self@.metadata.series[index_of(
                self@.metadata.series,
                series_id,
            )].blocks.map_values(|b: BlockModel| place_of(b)),
            !has_series(self@.metadata.series, series_id) ==> r@.len() == 0,
    {
        let mut out: Vec<BlockPlace> = Vec::new();
        let k = match self.position_of_id(series_id) {
            None => return out,
            Some(k) => k,
        };
        let ghost m = self@.metadata;
        proof {
            let c = index_of(m.series, series_id);
            assert(has_series(m.series, series_id));
            if c != k {
                assert(m.series[c].series_id != m.series[k as int].series_id);
            }
        }
        let s = &self.metadata.series[k];
        assert(s@ == m.series[k as int]);
        let mut i: usize = 0;
        while i < s.blocks.len()
            invariant
                s@ == m.series[k as int],
                i <= s.blocks@.len(),
                out@.len() == i,
                forall|j: int| 0 <= j < i ==> out@[j] == place_of(s@.blocks[j]),
            decreases s.blocks.len() - i,
        {
            let b = &s.blocks[i];
            assert(b@ == s@.blocks[i as int]);
            out.push(
                BlockPlace {
                    first_timestamp: b.first_timestamp.0,
                    last_timestamp: b.last_timestamp.0,
                    offset: b.offset,
                    capacity: b.capacity,
                    size: b.size,
                    generation: b.generation,
                },
            );
            i = i + 1;
        }
        assert(out@ =~= s@.blocks.map_values(|b: BlockModel| place_of(b)));
        out
    }
}

impl Transaction {
    /// The row layout of the series with id `series_id`, if there is one.
    pub fn row_format(&self, series_id: u64) -> (r: Option<RowFormat>)
        requires
            self.wf(),
        ensures
            has_series(self@.metadata.series, series_id) ==> r == Some(
                RowFormat {
                    row_size: self@.metadata.series[index_of(self@.metadata.series, series_id)].row_size,
                    preferred_block_size: self@.metadata.series[index_of(
                        self@.metadata.series,
                        series_id,
                    )].block_size,
                },
            ),
            !has_series(self@.metadata.series, series_id) ==> r is None,
    {
        match self.position_of_id(series_id) {
            None => None,
            Some(k) => {
                proof {
                    let m = self@.metadata;
                    let c = index_of(m.series, series_id);
                    assert(has_series(m.series, series_id));
                    if c != k {
                        assert(m.series[c].series_id != m.series[k as int].series_id);
                    }
                }
                Some(
                    RowFormat {
                        row_size: self.metadata.series[k].row_size,
                        preferred_block_size: self.metadata.series[k].block_size,
                    },
                )
            },
        }
    }
}

/// The block that a catalog record and its rows describe.
pub open spec fn block_of(p: BlockPlace, rows: Seq<Seq<u8>>) -> BlockModel {
    BlockModel {
        first_timestamp: p.first_timestamp,
        last_timestamp: p.last_timestamp,
        offset: p.offset,
        capacity: p.capacity,
        size: p.size,
        generation: p.generation,
        rows,
    }
}

/// A stored block may join series `k`: it is well formed, lies after the
/// series' last block in time, fits below the largest offset, and shares no
/// byte of the data file with any block of the catalog.
pub open spec fn block_installable(m: MetadataModel, k: int, b: BlockModel) -> bool {
    let s = m.series[k];
    &&& block_wf(b, s.row_size as nat)
    &&& (s.blocks.len() > 0 ==> s.blocks.last().last_timestamp < b.first_timestamp)
    &&& b.offset + b.capacity <= u64::MAX
    &&& forall|i: int, x: int|
        0 <= i < m.series.len() && 0 <= x < m.series[i].blocks.len() ==> ranges_disjoint(
            #[trigger] m.series[i].blocks[x],
            b,
        )
}

/// The catalog once block `b` joins series `k`.
pub open spec fn metadata_with_block(m: MetadataModel, k: int, b: BlockModel) -> MetadataModel {
    MetadataModel {
        series: m.series.update(k, SeriesModel { blocks: m.series[k].blocks.push(b), ..m.series[k] }),
        next_offset: if block_end(b) > m.next_offset {
            block_end(b) as u64
        } else {
            m.next_offset
        },
        generation: if b.generation > m.generation {
            b.generation
        } else {
            m.generation
        },
        ..m
    }
}

proof fn lemma_install_block(m: MetadataModel, k: int, b: BlockModel)
    requires
        metadata_wf(m),
        0 <= k < m.series.len(),
        block_installable(m, k, b),
    ensures
        metadata_wf(metadata_with_block(m, k, b)),
{
    let m2 = metadata_with_block(m, k, b);
    let ss = m.series;
    let ss2 = m2.series;
    let s = ss[k];
    let n = s.blocks.len() as int;
    let r = s.row_size as nat;
    assert(series_wf(ss2[k])) by {
        let nb = ss2[k].blocks;
        assert forall|x: int| 0 <= x < nb.len() implies block_wf(#[trigger] nb[x], r) by {
            if x < n {
                assert(nb[x] == s.blocks[x]);
            }
        }
        assert forall|i: int, j: int| 0 <= i < j < nb.len() implies nb[i].last_timestamp
            < nb[j].first_timestamp by {
            if j == n {
                let t = n - 1;
                assert(block_wf(s.blocks[t], r));
                lemma_block_bounds(s.blocks[t], r, 0);
                if i < t {
                    assert(s.blocks[i].last_timestamp < s.blocks[t].first_timestamp);
                }
            } else {
                assert(nb[i] == s.blocks[i] && nb[j] == s.blocks[j]);
            }
        }
    }
    assert forall|i: int| 0 <= i < ss2.len() implies series_wf(#[trigger] ss2[i]) by {
        if i != k {
            assert(ss2[i] == ss[i]);
        }
    }
    assert(series_unique(ss2)) by {
        assert forall|i: int, j: int|
            0 <= i < ss2.len() && 0 <= j < ss2.len() && i != j implies ss2[i].series_id
            != ss2[j].series_id && ss2[i].name != ss2[j].name by {
            assert(ss[i].series_id != ss[j].series_id && ss[i].name != ss[j].name);
        }
    }
    assert forall|i: int| 0 <= i < ss2.len() implies (#[trigger] ss2[i]).series_id < m2.next_series_id by {
        assert(ss[i].series_id < m.next_series_id);
    }
    assert(file_ranges_disjoint(ss2)) by {
        assert forall|i: int, x: int, j: int, y: int|
            0 <= i < ss2.len() && 0 <= j < ss2.len() && 0 <= x < ss2[i].blocks.len() && 0 <= y
                < ss2[j].blocks.len() && (i != j || x != y) implies ranges_disjoint(
            #[trigger] ss2[i].blocks[x],
            #[trigger] ss2[j].blocks[y],
        ) by {
            let new_x = i == k && x == n;
            let new_y = j == k && y == n;
            if new_x {
                assert(ss2[j].blocks[y] == ss[j].blocks[y]);
                assert(ranges_disjoint(ss[j].blocks[y], b));
            } else if new_y {
                assert(ss2[i].blocks[x] == ss[i].blocks[x]);
                assert(ranges_disjoint(ss[i].blocks[x], b));
            } else {
                assert(ss2[i].blocks[x] == ss[i].blocks[x]);
                assert(ss2[j].blocks[y] == ss[j].blocks[y]);
                assert(ranges_disjoint(ss[i].blocks[x], ss[j].blocks[y]));
            }
        }
    }
    assert(is_max_end(ss2, m2.next_offset as int)) by {
        assert forall|i: int, x: int|
            0 <= i < ss2.len() && 0 <= x < ss2[i].blocks.len() implies block_end(
            #[trigger] ss2[i].blocks[x],
        ) <= m2.next_offset by {
            if !(i == k && x == n) {
                assert(ss2[i].blocks[x] == ss[i].blocks[x]);
                assert(block_end(ss[i].blocks[x]) <= m.next_offset);
            }
        }
        if block_end(b) > m.next_offset {
            assert(block_end(ss2[k].blocks[n]) == m2.next_offset);
        } else if m.next_offset != 0 {
            let (i, x) = choose|i: int, x: int|
                0 <= i < ss.len() && 0 <= x < ss[i].blocks.len() && block_end(
                    #[trigger] ss[i].blocks[x],
                ) == m.next_offset;
            assert(ss2[i].blocks[x] == ss[i].blocks[x]);
            assert(block_end(ss2[i].blocks[x]) == m2.next_offset);
        }
    }
    assert(generations_upto(ss2, m2.generation)) by {
        assert forall|i: int| 0 <= i < ss2.len() implies (#[trigger] ss2[i]).generation
            <= m2.generation && forall|x: int|
            0 <= x < ss2[i].blocks.len() ==> (#[trigger] ss2[i].blocks[x]).generation
                <= m2.generation by {
            assert(ss[i].generation <= m.generation);
            assert forall|x: int| 0 <= x < ss2[i].blocks.len() implies (
            #[trigger] ss2[i].blocks[x]).generation <= m2.generation by {
                if !(i == k && x == n) {
                    assert(ss2[i].blocks[x] == ss[i].blocks[x]);
                    assert(ss[i].blocks[x].generation <= m.generation);
                }
            }
        }
    }
}

/// The catalog once the stored series `s` joins it.
pub open spec fn metadata_with_series(m: MetadataModel, s: SeriesModel) -> MetadataModel {
    MetadataModel {
        series: m.series.push(s),
        next_series_id: if s.series_id >= m.next_series_id {
            (s.series_id + 1) as u64
        } else {
            m.next_series_id
        },
        generation: if s.generation > m.generation {
            s.generation
        } else {
            m.generation
        },
        ..m
    }
}

impl Metadata {
    /// The position of the series with id `series_id`.
    fn position_of(&self, series_id: u64) -> (r: Option<usize>)
        ensures
            match r {
                Some(k) => k < self@.series.len() && self@.series[k as int].series_id == series_id,
                None => !has_series(self@.series, series_id),
            },
    {
        let mut i: usize = 0;
        while i < self.series.len()
            invariant
                i <= self.series@.len(),
                forall|j: int| 0 <= j < i ==> self.series@[j].series_id != series_id,
            decreases self.series.len() - i,
        {
            if self.series[i].series_id == series_id {
                return Some(i);
            }
            i = i + 1;
        }
        None
    }

    /// Adds a stored series, with no blocks yet, as it was recorded.
    ///
    /// Refused, changing nothing, when its id or name is taken, its format
    /// does not parse, or its id is the largest `u64`.
    pub fn install_series(&mut self, series_id: u64, name: &str, generation: u64, format: &str) -> (r: bool)
        requires
            old(self).wf(),
        ensures
            final(self).wf(),
            r == (!has_series(old(self)@.series, series_id) && (forall|i: int|
                0 <= i < old(self)@.series.len() ==> old(self)@.series[i].name != name@)
                && fields_width(format@) is Some && width_fits(fields_width(format@)->0)
                && series_id < u64::MAX),
            r ==> final(self)@ == metadata_with_series(
                old(self)@,
                new_series(
                    series_id,
                    name@,
                    generation,
                    format@,
                    (TIMESTAMP_BYTES + fields_width(format@)->0) as u64,
                    block_unit((TIMESTAMP_BYTES + fields_width(format@)->0) as nat) as u64,
                ),
            ),
            !r ==> final(self)@ == old(self)@,
    {
        let ghost m = self@;
        if series_id == u64::MAX || self.position_of(series_id).is_some() {
            return false;
        }
        let wanted = name.to_owned();
        let mut i: usize = 0;
        while i < self.series.len()
            invariant
                m == self@,
                metadata_wf(m),
                i <= self.series@.len(),
                wanted@ == name@,
                forall|j: int| 0 <= j < i ==> self.series@[j].name@ != name@,
            decreases self.series.len() - i,
        {
            if self.series[i].name == wanted {
                assert(self.series@[i as int]@ == m.series[i as int]);
                assert(m.series[i as int].name == name@);
                return false;
            }
            i = i + 1;
        }
        let f = match RowFormat::parse(format) {
            None => return false,
            Some(f) => f,
        };
        let s = Series {
            series_id,
            name: wanted,
            generation,
            format: format.to_owned(),
            row_size: f.row_size,
            block_size: f.preferred_block_size,
            blocks: Vec::new(),
        };
        proof {
            let r = f.row_size as int;
            let u = (4096 + r - 1) / r;
            assert(u >= 1 && (u * r) % r == 0 && u * r >= r) by (nonlinear_arith)
                requires
                    u == (4096 + r - 1) / r,
                    r >= 8,
            ;
            assert(s@.blocks =~= Seq::<BlockModel>::empty());
        }
        let ghost sm = s@;
        self.series.push(s);
        if series_id >= self.next_series_id {
            self.next_series_id = series_id + 1;
        }
        if generation > self.generation {
            self.generation = generation;
        }
        proof {
            let m2 = self@;
            assert(m2.series =~= m.series.push(sm));
            assert(series_unique(m2.series)) by {
                assert forall|i: int, j: int|
                    0 <= i < m2.series.len() && 0 <= j < m2.series.len() && i != j implies m2.series[i].series_id
                    != m2.series[j].series_id && m2.series[i].name != m2.series[j].name by {
                    if i < m.series.len() && j < m.series.len() {
                        assert(m.series[i].series_id != m.series[j].series_id);
                    } else if i < m.series.len() {
                        assert(m.series[i].series_id != series_id);
                    } else {
                        assert(m.series[j].series_id != series_id);
                    }
                }
            }
            assert forall|i: int| 0 <= i < m2.series.len() implies (#[trigger] m2.series[i]).series_id < m2.next_series_id by {
                if i < m.series.len() {
                    assert(m.series[i].series_id < m.next_series_id);
                }
            }
            assert(file_ranges_disjoint(m2.series)) by {
                assert forall|i: int, x: int, j: int, y: int|
                    0 <= i < m2.series.len() && 0 <= j < m2.series.len() && 0 <= x
                        < m2.series[i].blocks.len() && 0 <= y < m2.series[j].blocks.len()
                        && (i != j || x != y) implies ranges_disjoint(
                    #[trigger] m2.series[i].blocks[x],
                    #[trigger] m2.series[j].blocks[y],
                ) by {
                    assert(ranges_disjoint(m.series[i].blocks[x], m.series[j].blocks[y]));
                }
            }
            assert(is_max_end(m2.series, m2.next_offset as int)) by {
                if m.next_offset != 0 {
                    let (i, x) = choose|i: int, x: int|
                        0 <= i < m.series.len() && 0 <= x < m.series[i].blocks.len() && block_end(
                            #[trigger] m.series[i].blocks[x],
                        ) == m.next_offset;
                    assert(m2.series[i].blocks[x] == m.series[i].blocks[x]);
                }
            }
            assert(generations_upto(m2.series, m2.generation)) by {
                assert forall|i: int| 0 <= i < m2.series.len() implies (#[trigger] m2.series[i]).generation
                    <= m2.generation && forall|x: int|
                    0 <= x < m2.series[i].blocks.len() ==> (#[trigger] m2.series[i].blocks[x]).generation
                        <= m2.generation by {
                    if i < m.series.len() {
                        assert(m2.series[i] == m.series[i]);
                        assert(m.series[i].generation <= m.generation);
                        assert forall|x: int| 0 <= x < m2.series[i].blocks.len() implies (
                        #[trigger] m2.series[i].blocks[x]).generation <= m2.generation by {
                            assert(m.series[i].blocks[x].generation <= m.generation);
                        }
                    }
                }
            }
        }
        true
    }

    /// Adds a stored block to the series with id `series_id`, at the place the
    /// catalog recorded and with the rows read from there.
    ///
    /// Refused, changing nothing, unless the series exists and the block is
    /// installable: well formed for the series' rows, after its last block in
    /// time, below the largest offset, and apart from every other block.
    pub fn install_block(&mut self, series_id: u64, place: BlockPlace, rows: &Vec<Vec<u8>>) -> (r: bool)
        requires
            old(self).wf(),
        ensures
            final(self).wf(),
            r == (has_series(old(self)@.series, series_id) && block_installable(
                old(self)@,
                index_of(old(self)@.series, series_id),
                block_of(place, rows.deep_view()),
            )),
            r ==> final(self)@ == metadata_with_block(
                old(self)@,
                index_of(old(self)@.series, series_id),
                block_of(place, rows.deep_view()),
            ),
            !r ==> final(self)@ == old(self)@,
    {
        let ghost m = self@;
        let ghost dv = rows.deep_view();
        let ghost b = block_of(place, dv);
        proof {
            lemma_rows_view(rows);
        }
        let k = match self.position_of(series_id) {
            None => return false,
            Some(k) => k,
        };
        proof {
            let c = index_of(m.series, series_id);
            assert(has_series(m.series, series_id));
            if c != k {
                assert(m.series[c].series_id != m.series[k as int].series_id);
            }
            assert(series_wf(m.series[k as int]));
        }
        assert(self.series@[k as int]@ == m.series[k as int]);
        let row_size = self.series[k].row_size;
        let n = rows.len();
        if n == 0 {
            return false;
        }
        if !rows_have_size(rows, row_size) {
            return false;
        }
        proof {
            assert forall|j: int| 0 <= j < rows@.len() implies rows@[j]@.len() >= 8 by {
                assert(dv[j].len() == row_size);
            }
        }
        if !rows_ascend(rows, None) {
            return false;
        }
        let first = read_be_u64(rows[0].as_slice());
        let last = read_be_u64(rows[n - 1].as_slice());
        if first != place.first_timestamp || last != place.last_timestamp {
            return false;
        }
        match (n as u64).checked_mul(row_size) {
            None => return false,
            Some(size) => {
                if size != place.size {
                    return false;
                }
            },
        }
        if place.size > place.capacity || place.capacity > u64::MAX - place.offset {
            return false;
        }
        assert(block_wf(b, row_size as nat));
        let nb = self.series[k].blocks.len();
        if nb > 0 {
            assert(self.series[k as int].blocks@[nb - 1]@ == m.series[k as int].blocks.last());
            if self.series[k].blocks[nb - 1].last_timestamp.0 >= place.first_timestamp {
                return false;
            }
        }
        let end = place.offset + place.capacity;
        let mut i: usize = 0;
        while i < self.series.len()
            invariant
                m == self@,
                metadata_wf(m),
                k < m.series.len(),
                i <= m.series.len(),
                end == block_end(b),
                b == block_of(place, dv),
                forall|a: int, x: int|
                    0 <= a < i && 0 <= x < m.series[a].blocks.len() ==> ranges_disjoint(
                        #[trigger] m.series[a].blocks[x],
                        b,
                    ),
            decreases m.series.len() - i,
        {
            let s = &self.series[i];
            assert(s@ == m.series[i as int]);
            let mut x: usize = 0;
            while x < s.blocks.len()
                invariant
                    m == self@,
                    metadata_wf(m),
                    s@ == m.series[i as int],
                    i < m.series.len(),
                    x <= s.blocks@.len(),
                    end == block_end(b),
                    b == block_of(place, dv),
                    forall|a: int, y: int|
                        0 <= a < i && 0 <= y < m.series[a].blocks.len() ==> ranges_disjoint(
                            #[trigger] m.series[a].blocks[y],
                            b,
                        ),
                    forall|y: int| 0 <= y < x ==> ranges_disjoint(#[trigger] m.series[i as int].blocks[y], b),
                decreases s.blocks.len() - x,
            {
                let o = &s.blocks[x];
                assert(o@ == m.series[i as int].blocks[x as int]);
                assert(block_end(o@) <= m.next_offset);
                if !(o.offset + o.capacity <= place.offset || end <= o.offset) {
                    assert(!ranges_disjoint(m.series[i as int].blocks[x as int], b));
                    return false;
                }
                x = x + 1;
            }
            i = i + 1;
        }
        assert(block_installable(m, k as int, b));
        proof {
            lemma_install_block(m, k as int, b);
        }
        let copied = rows.clone();
        proof {
            assert(copied.deep_view() == rows.deep_view());
        }
        let block = Block {
            first_timestamp: Timestamp(place.first_timestamp),
            last_timestamp: Timestamp(place.last_timestamp),
            offset: place.offset,
            capacity: place.capacity,
            size: place.size,
            generation: place.generation,
            rows: copied,
        };
        assert(block@ == b);
        let ghost old_series = self.series@;
        let mut s = self.series.remove(k);
        let ghost s0 = s@;
        assert(s0 == m.series[k as int]);
        s.blocks.push(block);
        assert(s@.blocks =~= s0.blocks.push(b));
        self.series.insert(k, s);
        if end > self.next_offset {
            self.next_offset = end;
        }
        if place.generation > self.generation {
            self.generation = place.generation;
        }
        proof {
            assert(self.series@.map_values(|x: Series| x@) =~= metadata_with_block(m, k as int, b).series);
        }
        true
    }
}

impl Transaction {
    /// The generation that created the series with id `series_id`, if there is one.
    pub fn series_generation(&self, series_id: u64) -> (r: Option<u64>)
        requires
            self.wf(),
        ensures
            has_series(self@.metadata.series, series_id) ==> r == Some(
                self@.metadata.series[index_of(self@.metadata.series, series_id)].generation,
            ),
            !has_series(self@.metadata.series, series_id) ==> r is None,
    {
        match self.position_of_id(series_id) {
            None => None,
            Some(k) => {
                proof {
                    let m = self@.metadata;
                    let c = index_of(m.series, series_id);
                    assert(has_series(m.series, series_id));
                    if c != k {
                        assert(m.series[c].series_id != m.series[k as int].series_id);
                    }
                }
                Some(self.metadata.series[k].generation)
            },
        }
    }
}

} // verus!
