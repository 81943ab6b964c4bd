//! An in-process data source that invents a profile: a tree of nodes,
//! kinds and processors, evenly spaced items in every slot, and a
//! random utilization curve per summary.  Tiles are sliced from the
//! cached full rows, so repeated fetches agree with each other.

use crate::data::{
    Color, DataSourceDescription, DataSourceInfo, DataSourceMut, EntryID,
    EntryInfo, Field, FieldID, FieldSchema, Item, ItemMeta, ItemUID, SlotMetaTile,
    SlotMetaTileData, SlotTile, SlotTileData, SummaryTile, SummaryTileData, TileFetchError,
    TileID, TileSet, UtilPoint,
};
use crate::decimal::u64_dec_string;
use crate::timestamp::{Interval, Timestamp};
use vstd::prelude::*;

verus! {

/// Hands out consecutive item identifiers.
pub struct ItemUIDGenerator {
    next: ItemUID,
}

impl ItemUIDGenerator {
    pub closed spec fn spec_next(&self) -> u64 {
        self.next.0
    }

    pub fn new() -> (r: Self)
        ensures
            r.spec_next() == 0,
    {
        Self { next: ItemUID(0) }
    }

    /// The next unused identifier.
    pub fn next(&mut self) -> (r: ItemUID)
        requires
            old(self).spec_next() < u64::MAX,
        ensures
            r.0 == old(self).spec_next(),
            final(self).spec_next() == old(self).spec_next() + 1,
    {
        let result = self.next;
        self.next = ItemUID(self.next.0 + 1);
        result
    }
}

impl Default for ItemUIDGenerator {
    fn default() -> (r: Self)
        ensures
            r.spec_next() == 0,
    {
        Self::new()
    }
}

/// Relies on rand::random_range over `lo..hi`: a draw that lies
/// within the half-open range; the range must be non-empty.
#[verifier::external_body]
fn random_u64_in(lo: u64, hi: u64) -> (r: u64)
    requires
        lo < hi,
    ensures
        lo <= r < hi,
{
    rand::random_range(lo..hi)
}

// ---------------------------------------------------------------------
// Slicing cached rows to a tile.
// ---------------------------------------------------------------------

/// The items of a full row that overlap the tile, clipped to it.
pub open spec fn spec_slice_row(row: Seq<Item>, tile: Interval) -> Seq<Item>
    decreases row.len(),
{
    if row.len() == 0 {
        Seq::empty()
    } else {
        spec_slice_row(row.drop_last(), tile) + if tile.spec_overlaps(row.last().interval) {
            seq![
                Item {
                    item_uid: row.last().item_uid,
                    interval: row.last().interval.spec_intersection(tile),
                    color: row.last().color,
                },
            ]
        } else {
            Seq::empty()
        }
    }
}

/// The identifiers of a full row's overlapping items, unclipped: the
/// meta side of the same slice.
pub open spec fn spec_slice_keep(row: Seq<Item>, tile: Interval) -> Seq<Item>
    decreases row.len(),
{
    if row.len() == 0 {
        Seq::empty()
    } else {
        spec_slice_keep(row.drop_last(), tile) + if tile.spec_overlaps(row.last().interval) {
            seq![row.last()]
        } else {
            Seq::empty()
        }
    }
}

/// The slot tile and the meta tile sliced from one row stay aligned:
/// same length, and the same item at every position, the first side
/// clipped and the second carrying the item's full extent.
pub proof fn lemma_slice_alignment(row: Seq<Item>, tile: Interval)
    ensures
        spec_slice_row(row, tile).len() == spec_slice_keep(row, tile).len(),
        forall|i: int|
            0 <= i < spec_slice_row(row, tile).len() ==> (#[trigger] spec_slice_row(
                row,
                tile,
            )[i]).item_uid == spec_slice_keep(row, tile)[i].item_uid && spec_slice_row(
                row,
                tile,
            )[i].interval == spec_slice_keep(row, tile)[i].interval.spec_intersection(tile),
    decreases row.len(),
{
    if row.len() > 0 {
        lemma_slice_alignment(row.drop_last(), tile);
    }
}

/// Every sliced item lies within the tile.
pub proof fn lemma_slice_clipped(row: Seq<Item>, tile: Interval)
    ensures
        forall|i: int|
            0 <= i < spec_slice_row(row, tile).len() ==> tile.start.0 <= (#[trigger] spec_slice_row(
                row,
                tile,
            )[i]).interval.start.0 && spec_slice_row(row, tile)[i].interval.stop.0 <= tile.stop.0,
    decreases row.len(),
{
    if row.len() > 0 {
        lemma_slice_clipped(row.drop_last(), tile);
        let f = spec_slice_row(row, tile);
        let fd = spec_slice_row(row.drop_last(), tile);
        assert forall|i: int|
            0 <= i < f.len() implies tile.start.0 <= (#[trigger] f[i]).interval.start.0
            && f[i].interval.stop.0 <= tile.stop.0 by {
            if i < fd.len() {
                assert(f[i] == fd[i]);
            } else {
                assert(tile.spec_overlaps(row.last().interval));
                assert(f[i].interval == row.last().interval.spec_intersection(tile));
            }
        }
    }
}

/// Clip one row of items to a tile.
fn slice_row(row: &Vec<Item>, tile: Interval) -> (r: Vec<Item>)
    ensures
        r@ == spec_slice_row(row@, tile),
{
    let n: usize = row.len();
    let mut out: Vec<Item> = Vec::new();
    let mut i: usize = 0;
    proof {
        assert(row@.take(0) =~= Seq::<Item>::empty());
        assert(out@ =~= spec_slice_row(row@.take(0), tile));
    }
    while i < n
        invariant
            0 <= i <= n == row@.len(),
            out@ == spec_slice_row(row@.take(i as int), tile),
        decreases n - i,
    {
        let item: Item = row[i];
        proof {
            assert(row@.take(i + 1).drop_last() =~= row@.take(i as int));
            assert(row@.take(i + 1).last() == item);
        }
        if tile.overlaps(item.interval) {
            let clipped = Item {
                item_uid: item.item_uid,
                interval: item.interval.intersection(tile),
                color: item.color,
            };
            out.push(clipped);
        }
        proof {
            assert(out@ =~= spec_slice_row(row@.take(i + 1), tile));
        }
        i = i + 1;
    }
    proof {
        assert(row@.take(n as int) =~= row@);
    }
    out
}

/// The overlapping items of one row, unclipped.
fn slice_keep(row: &Vec<Item>, tile: Interval) -> (r: Vec<Item>)
    ensures
        r@ == spec_slice_keep(row@, tile),
{
    let n: usize = row.len();
    let mut out: Vec<Item> = Vec::new();
    let mut i: usize = 0;
    proof {
        assert(row@.take(0) =~= Seq::<Item>::empty());
        assert(out@ =~= spec_slice_keep(row@.take(0), tile));
    }
    while i < n
        invariant
            0 <= i <= n == row@.len(),
            out@ == spec_slice_keep(row@.take(i as int), tile),
        decreases n - i,
    {
        let item: Item = row[i];
        proof {
            assert(row@.take(i + 1).drop_last() =~= row@.take(i as int));
            assert(row@.take(i + 1).last() == item);
        }
        if tile.overlaps(item.interval) {
            out.push(item);
        }
        proof {
            assert(out@ =~= spec_slice_keep(row@.take(i + 1), tile));
        }
        i = i + 1;
    }
    proof {
        assert(row@.take(n as int) =~= row@);
    }
    out
}

// ---------------------------------------------------------------------
// Slicing a utilization curve to a tile.
// ---------------------------------------------------------------------

/// Linear interpolation between two samples at a time strictly inside
/// their span.
pub open spec fn spec_util_at(a: UtilPoint, b: UtilPoint, t: Timestamp) -> u32
    recommends
        a.time.0 <= t.0 < b.time.0,
{
    let dt = t.0 - a.time.0;
    let den = b.time.0 - a.time.0;
    if b.util >= a.util {
        (a.util + (b.util - a.util) * dt / den) as u32
    } else {
        (a.util - (a.util - b.util) * dt / den) as u32
    }
}

/// What one consecutive pair of samples contributes to a tile: an
/// interpolated sample where the tile's edges cross the span, and the
/// right sample when the tile holds it.
pub open spec fn spec_pair_contrib(a: UtilPoint, b: UtilPoint, tile: Interval) -> Seq<UtilPoint> {
    let span = Interval { start: a.time, stop: b.time };
    let at_start: Seq<UtilPoint> = if span.spec_contains(tile.start) {
        seq![UtilPoint { time: tile.start, util: spec_util_at(a, b, tile.start) }]
    } else {
        Seq::empty()
    };
    let inside: Seq<UtilPoint> = if tile.spec_contains(b.time) {
        seq![b]
    } else {
        Seq::empty()
    };
    let at_stop: Seq<UtilPoint> = if span.spec_contains(tile.stop) {
        seq![UtilPoint { time: tile.stop, util: spec_util_at(a, b, tile.stop) }]
    } else {
        Seq::empty()
    };
    at_start + inside + at_stop
}

/// The whole curve sliced to a tile, pair by pair.
pub open spec fn spec_sliced_util(points: Seq<UtilPoint>, tile: Interval) -> Seq<UtilPoint>
    decreases points.len(),
{
    if points.len() < 2 {
        Seq::empty()
    } else {
        spec_sliced_util(points.drop_last(), tile) + spec_pair_contrib(
            points[points.len() - 2],
            points.last(),
            tile,
        )
    }
}

/// Interpolate between two samples.
fn util_at(a: UtilPoint, b: UtilPoint, t: Timestamp) -> (r: u32)
    requires
        a.time.0 <= t.0 < b.time.0,
    ensures
        r == spec_util_at(a, b, t),
{
    let dt: u128 = ((t.0 as i128) - (a.time.0 as i128)) as u128;
    let den: u128 = ((b.time.0 as i128) - (a.time.0 as i128)) as u128;
    proof {
        assert(dt == t.0 - a.time.0);
        assert(den == b.time.0 - a.time.0);
    }
    if b.util >= a.util {
        let diff: u128 = (b.util - a.util) as u128;
        proof {
            assert(diff * dt <= 0x2_0000_0000_0000_0000_0000_0000u128) by (nonlinear_arith)
                requires
                    diff <= 0x1_0000_0000u128,
                    dt <= 0x2_0000_0000_0000_0000u128,
            ;
            lemma_interp_bound(diff as int, dt as int, den as int);
        }
        let q: u128 = diff * dt / den;
        a.util + (q as u32)
    } else {
        let diff: u128 = (a.util - b.util) as u128;
        proof {
            assert(diff * dt <= 0x2_0000_0000_0000_0000_0000_0000u128) by (nonlinear_arith)
                requires
                    diff <= 0x1_0000_0000u128,
                    dt <= 0x2_0000_0000_0000_0000u128,
            ;
            lemma_interp_bound(diff as int, dt as int, den as int);
        }
        let q: u128 = diff * dt / den;
        a.util - (q as u32)
    }
}

/// The interpolation step never overshoots the sample gap.
proof fn lemma_interp_bound(diff: int, dt: int, den: int)
    requires
        diff >= 0,
        0 <= dt < den,
    ensures
        diff * dt / den <= diff,
        diff * dt / den >= 0,
{
    assert(diff * dt <= diff * den) by (nonlinear_arith)
        requires
            diff >= 0,
            dt <= den,
    ;
    vstd::arithmetic::div_mod::lemma_div_is_ordered(diff * dt, diff * den, den);
    assert(diff * den / den == diff) by {
        vstd::arithmetic::div_mod::lemma_div_by_multiple(diff, den);
    }
    assert(0 <= diff * dt) by (nonlinear_arith)
        requires
            diff >= 0,
            dt >= 0,
    ;
    vstd::arithmetic::div_mod::lemma_div_is_ordered(0, diff * dt, den);
    assert(0int / den == 0) by {
        vstd::arithmetic::div_mod::lemma_div_of0(den);
    }
}

// ---------------------------------------------------------------------
// The source itself.
// ---------------------------------------------------------------------

/// The views of cached item rows.
pub open spec fn rows_view(v: Vec<Vec<Item>>) -> Seq<Seq<Item>> {
    Seq::new(v@.len(), |i: int| v@[i]@)
}

/// First cache entry for a path, scanning in insertion order.
pub open spec fn spec_cache_lookup(cache: Seq<(EntryID, Vec<Vec<Item>>)>, path: Seq<i64>) -> Option<
    Seq<Seq<Item>>,
>
    decreases cache.len(),
{
    if cache.len() == 0 {
        None
    } else if cache[0].0@ == path {
        Some(rows_view(cache[0].1))
    } else {
        spec_cache_lookup(cache.drop_first(), path)
    }
}

proof fn lemma_cache_lookup_push(
    cache: Seq<(EntryID, Vec<Vec<Item>>)>,
    path: Seq<i64>,
    e: (EntryID, Vec<Vec<Item>>),
)
    requires
        spec_cache_lookup(cache, path) is None,
        e.0@ == path,
    ensures
        spec_cache_lookup(cache.push(e), path) == Some(rows_view(e.1)),
    decreases cache.len(),
{
    if cache.len() == 0 {
        assert(cache.push(e)[0] == e);
    } else {
        assert(cache.push(e)[0] == cache[0]);
        assert(cache.push(e).drop_first() =~= cache.drop_first().push(e));
        lemma_cache_lookup_push(cache.drop_first(), path, e);
    }
}

/// A new entry at the end never changes a lookup that already
/// succeeds.
proof fn lemma_cache_lookup_stable(
    cache: Seq<(EntryID, Vec<Vec<Item>>)>,
    path: Seq<i64>,
    e: (EntryID, Vec<Vec<Item>>),
)
    requires
        spec_cache_lookup(cache, path) is Some,
    ensures
        spec_cache_lookup(cache.push(e), path) == spec_cache_lookup(cache, path),
    decreases cache.len(),
{
    if cache.len() == 0 {
    } else {
        assert(cache.push(e)[0] == cache[0]);
        if cache[0].0@ == path {
        } else {
            assert(cache.push(e).drop_first() =~= cache.drop_first().push(e));
            lemma_cache_lookup_stable(cache.drop_first(), path, e);
        }
    }
}

proof fn lemma_cache_lookup_skip(cache: Seq<(EntryID, Vec<Vec<Item>>)>, path: Seq<i64>, i: int)
    requires
        0 <= i <= cache.len(),
        forall|k: int| 0 <= k < i ==> (#[trigger] cache[k]).0@ != path,
    ensures
        spec_cache_lookup(cache, path) == spec_cache_lookup(cache.skip(i), path),
    decreases i,
{
    if i > 0 {
        assert(cache[0].0@ != path);
        assert(cache.drop_first() =~= cache.skip(1));
        assert(cache.skip(1).skip(i - 1) =~= cache.skip(i));
        assert(forall|k: int|
            0 <= k < i - 1 ==> (#[trigger] cache.skip(1)[k]) == cache[k + 1]);
        lemma_cache_lookup_skip(cache.skip(1), path, i - 1);
    } else {
        assert(cache.skip(0) =~= cache);
    }
}

/// First cached curve for a path, scanning in insertion order.
pub open spec fn spec_curve_lookup(
    cache: Seq<(EntryID, Vec<UtilPoint>)>,
    path: Seq<i64>,
) -> Option<Seq<UtilPoint>>
    decreases cache.len(),
{
    if cache.len() == 0 {
        None
    } else if cache[0].0@ == path {
        Some(cache[0].1@)
    } else {
        spec_curve_lookup(cache.drop_first(), path)
    }
}

proof fn lemma_curve_lookup_push(
    cache: Seq<(EntryID, Vec<UtilPoint>)>,
    path: Seq<i64>,
    e: (EntryID, Vec<UtilPoint>),
)
    requires
        spec_curve_lookup(cache, path) is None,
        e.0@ == path,
    ensures
        spec_curve_lookup(cache.push(e), path) == Some(e.1@),
    decreases cache.len(),
{
    if cache.len() == 0 {
        assert(cache.push(e)[0] == e);
    } else {
        assert(cache.push(e)[0] == cache[0]);
        assert(cache.push(e).drop_first() =~= cache.drop_first().push(e));
        lemma_curve_lookup_push(cache.drop_first(), path, e);
    }
}

proof fn lemma_curve_lookup_skip(cache: Seq<(EntryID, Vec<UtilPoint>)>, path: Seq<i64>, i: int)
    requires
        0 <= i <= cache.len(),
        forall|k: int| 0 <= k < i ==> (#[trigger] cache[k]).0@ != path,
    ensures
        spec_curve_lookup(cache, path) == spec_curve_lookup(cache.skip(i), path),
    decreases i,
{
    if i > 0 {
        assert(cache[0].0@ != path);
        assert(cache.drop_first() =~= cache.skip(1));
        assert(cache.skip(1).skip(i - 1) =~= cache.skip(i));
        assert(forall|k: int|
            0 <= k < i - 1 ==> (#[trigger] cache.skip(1)[k]) == cache[k + 1]);
        lemma_curve_lookup_skip(cache.skip(1), path, i - 1);
    } else {
        assert(cache.skip(0) =~= cache);
    }
}

/// A new entry at the end never changes a curve lookup that already
/// succeeds.
proof fn lemma_curve_lookup_stable(
    cache: Seq<(EntryID, Vec<UtilPoint>)>,
    path: Seq<i64>,
    e: (EntryID, Vec<UtilPoint>),
)
    requires
        spec_curve_lookup(cache, path) is Some,
    ensures
        spec_curve_lookup(cache.push(e), path) == spec_curve_lookup(cache, path),
    decreases cache.len(),
{
    if cache.len() == 0 {
    } else {
        assert(cache.push(e)[0] == cache[0]);
        if cache[0].0@ == path {
        } else {
            assert(cache.push(e).drop_first() =~= cache.drop_first().push(e));
            lemma_curve_lookup_stable(cache.drop_first(), path, e);
        }
    }
}

/// A freshly invented profile.  The shape is fixed at construction;
/// summary curves and item rows are invented on first fetch and
/// cached, so later fetches agree with earlier ones.
pub struct RandomDataSource {
    info: DataSourceInfo,
    item_uid_field: FieldID,
    interval_field: FieldID,
    summary_cache: Vec<(EntryID, Vec<UtilPoint>)>,
    slot_cache: Vec<(EntryID, Vec<Vec<Item>>)>,
    item_uid_generator: ItemUIDGenerator,
    items_per_row: u64,
}

impl RandomDataSource {
    /// The cached full rows for a slot entry, once invented.
    pub closed spec fn spec_slot_rows(&self, path: Seq<i64>) -> Option<Seq<Seq<Item>>> {
        spec_cache_lookup(self.slot_cache@, path)
    }

    /// The cached utilization curve for a summary entry, once
    /// invented.
    pub closed spec fn spec_summary_curve(&self, path: Seq<i64>) -> Option<Seq<UtilPoint>> {
        spec_curve_lookup(self.summary_cache@, path)
    }

    /// Build the fixed tree: `num_nodes` node panels, each holding
    /// one panel per kind with a summary child, each holding
    /// `num_procs` slots of `max_rows` rows.
    pub fn new(
        num_nodes: u64,
        kinds: Vec<String>,
        num_procs: u64,
        max_rows: u64,
        items_per_row: u64,
        interval: Interval,
    ) -> (r: Self)
        requires
            interval.spec_wf(),
            interval.spec_duration() <= i64::MAX,
        ensures
            r.spec_info_interval() == interval,
    {
        let palette: [Color; 4] = [
            Color { r: 0, g: 0, b: 255, a: 255 },
            Color { r: 0, g: 255, b: 0, a: 255 },
            Color { r: 255, g: 0, b: 0, a: 255 },
            Color { r: 255, g: 255, b: 0, a: 255 },
        ];
        let nodes_cap: u64 = if num_nodes > 10_000 {
            10_000
        } else {
            num_nodes
        };
        let procs_cap: u64 = if num_procs > 10_000 {
            10_000
        } else {
            num_procs
        };
        let mut node_slots: Vec<EntryInfo> = Vec::new();
        let mut node: u64 = 0;
        while node < nodes_cap
            invariant
                nodes_cap <= 10_000,
                procs_cap <= 10_000,
            decreases nodes_cap - node,
        {
            let mut kind_slots: Vec<EntryInfo> = Vec::new();
            let kn: usize = kinds.len();
            let mut ki: usize = 0;
            while ki < kn
                invariant
                    kn == kinds@.len(),
                    nodes_cap <= 10_000,
                    procs_cap <= 10_000,
                    node < nodes_cap,
                decreases kn - ki,
            {
                let color: Color = palette[ki % 4];
                let mut proc_slots: Vec<EntryInfo> = Vec::new();
                let mut proc: u64 = 0;
                while proc < procs_cap
                    invariant
                        procs_cap <= 10_000,
                        nodes_cap <= 10_000,
                        node < nodes_cap,
                        0 <= ki < kn == kinds@.len(),
                    decreases procs_cap - proc,
                {
                    let mut short_name = kinds[ki].clone();
                    short_name.append(u64_dec_string(proc).as_str());
                    let mut long_name = "Node ".to_owned();
                    long_name.append(u64_dec_string(node).as_str());
                    long_name.append(" ");
                    long_name.append(kinds[ki].as_str());
                    long_name.append(" ");
                    long_name.append(u64_dec_string(proc).as_str());
                    proc_slots.push(
                        EntryInfo::Slot { short_name, long_name, max_rows },
                    );
                    proc = proc + 1;
                }
                let mut node_kind_name = "Node ".to_owned();
                node_kind_name.append(u64_dec_string(node).as_str());
                node_kind_name.append(" ");
                node_kind_name.append(kinds[ki].as_str());
                kind_slots.push(
                    EntryInfo::Panel {
                        short_name: kinds[ki].clone(),
                        long_name: node_kind_name,
                        summary: Some(Box::new(EntryInfo::Summary { color })),
                        slots: proc_slots,
                    },
                );
                ki = ki + 1;
            }
            let mut short = "n".to_owned();
            short.append(u64_dec_string(node).as_str());
            let mut long = "Node ".to_owned();
            long.append(u64_dec_string(node).as_str());
            node_slots.push(
                EntryInfo::Panel {
                    short_name: short,
                    long_name: long,
                    summary: None,
                    slots: kind_slots,
                },
            );
            node = node + 1;
        }
        let entry_info = EntryInfo::Panel {
            short_name: "root".to_owned(),
            long_name: "root".to_owned(),
            summary: None,
            slots: node_slots,
        };
        let mut field_schema = FieldSchema::new();
        let item_uid_field = field_schema.insert("Item UID".to_owned(), false);
        let interval_field = field_schema.insert("Interval".to_owned(), false);
        let info = DataSourceInfo {
            entry_info,
            interval,
            tile_set: TileSet { tiles: Vec::new() },
            field_schema,
        };
        RandomDataSource {
            info,
            item_uid_field,
            interval_field,
            summary_cache: Vec::new(),
            slot_cache: Vec::new(),
            item_uid_generator: ItemUIDGenerator::new(),
            items_per_row,
        }
    }

    /// The same shape over an interval whose span is drawn between
    /// one and two milliseconds.
    pub fn new_random(
        num_nodes: u64,
        kinds: Vec<String>,
        num_procs: u64,
        max_rows: u64,
        items_per_row: u64,
    ) -> (r: Self)
        ensures
            r.spec_info_interval().start.0 == 0,
            1_000_000 <= r.spec_info_interval().stop.0 < 2_000_000,
    {
        let stop: u64 = random_u64_in(1_000_000, 2_000_000);
        let interval = Interval { start: Timestamp(0), stop: Timestamp(stop as i64) };
        Self::new(num_nodes, kinds, num_procs, max_rows, items_per_row, interval)
    }

    pub closed spec fn spec_info_interval(&self) -> Interval {
        self.info.interval
    }

    /// The cached utilization curve for an entry, invented on first
    /// use: seventeen evenly spaced samples with random levels.
    fn summary_points(&mut self, entry_id: &EntryID) -> (r: Vec<UtilPoint>)
        ensures
            final(self).spec_entry_info() == old(self).spec_entry_info(),
            forall|p: Seq<i64>|
                final(self).spec_slot_rows(p) == old(self).spec_slot_rows(p),
            final(self).spec_summary_curve(entry_id@) == Some(r@),
            forall|p: Seq<i64>|
                old(self).spec_summary_curve(p) is Some ==> final(self).spec_summary_curve(p)
                    == old(self).spec_summary_curve(p),
    {
        let n: usize = self.summary_cache.len();
        let mut i: usize = 0;
        proof {
            assert(self.summary_cache@.skip(0int) =~= self.summary_cache@);
        }
        while i < n
            invariant
                n == self.summary_cache@.len(),
                self == old(self),
                forall|k: int| 0 <= k < i ==> (#[trigger] self.summary_cache@[k]).0@ != entry_id@,
            decreases n - i,
        {
            if self.summary_cache[i].0.has_prefix(entry_id) && entry_id.has_prefix(
                &self.summary_cache[i].0,
            ) {
                proof {
                    assert(self.summary_cache@[i as int].0@ =~= entry_id@);
                    lemma_curve_lookup_skip(self.summary_cache@, entry_id@, i as int);
                    assert(self.summary_cache@.skip(i as int)[0] == self.summary_cache@[i as int]);
                }
                return clone_points(&self.summary_cache[i].1);
            }
            proof {
                if self.summary_cache@[i as int].0@ == entry_id@ {
                    assert(crate::data::spec_has_prefix(
                        self.summary_cache@[i as int].0@,
                        entry_id@,
                    ));
                    assert(crate::data::spec_has_prefix(
                        entry_id@,
                        self.summary_cache@[i as int].0@,
                    ));
                    assert(false);
                }
            }
            i = i + 1;
        }
        proof {
            lemma_curve_lookup_skip(self.summary_cache@, entry_id@, n as int);
            assert(self.summary_cache@.skip(n as int) =~= Seq::<(EntryID, Vec<UtilPoint>)>::empty());
        }
        // Invent the curve.
        let start: i64 = self.info.interval.start.0;
        let stop: i64 = self.info.interval.stop.0;
        let mut points: Vec<UtilPoint> = Vec::new();
        if let Option::Some(d) = stop.checked_sub(start) {
        if d >= 0 {
            let dur: u64 = d as u64;
            let step: u64 = dur / 16;
            let mut t: u64 = 0;
            let mut k: u64 = 0;
            while k < 16
                invariant
                    start <= stop,
                    dur == stop - start,
                    start + dur == stop,
                    dur <= i64::MAX,
                    step == dur / 16,
                    t == k * step,
                    k <= 16,
                    t <= dur,
                decreases 16 - k,
            {
                proof {
                    assert((k + 1) * step == k * step + step) by (nonlinear_arith);
                    assert(16 * step <= dur) by {
                        vstd::arithmetic::div_mod::lemma_fundamental_div_mod(dur as int, 16);
                        vstd::arithmetic::div_mod::lemma_mod_bound(dur as int, 16);
                    }
                    assert((k + 1) * step <= 16 * step) by (nonlinear_arith)
                        requires
                            k + 1 <= 16,
                            step >= 0,
                    ;
                }
                let util: u32 = random_u64_in(0, 1_000_000_001) as u32;
                points.push(UtilPoint { time: Timestamp(start + t as i64), util });
                t = t + step;
                k = k + 1;
            }
            let last_util: u32 = random_u64_in(0, 1_000_000_001) as u32;
            points.push(UtilPoint { time: Timestamp(stop), util: last_util });
        }
        }
        let stored = clone_points(&points);
        let ghost before = self.summary_cache@;
        self.summary_cache.push((entry_id.clone(), stored));
        proof {
            let e = self.summary_cache@.last();
            assert(e.0@ == entry_id@);
            lemma_curve_lookup_push(before, entry_id@, e);
            assert(self.summary_cache@ =~= before.push(e));
            assert(e.1@ =~= points@);
            assert forall|p: Seq<i64>| old(self).spec_summary_curve(p) is Some implies self
                .spec_summary_curve(p) == old(self).spec_summary_curve(p) by {
                lemma_curve_lookup_stable(before, p, e);
            }
        }
        points
    }

    /// The cached full rows for a slot, invented on first use:
    /// `max_rows` rows of evenly spaced items covering the interval.
    fn slot_rows(&mut self, entry_id: &EntryID, max_rows: u64) -> (r: Vec<Vec<Item>>)
        ensures
            final(self).spec_entry_info() == old(self).spec_entry_info(),
            final(self).spec_slot_rows(entry_id@) == Some(rows_view(r)),
            forall|p: Seq<i64>|
                old(self).spec_slot_rows(p) is Some ==> final(self).spec_slot_rows(p) == old(
                    self,
                ).spec_slot_rows(p),
            forall|p: Seq<i64>|
                final(self).spec_summary_curve(p) == old(self).spec_summary_curve(p),
    {
        let n: usize = self.slot_cache.len();
        let mut i: usize = 0;
        proof {
            assert(self.slot_cache@.skip(0int) =~= self.slot_cache@);
        }
        while i < n
            invariant
                n == self.slot_cache@.len(),
                self == old(self),
                forall|k: int| 0 <= k < i ==> (#[trigger] self.slot_cache@[k]).0@ != entry_id@,
            decreases n - i,
        {
            if self.slot_cache[i].0.has_prefix(entry_id) && entry_id.has_prefix(
                &self.slot_cache[i].0,
            ) {
                proof {
                    assert(self.slot_cache@[i as int].0@ =~= entry_id@);
                    lemma_cache_lookup_skip(self.slot_cache@, entry_id@, i as int);
                    assert(self.slot_cache@.skip(i as int)[0] == self.slot_cache@[i as int]);
                }
                let r = clone_rows(&self.slot_cache[i].1);
                proof {
                    assert(rows_view(r) =~= rows_view(self.slot_cache@[i as int].1));
                }
                return r;
            }
            proof {
                if self.slot_cache@[i as int].0@ == entry_id@ {
                    assert(crate::data::spec_has_prefix(
                        self.slot_cache@[i as int].0@,
                        entry_id@,
                    ));
                    assert(crate::data::spec_has_prefix(
                        entry_id@,
                        self.slot_cache@[i as int].0@,
                    ));
                    assert(false);
                }
            }
            i = i + 1;
        }
        proof {
            lemma_cache_lookup_skip(self.slot_cache@, entry_id@, n as int);
            assert(self.slot_cache@.skip(n as int) =~= Seq::<(EntryID, Vec<Vec<Item>>)>::empty());
        }
        // Invent the rows.
        let rows_cap: u64 = if max_rows > 1000 {
            1000
        } else {
            max_rows
        };
        let items_cap: u64 = if self.items_per_row > 100_000 {
            100_000
        } else {
            self.items_per_row
        };
        let start: i64 = self.info.interval.start.0;
        let stop: i64 = self.info.interval.stop.0;
        let mut rows: Vec<Vec<Item>> = Vec::new();
        let mut row: u64 = 0;
        while row < rows_cap
            invariant
                rows_cap <= 1000,
                items_cap <= 100_000,
                self.info.interval.start.0 == start,
                self.info.interval.stop.0 == stop,
                self.spec_entry_info() == old(self).spec_entry_info(),
                self.spec_slot_rows(entry_id@) is None,
                self.slot_cache@ == old(self).slot_cache@,
                self.summary_cache@ == old(self).summary_cache@,
            decreases rows_cap - row,
        {
            let mut items: Vec<Item> = Vec::new();
            let dur_opt: Option<i64> = stop.checked_sub(start);
            let dur_ok: bool = match dur_opt {
                Option::Some(d) => d >= 0,
                Option::None => false,
            };
            if dur_ok && items_cap >= 1 {
                let dur: u128 = match dur_opt {
                    Option::Some(d) => d as u128,
                    Option::None => 0,
                };
                let den: u128 = 20 * (items_cap as u128);
                let mut i: u64 = 0;
                while i < items_cap
                    invariant
                        1 <= items_cap <= 100_000,
                        den == 20 * (items_cap as u128),
                        start <= stop,
                        dur == stop - start,
                        start + dur == stop,
                        dur <= i64::MAX,
                        self.info.interval.start.0 == start,
                        self.info.interval.stop.0 == stop,
                        self.spec_entry_info() == old(self).spec_entry_info(),
                        self.spec_slot_rows(entry_id@) is None,
                        self.slot_cache@ == old(self).slot_cache@,
                        self.summary_cache@ == old(self).summary_cache@,
                    decreases items_cap - i,
                {
                    proof {
                        lemma_item_offsets(dur as int, items_cap as int, i as int);
                    }
                    let a: u128 = dur * ((20 * (i as u128)) + 1) / den;
                    let b: u128 = dur * ((20 * (i as u128)) + 19) / den;
                    let item_start: i64 = start + (a as i64);
                    let item_stop: i64 = start + (b as i64);
                    let uid: ItemUID = if self.item_uid_generator.peek() < u64::MAX {
                        self.item_uid_generator.next()
                    } else {
                        ItemUID(u64::MAX)
                    };
                    let color: Color = match uid.0 % 4 {
                        0 => Color { r: 0, g: 0, b: 255, a: 255 },
                        1 => Color { r: 0, g: 255, b: 0, a: 255 },
                        2 => Color { r: 255, g: 0, b: 0, a: 255 },
                        _ => Color { r: 255, g: 255, b: 0, a: 255 },
                    };
                    items.push(
                        Item {
                            item_uid: uid,
                            interval: Interval {
                                start: Timestamp(item_start),
                                stop: Timestamp(item_stop),
                            },
                            color,
                        },
                    );
                    i = i + 1;
                }
            }
            rows.push(items);
            row = row + 1;
        }
        let stored = clone_rows(&rows);
        let ghost before = self.slot_cache@;
        self.slot_cache.push((entry_id.clone(), stored));
        proof {
            let e = self.slot_cache@.last();
            assert(e.0@ == entry_id@);
            lemma_cache_lookup_push(before, entry_id@, e);
            assert(self.slot_cache@ =~= before.push(e));
            assert(rows_view(e.1) =~= rows_view(rows));
            assert forall|p: Seq<i64>| old(self).spec_slot_rows(p) is Some implies self
                .spec_slot_rows(p) == old(self).spec_slot_rows(p) by {
                lemma_cache_lookup_stable(before, p, e);
            }
        }
        rows
    }
}

/// Item offsets stay inside the interval's span.
proof fn lemma_item_offsets(dur: int, items: int, i: int)
    requires
        dur >= 0,
        1 <= items <= 100_000,
        0 <= i < items,
    ensures
        0 <= dur * (20 * i + 1) / (20 * items) <= dur,
        0 <= dur * (20 * i + 19) / (20 * items) <= dur,
        dur * (20 * i + 1) <= dur * 2_000_000,
        dur * (20 * i + 19) <= dur * 2_000_000,
        dur * 2_000_000 <= dur * 2_000_000,
{
    let den = 20 * items;
    assert(0 <= dur * (20 * i + 1)) by (nonlinear_arith)
        requires
            dur >= 0,
            i >= 0,
    ;
    assert(0 <= dur * (20 * i + 19)) by (nonlinear_arith)
        requires
            dur >= 0,
            i >= 0,
    ;
    assert(dur * (20 * i + 1) <= dur * den) by (nonlinear_arith)
        requires
            dur >= 0,
            den == 20 * items,
            20 * i + 1 <= 20 * items,
    ;
    assert(dur * (20 * i + 19) <= dur * den) by (nonlinear_arith)
        requires
            dur >= 0,
            den == 20 * items,
            i < items,
    ;
    vstd::arithmetic::div_mod::lemma_div_is_ordered(0, dur * (20 * i + 1), den);
    vstd::arithmetic::div_mod::lemma_div_is_ordered(0, dur * (20 * i + 19), den);
    vstd::arithmetic::div_mod::lemma_div_is_ordered(dur * (20 * i + 1), dur * den, den);
    vstd::arithmetic::div_mod::lemma_div_is_ordered(dur * (20 * i + 19), dur * den, den);
    assert(dur * den / den == dur) by {
        vstd::arithmetic::div_mod::lemma_div_by_multiple(dur, den);
    }
    assert(0int / den == 0) by {
        vstd::arithmetic::div_mod::lemma_div_of0(den);
    }
    assert(dur * (20 * i + 1) <= dur * 2_000_000) by (nonlinear_arith)
        requires
            dur >= 0,
            20 * i + 1 <= 2_000_000,
    ;
    assert(dur * (20 * i + 19) <= dur * 2_000_000) by (nonlinear_arith)
        requires
            dur >= 0,
            20 * i + 19 <= 2_000_000,
    ;
}

impl ItemUIDGenerator {
    /// The identifier the next call will hand out.
    pub fn peek(&self) -> (r: u64)
        ensures
            r == self.spec_next(),
    {
        self.next.0
    }
}

impl DataSourceMut for RandomDataSource {
    closed spec fn spec_entry_info(&self) -> EntryInfo {
        self.info.entry_info
    }

    fn fetch_description(&self) -> DataSourceDescription {
        let mut source_locator: Vec<String> = Vec::new();
        source_locator.push("Random Data Source".to_owned());
        DataSourceDescription { source_locator }
    }

    fn fetch_info(&mut self) -> (r: DataSourceInfo)
        ensures
            *final(self) == *old(self),
            r.interval == old(self).spec_info_interval(),
    {
        self.info.clone()
    }

    fn fetch_summary_tile(&mut self, entry_id: &EntryID, tile_id: TileID, full: bool) -> (r:
        Result<SummaryTile, TileFetchError>)
        ensures
            (r matches Ok(t) ==> (match final(self).spec_summary_curve(entry_id@) {
                Option::Some(ps) => t.data.utilization@ == spec_sliced_util(ps, tile_id.0),
                Option::None => false,
            })),
            forall|p: Seq<i64>|
                final(self).spec_slot_rows(p) == old(self).spec_slot_rows(p),
            forall|p: Seq<i64>|
                old(self).spec_summary_curve(p) is Some ==> final(self).spec_summary_curve(p)
                    == old(self).spec_summary_curve(p),
    {
        let is_summary: bool = match self.info.entry_info.get(entry_id) {
            Option::Some(e) => match e {
                EntryInfo::Summary { .. } => true,
                _ => false,
            },
            Option::None => false,
        };
        if !is_summary {
            return Err(TileFetchError::NotASummary);
        }
        let points = self.summary_points(entry_id);
        let utilization = slice_utilization(&points, tile_id.0);
        Ok(
            SummaryTile {
                entry_id: entry_id.clone(),
                tile_id,
                data: SummaryTileData { utilization },
            },
        )
    }

    fn fetch_slot_tile(&mut self, entry_id: &EntryID, tile_id: TileID, full: bool) -> (r: Result<
        SlotTile,
        TileFetchError,
    >)
        ensures
            (r matches Ok(t) ==> (match final(self).spec_slot_rows(entry_id@) {
                Option::Some(rows) => t.data.items@.len() == rows.len() && (forall|i: int|
                    0 <= i < rows.len() ==> (#[trigger] t.data.items@[i])@ == spec_slice_row(
                        rows[i],
                        tile_id.0,
                    )),
                Option::None => false,
            })),
            forall|p: Seq<i64>|
                old(self).spec_slot_rows(p) is Some ==> final(self).spec_slot_rows(p) == old(
                    self,
                ).spec_slot_rows(p),
            forall|p: Seq<i64>|
                final(self).spec_summary_curve(p) == old(self).spec_summary_curve(p),
    {
        let max_rows: u64 = match self.info.entry_info.get(entry_id) {
            Option::Some(e) => match e {
                EntryInfo::Slot { max_rows, .. } => *max_rows,
                _ => {
                    return Err(TileFetchError::NotASlot);
                },
            },
            Option::None => {
                return Err(TileFetchError::NotASlot);
            },
        };
        let rows = self.slot_rows(entry_id, max_rows);
        let n: usize = rows.len();
        let mut items: Vec<Vec<Item>> = Vec::new();
        let mut i: usize = 0;
        while i < n
            invariant
                0 <= i <= n == rows@.len(),
                items@.len() == i,
                forall|k: int|
                    0 <= k < i ==> (#[trigger] items@[k])@ == spec_slice_row(
                        rows@[k]@,
                        tile_id.0,
                    ),
            decreases n - i,
        {
            items.push(slice_row(&rows[i], tile_id.0));
            i = i + 1;
        }
        proof {
            assert(rows_view(rows).len() == rows@.len());
            assert(forall|k: int|
                0 <= k < rows@.len() ==> #[trigger] rows_view(rows)[k] == rows@[k]@);
        }
        Ok(
            SlotTile {
                entry_id: entry_id.clone(),
                tile_id,
                data: SlotTileData { items },
            },
        )
    }

    fn fetch_slot_meta_tile(&mut self, entry_id: &EntryID, tile_id: TileID, full: bool) -> (r:
        Result<SlotMetaTile, TileFetchError>)
        ensures
            (r matches Ok(t) ==> (match final(self).spec_slot_rows(entry_id@) {
                Option::Some(rows) => t.data.items@.len() == rows.len() && (forall|i: int|
                    0 <= i < rows.len() ==> (#[trigger] t.data.items@[i])@.len() == spec_slice_keep(
                        rows[i],
                        tile_id.0,
                    ).len() && (forall|j: int|
                        0 <= j < spec_slice_keep(rows[i], tile_id.0).len()
                            ==> (#[trigger] t.data.items@[i]@[j]).item_uid == spec_slice_keep(
                            rows[i],
                            tile_id.0,
                        )[j].item_uid && t.data.items@[i]@[j].original_interval == spec_slice_keep(
                            rows[i],
                            tile_id.0,
                        )[j].interval)),
                Option::None => false,
            })),
            forall|p: Seq<i64>|
                old(self).spec_slot_rows(p) is Some ==> final(self).spec_slot_rows(p) == old(
                    self,
                ).spec_slot_rows(p),
            forall|p: Seq<i64>|
                final(self).spec_summary_curve(p) == old(self).spec_summary_curve(p),
    {
        let max_rows: u64 = match self.info.entry_info.get(entry_id) {
            Option::Some(e) => match e {
                EntryInfo::Slot { max_rows, .. } => *max_rows,
                _ => {
                    return Err(TileFetchError::NotASlot);
                },
            },
            Option::None => {
                return Err(TileFetchError::NotASlot);
            },
        };
        let rows = self.slot_rows(entry_id, max_rows);
        let interval_field = self.interval_field;
        let item_uid_field = self.item_uid_field;
        let n: usize = rows.len();
        let mut items: Vec<Vec<ItemMeta>> = Vec::new();
        let mut i: usize = 0;
        while i < n
            invariant
                0 <= i <= n == rows@.len(),
                items@.len() == i,
                forall|k: int|
                    0 <= k < i ==> (#[trigger] items@[k])@.len() == spec_slice_keep(
                        rows@[k]@,
                        tile_id.0,
                    ).len() && (forall|j: int|
                        0 <= j < spec_slice_keep(rows@[k]@, tile_id.0).len()
                            ==> (#[trigger] items@[k]@[j]).item_uid == spec_slice_keep(
                            rows@[k]@,
                            tile_id.0,
                        )[j].item_uid && items@[k]@[j].original_interval == spec_slice_keep(
                            rows@[k]@,
                            tile_id.0,
                        )[j].interval),
            decreases n - i,
        {
            let kept = slice_keep(&rows[i], tile_id.0);
            let metas = metas_of(&kept, interval_field, item_uid_field);
            items.push(metas);
            i = i + 1;
        }
        proof {
            assert(rows_view(rows).len() == rows@.len());
            assert(forall|k: int|
                0 <= k < rows@.len() ==> #[trigger] rows_view(rows)[k] == rows@[k]@);
        }
        Ok(
            SlotMetaTile {
                entry_id: entry_id.clone(),
                tile_id,
                data: SlotMetaTileData { items },
            },
        )
    }
}

/// The heavy detail rows for a set of kept items: same identifier and
/// the item's full extent, plus the two standard fields.
fn metas_of(kept: &Vec<Item>, interval_field: FieldID, item_uid_field: FieldID) -> (r: Vec<
    ItemMeta,
>)
    ensures
        r@.len() == kept@.len(),
        forall|j: int|
            0 <= j < r@.len() ==> (#[trigger] r@[j]).item_uid == kept@[j].item_uid
                && r@[j].original_interval == kept@[j].interval,
{
    let n: usize = kept.len();
    let mut out: Vec<ItemMeta> = Vec::new();
    let mut i: usize = 0;
    while i < n
        invariant
            0 <= i <= n == kept@.len(),
            out@.len() == i,
            forall|j: int|
                0 <= j < i ==> (#[trigger] out@[j]).item_uid == kept@[j].item_uid
                    && out@[j].original_interval == kept@[j].interval,
        decreases n - i,
    {
        let item: Item = kept[i];
        let mut fields: Vec<(FieldID, Field)> = Vec::new();
        fields.push((interval_field, Field::Interval(item.interval)));
        fields.push((item_uid_field, Field::U64(item.item_uid.0)));
        out.push(
            ItemMeta {
                item_uid: item.item_uid,
                original_interval: item.interval,
                title: "Test Item".to_owned(),
                fields,
            },
        );
        i = i + 1;
    }
    out
}

/// Copy a utilization curve.
fn clone_points(v: &Vec<UtilPoint>) -> (r: Vec<UtilPoint>)
    ensures
        r@ == v@,
{
    let r = v.clone();
    proof {
        assert(r@ =~= v@);
    }
    r
}

/// Copy item rows.
fn clone_rows(v: &Vec<Vec<Item>>) -> (r: Vec<Vec<Item>>)
    ensures
        rows_view(r) == rows_view(*v),
        r@.len() == v@.len(),
{
    let n: usize = v.len();
    let mut out: Vec<Vec<Item>> = Vec::new();
    let mut i: usize = 0;
    while i < n
        invariant
            0 <= i <= n == v@.len(),
            out@.len() == i,
            forall|k: int| 0 <= k < i ==> (#[trigger] out@[k])@ == v@[k]@,
        decreases n - i,
    {
        let row = v[i].clone();
        proof {
            assert(row@ =~= v@[i as int]@);
        }
        out.push(row);
        i = i + 1;
    }
    proof {
        assert(rows_view(out) =~= rows_view(*v));
    }
    out
}

/// Slice a utilization curve to a tile.
fn slice_utilization(points: &Vec<UtilPoint>, tile: Interval) -> (r: Vec<UtilPoint>)
    ensures
        r@ == spec_sliced_util(points@, tile),
{
    let n: usize = points.len();
    let mut out: Vec<UtilPoint> = Vec::new();
    if n < 2 {
        proof {
            assert(out@ =~= spec_sliced_util(points@, tile));
        }
        return out;
    }
    let mut i: usize = 1;
    proof {
        assert(points@.take(1).len() < 2);
        assert(out@ =~= spec_sliced_util(points@.take(1), tile));
    }
    while i < n
        invariant
            1 <= i <= n == points@.len(),
            out@ == spec_sliced_util(points@.take(i as int), tile),
        decreases n - i,
    {
        let a: UtilPoint = points[i - 1];
        let b: UtilPoint = points[i];
        proof {
            assert(points@.take(i + 1).drop_last() =~= points@.take(i as int));
            assert(points@.take(i + 1).last() == b);
            assert(points@.take(i + 1)[i - 1] == a);
        }
        let span = Interval { start: a.time, stop: b.time };
        if span.contains(tile.start) {
            let u = util_at(a, b, tile.start);
            out.push(UtilPoint { time: tile.start, util: u });
        }
        if tile.contains(b.time) {
            out.push(b);
        }
        if span.contains(tile.stop) {
            let u = util_at(a, b, tile.stop);
            out.push(UtilPoint { time: tile.stop, util: u });
        }
        proof {
            assert(out@ =~= spec_sliced_util(points@.take(i + 1), tile));
        }
        i = i + 1;
    }
    proof {
        assert(points@.take(n as int) =~= points@);
    }
    out
}

} // verus!
