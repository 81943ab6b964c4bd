//! Overlaying several profiles as one: the children's level-0 slots
//! are laid side by side under a single root, entry paths are shifted
//! by per-child offsets, and item identifiers are spread out so they
//! stay unique across children.

use crate::data::{
    spec_long_name, spec_short_name, spec_slots, DataSourceDescription, DataSourceInfo, EntryID,
    EntryInfo, Field, ItemLink, ItemUID, SlotMetaTile, SlotTile, SummaryTile, TileID,
};
use crate::deferred_data::DeferredDataSource;
use crate::timestamp::Interval;
use vstd::prelude::*;

verus! {

/// A structural disagreement between children, fatal to the merge.
#[derive(Debug, Copy, Clone, PartialEq, Eq, Structural)]
pub enum MergeError {
    TileSetMismatch,
    FieldSchemaMismatch,
    NotMergeable,
    TooManySlots,
}

/// All children agree with child 0 on the tile pyramid.
pub open spec fn spec_tile_sets_agree(infos: Seq<DataSourceInfo>) -> bool {
    forall|k: int| 0 <= k < infos.len() ==> (#[trigger] infos[k].tile_set)@ == infos[0].tile_set@
}

/// All children agree with child 0 on the field schema.
pub open spec fn spec_schemas_agree(infos: Seq<DataSourceInfo>) -> bool {
    forall|k: int|
        0 <= k < infos.len() ==> (#[trigger] infos[k].field_schema).names()
            == infos[0].field_schema.names() && infos[k].field_schema.flags()
            == infos[0].field_schema.flags()
}

/// Which error, if any, one batch of child infos produces, in the
/// order the checks run: an empty batch cannot merge; disagreeing
/// tile sets, then disagreeing schemas, are fatal mismatches; a root
/// that is not a summary-free panel cannot merge; and offsets past
/// the entry index range do not fit.
pub open spec fn spec_batch_outcome(infos: Seq<DataSourceInfo>) -> Option<MergeError> {
    if infos.len() == 0 {
        Some(MergeError::NotMergeable)
    } else if !spec_tile_sets_agree(infos) {
        Some(MergeError::TileSetMismatch)
    } else if !spec_schemas_agree(infos) {
        Some(MergeError::FieldSchemaMismatch)
    } else if !spec_mergeable(infos) {
        Some(MergeError::NotMergeable)
    } else if spec_offset(infos, infos.len() as int) > i64::MAX {
        Some(MergeError::TooManySlots)
    } else {
        None
    }
}

/// Mergeable roots: every child's tree is a panel without a summary.
pub open spec fn spec_mergeable(infos: Seq<DataSourceInfo>) -> bool {
    forall|k: int|
        0 <= k < infos.len() ==> (#[trigger] infos[k].entry_info) matches EntryInfo::Panel {
            summary: Option::None,
            ..
        }
}

/// The level-0 offset of child `k`: the slots of all earlier children.
pub open spec fn spec_offset(infos: Seq<DataSourceInfo>, k: int) -> int
    decreases k,
{
    if k <= 0 {
        0
    } else {
        spec_offset(infos, k - 1) + spec_slots(infos[k - 1].entry_info).len()
    }
}

/// The concatenation of every child's level-0 slots, in child order.
pub open spec fn spec_concat_slots(infos: Seq<DataSourceInfo>) -> Seq<EntryInfo>
    decreases infos.len(),
{
    if infos.len() == 0 {
        Seq::empty()
    } else {
        spec_concat_slots(infos.drop_last()) + spec_slots(infos.last().entry_info)
    }
}

/// The union of every child's interval.
pub open spec fn spec_union_all(infos: Seq<DataSourceInfo>) -> Interval
    decreases infos.len(),
{
    if infos.len() <= 1 {
        infos[0].interval
    } else {
        spec_union_all(infos.drop_last()).spec_union(infos.last().interval)
    }
}

/// The merged root holds as many slots as all children together.
pub proof fn lemma_merge_slot_count(infos: Seq<DataSourceInfo>)
    ensures
        spec_concat_slots(infos).len() == spec_offset(infos, infos.len() as int),
    decreases infos.len(),
{
    if infos.len() == 0 {
    } else {
        lemma_merge_slot_count(infos.drop_last());
        assert(spec_offset(infos.drop_last(), infos.len() - 1) == spec_offset(
            infos,
            infos.len() - 1,
        )) by {
            lemma_offset_prefix(infos, infos.len() - 1);
        }
    }
}

proof fn lemma_offset_prefix(infos: Seq<DataSourceInfo>, k: int)
    requires
        0 <= k < infos.len(),
    ensures
        spec_offset(infos.drop_last(), k) == spec_offset(infos, k),
    decreases k,
{
    if k > 0 {
        lemma_offset_prefix(infos, k - 1);
        assert(infos.drop_last()[k - 1] == infos[k - 1]);
    }
}

/// The child a merged level-0 index routes to: the last child whose
/// offset is at or below it.
pub open spec fn spec_route(mapping: Seq<u64>, level0: u64) -> int
    decreases mapping.len(),
{
    if mapping.len() == 0 {
        0
    } else if mapping.last() <= level0 {
        mapping.len() - 1
    } else {
        spec_route(mapping.drop_last(), level0)
    }
}

/// Routing facts: the route is in range and its offset is below the
/// index, so the index maps back into the child without underflow.
pub proof fn lemma_route_bounds(mapping: Seq<u64>, level0: u64)
    requires
        mapping.len() > 0,
        mapping[0] == 0,
    ensures
        0 <= spec_route(mapping, level0) < mapping.len(),
        mapping[spec_route(mapping, level0)] <= level0,
    decreases mapping.len(),
{
    if mapping.last() <= level0 {
    } else {
        assert(mapping.len() > 1) by {
            if mapping.len() == 1 {
                assert(mapping.last() == mapping[0]);
            }
        }
        lemma_route_bounds(mapping.drop_last(), level0);
        assert(mapping.drop_last()[0] == mapping[0]);
        assert(mapping[spec_route(mapping.drop_last(), level0)] == mapping.drop_last()[spec_route(
            mapping.drop_last(),
            level0,
        )]);
    }
}

/// Round trip on entry paths: shifting a merged path down into its
/// child and back up gives the original path.
pub proof fn lemma_entry_map_roundtrip(mapping: Seq<u64>, dst: Seq<i64>)
    requires
        mapping.len() > 0,
        mapping[0] == 0,
        forall|k: int| 0 <= k < mapping.len() ==> (#[trigger] mapping[k]) <= i64::MAX,
        dst.len() > 0,
        dst[0] >= 0,
    ensures
        ({
            let idx = spec_route(mapping, dst[0] as u64);
            let off = mapping[idx] as int;
            dst.update(0, (dst[0] - off) as i64).update(
                0,
                ((dst[0] - off) + off) as i64,
            ) =~= dst
        }),
{
    lemma_route_bounds(mapping, dst[0] as u64);
}

/// Round trip on item identifiers: with `n` children, a source
/// identifier sent to child `k` of the merge and recovered by
/// dividing out `n` is unchanged.
pub proof fn lemma_item_uid_roundtrip(uid: u64, n: u64, k: u64)
    requires
        n > 0,
        k < n,
        uid * n + k <= u64::MAX,
    ensures
        ((uid * n + k) as u64) / n == uid,
        ((uid * n + k) as u64) % n == k,
{
    vstd::arithmetic::div_mod::lemma_fundamental_div_mod_converse(
        (uid * n + k) as int,
        n as int,
        uid as int,
        k as int,
    );
}

/// The summary tiles still pending across a set of children.
pub open spec fn spec_sum_pending_summaries<T: DeferredDataSource>(ds: Seq<T>) -> int
    decreases ds.len(),
{
    if ds.len() == 0 {
        0
    } else {
        spec_sum_pending_summaries(ds.drop_last()) + ds.last().pending_summaries()
    }
}

/// The slot tiles still pending across a set of children.
pub open spec fn spec_sum_pending_slots<T: DeferredDataSource>(ds: Seq<T>) -> int
    decreases ds.len(),
{
    if ds.len() == 0 {
        0
    } else {
        spec_sum_pending_slots(ds.drop_last()) + ds.last().pending_slots()
    }
}

/// The meta tiles still pending across a set of children.
pub open spec fn spec_sum_pending_slot_metas<T: DeferredDataSource>(ds: Seq<T>) -> int
    decreases ds.len(),
{
    if ds.len() == 0 {
        0
    } else {
        spec_sum_pending_slot_metas(ds.drop_last()) + ds.last().pending_slot_metas()
    }
}

/// Overlays any number of deferred children as one logical profile.
pub struct MergeDeferredDataSource<T: DeferredDataSource> {
    data_sources: Vec<T>,
    infos: Vec<Vec<DataSourceInfo>>,
    mapping: Vec<u64>,
}

impl<T: DeferredDataSource> MergeDeferredDataSource<T> {
    pub closed spec fn spec_mapping(&self) -> Seq<u64> {
        self.mapping@
    }

    pub closed spec fn spec_num_children(&self) -> nat {
        self.data_sources@.len()
    }

    /// The children, for speaking of their pending requests.
    pub closed spec fn spec_children(&self) -> Seq<T> {
        self.data_sources@
    }

    pub open spec fn spec_child(&self, k: int) -> T {
        self.spec_children()[k]
    }

    pub fn new(data_sources: Vec<T>) -> (r: Self)
        requires
            data_sources@.len() > 0,
        ensures
            r.spec_num_children() == data_sources@.len(),
            r.spec_mapping().len() == 0,
    {
        let n: usize = data_sources.len();
        let mut infos: Vec<Vec<DataSourceInfo>> = Vec::new();
        let mut i: usize = 0;
        while i < n
            invariant
                i <= n,
                infos@.len() == i,
            decreases n - i,
        {
            infos.push(Vec::new());
            i = i + 1;
        }
        Self { data_sources, infos, mapping: Vec::new() }
    }

    /// Concatenate a second root panel's slots onto a first: the
    /// merged panel keeps the first panel's names.
    pub fn merge_entry(first: EntryInfo, second: EntryInfo) -> (r: EntryInfo)
        requires
            first matches EntryInfo::Panel { summary: Option::None, .. },
            second matches EntryInfo::Panel { summary: Option::None, .. },
        ensures
            r matches EntryInfo::Panel { summary: Option::None, .. },
            spec_slots(r) == spec_slots(first) + spec_slots(second),
            spec_short_name(r) == spec_short_name(first),
            spec_long_name(r) == spec_long_name(first),
    {
        let ghost fslots = spec_slots(first);
        let ghost sslots = spec_slots(second);
        match (first, second) {
            (
                EntryInfo::Panel { short_name, long_name, summary: _, slots: mut slots },
                EntryInfo::Panel { summary: _, slots: mut second_slots, .. },
            ) => {
                slots.append(&mut second_slots);
                proof {
                    assert(slots@ =~= fslots + sslots);
                }
                EntryInfo::Panel { short_name, long_name, summary: None, slots }
            },
            _ => {
                proof {
                    assert(false);
                }
                EntryInfo::Summary { color: crate::data::Color { r: 0, g: 0, b: 0, a: 0 } }
            },
        }
    }

    /// The per-child level-0 offsets: child `k` starts after the
    /// slots of children `0..k`.
    pub fn compute_mapping(source_infos: &Vec<DataSourceInfo>) -> (r: Result<Vec<u64>, MergeError>)
        ensures
            (match r {
                Ok(m) => {
                    &&& m@.len() == source_infos@.len()
                    &&& forall|k: int|
                        0 <= k < m@.len() ==> (#[trigger] m@[k]) as int == spec_offset(
                            source_infos@,
                            k,
                        )
                    &&& forall|k: int| 0 <= k < m@.len() ==> (#[trigger] m@[k]) <= i64::MAX
                    &&& spec_offset(source_infos@, source_infos@.len() as int) <= i64::MAX
                },
                Err(e) => e == MergeError::TooManySlots && spec_offset(
                    source_infos@,
                    source_infos@.len() as int,
                ) > i64::MAX,
            }),
    {
        let n: usize = source_infos.len();
        let mut mapping: Vec<u64> = Vec::new();
        let mut sum: u64 = 0;
        let mut i: usize = 0;
        while i < n
            invariant
                0 <= i <= n == source_infos@.len(),
                mapping@.len() == i,
                sum as int == spec_offset(source_infos@, i as int),
                sum <= i64::MAX as u64,
                forall|k: int|
                    0 <= k < i ==> (#[trigger] mapping@[k]) as int == spec_offset(
                        source_infos@,
                        k,
                    ),
            decreases n - i,
        {
            mapping.push(sum);
            let slot_len: usize = match &source_infos[i].entry_info {
                EntryInfo::Panel { slots, .. } => slots.len(),
                _ => 0,
            };
            proof {
                assert(slot_len == spec_slots(source_infos@[i as int].entry_info).len());
            }
            sum = match sum.checked_add(slot_len as u64) {
                Option::Some(s) => s,
                Option::None => {
                    proof {
                        lemma_offset_monotone(source_infos@, i + 1, source_infos@.len() as int);
                    }
                    return Err(MergeError::TooManySlots);
                },
            };
            if sum > i64::MAX as u64 {
                proof {
                    lemma_offset_monotone(source_infos@, i + 1, source_infos@.len() as int);
                }
                return Err(MergeError::TooManySlots);
            }
            i = i + 1;
        }
        proof {
            assert forall|k: int| 0 <= k < mapping@.len() implies (#[trigger] mapping@[k])
                <= i64::MAX by {
                lemma_offset_monotone(source_infos@, k, n as int);
            }
        }
        Ok(mapping)
    }

    /// Merge the children's infos: the first child's names, tile set
    /// and schema; the union of the intervals; everyone's slots in
    /// child order.
    pub fn merge_infos(source_infos: Vec<DataSourceInfo>) -> (r: DataSourceInfo)
        requires
            source_infos@.len() >= 1,
            spec_mergeable(source_infos@),
        ensures
            r.entry_info matches EntryInfo::Panel { summary: Option::None, .. },
            spec_slots(r.entry_info) == spec_concat_slots(source_infos@),
            spec_short_name(r.entry_info) == spec_short_name(source_infos@[0].entry_info),
            spec_long_name(r.entry_info) == spec_long_name(source_infos@[0].entry_info),
            r.interval == spec_union_all(source_infos@),
            r.tile_set@ == source_infos@[0].tile_set@,
            r.field_schema.names() == source_infos@[0].field_schema.names(),
            r.field_schema.flags() == source_infos@[0].field_schema.flags(),
    {
        let ghost all = source_infos@;
        let n: usize = source_infos.len();
        let mut rest = source_infos;
        let first = rest.remove(0);
        let DataSourceInfo { entry_info, interval, tile_set, field_schema } = first;
        let mut entry_acc = entry_info;
        let mut interval_acc = interval;
        let mut i: usize = 1;
        proof {
            assert(all.take(1).drop_last() =~= Seq::<DataSourceInfo>::empty());
            assert(all.take(1).last() == all[0]);
            assert(spec_concat_slots(Seq::<DataSourceInfo>::empty()) == Seq::<EntryInfo>::empty());
            assert(spec_concat_slots(all.take(1)) == spec_concat_slots(all.take(1).drop_last())
                + spec_slots(all.take(1).last().entry_info));
            assert(spec_concat_slots(all.take(1)) =~= spec_slots(all[0].entry_info));
            assert(spec_union_all(all.take(1)) == all[0].interval);
            assert(rest@ =~= all.skip(1));
        }
        while i < n
            invariant
                1 <= i <= n == all.len(),
                rest@ == all.skip(i as int),
                spec_mergeable(all),
                entry_acc matches EntryInfo::Panel { summary: Option::None, .. },
                spec_slots(entry_acc) == spec_concat_slots(all.take(i as int)),
                spec_short_name(entry_acc) == spec_short_name(all[0].entry_info),
                spec_long_name(entry_acc) == spec_long_name(all[0].entry_info),
                interval_acc == spec_union_all(all.take(i as int)),
            decreases n - i,
        {
            let next = rest.remove(0);
            proof {
                assert(next == all[i as int]);
                assert(rest@ =~= all.skip(i + 1));
                assert(all.take(i + 1).drop_last() =~= all.take(i as int));
                assert(all.take(i + 1).last() == all[i as int]);
            }
            interval_acc = interval_acc.union(next.interval);
            entry_acc = Self::merge_entry(entry_acc, next.entry_info);
            i = i + 1;
        }
        proof {
            assert(all.take(all.len() as int) =~= all);
        }
        DataSourceInfo {
            entry_info: entry_acc,
            interval: interval_acc,
            tile_set,
            field_schema,
        }
    }

    /// Merge one batch of per-child infos, deciding exactly which
    /// error a bad batch produces: an empty batch or a root that is
    /// not a summary-free panel cannot merge, disagreeing tile sets
    /// or schemas are fatal mismatches, and offsets past the entry
    /// index range do not fit.  On success, the merged info and the
    /// per-child offsets.
    pub fn merge_batch(batch: Vec<DataSourceInfo>) -> (r: Result<
        (DataSourceInfo, Vec<u64>),
        MergeError,
    >)
        ensures
            (match r {
                Err(e) => spec_batch_outcome(batch@) == Some(e),
                Ok(p) => {
                    &&& spec_batch_outcome(batch@) is None
                    &&& p.0.entry_info matches EntryInfo::Panel { summary: Option::None, .. }
                    &&& spec_slots(p.0.entry_info) == spec_concat_slots(batch@)
                    &&& spec_short_name(p.0.entry_info) == spec_short_name(batch@[0].entry_info)
                    &&& spec_long_name(p.0.entry_info) == spec_long_name(batch@[0].entry_info)
                    &&& p.0.interval == spec_union_all(batch@)
                    &&& p.0.tile_set@ == batch@[0].tile_set@
                    &&& p.0.field_schema.names() == batch@[0].field_schema.names()
                    &&& p.0.field_schema.flags() == batch@[0].field_schema.flags()
                    &&& p.1@.len() == batch@.len()
                    &&& forall|k: int|
                        0 <= k < p.1@.len() ==> (#[trigger] p.1@[k]) as int == spec_offset(
                            batch@,
                            k,
                        )
                    &&& forall|k: int| 0 <= k < p.1@.len() ==> (#[trigger] p.1@[k]) <= i64::MAX
                },
            }),
    {
        let ghost b = batch@;
        let bn: usize = batch.len();
        if bn == 0 {
            return Err(MergeError::NotMergeable);
        }
        let mut k: usize = 1;
        while k < bn
            invariant
                1 <= k <= bn == b.len(),
                batch@ == b,
                forall|x: int| 0 <= x < k ==> (#[trigger] b[x].tile_set)@ == b[0].tile_set@,
            decreases bn - k,
        {
            if !batch[0].tile_set.same_tiles(&batch[k].tile_set) {
                proof {
                    assert(!spec_tile_sets_agree(b));
                }
                return Err(MergeError::TileSetMismatch);
            }
            k = k + 1;
        }
        proof {
            assert(spec_tile_sets_agree(b));
        }
        let mut k: usize = 1;
        while k < bn
            invariant
                1 <= k <= bn == b.len(),
                batch@ == b,
                spec_tile_sets_agree(b),
                forall|x: int|
                    0 <= x < k ==> (#[trigger] b[x].field_schema).names()
                        == b[0].field_schema.names() && b[x].field_schema.flags()
                        == b[0].field_schema.flags(),
            decreases bn - k,
        {
            if !batch[0].field_schema.same_schema(&batch[k].field_schema) {
                proof {
                    assert(!spec_schemas_agree(b));
                }
                return Err(MergeError::FieldSchemaMismatch);
            }
            k = k + 1;
        }
        proof {
            assert(spec_schemas_agree(b));
        }
        let mut m: usize = 0;
        while m < bn
            invariant
                0 <= m <= bn == b.len(),
                batch@ == b,
                spec_tile_sets_agree(b),
                spec_schemas_agree(b),
                forall|x: int|
                    0 <= x < m ==> (#[trigger] b[x].entry_info) matches EntryInfo::Panel {
                        summary: Option::None,
                        ..
                    },
            decreases bn - m,
        {
            match &batch[m].entry_info {
                EntryInfo::Panel { summary: Option::None, .. } => (),
                _ => {
                    proof {
                        assert(!spec_mergeable(b));
                    }
                    return Err(MergeError::NotMergeable);
                },
            }
            m = m + 1;
        }
        proof {
            assert(spec_mergeable(b));
        }
        let mapping = match Self::compute_mapping(&batch) {
            Ok(mp) => mp,
            Err(e) => {
                return Err(e);
            },
        };
        let info = Self::merge_infos(batch);
        Ok((info, mapping))
    }

    /// Shift a child's entry path up into the merged numbering.
    pub fn map_src_to_dst_entry(&self, idx: usize, src_entry: &EntryID) -> (r: EntryID)
        requires
            idx < self.spec_mapping().len(),
            src_entry@.len() > 0,
            src_entry@[0] >= 0,
            src_entry@[0] + self.spec_mapping()[idx as int] <= i64::MAX,
        ensures
            r@ == src_entry@.update(
                0,
                (src_entry@[0] + self.spec_mapping()[idx as int]) as i64,
            ),
    {
        src_entry.shift_level0(self.mapping[idx] as i64)
    }

    /// Route a merged entry path down to its child.
    pub fn map_dst_to_src_entry(&self, dst_entry: &EntryID) -> (r: (usize, EntryID))
        requires
            self.spec_mapping().len() > 0,
            self.spec_mapping()[0] == 0,
            forall|k: int|
                0 <= k < self.spec_mapping().len() ==> (#[trigger] self.spec_mapping()[k])
                    <= i64::MAX,
            dst_entry@.len() > 0,
            dst_entry@[0] >= 0,
        ensures
            r.0 as int == spec_route(self.spec_mapping(), dst_entry@[0] as u64),
            r.1@ == dst_entry@.update(
                0,
                (dst_entry@[0] - self.spec_mapping()[r.0 as int]) as i64,
            ),
    {
        let level0: u64 = match dst_entry.slot_index(0) {
            Option::Some(v) => v,
            Option::None => {
                proof {
                    assert(false);
                }
                0
            },
        };
        let n: usize = self.mapping.len();
        let mut idx: usize = n - 1;
        proof {
            assert(self.spec_mapping().take(n as int) =~= self.spec_mapping());
        }
        while idx > 0 && self.mapping[idx] > level0
            invariant
                0 <= idx < n == self.spec_mapping().len(),
                self.spec_mapping()[0] == 0,
                spec_route(self.spec_mapping(), level0) == spec_route(
                    self.spec_mapping().take(idx + 1),
                    level0,
                ),
            decreases idx,
        {
            proof {
                assert(self.spec_mapping().take(idx + 1).last() == self.spec_mapping()[idx as int]);
                assert(self.spec_mapping().take(idx + 1).drop_last() =~= self.spec_mapping().take(
                    idx as int,
                ));
            }
            idx = idx - 1;
        }
        proof {
            let m = self.spec_mapping();
            assert(m.take(idx + 1).last() == m[idx as int]);
            assert(m.take(idx + 1).drop_last() =~= m.take(idx as int));
            if idx > 0 {
                assert(m[idx as int] <= level0);
                assert(spec_route(m.take(idx + 1), level0) == idx);
            } else {
                assert(m.take(1).len() == 1);
                assert(m.take(1)[0] == 0);
                assert(m.take(1).last() == 0);
                assert(spec_route(m.take(1), level0) == 0);
            }
            assert(dst_entry@[0] as u64 == level0);
            lemma_route_bounds(m, level0);
        }
        let src = dst_entry.shift_level0(-(self.mapping[idx] as i64));
        (idx, src)
    }

    /// Spread a child's item identifier across the merge: child `k`
    /// of `n` keeps every `n`-th identifier.
    pub fn map_src_to_dst_item_uid(&self, idx: usize, item_uid: ItemUID) -> (r: ItemUID)
        requires
            idx < self.spec_num_children(),
            item_uid.0 * self.spec_num_children() + idx <= u64::MAX,
        ensures
            r.0 == item_uid.0 * self.spec_num_children() + idx,
    {
        let n: u64 = self.data_sources.len() as u64;
        ItemUID(item_uid.0 * n + idx as u64)
    }
}

impl<T: DeferredDataSource> MergeDeferredDataSource<T> {
    /// The routable mappings: non-empty, anchored at zero, ascending,
    /// and within the shiftable range.
    pub open spec fn spec_mapping_wf(&self) -> bool {
        &&& self.spec_mapping().len() > 0
        &&& self.spec_mapping()[0] == 0
        &&& forall|k: int|
            0 <= k < self.spec_mapping().len() ==> (#[trigger] self.spec_mapping()[k]) <= i64::MAX
    }

    /// Shift a child's entry up when it is shiftable; a malformed
    /// entry is passed through unchanged.
    fn try_shift_up(&self, idx: usize, entry: &EntryID) -> (r: EntryID)
        requires
            idx < self.spec_mapping().len(),
        ensures
            (if entry@.len() > 0 && entry@[0] >= 0 && self.spec_mapping()[idx as int] <= i64::MAX
                && entry@[0] + self.spec_mapping()[idx as int] <= i64::MAX {
                r@ == entry@.update(
                    0,
                    (entry@[0] + self.spec_mapping()[idx as int]) as i64,
                )
            } else {
                r@ == entry@
            }),
    {
        let can: bool = match entry.slot_index(0) {
            Option::Some(level0) => {
                let off: u64 = self.mapping[idx];
                level0 <= i64::MAX as u64 && off <= i64::MAX as u64 && level0 + off
                    <= i64::MAX as u64
            },
            Option::None => false,
        };
        if can {
            self.map_src_to_dst_entry(idx, entry)
        } else {
            entry.clone()
        }
    }

    /// Re-spread an item identifier when it stays in range; an
    /// overflowing one is passed through unchanged.
    fn try_map_uid(&self, idx: usize, item_uid: ItemUID) -> (r: ItemUID)
        requires
            idx < self.spec_num_children(),
        ensures
            (if item_uid.0 * self.spec_num_children() + idx <= u64::MAX {
                r.0 == item_uid.0 * self.spec_num_children() + idx
            } else {
                r == item_uid
            }),
    {
        let n: u64 = self.data_sources.len() as u64;
        match item_uid.0.checked_mul(n) {
            Option::Some(p) => match p.checked_add(idx as u64) {
                Option::Some(v) => ItemUID(v),
                Option::None => item_uid,
            },
            Option::None => item_uid,
        }
    }

    /// Restamp a child's summary tile into the merged numbering: the
    /// tile range and the samples pass through untouched.
    pub fn map_src_to_dst_summary(&self, idx: usize, tile: SummaryTile) -> (r: SummaryTile)
        requires
            idx < self.spec_mapping().len(),
        ensures
            r.tile_id == tile.tile_id,
            r.data.utilization@ == tile.data.utilization@,
            (tile.entry_id@.len() > 0 && tile.entry_id@[0] >= 0 && self.spec_mapping()[idx as int]
                <= i64::MAX && tile.entry_id@[0] + self.spec_mapping()[idx as int] <= i64::MAX
                ==> r.entry_id@ == tile.entry_id@.update(
                0,
                (tile.entry_id@[0] + self.spec_mapping()[idx as int]) as i64,
            )),
    {
        SummaryTile {
            entry_id: self.try_shift_up(idx, &tile.entry_id),
            tile_id: tile.tile_id,
            data: tile.data,
        }
    }

    /// Restamp a child's slot tile: shift the entry and re-spread
    /// every item's identifier; the tile range and the row shape pass
    /// through untouched.
    pub fn map_src_to_dst_slot(&self, idx: usize, tile: SlotTile) -> (r: SlotTile)
        requires
            idx < self.spec_mapping().len(),
            idx < self.spec_num_children(),
        ensures
            r.tile_id == tile.tile_id,
            r.data.items@.len() == tile.data.items@.len(),
    {
        let entry_id = self.try_shift_up(idx, &tile.entry_id);
        let mut data = tile.data;
        let rows: usize = data.items.len();
        let mut i: usize = 0;
        while i < rows
            invariant
                idx < self.spec_num_children(),
                rows == data.items@.len(),
            decreases rows - i,
        {
            let cols: usize = data.items[i].len();
            let mut j: usize = 0;
            while j < cols
                invariant
                    idx < self.spec_num_children(),
                    rows == data.items@.len(),
                    0 <= i < rows,
                    cols == data.items@[i as int]@.len(),
                decreases cols - j,
            {
                let uid = self.try_map_uid(idx, data.items[i][j].item_uid);
                let item = crate::data::Item {
                    item_uid: uid,
                    interval: data.items[i][j].interval,
                    color: data.items[i][j].color,
                };
                set_item(&mut data.items, i, j, item);
                j = j + 1;
            }
            i = i + 1;
        }
        SlotTile { entry_id, tile_id: tile.tile_id, data }
    }

    /// Rewrite a field: item links get their identifier re-spread and
    /// their entry shifted; lists recurse; the rest pass through.
    pub fn map_src_to_dst_field(&self, idx: usize, field: Field) -> (r: Field)
        requires
            idx < self.spec_mapping().len(),
            idx < self.spec_num_children(),
        decreases field,
    {
        match field {
            Field::ItemLink(link) => {
                let item_uid = self.try_map_uid(idx, link.item_uid);
                let entry_id = self.try_shift_up(idx, &link.entry_id);
                Field::ItemLink(
                    ItemLink { item_uid, title: link.title, interval: link.interval, entry_id },
                )
            },
            Field::Vec(elts) => {
                let mut mapped: Vec<Field> = Vec::new();
                let mut rest = elts;
                loop
                    invariant
                        idx < self.spec_mapping().len(),
                        idx < self.spec_num_children(),
                        forall|k: int|
                            0 <= k < rest@.len() ==> height_lt(#[trigger] rest@[k], field),
                    decreases rest@.len(),
                {
                    if rest.len() == 0 {
                        break ;
                    }
                    let head = rest.remove(0);
                    mapped.push(self.map_src_to_dst_field(idx, head));
                }
                Field::Vec(mapped)
            },
            other => other,
        }
    }

    /// Restamp a child's meta tile: identifiers, entries, and every
    /// field of every item; the tile range passes through untouched.
    pub fn map_src_to_dst_slot_meta(&self, idx: usize, tile: SlotMetaTile) -> (r: SlotMetaTile)
        requires
            idx < self.spec_mapping().len(),
            idx < self.spec_num_children(),
        ensures
            r.tile_id == tile.tile_id,
            r.data.items@.len() == tile.data.items@.len(),
    {
        let entry_id = self.try_shift_up(idx, &tile.entry_id);
        let ghost total_rows = tile.data.items@.len();
        let mut rows_out: Vec<Vec<crate::data::ItemMeta>> = Vec::new();
        let mut rows_in = tile.data.items;
        loop
            invariant
                idx < self.spec_mapping().len(),
                idx < self.spec_num_children(),
                rows_out@.len() + rows_in@.len() == total_rows,
            ensures
                rows_out@.len() == total_rows,
            decreases rows_in@.len(),
        {
            if rows_in.len() == 0 {
                break ;
            }
            let row = rows_in.remove(0);
            let mut row_out: Vec<crate::data::ItemMeta> = Vec::new();
            let mut row_in = row;
            loop
                invariant
                    idx < self.spec_mapping().len(),
                    idx < self.spec_num_children(),
                decreases row_in@.len(),
            {
                if row_in.len() == 0 {
                    break ;
                }
                let item = row_in.remove(0);
                let item_uid = self.try_map_uid(idx, item.item_uid);
                let mut fields_out: Vec<(crate::data::FieldID, Field)> = Vec::new();
                let mut fields_in = item.fields;
                loop
                    invariant
                        idx < self.spec_mapping().len(),
                        idx < self.spec_num_children(),
                    decreases fields_in@.len(),
                {
                    if fields_in.len() == 0 {
                        break ;
                    }
                    let (fid, f) = fields_in.remove(0);
                    fields_out.push((fid, self.map_src_to_dst_field(idx, f)));
                }
                row_out.push(
                    crate::data::ItemMeta {
                        item_uid,
                        original_interval: item.original_interval,
                        title: item.title,
                        fields: fields_out,
                    },
                );
            }
            rows_out.push(row_out);
        }
        SlotMetaTile {
            entry_id,
            tile_id: tile.tile_id,
            data: crate::data::SlotMetaTileData { items: rows_out },
        }
    }

    /// All children's locators, in child order.
    pub fn fetch_description(&self) -> DataSourceDescription {
        let mut source_locator: Vec<String> = Vec::new();
        let n: usize = self.data_sources.len();
        let mut i: usize = 0;
        while i < n
            invariant
                n == self.data_sources@.len(),
            decreases n - i,
        {
            let mut d = self.data_sources[i].fetch_description();
            source_locator.append(&mut d.source_locator);
            i = i + 1;
        }
        DataSourceDescription { source_locator }
    }

    /// Broadcast the info request to every child.
    pub fn fetch_info(&mut self) {
        let n: usize = self.data_sources.len();
        let mut i: usize = 0;
        while i < n
            invariant
                n == self.data_sources@.len(),
            decreases n - i,
        {
            let src = &mut self.data_sources[i];
            src.fetch_info();
            i = i + 1;
        }
    }

    /// Merge one batch of infos once every child has delivered one.
    /// Children that disagree on the tile set or the field schema, or
    /// whose roots are not mergeable panels, are a fatal mismatch.
    /// After a successful round the mapping routes every merged entry.
    pub fn get_infos(&mut self) -> (r: Result<Vec<DataSourceInfo>, MergeError>)
        ensures
            (match r {
                Ok(v) => v@.len() > 0 ==> final(self).spec_mapping_wf()
                    && final(self).spec_mapping().len() <= final(self).spec_num_children(),
                Err(_) => true,
            }),
    {
        let n: usize = self.data_sources.len();
        let mut i: usize = 0;
        while i < n
            invariant
                n == self.data_sources@.len(),
                self.infos@.len() == old(self).infos@.len(),
            decreases n - i,
        {
            if i < self.infos.len() {
                let src = &mut self.data_sources[i];
                let mut got = src.get_infos();
                let q = &mut self.infos[i];
                q.append(&mut got);
            }
            i = i + 1;
        }
        proof {
            assert(self.spec_num_children() == n);
        }
        let mut result: Vec<DataSourceInfo> = Vec::new();
        if n == 0 || self.infos.len() < n {
            return Err(MergeError::NotMergeable);
        }
        // One merged info per round while every child has one.
        let mut rounds: usize = self.infos[0].len();
        let mut i: usize = 1;
        while i < n
            invariant
                n <= self.infos@.len(),
            decreases n - i,
        {
            if self.infos[i].len() < rounds {
                rounds = self.infos[i].len();
            }
            i = i + 1;
        }
        let mut round: usize = 0;
        while round < rounds
            invariant
                n >= 1,
                n <= self.infos@.len(),
                n == self.data_sources@.len(),
                result@.len() == round,
                round > 0 ==> self.spec_mapping_wf() && self.spec_mapping().len() <= n,
            decreases rounds - round,
        {
            let mut batch: Vec<DataSourceInfo> = Vec::new();
            let mut j: usize = 0;
            while j < n
                invariant
                    0 <= j <= n,
                    n <= self.infos@.len(),
                    n == self.data_sources@.len(),
                    batch@.len() == j,
                decreases n - j,
            {
                if self.infos[j].len() > 0 {
                    let q = &mut self.infos[j];
                    let info = q.remove(0);
                    batch.push(info);
                } else {
                    return Err(MergeError::NotMergeable);
                }
                j = j + 1;
            }
            let ghost bsnap = batch@;
            let (info, mapping) = match Self::merge_batch(batch) {
                Ok(p) => p,
                Err(e) => {
                    return Err(e);
                },
            };
            proof {
                assert(mapping@.len() == n);
                assert(mapping@[0] as int == spec_offset(bsnap, 0));
            }
            self.mapping = mapping;
            result.push(info);
            round = round + 1;
        }
        Ok(result)
    }

    /// Route a summary fetch to the child owning the entry: only that
    /// child may gain a pending request, every other child is
    /// untouched.
    pub fn fetch_summary_tile(&mut self, entry_id: &EntryID, tile_id: TileID, full: bool)
        requires
            old(self).spec_mapping_wf(),
            old(self).spec_mapping().len() <= old(self).spec_num_children(),
            entry_id@.len() > 0,
            entry_id@[0] >= 0,
        ensures
            final(self).spec_mapping() == old(self).spec_mapping(),
            final(self).spec_num_children() == old(self).spec_num_children(),
            forall|j: int|
                0 <= j < old(self).spec_num_children() && j != spec_route(
                    old(self).spec_mapping(),
                    entry_id@[0] as u64,
                ) ==> final(self).spec_child(j) == old(self).spec_child(j),
            ({
                let k = spec_route(old(self).spec_mapping(), entry_id@[0] as u64);
                let oc = old(self).spec_child(k);
                let fc = final(self).spec_child(k);
                &&& oc.pending_summaries() <= fc.pending_summaries() <= oc.pending_summaries() + 1
                &&& fc.pending_infos() == oc.pending_infos()
                &&& fc.pending_slots() == oc.pending_slots()
                &&& fc.pending_slot_metas() == oc.pending_slot_metas()
            }),
    {
        let (idx, src_entry) = self.map_dst_to_src_entry(entry_id);
        proof {
            lemma_route_bounds(self.spec_mapping(), entry_id@[0] as u64);
        }
        let src = &mut self.data_sources[idx];
        src.fetch_summary_tile(&src_entry, tile_id, full);
    }

    /// Drain every child's summary tiles: each is restamped into the
    /// merged numbering (or passed through unchanged before a merge
    /// has set the mapping), and exactly as many tiles come out as
    /// the children delivered.
    pub fn get_summary_tiles(&mut self) -> (r: Vec<SummaryTile>)
        ensures
            final(self).spec_mapping() == old(self).spec_mapping(),
            final(self).spec_num_children() == old(self).spec_num_children(),
            r@.len() as int == spec_sum_pending_summaries(old(self).spec_children()) - spec_sum_pending_summaries(
                final(self).spec_children(),
            ),
            forall|j: int|
                0 <= j < old(self).spec_num_children() ==> ({
                    let oc = old(self).spec_child(j);
                    let fc = #[trigger] final(self).spec_child(j);
                    &&& fc.pending_summaries() <= oc.pending_summaries()
                    &&& fc.pending_infos() == oc.pending_infos()
                    &&& fc.pending_slots() == oc.pending_slots()
                    &&& fc.pending_slot_metas() == oc.pending_slot_metas()
                }),
    {
        let n: usize = self.data_sources.len();
        let mut out: Vec<SummaryTile> = Vec::new();
        let mut i: usize = 0;
        proof {
            assert(old(self).spec_children().take(0int) =~= Seq::<T>::empty());
            assert(self.spec_children().take(0int) =~= Seq::<T>::empty());
        }
        while i < n
            invariant
                0 <= i <= n == self.data_sources@.len(),
                n == old(self).spec_num_children(),
                self.spec_mapping() == old(self).spec_mapping(),
                forall|j: int|
                    i <= j < n ==> #[trigger] self.spec_children()[j] == old(
                        self,
                    ).spec_children()[j],
                forall|j: int|
                    0 <= j < i ==> ({
                        let oc = old(self).spec_children()[j];
                        let fc = #[trigger] self.spec_children()[j];
                        &&& fc.pending_summaries() <= oc.pending_summaries()
                    &&& fc.pending_infos() == oc.pending_infos()
                    &&& fc.pending_slots() == oc.pending_slots()
                    &&& fc.pending_slot_metas() == oc.pending_slot_metas()
                    }),
                out@.len() as int == spec_sum_pending_summaries(old(self).spec_children().take(i as int)) - spec_sum_pending_summaries(
                    self.spec_children().take(i as int),
                ),
            decreases n - i,
        {
            let ghost prevc = self.spec_children();
            let ghost prev_out = out@.len();
            let src = &mut self.data_sources[i];
            let mut got = src.get_summary_tiles();
            let ghost got0 = got@.len() as int;
            loop
                invariant
                    0 <= i < self.spec_num_children(),
                    got@.len() <= got0,
                    out@.len() == prev_out + (got0 - got@.len()),
                ensures
                    out@.len() == prev_out + got0,
                decreases got@.len(),
            {
                if got.len() == 0 {
                    break ;
                }
                let tile = got.remove(0);
                if i < self.mapping.len() {
                    out.push(self.map_src_to_dst_summary(i, tile));
                } else {
                    out.push(tile);
                }
            }
            proof {
                let oc = old(self).spec_children();
                let cc = self.spec_children();
                assert(forall|j: int| 0 <= j < cc.len() && j != i ==> #[trigger] cc[j] == prevc[j]);
                assert(prevc[i as int] == old(self).spec_child(i as int));
                assert(cc[i as int].pending_summaries() == prevc[i as int].pending_summaries() - got0);
                assert(cc[i as int].pending_infos() == prevc[i as int].pending_infos());
                assert(cc[i as int].pending_slots() == prevc[i as int].pending_slots());
                assert(cc[i as int].pending_slot_metas() == prevc[i as int].pending_slot_metas());
                assert(cc.take(i as int) =~= prevc.take(i as int));
                assert(spec_sum_pending_summaries(cc.take(i as int)) == spec_sum_pending_summaries(prevc.take(i as int)));
                assert(oc.take(i + 1).drop_last() =~= oc.take(i as int));
                assert(oc.take(i + 1).last() == oc[i as int]);
                assert(spec_sum_pending_summaries(oc.take(i + 1)) == spec_sum_pending_summaries(oc.take(i as int)) + oc[
                    i as int
                ].pending_summaries());
                assert(cc.take(i + 1).drop_last() =~= cc.take(i as int));
                assert(cc.take(i + 1).last() == cc[i as int]);
                assert(spec_sum_pending_summaries(cc.take(i + 1)) == spec_sum_pending_summaries(cc.take(i as int)) + cc[
                    i as int
                ].pending_summaries());
                assert(forall|j: int|
                    0 <= j < i + 1 ==> (#[trigger] cc[j]).pending_summaries() <= oc[j].pending_summaries());
            }
            i = i + 1;
        }
        proof {
            assert(old(self).spec_children().take(n as int) =~= old(self).spec_children());
            assert(self.spec_children().take(n as int) =~= self.spec_children());
        }
        out
    }

    /// Route a slot fetch to the child owning the entry: only that
    /// child may gain a pending request, every other child is
    /// untouched.
    pub fn fetch_slot_tile(&mut self, entry_id: &EntryID, tile_id: TileID, full: bool)
        requires
            old(self).spec_mapping_wf(),
            old(self).spec_mapping().len() <= old(self).spec_num_children(),
            entry_id@.len() > 0,
            entry_id@[0] >= 0,
        ensures
            final(self).spec_mapping() == old(self).spec_mapping(),
            final(self).spec_num_children() == old(self).spec_num_children(),
            forall|j: int|
                0 <= j < old(self).spec_num_children() && j != spec_route(
                    old(self).spec_mapping(),
                    entry_id@[0] as u64,
                ) ==> final(self).spec_child(j) == old(self).spec_child(j),
            ({
                let k = spec_route(old(self).spec_mapping(), entry_id@[0] as u64);
                let oc = old(self).spec_child(k);
                let fc = final(self).spec_child(k);
                &&& oc.pending_slots() <= fc.pending_slots() <= oc.pending_slots() + 1
                &&& fc.pending_infos() == oc.pending_infos()
                &&& fc.pending_summaries() == oc.pending_summaries()
                &&& fc.pending_slot_metas() == oc.pending_slot_metas()
            }),
    {
        let (idx, src_entry) = self.map_dst_to_src_entry(entry_id);
        proof {
            lemma_route_bounds(self.spec_mapping(), entry_id@[0] as u64);
        }
        let src = &mut self.data_sources[idx];
        src.fetch_slot_tile(&src_entry, tile_id, full);
    }

    /// Drain every child's slot tiles: each is restamped into the
    /// merged numbering (or passed through unchanged before a merge
    /// has set the mapping), and exactly as many tiles come out as
    /// the children delivered.
    pub fn get_slot_tiles(&mut self) -> (r: Vec<SlotTile>)
        ensures
            final(self).spec_mapping() == old(self).spec_mapping(),
            final(self).spec_num_children() == old(self).spec_num_children(),
            r@.len() as int == spec_sum_pending_slots(old(self).spec_children()) - spec_sum_pending_slots(
                final(self).spec_children(),
            ),
            forall|j: int|
                0 <= j < old(self).spec_num_children() ==> ({
                    let oc = old(self).spec_child(j);
                    let fc = #[trigger] final(self).spec_child(j);
                    &&& fc.pending_slots() <= oc.pending_slots()
                    &&& fc.pending_infos() == oc.pending_infos()
                    &&& fc.pending_summaries() == oc.pending_summaries()
                    &&& fc.pending_slot_metas() == oc.pending_slot_metas()
                }),
    {
        let n: usize = self.data_sources.len();
        let mut out: Vec<SlotTile> = Vec::new();
        let mut i: usize = 0;
        proof {
            assert(old(self).spec_children().take(0int) =~= Seq::<T>::empty());
            assert(self.spec_children().take(0int) =~= Seq::<T>::empty());
        }
        while i < n
            invariant
                0 <= i <= n == self.data_sources@.len(),
                n == old(self).spec_num_children(),
                self.spec_mapping() == old(self).spec_mapping(),
                forall|j: int|
                    i <= j < n ==> #[trigger] self.spec_children()[j] == old(
                        self,
                    ).spec_children()[j],
                forall|j: int|
                    0 <= j < i ==> ({
                        let oc = old(self).spec_children()[j];
                        let fc = #[trigger] self.spec_children()[j];
                        &&& fc.pending_slots() <= oc.pending_slots()
                    &&& fc.pending_infos() == oc.pending_infos()
                    &&& fc.pending_summaries() == oc.pending_summaries()
                    &&& fc.pending_slot_metas() == oc.pending_slot_metas()
                    }),
                out@.len() as int == spec_sum_pending_slots(old(self).spec_children().take(i as int)) - spec_sum_pending_slots(
                    self.spec_children().take(i as int),
                ),
            decreases n - i,
        {
            let ghost prevc = self.spec_children();
            let ghost prev_out = out@.len();
            let src = &mut self.data_sources[i];
            let mut got = src.get_slot_tiles();
            let ghost got0 = got@.len() as int;
            loop
                invariant
                    0 <= i < self.spec_num_children(),
                    got@.len() <= got0,
                    out@.len() == prev_out + (got0 - got@.len()),
                ensures
                    out@.len() == prev_out + got0,
                decreases got@.len(),
            {
                if got.len() == 0 {
                    break ;
                }
                let tile = got.remove(0);
                if i < self.mapping.len() {
                    out.push(self.map_src_to_dst_slot(i, tile));
                } else {
                    out.push(tile);
                }
            }
            proof {
                let oc = old(self).spec_children();
                let cc = self.spec_children();
                assert(forall|j: int| 0 <= j < cc.len() && j != i ==> #[trigger] cc[j] == prevc[j]);
                assert(prevc[i as int] == old(self).spec_child(i as int));
                assert(cc[i as int].pending_slots() == prevc[i as int].pending_slots() - got0);
                assert(cc[i as int].pending_infos() == prevc[i as int].pending_infos());
                assert(cc[i as int].pending_summaries() == prevc[i as int].pending_summaries());
                assert(cc[i as int].pending_slot_metas() == prevc[i as int].pending_slot_metas());
                assert(cc.take(i as int) =~= prevc.take(i as int));
                assert(spec_sum_pending_slots(cc.take(i as int)) == spec_sum_pending_slots(prevc.take(i as int)));
                assert(oc.take(i + 1).drop_last() =~= oc.take(i as int));
                assert(oc.take(i + 1).last() == oc[i as int]);
                assert(spec_sum_pending_slots(oc.take(i + 1)) == spec_sum_pending_slots(oc.take(i as int)) + oc[
                    i as int
                ].pending_slots());
                assert(cc.take(i + 1).drop_last() =~= cc.take(i as int));
                assert(cc.take(i + 1).last() == cc[i as int]);
                assert(spec_sum_pending_slots(cc.take(i + 1)) == spec_sum_pending_slots(cc.take(i as int)) + cc[
                    i as int
                ].pending_slots());
                assert(forall|j: int|
                    0 <= j < i + 1 ==> (#[trigger] cc[j]).pending_slots() <= oc[j].pending_slots());
            }
            i = i + 1;
        }
        proof {
            assert(old(self).spec_children().take(n as int) =~= old(self).spec_children());
            assert(self.spec_children().take(n as int) =~= self.spec_children());
        }
        out
    }

    /// Route a meta fetch to the child owning the entry: only that
    /// child may gain a pending request, every other child is
    /// untouched.
    pub fn fetch_slot_meta_tile(&mut self, entry_id: &EntryID, tile_id: TileID, full: bool)
        requires
            old(self).spec_mapping_wf(),
            old(self).spec_mapping().len() <= old(self).spec_num_children(),
            entry_id@.len() > 0,
            entry_id@[0] >= 0,
        ensures
            final(self).spec_mapping() == old(self).spec_mapping(),
            final(self).spec_num_children() == old(self).spec_num_children(),
            forall|j: int|
                0 <= j < old(self).spec_num_children() && j != spec_route(
                    old(self).spec_mapping(),
                    entry_id@[0] as u64,
                ) ==> final(self).spec_child(j) == old(self).spec_child(j),
            ({
                let k = spec_route(old(self).spec_mapping(), entry_id@[0] as u64);
                let oc = old(self).spec_child(k);
                let fc = final(self).spec_child(k);
                &&& oc.pending_slot_metas() <= fc.pending_slot_metas() <= oc.pending_slot_metas()
                    + 1
                &&& fc.pending_infos() == oc.pending_infos()
                &&& fc.pending_summaries() == oc.pending_summaries()
                &&& fc.pending_slots() == oc.pending_slots()
            }),
    {
        let (idx, src_entry) = self.map_dst_to_src_entry(entry_id);
        proof {
            lemma_route_bounds(self.spec_mapping(), entry_id@[0] as u64);
        }
        let src = &mut self.data_sources[idx];
        src.fetch_slot_meta_tile(&src_entry, tile_id, full);
    }

    /// Drain every child's meta tiles: each is restamped into the
    /// merged numbering (or passed through unchanged before a merge
    /// has set the mapping), and exactly as many tiles come out as
    /// the children delivered.
    pub fn get_slot_meta_tiles(&mut self) -> (r: Vec<SlotMetaTile>)
        ensures
            final(self).spec_mapping() == old(self).spec_mapping(),
            final(self).spec_num_children() == old(self).spec_num_children(),
            r@.len() as int == spec_sum_pending_slot_metas(old(self).spec_children()) - spec_sum_pending_slot_metas(
                final(self).spec_children(),
            ),
            forall|j: int|
                0 <= j < old(self).spec_num_children() ==> ({
                    let oc = old(self).spec_child(j);
                    let fc = #[trigger] final(self).spec_child(j);
                    &&& fc.pending_slot_metas() <= oc.pending_slot_metas()
                    &&& fc.pending_infos() == oc.pending_infos()
                    &&& fc.pending_summaries() == oc.pending_summaries()
                    &&& fc.pending_slots() == oc.pending_slots()
                }),
    {
        let n: usize = self.data_sources.len();
        let mut out: Vec<SlotMetaTile> = Vec::new();
        let mut i: usize = 0;
        proof {
            assert(old(self).spec_children().take(0int) =~= Seq::<T>::empty());
            assert(self.spec_children().take(0int) =~= Seq::<T>::empty());
        }
        while i < n
            invariant
                0 <= i <= n == self.data_sources@.len(),
                n == old(self).spec_num_children(),
                self.spec_mapping() == old(self).spec_mapping(),
                forall|j: int|
                    i <= j < n ==> #[trigger] self.spec_children()[j] == old(
                        self,
                    ).spec_children()[j],
                forall|j: int|
                    0 <= j < i ==> ({
                        let oc = old(self).spec_children()[j];
                        let fc = #[trigger] self.spec_children()[j];
                        &&& fc.pending_slot_metas() <= oc.pending_slot_metas()
                    &&& fc.pending_infos() == oc.pending_infos()
                    &&& fc.pending_summaries() == oc.pending_summaries()
                    &&& fc.pending_slots() == oc.pending_slots()
                    }),
                out@.len() as int == spec_sum_pending_slot_metas(old(self).spec_children().take(i as int)) - spec_sum_pending_slot_metas(
                    self.spec_children().take(i as int),
                ),
            decreases n - i,
        {
            let ghost prevc = self.spec_children();
            let ghost prev_out = out@.len();
            let src = &mut self.data_sources[i];
            let mut got = src.get_slot_meta_tiles();
            let ghost got0 = got@.len() as int;
            loop
                invariant
                    0 <= i < self.spec_num_children(),
                    got@.len() <= got0,
                    out@.len() == prev_out + (got0 - got@.len()),
                ensures
                    out@.len() == prev_out + got0,
                decreases got@.len(),
            {
                if got.len() == 0 {
                    break ;
                }
                let tile = got.remove(0);
                if i < self.mapping.len() {
                    out.push(self.map_src_to_dst_slot_meta(i, tile));
                } else {
                    out.push(tile);
                }
            }
            proof {
                let oc = old(self).spec_children();
                let cc = self.spec_children();
                assert(forall|j: int| 0 <= j < cc.len() && j != i ==> #[trigger] cc[j] == prevc[j]);
                assert(prevc[i as int] == old(self).spec_child(i as int));
                assert(cc[i as int].pending_slot_metas() == prevc[i as int].pending_slot_metas() - got0);
                assert(cc[i as int].pending_infos() == prevc[i as int].pending_infos());
                assert(cc[i as int].pending_summaries() == prevc[i as int].pending_summaries());
                assert(cc[i as int].pending_slots() == prevc[i as int].pending_slots());
                assert(cc.take(i as int) =~= prevc.take(i as int));
                assert(spec_sum_pending_slot_metas(cc.take(i as int)) == spec_sum_pending_slot_metas(prevc.take(i as int)));
                assert(oc.take(i + 1).drop_last() =~= oc.take(i as int));
                assert(oc.take(i + 1).last() == oc[i as int]);
                assert(spec_sum_pending_slot_metas(oc.take(i + 1)) == spec_sum_pending_slot_metas(oc.take(i as int)) + oc[
                    i as int
                ].pending_slot_metas());
                assert(cc.take(i + 1).drop_last() =~= cc.take(i as int));
                assert(cc.take(i + 1).last() == cc[i as int]);
                assert(spec_sum_pending_slot_metas(cc.take(i + 1)) == spec_sum_pending_slot_metas(cc.take(i as int)) + cc[
                    i as int
                ].pending_slot_metas());
                assert(forall|j: int|
                    0 <= j < i + 1 ==> (#[trigger] cc[j]).pending_slot_metas() <= oc[j].pending_slot_metas());
            }
            i = i + 1;
        }
        proof {
            assert(old(self).spec_children().take(n as int) =~= old(self).spec_children());
            assert(self.spec_children().take(n as int) =~= self.spec_children());
        }
        out
    }
}

/// Replace one item of a row grid.
fn set_item(items: &mut Vec<Vec<crate::data::Item>>, i: usize, j: usize, item: crate::data::Item)
    requires
        i < old(items)@.len(),
        j < old(items)@[i as int]@.len(),
    ensures
        final(items)@.len() == old(items)@.len(),
        forall|x: int|
            0 <= x < final(items)@.len() && x != i ==> (#[trigger] final(items)@[x]) == old(
                items,
            )@[x],
        final(items)@[i as int]@.len() == old(items)@[i as int]@.len(),
{
    let row = &mut items[i];
    row.set(j, item);
}

/// Later elements of a list stand below the list itself.
pub open spec fn height_lt(a: Field, b: Field) -> bool {
    decreases_to!(b => a)
}

proof fn lemma_offset_monotone(infos: Seq<DataSourceInfo>, a: int, b: int)
    requires
        0 <= a <= b <= infos.len(),
    ensures
        spec_offset(infos, a) <= spec_offset(infos, b),
    decreases b - a,
{
    if a < b {
        lemma_offset_monotone(infos, a, b - 1);
    }
}

} // verus!
