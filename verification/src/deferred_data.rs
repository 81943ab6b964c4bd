//! The asynchronous data-source façade: paired submit/poll operations,
//! an inline adapter for synchronous sources, and a wrapper that
//! counts the requests still in flight.

use crate::data::{
    entry_info_equiv, spec_resolves_to_slot, spec_resolves_to_summary, DataSourceDescription,
    DataSourceInfo, DataSourceMut, EntryID, EntryInfo, SlotMetaTile, SlotTile, SummaryTile, TileID,
};
use vstd::prelude::*;

verus! {

/// A deferred data source: each `fetch_*` enqueues a request and
/// returns at once; the matching `get_*` drains whatever results have
/// completed, in no promised order.  The `pending_*` counts track
/// requests submitted and not yet delivered: a drain never returns
/// more results than are pending.
pub trait DeferredDataSource: Sized {
    open spec fn pending_infos(&self) -> nat {
        0
    }

    open spec fn pending_summaries(&self) -> nat {
        0
    }

    open spec fn pending_slots(&self) -> nat {
        0
    }

    open spec fn pending_slot_metas(&self) -> nat {
        0
    }

    fn fetch_description(&self) -> DataSourceDescription;

    fn fetch_info(&mut self)
        ensures
            old(self).pending_infos() <= final(self).pending_infos() <= old(self).pending_infos()
                + 1,
            final(self).pending_summaries() == old(self).pending_summaries(),
            final(self).pending_slots() == old(self).pending_slots(),
            final(self).pending_slot_metas() == old(self).pending_slot_metas(),
    ;

    fn get_infos(&mut self) -> (r: Vec<DataSourceInfo>)
        ensures
            r@.len() <= old(self).pending_infos(),
            final(self).pending_infos() == old(self).pending_infos() - r@.len(),
            final(self).pending_summaries() == old(self).pending_summaries(),
            final(self).pending_slots() == old(self).pending_slots(),
            final(self).pending_slot_metas() == old(self).pending_slot_metas(),
    ;

    fn fetch_summary_tile(&mut self, entry_id: &EntryID, tile_id: TileID, full: bool)
        ensures
            old(self).pending_summaries() <= final(self).pending_summaries() <= old(self).pending_summaries() + 1,
            final(self).pending_infos() == old(self).pending_infos(),
            final(self).pending_slots() == old(self).pending_slots(),
            final(self).pending_slot_metas() == old(self).pending_slot_metas(),
    ;

    fn get_summary_tiles(&mut self) -> (r: Vec<SummaryTile>)
        ensures
            r@.len() <= old(self).pending_summaries(),
            final(self).pending_summaries() == old(self).pending_summaries() - r@.len(),
            final(self).pending_infos() == old(self).pending_infos(),
            final(self).pending_slots() == old(self).pending_slots(),
            final(self).pending_slot_metas() == old(self).pending_slot_metas(),
    ;

    fn fetch_slot_tile(&mut self, entry_id: &EntryID, tile_id: TileID, full: bool)
        ensures
            old(self).pending_slots() <= final(self).pending_slots() <= old(self).pending_slots()
                + 1,
            final(self).pending_infos() == old(self).pending_infos(),
            final(self).pending_summaries() == old(self).pending_summaries(),
            final(self).pending_slot_metas() == old(self).pending_slot_metas(),
    ;

    fn get_slot_tiles(&mut self) -> (r: Vec<SlotTile>)
        ensures
            r@.len() <= old(self).pending_slots(),
            final(self).pending_slots() == old(self).pending_slots() - r@.len(),
            final(self).pending_infos() == old(self).pending_infos(),
            final(self).pending_summaries() == old(self).pending_summaries(),
            final(self).pending_slot_metas() == old(self).pending_slot_metas(),
    ;

    fn fetch_slot_meta_tile(&mut self, entry_id: &EntryID, tile_id: TileID, full: bool)
        ensures
            old(self).pending_slot_metas() <= final(self).pending_slot_metas() <= old(self).pending_slot_metas() + 1,
            final(self).pending_infos() == old(self).pending_infos(),
            final(self).pending_summaries() == old(self).pending_summaries(),
            final(self).pending_slots() == old(self).pending_slots(),
    ;

    fn get_slot_meta_tiles(&mut self) -> (r: Vec<SlotMetaTile>)
        ensures
            r@.len() <= old(self).pending_slot_metas(),
            final(self).pending_slot_metas() == old(self).pending_slot_metas() - r@.len(),
            final(self).pending_infos() == old(self).pending_infos(),
            final(self).pending_summaries() == old(self).pending_summaries(),
            final(self).pending_slots() == old(self).pending_slots(),
    ;
}

/// Adapts a synchronous source: each fetch computes its result inline
/// and stashes it for the next drain.  A tile request for an entry of
/// the wrong kind yields no result.
pub struct DeferredDataSourceWrapper<T: DataSourceMut> {
    data_source: T,
    infos: Vec<DataSourceInfo>,
    summary_tiles: Vec<SummaryTile>,
    slot_tiles: Vec<SlotTile>,
    slot_meta_tiles: Vec<SlotMetaTile>,
}

impl<T: DataSourceMut> DeferredDataSourceWrapper<T> {
    /// The entry tree of the wrapped source.
    pub closed spec fn spec_source_entry_info(&self) -> EntryInfo {
        self.data_source.spec_entry_info()
    }

    /// The stashed results, in submission order.
    pub closed spec fn spec_queued_infos(&self) -> Seq<DataSourceInfo> {
        self.infos@
    }

    pub closed spec fn spec_queued_summaries(&self) -> Seq<SummaryTile> {
        self.summary_tiles@
    }

    pub closed spec fn spec_queued_slots(&self) -> Seq<SlotTile> {
        self.slot_tiles@
    }

    pub closed spec fn spec_queued_slot_metas(&self) -> Seq<SlotMetaTile> {
        self.slot_meta_tiles@
    }

    pub fn new(data_source: T) -> (r: Self)
        ensures
            r.pending_infos() == 0,
            r.pending_summaries() == 0,
            r.pending_slots() == 0,
            r.pending_slot_metas() == 0,
            r.spec_source_entry_info() == data_source.spec_entry_info(),
    {
        Self {
            data_source,
            infos: Vec::new(),
            summary_tiles: Vec::new(),
            slot_tiles: Vec::new(),
            slot_meta_tiles: Vec::new(),
        }
    }
}

impl<T: DataSourceMut> DeferredDataSource for DeferredDataSourceWrapper<T> {
    closed spec fn pending_infos(&self) -> nat {
        self.infos@.len()
    }

    closed spec fn pending_summaries(&self) -> nat {
        self.summary_tiles@.len()
    }

    closed spec fn pending_slots(&self) -> nat {
        self.slot_tiles@.len()
    }

    closed spec fn pending_slot_metas(&self) -> nat {
        self.slot_meta_tiles@.len()
    }

    fn fetch_description(&self) -> DataSourceDescription {
        self.data_source.fetch_description()
    }

    /// Computes the info inline and stashes it: the queue grows by
    /// exactly one, an info equivalent to the source's own tree.
    fn fetch_info(&mut self)
        ensures
            final(self).spec_source_entry_info() == old(self).spec_source_entry_info(),
            final(self).spec_queued_infos().len() == old(self).spec_queued_infos().len() + 1,
            forall|i: int|
                0 <= i < old(self).spec_queued_infos().len() ==> final(self).spec_queued_infos()[i]
                    == old(self).spec_queued_infos()[i],
            entry_info_equiv(
                final(self).spec_queued_infos().last().entry_info,
                old(self).spec_source_entry_info(),
            ),
            final(self).spec_queued_summaries() == old(self).spec_queued_summaries(),
            final(self).spec_queued_slots() == old(self).spec_queued_slots(),
            final(self).spec_queued_slot_metas() == old(self).spec_queued_slot_metas(),
    {
        let info = self.data_source.fetch_info();
        self.infos.push(info);
    }

    /// Drains every stashed info, in submission order.
    fn get_infos(&mut self) -> (r: Vec<DataSourceInfo>)
        ensures
            r@ == old(self).spec_queued_infos(),
            final(self).spec_queued_infos().len() == 0,
            final(self).spec_source_entry_info() == old(self).spec_source_entry_info(),
            final(self).spec_queued_summaries() == old(self).spec_queued_summaries(),
            final(self).spec_queued_slots() == old(self).spec_queued_slots(),
            final(self).spec_queued_slot_metas() == old(self).spec_queued_slot_metas(),
    {
        let mut out: Vec<DataSourceInfo> = Vec::new();
        core::mem::swap(&mut self.infos, &mut out);
        out
    }

    /// Fetches inline: the queue grows by exactly one tile, stamped
    /// with the request, when the entry resolves to a summary of the
    /// wrapped tree, and not at all otherwise.
    fn fetch_summary_tile(&mut self, entry_id: &EntryID, tile_id: TileID, full: bool)
        ensures
            final(self).spec_source_entry_info() == old(self).spec_source_entry_info(),
            ({
                let grown = if spec_resolves_to_summary(
                    old(self).spec_source_entry_info(),
                    entry_id@,
                ) {
                    1int
                } else {
                    0int
                };
                final(self).spec_queued_summaries().len() == old(self).spec_queued_summaries().len() + grown
            }),
            forall|i: int|
                0 <= i < old(self).spec_queued_summaries().len() ==> #[trigger] final(self).spec_queued_summaries()[i] == old(self).spec_queued_summaries()[i],
            ({
                let q = final(self).spec_queued_summaries();
                q.len() > old(self).spec_queued_summaries().len() ==> q.last().entry_id@
                    == entry_id@ && q.last().tile_id == tile_id
            }),
            final(self).spec_queued_infos() == old(self).spec_queued_infos(),
            final(self).spec_queued_slots() == old(self).spec_queued_slots(),
            final(self).spec_queued_slot_metas() == old(self).spec_queued_slot_metas(),
    {
        match self.data_source.fetch_summary_tile(entry_id, tile_id, full) {
            Ok(tile) => self.summary_tiles.push(tile),
            Err(_) => (),
        }
    }

    /// Drains every stashed summary tile, in submission order.
    fn get_summary_tiles(&mut self) -> (r: Vec<SummaryTile>)
        ensures
            r@ == old(self).spec_queued_summaries(),
            final(self).spec_queued_summaries().len() == 0,
            final(self).spec_source_entry_info() == old(self).spec_source_entry_info(),
            final(self).spec_queued_infos() == old(self).spec_queued_infos(),
            final(self).spec_queued_slots() == old(self).spec_queued_slots(),
            final(self).spec_queued_slot_metas() == old(self).spec_queued_slot_metas(),
    {
        let mut out: Vec<SummaryTile> = Vec::new();
        core::mem::swap(&mut self.summary_tiles, &mut out);
        out
    }

    /// Fetches inline: the queue grows by exactly one tile, stamped
    /// with the request, when the entry resolves to a slot of the
    /// wrapped tree, and not at all otherwise.
    fn fetch_slot_tile(&mut self, entry_id: &EntryID, tile_id: TileID, full: bool)
        ensures
            final(self).spec_source_entry_info() == old(self).spec_source_entry_info(),
            ({
                let grown = if spec_resolves_to_slot(
                    old(self).spec_source_entry_info(),
                    entry_id@,
                ) {
                    1int
                } else {
                    0int
                };
                final(self).spec_queued_slots().len() == old(self).spec_queued_slots().len()
                    + grown
            }),
            forall|i: int|
                0 <= i < old(self).spec_queued_slots().len() ==> #[trigger] final(self).spec_queued_slots()[i] == old(self).spec_queued_slots()[i],
            ({
                let q = final(self).spec_queued_slots();
                q.len() > old(self).spec_queued_slots().len() ==> q.last().entry_id@ == entry_id@
                    && q.last().tile_id == tile_id
            }),
            final(self).spec_queued_infos() == old(self).spec_queued_infos(),
            final(self).spec_queued_summaries() == old(self).spec_queued_summaries(),
            final(self).spec_queued_slot_metas() == old(self).spec_queued_slot_metas(),
    {
        match self.data_source.fetch_slot_tile(entry_id, tile_id, full) {
            Ok(tile) => self.slot_tiles.push(tile),
            Err(_) => (),
        }
    }

    /// Drains every stashed slot tile, in submission order.
    fn get_slot_tiles(&mut self) -> (r: Vec<SlotTile>)
        ensures
            r@ == old(self).spec_queued_slots(),
            final(self).spec_queued_slots().len() == 0,
            final(self).spec_source_entry_info() == old(self).spec_source_entry_info(),
            final(self).spec_queued_infos() == old(self).spec_queued_infos(),
            final(self).spec_queued_summaries() == old(self).spec_queued_summaries(),
            final(self).spec_queued_slot_metas() == old(self).spec_queued_slot_metas(),
    {
        let mut out: Vec<SlotTile> = Vec::new();
        core::mem::swap(&mut self.slot_tiles, &mut out);
        out
    }

    /// Fetches inline: the queue grows by exactly one tile, stamped
    /// with the request, when the entry resolves to a slot of the
    /// wrapped tree, and not at all otherwise.
    fn fetch_slot_meta_tile(&mut self, entry_id: &EntryID, tile_id: TileID, full: bool)
        ensures
            final(self).spec_source_entry_info() == old(self).spec_source_entry_info(),
            ({
                let grown = if spec_resolves_to_slot(
                    old(self).spec_source_entry_info(),
                    entry_id@,
                ) {
                    1int
                } else {
                    0int
                };
                final(self).spec_queued_slot_metas().len() == old(self).spec_queued_slot_metas().len() + grown
            }),
            forall|i: int|
                0 <= i < old(self).spec_queued_slot_metas().len() ==> #[trigger] final(self).spec_queued_slot_metas()[i] == old(self).spec_queued_slot_metas()[i],
            ({
                let q = final(self).spec_queued_slot_metas();
                q.len() > old(self).spec_queued_slot_metas().len() ==> q.last().entry_id@
                    == entry_id@ && q.last().tile_id == tile_id
            }),
            final(self).spec_queued_infos() == old(self).spec_queued_infos(),
            final(self).spec_queued_summaries() == old(self).spec_queued_summaries(),
            final(self).spec_queued_slots() == old(self).spec_queued_slots(),
    {
        match self.data_source.fetch_slot_meta_tile(entry_id, tile_id, full) {
            Ok(tile) => self.slot_meta_tiles.push(tile),
            Err(_) => (),
        }
    }

    /// Drains every stashed meta tile, in submission order.
    fn get_slot_meta_tiles(&mut self) -> (r: Vec<SlotMetaTile>)
        ensures
            r@ == old(self).spec_queued_slot_metas(),
            final(self).spec_queued_slot_metas().len() == 0,
            final(self).spec_source_entry_info() == old(self).spec_source_entry_info(),
            final(self).spec_queued_infos() == old(self).spec_queued_infos(),
            final(self).spec_queued_summaries() == old(self).spec_queued_summaries(),
            final(self).spec_queued_slots() == old(self).spec_queued_slots(),
    {
        let mut out: Vec<SlotMetaTile> = Vec::new();
        core::mem::swap(&mut self.slot_meta_tiles, &mut out);
        out
    }
}

/// Tracks `outstanding_requests`: submits minus delivered results.
/// The count never underflows: a drain is bounded by what is pending
/// below, and everything pending was once submitted.
pub struct CountingDeferredDataSource<T: DeferredDataSource> {
    data_source: T,
    outstanding_requests: u64,
}

impl<T: DeferredDataSource> CountingDeferredDataSource<T> {
    /// The sum of the underlying pending counts.
    pub closed spec fn spec_pending_total(&self) -> int {
        self.data_source.pending_infos() as int + self.data_source.pending_summaries() as int
            + self.data_source.pending_slots() as int + self.data_source.pending_slot_metas() as int
    }

    pub closed spec fn spec_outstanding(&self) -> u64 {
        self.outstanding_requests
    }

    /// The counter covers everything still pending below.
    pub open spec fn wf(&self) -> bool {
        self.spec_outstanding() as int >= self.spec_pending_total()
    }

    /// Wrap a source with nothing in flight.
    pub fn new(data_source: T) -> (r: Self)
        requires
            data_source.pending_infos() == 0,
            data_source.pending_summaries() == 0,
            data_source.pending_slots() == 0,
            data_source.pending_slot_metas() == 0,
        ensures
            r.wf(),
            r.spec_outstanding() == 0,
    {
        Self { data_source, outstanding_requests: 0 }
    }

    /// How many submitted requests have not yet been delivered.
    pub fn outstanding_requests(&self) -> (r: u64)
        ensures
            r == self.spec_outstanding(),
    {
        self.outstanding_requests
    }

    pub fn fetch_description(&self) -> DataSourceDescription {
        self.data_source.fetch_description()
    }

    pub fn fetch_info(&mut self)
        requires
            old(self).wf(),
            old(self).spec_outstanding() < u64::MAX,
        ensures
            final(self).wf(),
            final(self).spec_outstanding() == old(self).spec_outstanding() + 1,
    {
        self.outstanding_requests = self.outstanding_requests + 1;
        self.data_source.fetch_info();
    }

    pub fn get_infos(&mut self) -> (r: Vec<DataSourceInfo>)
        requires
            old(self).wf(),
        ensures
            final(self).wf(),
            r@.len() <= old(self).spec_outstanding(),
            final(self).spec_outstanding() == old(self).spec_outstanding() - r@.len(),
    {
        let r = self.data_source.get_infos();
        self.outstanding_requests = self.outstanding_requests - r.len() as u64;
        r
    }

    pub fn fetch_summary_tile(&mut self, entry_id: &EntryID, tile_id: TileID, full: bool)
        requires
            old(self).wf(),
            old(self).spec_outstanding() < u64::MAX,
        ensures
            final(self).wf(),
            final(self).spec_outstanding() == old(self).spec_outstanding() + 1,
    {
        self.outstanding_requests = self.outstanding_requests + 1;
        self.data_source.fetch_summary_tile(entry_id, tile_id, full);
    }

    pub fn get_summary_tiles(&mut self) -> (r: Vec<SummaryTile>)
        requires
            old(self).wf(),
        ensures
            final(self).wf(),
            r@.len() <= old(self).spec_outstanding(),
            final(self).spec_outstanding() == old(self).spec_outstanding() - r@.len(),
    {
        let r = self.data_source.get_summary_tiles();
        self.outstanding_requests = self.outstanding_requests - r.len() as u64;
        r
    }

    pub fn fetch_slot_tile(&mut self, entry_id: &EntryID, tile_id: TileID, full: bool)
        requires
            old(self).wf(),
            old(self).spec_outstanding() < u64::MAX,
        ensures
            final(self).wf(),
            final(self).spec_outstanding() == old(self).spec_outstanding() + 1,
    {
        self.outstanding_requests = self.outstanding_requests + 1;
        self.data_source.fetch_slot_tile(entry_id, tile_id, full);
    }

    pub fn get_slot_tiles(&mut self) -> (r: Vec<SlotTile>)
        requires
            old(self).wf(),
        ensures
            final(self).wf(),
            r@.len() <= old(self).spec_outstanding(),
            final(self).spec_outstanding() == old(self).spec_outstanding() - r@.len(),
    {
        let r = self.data_source.get_slot_tiles();
        self.outstanding_requests = self.outstanding_requests - r.len() as u64;
        r
    }

    pub fn fetch_slot_meta_tile(&mut self, entry_id: &EntryID, tile_id: TileID, full: bool)
        requires
            old(self).wf(),
            old(self).spec_outstanding() < u64::MAX,
        ensures
            final(self).wf(),
            final(self).spec_outstanding() == old(self).spec_outstanding() + 1,
    {
        self.outstanding_requests = self.outstanding_requests + 1;
        self.data_source.fetch_slot_meta_tile(entry_id, tile_id, full);
    }

    pub fn get_slot_meta_tiles(&mut self) -> (r: Vec<SlotMetaTile>)
        requires
            old(self).wf(),
        ensures
            final(self).wf(),
            r@.len() <= old(self).spec_outstanding(),
            final(self).spec_outstanding() == old(self).spec_outstanding() - r@.len(),
    {
        let r = self.data_source.get_slot_meta_tiles();
        self.outstanding_requests = self.outstanding_requests - r.len() as u64;
        r
    }
}

} // verus!
