use legion_prof_viewer::archive_data::{pyramid_level_tiles, ArchiveError, DataSourceArchiveWriter};
use legion_prof_viewer::data::{
    DataSourceDescription, DataSourceInfo, DataSourceMut, EntryID, EntryInfo, FieldSchema,
    SlotMetaTile, SlotTile, SlotTileData, SummaryTile, TileID, TileSet,
};
use legion_prof_viewer::deferred_data::{
    CountingDeferredDataSource, DeferredDataSource, DeferredDataSourceWrapper,
};
use legion_prof_viewer::merge_data::{MergeDeferredDataSource, MergeError};
use legion_prof_viewer::random_data::RandomDataSource;
use legion_prof_viewer::tile_select::TileSelector;
use legion_prof_viewer::timestamp::{Interval, Timestamp};

type Merge = MergeDeferredDataSource<DeferredDataSourceWrapper<RandomDataSource>>;

fn iv(start: i64, stop: i64) -> Interval {
    Interval::new(Timestamp(start), Timestamp(stop))
}

#[test]
fn test_merge_entry() {
    let first = EntryInfo::Panel {
        short_name: "F".to_string(),
        long_name: "First".to_string(),
        summary: None,
        slots: vec![EntryInfo::Slot {
            short_name: "S1".to_string(),
            long_name: "Slot 1".to_string(),
            max_rows: 1,
        }],
    };
    let second = EntryInfo::Panel {
        short_name: "S".to_string(),
        long_name: "Second".to_string(),
        summary: None,
        slots: vec![EntryInfo::Slot {
            short_name: "S2".to_string(),
            long_name: "Slot 2".to_string(),
            max_rows: 2,
        }],
    };

    let merge = Merge::merge_entry(first, second);

    let EntryInfo::Panel { short_name, long_name, summary, slots } = merge else {
        panic!("unexpected variant result in merge");
    };

    assert_eq!(short_name, "F");
    assert_eq!(long_name, "First");
    assert!(summary.is_none());
    assert_eq!(slots.len(), 2);

    let EntryInfo::Slot { short_name: slot0_short_name, .. } = &slots[0] else {
        panic!("unexpected variant result in slot 0");
    };
    assert_eq!(slot0_short_name, "S1");

    let EntryInfo::Slot { short_name: slot1_short_name, .. } = &slots[1] else {
        panic!("unexpected variant result in slot 1");
    };
    assert_eq!(slot1_short_name, "S2");
}

#[test]
fn test_merge_info() {
    let first = DataSourceInfo {
        entry_info: EntryInfo::Panel {
            short_name: "F".to_string(),
            long_name: "First".to_string(),
            summary: None,
            slots: vec![
                EntryInfo::Slot {
                    short_name: "S1".to_string(),
                    long_name: "Slot 1".to_string(),
                    max_rows: 1,
                },
                EntryInfo::Slot {
                    short_name: "S2".to_string(),
                    long_name: "Slot 2".to_string(),
                    max_rows: 1,
                },
            ],
        },
        interval: iv(0, 1000),
        tile_set: TileSet { tiles: Vec::new() },
        field_schema: FieldSchema::new(),
    };
    let second = DataSourceInfo {
        entry_info: EntryInfo::Panel {
            short_name: "S".to_string(),
            long_name: "Second".to_string(),
            summary: None,
            slots: vec![EntryInfo::Slot {
                short_name: "S3".to_string(),
                long_name: "Slot 3".to_string(),
                max_rows: 2,
            }],
        },
        interval: iv(0, 2000),
        tile_set: TileSet { tiles: Vec::new() },
        field_schema: FieldSchema::new(),
    };

    let infos = vec![first, second];

    let mapping = Merge::compute_mapping(&infos).unwrap();
    assert_eq!(mapping, vec![0, 2]);

    let merge = Merge::merge_infos(infos);

    assert_eq!(merge.interval, iv(0, 2000));
    assert!(merge.tile_set.tiles.is_empty());

    let EntryInfo::Panel { short_name, long_name, summary, slots } = merge.entry_info else {
        panic!("unexpected variant result in merge");
    };

    assert_eq!(short_name, "F");
    assert_eq!(long_name, "First");
    assert!(summary.is_none());
    assert_eq!(slots.len(), 3);

    let EntryInfo::Slot { short_name: slot0_short_name, .. } = &slots[0] else {
        panic!("unexpected variant result in slot 0");
    };
    assert_eq!(slot0_short_name, "S1");

    let EntryInfo::Slot { short_name: slot1_short_name, .. } = &slots[1] else {
        panic!("unexpected variant result in slot 1");
    };
    assert_eq!(slot1_short_name, "S2");

    let EntryInfo::Slot { short_name: slot2_short_name, .. } = &slots[2] else {
        panic!("unexpected variant result in slot 2");
    };
    assert_eq!(slot2_short_name, "S3");
}

fn generator(nodes: u64, total: Interval) -> RandomDataSource {
    RandomDataSource::new(nodes, vec!["CPU".to_string()], 1, 1, 10, total)
}

#[test]
fn merge_routes_to_the_right_child() {
    let a = generator(2, iv(0, 1000));
    let b = generator(3, iv(0, 2000));
    let mut merge = MergeDeferredDataSource::new(vec![
        DeferredDataSourceWrapper::new(a),
        DeferredDataSourceWrapper::new(b),
    ]);
    merge.fetch_info();
    let infos = merge.get_infos().unwrap();
    assert_eq!(infos.len(), 1);
    let EntryInfo::Panel { slots, .. } = &infos[0].entry_info else {
        panic!("merged root is not a panel");
    };
    assert_eq!(slots.len(), 5);
    assert_eq!(infos[0].interval, iv(0, 2000));

    // Merged entry [3] belongs to the second child as its entry [1].
    let dst = EntryID::root().child(3);
    let (idx, src) = merge.map_dst_to_src_entry(&dst);
    assert_eq!(idx, 1);
    assert_eq!(src.slot_index(0), Some(1));

    // And shifting it back up restores the merged numbering.
    let up = merge.map_src_to_dst_entry(idx, &src);
    assert_eq!(up.slot_index(0), Some(3));
}

#[test]
fn merge_spreads_item_uids() {
    let a = generator(1, iv(0, 1000));
    let b = generator(1, iv(0, 1000));
    let merge = MergeDeferredDataSource::new(vec![
        DeferredDataSourceWrapper::new(a),
        DeferredDataSourceWrapper::new(b),
    ]);
    let dst = merge.map_src_to_dst_item_uid(1, legion_prof_viewer::data::ItemUID(21));
    assert_eq!(dst.0, 43);
    assert_eq!(dst.0 / 2, 21);
    assert_eq!(dst.0 % 2, 1);
}

#[test]
fn merge_restamps_fetched_tiles() {
    let a = generator(1, iv(0, 1_000_000));
    let b = generator(1, iv(0, 1_000_000));
    let mut merge = MergeDeferredDataSource::new(vec![
        DeferredDataSourceWrapper::new(a),
        DeferredDataSourceWrapper::new(b),
    ]);
    merge.fetch_info();
    assert_eq!(merge.get_infos().unwrap().len(), 1);

    // Merged entry [1, 0, 0] is the second child's slot [0, 0, 0].
    let slot = EntryID::root().child(1).child(0).child(0);
    let tile = TileID(iv(0, 1_000_000));
    merge.fetch_slot_tile(&slot, tile, true);
    let tiles = merge.get_slot_tiles();
    assert_eq!(tiles.len(), 1);
    assert_eq!(tiles[0].entry_id.slot_index(0), Some(1));
    assert_eq!(tiles[0].tile_id, tile);
    // The second child's identifiers occupy the odd residues.
    for row in &tiles[0].data.items {
        for item in row {
            assert_eq!(item.item_uid.0 % 2, 1);
        }
    }
}

#[test]
fn selector_dynamic_source_returns_the_clipped_view() {
    let mut sel = TileSelector::new(iv(0, 1_000_000), Vec::new());
    let tiles = sel.request_tiles(iv(250_000, 2_000_000));
    assert_eq!(tiles, vec![TileID(iv(250_000, 1_000_000))]);
}

#[test]
fn selector_picks_the_best_level() {
    let total = iv(0, 1_000_000);
    let mut tile_set: Vec<Vec<TileID>> = Vec::new();
    let mut n: u64 = 1;
    for _ in 0..4 {
        tile_set.push(pyramid_level_tiles(1_000_000, n));
        n *= 10;
    }
    let mut sel = TileSelector::new(total, tile_set);
    let tiles = sel.request_tiles(iv(100_000, 110_000));
    // Level 2 holds tiles of 10_000 ns; exactly one overlaps the view.
    assert_eq!(tiles, vec![TileID(iv(100_000, 110_000))]);
}

#[test]
fn selector_memoizes_identical_requests() {
    let total = iv(0, 1_000_000);
    let tile_set = vec![pyramid_level_tiles(1_000_000, 1), pyramid_level_tiles(1_000_000, 10)];
    let mut sel = TileSelector::new(total, tile_set);
    let view = iv(42_000, 99_000);
    let first = sel.request_tiles(view);
    let second = sel.request_tiles(view);
    assert_eq!(first, second);
    assert!(!first.is_empty());
}

#[test]
fn pyramid_levels_partition_the_duration() {
    let tiles = pyramid_level_tiles(1_000_001, 4);
    assert_eq!(tiles.len(), 4);
    assert_eq!(tiles[0].0.start, Timestamp(0));
    assert_eq!(tiles[3].0.stop, Timestamp(1_000_001));
    for w in tiles.windows(2) {
        assert_eq!(w[0].0.stop, w[1].0.start);
    }
}

#[test]
fn archive_round_trip_in_memory() {
    let source = generator(1, iv(0, 4_000_000));
    let wrapper = DeferredDataSourceWrapper::new(source);
    let writer = DataSourceArchiveWriter::new(wrapper, 2, 4);
    let archive = writer.write().unwrap();

    // The re-issued info records the pyramid.
    assert_eq!(archive.info.tile_set.tiles.len(), 2);
    assert_eq!(archive.info.tile_set.tiles[0].len(), 1);
    assert_eq!(archive.info.tile_set.tiles[1].len(), 4);

    // The slot's first level-1 tile holds every item clipped to it.
    let slot_entry = EntryID::root().child(0).child(0).child(0);
    let tile = TileID(iv(0, 1_000_000));
    let slot_tile = archive.find_slot_tile(&slot_entry, tile).expect("slot tile missing");
    assert_eq!(slot_tile.data.items.len(), 1);
    let row = &slot_tile.data.items[0];
    assert!(!row.is_empty());
    for item in row {
        assert!(0 <= item.interval.start.0);
        assert!(item.interval.stop.0 <= 1_000_000);
    }

    // The meta tile at the same slug is row-aligned with it.
    let meta_tile = archive.find_slot_meta_tile(&slot_entry, tile).expect("meta tile missing");
    assert_eq!(meta_tile.data.items.len(), 1);
    let meta_row = &meta_tile.data.items[0];
    assert_eq!(meta_row.len(), row.len());
    for (item, meta) in row.iter().zip(meta_row.iter()) {
        assert_eq!(item.item_uid, meta.item_uid);
        assert!(meta.original_interval.start.0 <= item.interval.start.0);
        assert!(item.interval.stop.0 <= meta.original_interval.stop.0);
    }

    // Summary tiles were archived for the kind panel's summary child.
    assert!(!archive.summary_tiles.is_empty());
}

#[test]
fn generator_random_interval_is_in_range() {
    for _ in 0..16 {
        let source = RandomDataSource::new_random(1, vec!["CPU".to_string()], 1, 1, 1);
        let mut source = source;
        let info = source.fetch_info();
        assert_eq!(info.interval.start, Timestamp(0));
        assert!(1_000_000 <= info.interval.stop.0 && info.interval.stop.0 < 2_000_000);
    }
}

#[test]
fn generator_rejects_wrong_entry_kinds() {
    let mut source = generator(1, iv(0, 1000));
    let root = EntryID::root();
    let tile = TileID(iv(0, 1000));
    assert!(source.fetch_slot_tile(&root, tile, false).is_err());
    assert!(source.fetch_summary_tile(&root, tile, false).is_err());
    let slot = EntryID::root().child(0).child(0).child(0);
    assert!(source.fetch_slot_tile(&slot, tile, false).is_ok());
    assert!(source.fetch_summary_tile(&slot, tile, false).is_err());
    let summary = EntryID::root().child(0).child(0).summary();
    assert!(source.fetch_summary_tile(&summary, tile, false).is_ok());
    assert!(source.fetch_slot_tile(&summary, tile, false).is_err());
}

#[test]
fn generator_summary_tile_stays_inside_the_tile() {
    let mut source = generator(1, iv(0, 1_000_000));
    let summary = EntryID::root().child(0).child(0).summary();
    let tile = TileID(iv(250_000, 750_000));
    let t = source.fetch_summary_tile(&summary, tile, true).unwrap();
    assert!(!t.data.utilization.is_empty());
    for p in &t.data.utilization {
        assert!(250_000 <= p.time.0 && p.time.0 <= 750_000);
        assert!(p.util <= 1_000_000_000);
    }
}

struct ScriptedSource {
    infos: Vec<DataSourceInfo>,
    batches: Vec<Vec<SlotTile>>,
}

impl DeferredDataSource for ScriptedSource {
    fn fetch_description(&self) -> DataSourceDescription {
        DataSourceDescription { source_locator: Vec::new() }
    }

    fn fetch_info(&mut self) {
    }

    fn get_infos(&mut self) -> Vec<DataSourceInfo> {
        std::mem::take(&mut self.infos)
    }

    fn fetch_summary_tile(&mut self, _entry_id: &EntryID, _tile_id: TileID, _full: bool) {
    }

    fn get_summary_tiles(&mut self) -> Vec<SummaryTile> {
        Vec::new()
    }

    fn fetch_slot_tile(&mut self, _entry_id: &EntryID, _tile_id: TileID, _full: bool) {
    }

    fn get_slot_tiles(&mut self) -> Vec<SlotTile> {
        if self.batches.is_empty() {
            Vec::new()
        } else {
            self.batches.remove(0)
        }
    }

    fn fetch_slot_meta_tile(&mut self, _entry_id: &EntryID, _tile_id: TileID, _full: bool) {
    }

    fn get_slot_meta_tiles(&mut self) -> Vec<SlotMetaTile> {
        Vec::new()
    }
}

fn empty_slot_tile() -> SlotTile {
    SlotTile {
        entry_id: EntryID::root(),
        tile_id: TileID(Interval::new(Timestamp(0), Timestamp(1))),
        data: SlotTileData { items: Vec::new() },
    }
}

#[test]
fn outstanding_request_accounting() {
    let batch3: Vec<SlotTile> = (0..3).map(|_| empty_slot_tile()).collect();
    let batch4: Vec<SlotTile> = (0..4).map(|_| empty_slot_tile()).collect();
    let source = ScriptedSource { infos: Vec::new(), batches: vec![batch3, batch4] };
    let mut counting = CountingDeferredDataSource::new(source);

    let entry = EntryID::root();
    let tile = TileID(Interval::new(Timestamp(0), Timestamp(1)));
    for _ in 0..7 {
        counting.fetch_slot_tile(&entry, tile, false);
    }
    assert_eq!(counting.outstanding_requests(), 7);

    let first = counting.get_slot_tiles();
    assert_eq!(first.len(), 3);
    assert_eq!(counting.outstanding_requests(), 4);

    let second = counting.get_slot_tiles();
    assert_eq!(second.len(), 4);
    assert_eq!(counting.outstanding_requests(), 0);

    let third = counting.get_slot_tiles();
    assert!(third.is_empty());
    assert_eq!(counting.outstanding_requests(), 0);
}

fn scripted_info(tiles: Vec<Vec<TileID>>) -> DataSourceInfo {
    DataSourceInfo {
        entry_info: EntryInfo::Panel {
            short_name: "root".to_string(),
            long_name: "root".to_string(),
            summary: None,
            slots: vec![EntryInfo::Slot {
                short_name: "s".to_string(),
                long_name: "s".to_string(),
                max_rows: 1,
            }],
        },
        interval: iv(0, 1000),
        tile_set: TileSet { tiles },
        field_schema: FieldSchema::new(),
    }
}

#[test]
fn merge_rejects_disagreeing_tile_sets() {
    let a = ScriptedSource { infos: vec![scripted_info(Vec::new())], batches: Vec::new() };
    let b = ScriptedSource {
        infos: vec![scripted_info(vec![vec![TileID(iv(0, 1000))]])],
        batches: Vec::new(),
    };
    let mut merge = MergeDeferredDataSource::new(vec![a, b]);
    merge.fetch_info();
    assert_eq!(merge.get_infos().unwrap_err(), MergeError::TileSetMismatch);
}

#[test]
fn archive_writer_rejects_static_sources() {
    let source = ScriptedSource {
        infos: vec![scripted_info(vec![vec![TileID(iv(0, 1000))]])],
        batches: Vec::new(),
    };
    let writer = DataSourceArchiveWriter::new(source, 1, 2);
    assert_eq!(writer.write().unwrap_err(), ArchiveError::NotDynamic);
}

#[test]
fn file_source_paths_follow_the_layout() {
    let src = legion_prof_viewer::file_data::FileDataSource::new("prof".to_string());
    assert_eq!(&src.info_path(), "prof/info");
    let entry = EntryID::root().child(0).child(0).child(0);
    let tile = TileID(iv(0, 1_000_000));
    assert_eq!(&src.slot_tile_path(&entry, tile), "prof/slot_tile/0_0_0/0_1000000");
    assert_eq!(
        &src.slot_meta_tile_path(&entry, tile),
        "prof/slot_meta_tile/0_0_0/0_1000000"
    );
    let summary = EntryID::root().child(0).child(0).summary();
    assert_eq!(
        &src.summary_tile_path(&summary, tile),
        "prof/summary_tile/0_0_-1/0_1000000"
    );
    let desc = src.fetch_description();
    assert_eq!(desc.source_locator, vec!["prof".to_string()]);
}

#[test]
fn wrapper_defers_and_delivers() {
    let mut w = DeferredDataSourceWrapper::new(generator(1, iv(0, 1_000_000)));
    let slot = EntryID::root().child(0).child(0).child(0);
    let tile = TileID(iv(0, 1_000_000));
    w.fetch_info();
    w.fetch_slot_tile(&slot, tile, true);
    w.fetch_slot_meta_tile(&slot, tile, true);
    assert_eq!(w.get_infos().len(), 1);
    let slots = w.get_slot_tiles();
    assert_eq!(slots.len(), 1);
    assert_eq!(slots[0].tile_id, tile);
    assert_eq!(w.get_slot_tiles().len(), 0);
    assert_eq!(w.get_slot_meta_tiles().len(), 1);
}
