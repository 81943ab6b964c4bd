use legion_prof_viewer::data::{
    Color, EntryID, EntryIDSlug, EntryIndex, EntryInfo, FieldSchema, SlugParseError, TileID,
    TileIDSlug, TileSet,
};
use legion_prof_viewer::http::schema::{TileRequestPath, TileRequestRef};
use legion_prof_viewer::timestamp::{Interval, Timestamp};

fn sample_entry() -> EntryID {
    EntryID::root().child(3).child(0).summary()
}

#[test]
fn entry_id_child_last_slot_index() {
    let e = EntryID::root().child(7);
    assert_eq!(e.last_slot_index(), Some(7));
    assert_eq!(e.last_index(), Some(EntryIndex::Slot(7)));
    let deeper = e.child(2);
    assert_eq!(deeper.last_slot_index(), Some(2));
}

#[test]
fn entry_id_summary_last_index() {
    let e = EntryID::root().child(1).summary();
    assert_eq!(e.last_index(), Some(EntryIndex::Summary));
    assert_eq!(e.last_slot_index(), None);
}

#[test]
fn entry_id_prefix_of_root() {
    let root = EntryID::root();
    assert!(sample_entry().has_prefix(&root));
    assert!(root.has_prefix(&root));
    let e = EntryID::root().child(1);
    assert!(e.has_prefix(&root));
    assert!(!root.has_prefix(&e));
}

#[test]
fn entry_id_levels_and_indexes() {
    let e = sample_entry();
    assert_eq!(e.level(), 3);
    assert_eq!(e.index(0), Some(EntryIndex::Slot(3)));
    assert_eq!(e.index(1), Some(EntryIndex::Slot(0)));
    assert_eq!(e.index(2), Some(EntryIndex::Summary));
    assert_eq!(e.index(3), None);
    assert_eq!(e.slot_index(0), Some(3));
    assert_eq!(e.slot_index(2), None);
}

#[test]
fn entry_id_slug_round_trip() {
    let e = sample_entry();
    let slug = EntryIDSlug(&e).to_slug();
    assert_eq!(&slug, "3_0_-1");
    let back = EntryID::from_slug(&slug).unwrap();
    assert_eq!(back.level(), 3);
    assert_eq!(back.index(0), Some(EntryIndex::Slot(3)));
    assert_eq!(back.index(2), Some(EntryIndex::Summary));
}

#[test]
fn entry_id_slug_rejects_junk() {
    assert_eq!(EntryID::from_slug("").unwrap_err(), SlugParseError::ParseInt);
    assert_eq!(EntryID::from_slug("1_x").unwrap_err(), SlugParseError::ParseInt);
    assert_eq!(EntryID::from_slug("1__2").unwrap_err(), SlugParseError::ParseInt);
}

#[test]
fn tile_id_slug_round_trip() {
    let t = TileID(Interval::new(Timestamp(0), Timestamp(1_000_000)));
    let slug = TileIDSlug(t).to_slug();
    assert_eq!(&slug, "0_1000000");
    assert_eq!(TileID::from_slug(&slug), Ok(t));
    let neg = TileID(Interval::new(Timestamp(-5), Timestamp(7)));
    let neg_slug = TileIDSlug(neg).to_slug();
    assert_eq!(&neg_slug, "-5_7");
    assert_eq!(TileID::from_slug(&neg_slug), Ok(neg));
}

#[test]
fn slug_extreme_values_round_trip() {
    let e = EntryID::from_slug("-9223372036854775808_9223372036854775807").unwrap();
    assert_eq!(e.level(), 2);
    assert_eq!(e.last_slot_index(), Some(9223372036854775807));
    assert_eq!(
        EntryID::from_slug("9223372036854775808").unwrap_err(),
        SlugParseError::ParseInt
    );
}

#[test]
fn tile_id_slug_arity_errors() {
    assert_eq!(TileID::from_slug("1"), Err(SlugParseError::TooFewValues));
    assert_eq!(TileID::from_slug("1_2_3"), Err(SlugParseError::TooManyValues));
    assert_eq!(TileID::from_slug("a_b"), Err(SlugParseError::ParseInt));
}

#[test]
fn tile_request_path_parses() {
    let p = TileRequestPath { entry_id: "0_1_2".to_string(), tile_id: "5_10".to_string() };
    let req = p.parse().unwrap();
    assert_eq!(req.entry_id.level(), 3);
    assert_eq!(req.tile_id, TileID(Interval::new(Timestamp(5), Timestamp(10))));
    let slug = TileRequestRef { entry_id: &req.entry_id, tile_id: req.tile_id }.to_slug();
    assert_eq!(&slug, "0_1_2/5_10");
    let bad = TileRequestPath { entry_id: "0".to_string(), tile_id: "5".to_string() };
    assert_eq!(bad.parse().unwrap_err(), SlugParseError::TooFewValues);
}

fn slot(name: &str) -> EntryInfo {
    EntryInfo::Slot { short_name: name.to_string(), long_name: name.to_string(), max_rows: 1 }
}

fn kind_panel(name: &str, slots: Vec<EntryInfo>) -> EntryInfo {
    EntryInfo::Panel {
        short_name: name.to_string(),
        long_name: name.to_string(),
        summary: Some(Box::new(EntryInfo::Summary {
            color: Color { r: 1, g: 2, b: 3, a: 255 },
        })),
        slots,
    }
}

fn node_panel(name: &str, slots: Vec<EntryInfo>) -> EntryInfo {
    EntryInfo::Panel {
        short_name: name.to_string(),
        long_name: name.to_string(),
        summary: None,
        slots,
    }
}

fn sample_tree() -> EntryInfo {
    let n0 = node_panel(
        "n0",
        vec![kind_panel("cpu", vec![slot("c0"), slot("c1")]), kind_panel("gpu", vec![slot("g0")])],
    );
    let n1 = node_panel("n1", vec![kind_panel("cpu", vec![slot("c0")])]);
    node_panel("root", vec![n0, n1])
}

#[test]
fn entry_info_get_resolves_paths() {
    let tree = sample_tree();
    let root = EntryID::root();
    assert!(tree.get(&root).is_some());
    let cpu = root.child(0).child(0);
    assert!(matches!(tree.get(&cpu), Some(EntryInfo::Panel { .. })));
    let c1 = cpu.child(1);
    assert!(matches!(tree.get(&c1), Some(EntryInfo::Slot { .. })));
    let cpu_summary = cpu.summary();
    assert!(matches!(tree.get(&cpu_summary), Some(EntryInfo::Summary { .. })));

    // Every failing element makes the whole path undefined.
    assert!(tree.get(&root.child(2)).is_none());
    assert!(tree.get(&root.summary()).is_none());
    assert!(tree.get(&c1.child(0)).is_none());
    assert!(tree.get(&cpu.child(5)).is_none());
}

#[test]
fn entry_info_nodes_counts_level_one() {
    assert_eq!(sample_tree().nodes(), 2);
}

#[test]
fn entry_info_kinds_first_seen_order() {
    let kinds = sample_tree().kinds();
    assert_eq!(kinds, vec!["cpu".to_string(), "gpu".to_string()]);
}

#[test]
fn field_schema_insert_is_idempotent() {
    let mut schema = FieldSchema::new();
    let a = schema.insert("alpha".to_string(), true);
    let b = schema.insert("beta".to_string(), false);
    let a2 = schema.insert("alpha".to_string(), false);
    assert_eq!(a, a2);
    assert_ne!(a, b);
    assert_eq!(schema.get_id("alpha"), Some(a));
    assert_eq!(schema.get_id("beta"), Some(b));
    assert_eq!(schema.get_id("gamma"), None);
    assert_eq!(schema.get_name(a), Some("alpha"));
    assert!(schema.contains_id(a));
    assert!(schema.contains_name("beta"));
    assert!(!schema.contains_name("gamma"));
    // The searchable flag of the first insertion wins.
    assert_eq!(schema.searchable(), vec![a]);
}

#[test]
fn tile_set_equality_is_by_value() {
    let t = TileID(Interval::new(Timestamp(0), Timestamp(5)));
    let a = TileSet { tiles: vec![vec![t]] };
    let b = TileSet { tiles: vec![vec![t]] };
    let c = TileSet { tiles: vec![] };
    assert!(a.same_tiles(&b));
    assert!(!a.same_tiles(&c));
    let d = a.clone();
    assert!(a.same_tiles(&d));
}

#[test]
fn field_schema_equality_is_by_value() {
    let mut a = FieldSchema::new();
    a.insert("x".to_string(), true);
    let mut b = FieldSchema::new();
    b.insert("x".to_string(), true);
    let mut c = FieldSchema::new();
    c.insert("x".to_string(), false);
    assert!(a.same_schema(&b));
    assert!(!a.same_schema(&c));
}
