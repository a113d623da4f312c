use git_craft::world::block::{BlockId, GRASS_ID, STONE_ID};
use git_craft::world::chunks::ColumnPos;
use git_craft::world::column_light::COLUMN_SECTIONS;
use git_craft::world::region::{
    column_at, column_in_region, deserialize_column, local_index, parse_region, parse_region_filename, region_columns,
    region_of, region_with_column, serialize_column, serialize_region,
};
use git_craft::world::section::Section;
use std::collections::BTreeMap;
use std::sync::Arc;

/// Eight sections with a couple of distinguishing edits.
fn sample_column() -> Vec<Arc<Section>> {
    (0..COLUMN_SECTIONS)
        .map(|i| {
            let mut s = Section::empty();
            s.set(i, i, i, BlockId(i as u16 + 1));
            s.set(31, 0, 31, BlockId(STONE_ID));
            Arc::new(s)
        })
        .collect()
}

#[test]
fn column_payload_roundtrips() {
    let cols = sample_column();
    let bytes = serialize_column(&cols);
    let back = deserialize_column(&bytes).expect("valid column payload");
    assert_eq!(back.len(), COLUMN_SECTIONS);
    for (a, b) in cols.iter().zip(&back) {
        assert_eq!(**a, *b);
    }
    let mut extra = bytes.clone();
    extra.push(0);
    assert!(deserialize_column(&extra).is_none());
}

#[test]
fn coordinates_roundtrip_including_negatives() {
    for c in [
        ColumnPos { x: 0, z: 0 },
        ColumnPos { x: 5, z: 31 },
        ColumnPos { x: 32, z: 64 },
        ColumnPos { x: -1, z: -1 },
        ColumnPos { x: -33, z: 40 },
        ColumnPos { x: -100, z: -250 },
    ] {
        let idx = local_index(c);
        assert!(idx < 1024, "local index {idx} out of range for {c:?}");
        assert_eq!(column_at(region_of(c), idx), c);
    }
}

#[test]
fn region_blob_roundtrips_and_rejects_garbage() {
    let mut map = BTreeMap::new();
    assert_eq!(parse_region(&serialize_region(&map)).unwrap().len(), 0);
    map.insert(3u16, vec![1, 2, 3]);
    map.insert(1000u16, vec![9; 40]);
    let blob = serialize_region(&map);
    assert_eq!(parse_region(&blob).unwrap(), map);
    assert!(parse_region(b"XXXX").is_none());
    assert!(parse_region(&blob[..blob.len() - 1]).is_none());
}

#[test]
fn parse_region_rejects_wrong_version() {
    let map: BTreeMap<u16, Vec<u8>> = BTreeMap::new();
    let mut blob = serialize_region(&map);
    blob[4] = 2;
    blob[5] = 0;
    assert!(parse_region(&blob).is_none(), "parse_region must reject a blob with version != VERSION");
}

#[test]
fn region_file_names_parse_and_temp_files_do_not() {
    assert_eq!(parse_region_filename("r.0.0.gcr"), Some((0, 0)));
    assert_eq!(parse_region_filename("r.-3.12.gcr"), Some((-3, 12)));
    assert_eq!(parse_region_filename("r.+4.-2147483648.gcr"), Some((4, i32::MIN)));
    assert_eq!(parse_region_filename("r.1.2.gcr.tmp"), None);
    assert_eq!(parse_region_filename("r.1.gcr"), None);
    assert_eq!(parse_region_filename("r..1.gcr"), None);
    assert_eq!(parse_region_filename("r.1.2.3.gcr"), None);
    assert_eq!(parse_region_filename("r.2147483648.0.gcr"), None);
    assert_eq!(parse_region_filename("x.1.2.gcr"), None);
    assert_eq!(parse_region_filename("r.gcr"), None);
}

#[test]
fn saving_into_a_region_then_loading_returns_the_payload() {
    let a = ColumnPos { x: 2, z: 3 };
    let b = ColumnPos { x: 5, z: 3 };
    let payload_a = serialize_column(&sample_column());
    let blob = region_with_column(None, a, payload_a.clone());
    let blob = region_with_column(Some(blob.as_slice()), b, vec![7, 7, 7]);
    assert_eq!(column_in_region(&blob, a), Some(payload_a));
    assert_eq!(column_in_region(&blob, b), Some(vec![7, 7, 7]));
    assert_eq!(column_in_region(&blob, ColumnPos { x: 6, z: 3 }), None);
    let mut saved = region_columns(region_of(a), &blob);
    saved.sort_by_key(|c| (c.x, c.z));
    assert_eq!(saved, vec![a, b]);
}

#[test]
fn saving_a_column_twice_replaces_it_in_the_blob() {
    let c = ColumnPos { x: 1, z: 1 };
    let blob = region_with_column(None, c, vec![1, 2, 3]);
    let mut updated = Section::empty();
    updated.set(0, 0, 0, BlockId(GRASS_ID));
    let updated = Arc::new(updated);
    let new_payload = serialize_column(&vec![updated; COLUMN_SECTIONS]);
    let blob = region_with_column(Some(blob.as_slice()), c, new_payload.clone());
    assert_eq!(column_in_region(&blob, c), Some(new_payload));
    assert_eq!(region_columns(region_of(c), &blob).len(), 1);
}

#[test]
fn corrupt_region_blob_is_treated_as_absent() {
    assert_eq!(column_in_region(b"GCR1 nonsense", ColumnPos { x: 0, z: 0 }), None);
    assert!(region_columns((0, 0), b"junk").is_empty());
}

#[test]
fn every_cut_of_a_region_blob_is_refused() {
    let mut map: BTreeMap<u16, Vec<u8>> = BTreeMap::new();
    map.insert(3, vec![1, 2, 3]);
    map.insert(700, vec![]);
    map.insert(1023, vec![9; 10]);
    let blob = serialize_region(&map);
    assert_eq!(parse_region(&blob), Some(map));
    for k in 0..blob.len() {
        assert_eq!(parse_region(&blob[..k]), None, "cut at {}", k);
    }
}

#[test]
fn column_payloads_with_extra_bytes_or_other_counts_are_refused() {
    let col = sample_column();
    let mut bytes = serialize_column(&col);
    assert!(deserialize_column(&bytes).is_some());
    bytes.push(0);
    assert!(deserialize_column(&bytes).is_none(), "trailing byte");
    let seven = serialize_column(&col[..7]);
    assert!(deserialize_column(&seven).is_none(), "seven sections");
    let mut nine = col.clone();
    nine.push(col[0].clone());
    assert!(deserialize_column(&serialize_column(&nine)).is_none(), "nine sections");
}
