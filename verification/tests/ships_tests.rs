use ais_parquet_optimizer::ships::{
    mmsi_prefix, position_offsets, prefix_dir_name, prefix_runs, writer_key, AisRow, IdentityGroup,
    IdentityGrouper, Position,
    FLUSH_GROUPS,
};

fn position(base_dt: Option<i64>, lat: Option<f32>) -> Position {
    Position {
        base_dt,
        lat: lat.map(f32::to_bits),
        lon: None,
        sog: None,
        cog: None,
        heading: None,
    }
}

fn row(mmsi: i64, name: &str, base_dt: i64, lat: Option<f32>, draft: Option<f32>) -> AisRow {
    AisRow {
        mmsi: Some(mmsi),
        imo: None,
        call_sign: None,
        vessel_name: Some(name.to_string()),
        position: position(Some(base_dt), lat),
        transceiver_class: None,
        draft: draft.map(f32::to_bits),
        length: None,
        width: None,
        vessel_type: None,
    }
}

#[test]
fn mmsi_prefixes() {
    assert_eq!(mmsi_prefix(Some(563073700)), Some(5));
    assert_eq!(mmsi_prefix(Some(7)), Some(7));
    assert_eq!(mmsi_prefix(Some(0)), Some(0));
    assert_eq!(mmsi_prefix(Some(-367)), None);
    assert_eq!(mmsi_prefix(None), None);
}

#[test]
fn prefix_directories() {
    assert_eq!(prefix_dir_name(3), "mmsi_prefix=3");
    assert_eq!(prefix_dir_name(-1), "mmsi_prefix=null");
    assert_eq!(writer_key(None), -1);
    assert_eq!(writer_key(Some(2)), 2);
}

#[test]
fn prefix_runs_treat_null_as_minus_one() {
    let prefixes = vec![Some(2), Some(2), None, Some(-1), Some(3)];
    assert_eq!(prefix_runs(&prefixes), vec![(0, 2), (2, 4), (4, 5)]);
}

#[test]
fn group_absorbs_latest_attributes() {
    let mut group = IdentityGroup::new(Some(1), None, None, Some("A".to_string()));
    group.absorb(&row(1, "A", 10, Some(1.5), Some(7.0)));
    group.absorb(&row(1, "A", 20, None, None));
    assert_eq!(group.positions.len(), 2);
    assert_eq!(group.last_known_date, Some(20));
    assert_eq!(group.last_lat, Some(1.5f32.to_bits()));
    assert_eq!(group.draft, Some(7.0f32.to_bits()));
    assert!(group.same_identity(&row(1, "A", 0, None, None)));
    assert!(!group.same_identity(&row(1, "B", 0, None, None)));
}

#[test]
fn grouper_splits_on_identity_changes() {
    let mut grouper = IdentityGrouper::new();
    assert!(grouper.push_row(row(1, "A", 1, None, None)).is_none());
    assert!(grouper.push_row(row(1, "A", 2, None, None)).is_none());
    assert!(grouper.push_row(row(1, "B", 3, None, None)).is_none());
    assert!(grouper.push_row(row(2, "B", 4, None, None)).is_none());
    let groups = grouper.finish();
    assert_eq!(groups.len(), 3);
    assert_eq!(groups[0].positions.len(), 2);
    assert_eq!(groups[1].vessel_name.as_deref(), Some("B"));
    assert_eq!(groups[2].mmsi, Some(2));
    let total: usize = groups.iter().map(|g| g.positions.len()).sum();
    assert_eq!(total, 4);
}

#[test]
fn grouper_hands_out_full_batches() {
    let mut grouper = IdentityGrouper::new();
    let mut batches = Vec::new();
    for i in 0..(FLUSH_GROUPS as i64 + 2) {
        if let Some(batch) = grouper.push_row(row(i, "X", i, None, None)) {
            batches.push(batch);
        }
    }
    assert_eq!(batches.len(), 1);
    assert_eq!(batches[0].len(), FLUSH_GROUPS);
    assert_eq!(batches[0][0].mmsi, Some(0));
    let rest = grouper.finish();
    assert_eq!(rest.len(), 2);
    assert_eq!(rest[1].mmsi, Some(FLUSH_GROUPS as i64 + 1));
}

#[test]
fn position_list_offsets() {
    let mut a = IdentityGroup::new(Some(1), None, None, None);
    a.add_position(position(Some(1), None));
    a.add_position(position(Some(2), None));
    let b = IdentityGroup::new(Some(2), None, None, None);
    let mut c = IdentityGroup::new(Some(3), None, None, None);
    c.add_position(position(Some(3), None));
    assert_eq!(position_offsets(&[a, b, c]), vec![0, 2, 2, 3]);
    assert_eq!(position_offsets(&[]), vec![0]);
}
