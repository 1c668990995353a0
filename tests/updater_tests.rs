use segment_updater::holder::SegmentHolder;
use segment_updater::payload::{PayloadInterface, PayloadKeyType, PayloadType, PayloadVariant};
use segment_updater::segment::{Record, Segment};
use segment_updater::updater::{
    CollectionUpdateOperations, PayloadOps, PointOps, SimpleSegmentUpdater, UpdateError,
};

/// Two segments: the first holds records 1 to 5, the second 11 to 13.
fn build_updater() -> SimpleSegmentUpdater<f32> {
    let mut holder = SegmentHolder::new();
    holder.add_segment();
    holder.add_segment();
    let mut updater = SimpleSegmentUpdater::new(holder);
    let first = vec![1, 2, 3, 4, 5];
    let first_vectors = vec![
        vec![1.0, 0.0, 1.0, 1.0],
        vec![1.0, 0.0, 1.0, 0.0],
        vec![1.0, 1.0, 1.0, 1.0],
        vec![1.0, 1.0, 0.0, 1.0],
        vec![1.0, 0.0, 0.0, 0.0],
    ];
    assert_eq!(updater.upsert_points_to(1, &first, &first_vectors, 0).unwrap(), 0);
    let second = vec![11, 12, 13];
    let second_vectors = vec![
        vec![0.0, 0.0, 1.0, 1.0],
        vec![0.0, 1.0, 1.0, 0.0],
        vec![0.0, 1.0, 0.0, 1.0],
    ];
    assert_eq!(updater.upsert_points_to(2, &second, &second_vectors, 1).unwrap(), 0);
    updater
}

fn retrieve<'a>(updater: &'a SimpleSegmentUpdater<f32>, ids: &[u64]) -> Vec<&'a Record<f32>> {
    ids.iter().filter_map(|id| updater.get_record(*id)).collect()
}

fn color_red() -> Vec<(PayloadKeyType, PayloadInterface)> {
    vec![(
        "color".to_string(),
        PayloadInterface::Keyword(PayloadVariant::Value("red".to_string())),
    )]
}

fn segment_of(updater: &SimpleSegmentUpdater<f32>, id: u64) -> Vec<usize> {
    let mut found = Vec::new();
    for (k, seg) in updater.segments.segments.iter().enumerate() {
        if seg.has_point(id) {
            found.push(k);
        }
    }
    found
}

#[test]
fn test_point_ops() {
    let mut updater = build_updater();
    let points = vec![1, 500];
    let vectors = vec![vec![2., 2., 2., 2.], vec![2., 0., 2., 0.]];

    let res = updater.upsert_points(100, &points, &vectors);
    match res {
        Ok(updated) => assert_eq!(updated, 1),
        Err(_) => assert!(false),
    };

    let records = retrieve(&updater, &[1, 2, 500]);
    assert_eq!(records.len(), 3);
    for record in records {
        let v = &record.vector;
        if record.id == 1 {
            assert_eq!(v, &vec![2., 2., 2., 2.])
        }
        if record.id == 500 {
            assert_eq!(v, &vec![2., 0., 2., 0.])
        }
    }

    let _ = updater.delete_points(101, &vec![500]);

    let records = retrieve(&updater, &[1, 2, 500]);
    for record in records {
        if record.id == 500 {
            assert!(false)
        }
    }
}

#[test]
fn test_payload_ops() {
    let mut updater = build_updater();
    let points = vec![1, 2, 3];

    let _ = updater.process_payload_operation(
        100,
        &PayloadOps::SetPayload { collection: "".to_string(), payload: color_red(), points: points.clone() },
    );

    let res = retrieve(&updater, &points);
    assert_eq!(res.len(), 3);
    match res.get(0) {
        None => assert!(false),
        Some(r) => {
            assert!(!r.payload.is_empty(), "No payload assigned");
            assert!(r.payload_contains_key("color"))
        }
    };

    let _ = updater.delete_payload(101, &vec![3], &vec!["color".to_string(), "empty".to_string()]);
    let res = retrieve(&updater, &[3]);
    assert_eq!(res.len(), 1);
    assert!(!res[0].payload_contains_key("color"));

    let res = retrieve(&updater, &[2]);
    assert_eq!(res.len(), 1);
    assert!(res[0].payload_contains_key("color"));

    let _ = updater.clear_payload(102, &vec![2]);
    let res = retrieve(&updater, &[2]);
    assert_eq!(res.len(), 1);
    assert!(!res[0].payload_contains_key("color"))
}

#[test]
fn upsert_of_existing_records_in_two_segments_counts_both() {
    let mut updater = build_updater();
    let res = updater.upsert_points(100, &vec![1, 11], &vec![vec![3., 3., 3., 3.], vec![4., 4., 4., 4.]]);
    assert_eq!(res.unwrap(), 2);
    assert_eq!(segment_of(&updater, 1), vec![0]);
    assert_eq!(segment_of(&updater, 11), vec![1]);
    assert_eq!(updater.get_record(11).unwrap().vector, vec![4., 4., 4., 4.]);
}

#[test]
fn upsert_with_new_id_counts_only_existing() {
    let mut updater = build_updater();
    let _ = updater.upsert_points(100, &vec![1, 500], &vec![vec![2.; 4], vec![5.; 4]]);
    let res = updater.upsert_points(101, &vec![700, 1], &vec![vec![7.; 4], vec![8.; 4]]);
    assert_eq!(res.unwrap(), 1);
    let record = updater.get_record(700).unwrap();
    assert_eq!(record.vector, vec![7.; 4]);
    assert_eq!(record.version, 101);
    assert_eq!(segment_of(&updater, 700).len(), 1);
    assert_eq!(updater.get_record(1).unwrap().vector, vec![8.; 4]);
}

#[test]
fn new_records_go_into_the_chosen_segment() {
    let mut updater = build_updater();
    let res = updater.upsert_points_to(100, &vec![40, 41, 3], &vec![vec![0.; 4], vec![1.; 4], vec![9.; 4]], 1);
    assert_eq!(res.unwrap(), 1);
    assert_eq!(segment_of(&updater, 40), vec![1]);
    assert_eq!(segment_of(&updater, 41), vec![1]);
    assert_eq!(segment_of(&updater, 3), vec![0]);
}

#[test]
fn repeated_new_id_is_stored_once_with_the_last_vector() {
    let mut updater = build_updater();
    let res = updater.upsert_points_to(100, &vec![60, 60], &vec![vec![1.; 4], vec![2.; 4]], 0);
    assert_eq!(res.unwrap(), 0);
    assert_eq!(segment_of(&updater, 60), vec![0]);
    assert_eq!(updater.segments.segments[0].records.len(), 6);
    assert_eq!(updater.get_record(60).unwrap().vector, vec![2.; 4]);
}

#[test]
fn delete_then_retrieve_returns_only_remaining() {
    let mut updater = build_updater();
    let _ = updater.upsert_points(100, &vec![1, 500], &vec![vec![2.; 4], vec![5.; 4]]);
    let res = updater.delete_points(101, &vec![500]);
    assert_eq!(res.unwrap(), 1);
    let records = retrieve(&updater, &[1, 500]);
    assert_eq!(records.len(), 1);
    assert_eq!(records[0].id, 1);
}

#[test]
fn delete_of_absent_record_counts_zero() {
    let mut updater = build_updater();
    assert_eq!(updater.delete_points(100, &vec![999]).unwrap(), 0);
    assert_eq!(updater.delete_points(101, &vec![1, 1]).unwrap(), 1);
    assert!(updater.get_record(1).is_none());
}

#[test]
fn payload_scenario_set_delete_clear() {
    let mut updater = build_updater();
    assert_eq!(updater.set_payload(100, &color_red(), &vec![1, 2, 3]).unwrap(), 3);
    let keys = vec!["color".to_string(), "empty".to_string()];
    assert_eq!(updater.delete_payload(101, &vec![3], &keys).unwrap(), 0);
    assert!(updater.get_record(1).unwrap().payload_contains_key("color"));
    assert!(updater.get_record(2).unwrap().payload_contains_key("color"));
    assert!(!updater.get_record(3).unwrap().payload_contains_key("color"));
    assert_eq!(updater.clear_payload(102, &vec![2]).unwrap(), 1);
    assert!(updater.get_record(2).unwrap().payload.is_empty());
    assert!(updater.get_record(1).unwrap().payload_contains_key("color"));
    assert!(updater.get_record(3).unwrap().payload.is_empty());
}

#[test]
fn payload_on_missing_point_fails_with_its_id() {
    let mut updater = build_updater();
    let res = updater.set_payload(100, &color_red(), &vec![1, 77, 2, 88]);
    match res {
        Err(UpdateError::NotFound { missed_point_id }) => assert_eq!(missed_point_id, 77),
        _ => assert!(false),
    }
    assert!(updater.get_record(1).unwrap().payload_contains_key("color"));
    assert!(updater.get_record(2).unwrap().payload_contains_key("color"));
    match updater.clear_payload(101, &vec![99]) {
        Err(UpdateError::NotFound { missed_point_id }) => assert_eq!(missed_point_id, 99),
        _ => assert!(false),
    }
    let keys = vec!["color".to_string()];
    match updater.delete_payload(102, &vec![12, 13, 14], &keys) {
        Err(UpdateError::NotFound { missed_point_id }) => assert_eq!(missed_point_id, 14),
        _ => assert!(false),
    }
}

#[test]
fn upsert_without_segments_is_a_service_error() {
    let mut updater: SimpleSegmentUpdater<f32> = SimpleSegmentUpdater::new(SegmentHolder::new());
    match updater.upsert_points(1, &vec![1], &vec![vec![1.; 4]]) {
        Err(UpdateError::ServiceError { .. }) => {}
        _ => assert!(false),
    }
    assert_eq!(updater.upsert_points(1, &vec![], &vec![]).unwrap(), 0);
}

#[test]
fn replay_reports_no_new_changes() {
    let mut updater = build_updater();
    let ids = vec![1, 11, 500];
    let vectors = vec![vec![2.; 4], vec![3.; 4], vec![4.; 4]];
    assert_eq!(updater.upsert_points(100, &ids, &vectors).unwrap(), 2);
    assert_eq!(updater.upsert_points(100, &ids, &vectors).unwrap(), 0);
    assert_eq!(segment_of(&updater, 500).len(), 1);
    assert_eq!(updater.set_payload(101, &color_red(), &vec![1, 11]).unwrap(), 2);
    assert_eq!(updater.set_payload(101, &color_red(), &vec![1, 11]).unwrap(), 0);
    assert_eq!(updater.delete_points(102, &vec![500]).unwrap(), 1);
    assert_eq!(updater.delete_points(102, &vec![500]).unwrap(), 0);
    assert_eq!(updater.wipe_payload(103).unwrap(), 2);
    assert_eq!(updater.wipe_payload(103).unwrap(), 0);
}

#[test]
fn stale_operation_is_ignored() {
    let mut updater = build_updater();
    assert_eq!(updater.upsert_points(100, &vec![1], &vec![vec![2.; 4]]).unwrap(), 1);
    assert_eq!(updater.upsert_points(50, &vec![1], &vec![vec![9.; 4]]).unwrap(), 0);
    assert_eq!(updater.get_record(1).unwrap().vector, vec![2.; 4]);
    assert_eq!(updater.set_payload(60, &color_red(), &vec![1]).unwrap(), 0);
    assert!(!updater.get_record(1).unwrap().payload_contains_key("color"));
    assert_eq!(updater.delete_points(70, &vec![1]).unwrap(), 0);
    assert!(updater.get_record(1).is_some());
}

#[test]
fn wipe_clears_every_segment() {
    let mut updater = build_updater();
    let _ = updater.set_payload(100, &color_red(), &vec![1, 12]);
    assert_eq!(updater.wipe_payload(101).unwrap(), 2);
    assert!(updater.get_record(1).unwrap().payload.is_empty());
    assert!(updater.get_record(12).unwrap().payload.is_empty());
}

#[test]
fn update_dispatches_both_families() {
    let mut updater = build_updater();
    let upsert = CollectionUpdateOperations::PointOperation(PointOps::UpsertPoints {
        collection: "c".to_string(),
        ids: vec![2, 3],
        vectors: vec![vec![0.5; 4], vec![0.25; 4]],
    });
    assert_eq!(updater.update(100, &upsert).unwrap(), 2);
    let wipe = CollectionUpdateOperations::PayloadOperation(PayloadOps::WipePayload { collection: "c".to_string() });
    assert_eq!(updater.update(101, &wipe).unwrap(), 0);
    let delete = CollectionUpdateOperations::PointOperation(PointOps::DeletePoints {
        collection: "c".to_string(),
        ids: vec![2, 3, 4],
    });
    assert_eq!(updater.update(102, &delete).unwrap(), 3);
    assert!(updater.get_record(3).is_none());
}

#[test]
fn payload_values_are_stored_as_lists() {
    let single = PayloadInterface::Integer(PayloadVariant::Value(7)).to_payload();
    assert!(single.same_as(&PayloadType::Integer(vec![7])));
    let list = PayloadInterface::Keyword(PayloadVariant::List(vec!["a".to_string(), "b".to_string()])).to_payload();
    assert!(list.same_as(&PayloadType::Keyword(vec!["a".to_string(), "b".to_string()])));
    assert!(!list.same_as(&PayloadType::Keyword(vec!["a".to_string()])));
}

#[test]
fn random_segment_is_a_live_one() {
    let mut holder: SegmentHolder<f32> = SegmentHolder::new();
    assert!(holder.random_segment().is_none());
    holder.add_segment();
    holder.add_segment();
    holder.add_segment();
    for _ in 0..50 {
        assert!(holder.random_segment().unwrap() < 3);
    }
    let seg: Segment<f32> = Segment::new();
    assert!(!seg.has_point(1));
}

#[test]
fn upserts_in_either_order_converge() {
    let mut in_order = build_updater();
    let mut reversed = build_updater();
    let early = vec![vec![1.5; 4]];
    let late = vec![vec![2.5; 4]];
    let ids = vec![4];
    let _ = in_order.upsert_points(100, &ids, &early);
    let _ = in_order.upsert_points(101, &ids, &late);
    let _ = reversed.upsert_points(101, &ids, &late);
    let _ = reversed.upsert_points(100, &ids, &early);
    let a = in_order.get_record(4).unwrap();
    let b = reversed.get_record(4).unwrap();
    assert_eq!(a.vector, vec![2.5; 4]);
    assert_eq!(a.vector, b.vector);
    assert_eq!(a.version, 101);
    assert_eq!(b.version, 101);
}
