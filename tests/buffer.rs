use tf_rosrust::{
    time_from_nanosec, Duration, Oriented, Segment, StampedTransform, TfBuffer, TfError,
    TimeTravel, Time,
};

#[derive(Clone, Copy, Debug, PartialEq, Default)]
struct Vector3 {
    x: f64,
    y: f64,
    z: f64,
}

#[derive(Clone, Copy, Debug, PartialEq, Default)]
struct Quaternion {
    x: f64,
    y: f64,
    z: f64,
    w: f64,
}

#[derive(Clone, Copy, Debug, PartialEq, Default)]
struct Transform {
    translation: Vector3,
    rotation: Quaternion,
}

const PARENT: &str = "parent";
const CHILD0: &str = "child0";
const CHILD1: &str = "child1";

fn identity() -> Transform {
    Transform {
        translation: Vector3::default(),
        rotation: Quaternion { x: 0.0, y: 0.0, z: 0.0, w: 1.0 },
    }
}

fn quat_mul(a: Quaternion, b: Quaternion) -> Quaternion {
    Quaternion {
        w: a.w * b.w - a.x * b.x - a.y * b.y - a.z * b.z,
        x: a.w * b.x + a.x * b.w + a.y * b.z - a.z * b.y,
        y: a.w * b.y - a.x * b.z + a.y * b.w + a.z * b.x,
        z: a.w * b.z + a.x * b.y - a.y * b.x + a.z * b.w,
    }
}

fn cross(a: Vector3, b: Vector3) -> Vector3 {
    Vector3 {
        x: a.y * b.z - a.z * b.y,
        y: a.z * b.x - a.x * b.z,
        z: a.x * b.y - a.y * b.x,
    }
}

fn rotate(q: Quaternion, v: Vector3) -> Vector3 {
    let u = Vector3 { x: q.x, y: q.y, z: q.z };
    let c = cross(u, v);
    let t = Vector3 { x: 2.0 * c.x, y: 2.0 * c.y, z: 2.0 * c.z };
    let c2 = cross(u, t);
    Vector3 {
        x: v.x + q.w * t.x + c2.x,
        y: v.y + q.w * t.y + c2.y,
        z: v.z + q.w * t.z + c2.z,
    }
}

fn compose(a: Transform, b: Transform) -> Transform {
    let r = rotate(a.rotation, b.translation);
    Transform {
        translation: Vector3 {
            x: a.translation.x + r.x,
            y: a.translation.y + r.y,
            z: a.translation.z + r.z,
        },
        rotation: quat_mul(a.rotation, b.rotation),
    }
}

fn invert(t: Transform) -> Transform {
    let q = Quaternion { x: -t.rotation.x, y: -t.rotation.y, z: -t.rotation.z, w: t.rotation.w };
    let r = rotate(q, t.translation);
    Transform {
        translation: Vector3 { x: -r.x, y: -r.y, z: -r.z },
        rotation: q,
    }
}

fn normalize(q: Quaternion) -> Quaternion {
    let n = (q.x * q.x + q.y * q.y + q.z * q.z + q.w * q.w).sqrt();
    Quaternion { x: q.x / n, y: q.y / n, z: q.z / n, w: q.w / n }
}

fn interpolate(a: Transform, b: Transform, weight: f64) -> Transform {
    let translation = Vector3 {
        x: weight * a.translation.x + (1.0 - weight) * b.translation.x,
        y: weight * a.translation.y + (1.0 - weight) * b.translation.y,
        z: weight * a.translation.z + (1.0 - weight) * b.translation.z,
    };
    let qa = a.rotation;
    let mut qb = b.rotation;
    let mut dot = qa.x * qb.x + qa.y * qb.y + qa.z * qb.z + qa.w * qb.w;
    if dot < 0.0 {
        qb = Quaternion { x: -qb.x, y: -qb.y, z: -qb.z, w: -qb.w };
        dot = -dot;
    }
    let (wa, wb) = if dot > 1.0 - 1e-9 {
        (weight, 1.0 - weight)
    } else {
        let theta = dot.acos();
        let s = theta.sin();
        ((weight * theta).sin() / s, ((1.0 - weight) * theta).sin() / s)
    };
    let rotation = normalize(Quaternion {
        x: wa * qa.x + wb * qb.x,
        y: wa * qa.y + wb * qb.y,
        z: wa * qa.z + wb * qb.z,
        w: wa * qa.w + wb * qb.w,
    });
    Transform { translation, rotation }
}

fn resolve(o: Oriented<Transform>) -> Transform {
    match o {
        Oriented::Forward(t) => t,
        Oriented::Inverse(t) => invert(t),
    }
}

fn evaluate(s: &Segment<Oriented<Transform>>) -> Transform {
    match *s {
        Segment::Exact(t) => resolve(t),
        Segment::Blend { older, newer, elapsed_ns, span_ns } => interpolate(
            resolve(older),
            resolve(newer),
            1.0 - elapsed_ns as f64 / span_ns as f64,
        ),
    }
}

fn chain(segments: &[Segment<Oriented<Transform>>]) -> Transform {
    let mut acc = identity();
    for s in segments {
        acc = compose(acc, evaluate(s));
    }
    acc.rotation = normalize(acc.rotation);
    acc
}

fn travel(t: &TimeTravel<Oriented<Transform>>) -> Transform {
    let mut r = compose(chain(&t.to_fixed), invert(chain(&t.from_fixed)));
    r.rotation = normalize(r.rotation);
    r
}

fn stamped(parent: &str, child: &str, stamp: Time, transform: Transform) -> StampedTransform<Transform> {
    StampedTransform {
        frame_id: parent.to_string(),
        child_frame_id: child.to_string(),
        stamp,
        transform,
    }
}

fn translation(x: f64, y: f64, z: f64) -> Transform {
    Transform {
        translation: Vector3 { x, y, z },
        rotation: Quaternion { x: 0.0, y: 0.0, z: 0.0, w: 1.0 },
    }
}

fn add_both(buffer: &mut TfBuffer<Oriented<Transform>>, tf: &StampedTransform<Transform>, static_tf: bool) {
    buffer.add_transform(&tf.forward(), static_tf);
    buffer.add_transform(&tf.inverse(), static_tf);
}

/// world -> item at (1,0,0); world -> base_link at (0,t,0); base_link -> camera at (0.5,0,0).
fn build_test_tree(buffer: &mut TfBuffer<Oriented<Transform>>, time: f64) {
    let nsecs = ((time - ((time.floor() as i64) as f64)) * 1E9) as u32;
    let stamp = Time { sec: time.floor() as i32, nanosec: nsecs };
    add_both(buffer, &stamped("world", "item", stamp, translation(1.0, 0.0, 0.0)), true);
    add_both(buffer, &stamped("world", "base_link", stamp, translation(0.0, time, 0.0)), false);
    add_both(buffer, &stamped("base_link", "camera", stamp, translation(0.5, 0.0, 0.0)), true);
}

fn assert_approx_eq(a: Transform, b: Transform) {
    assert!((a.rotation.x - b.rotation.x).abs() < 1e-9, "{a:?} != {b:?}");
    assert!((a.rotation.y - b.rotation.y).abs() < 1e-9, "{a:?} != {b:?}");
    assert!((a.rotation.z - b.rotation.z).abs() < 1e-9, "{a:?} != {b:?}");
    assert!((a.rotation.w - b.rotation.w).abs() < 1e-9, "{a:?} != {b:?}");
    assert!((a.translation.x - b.translation.x).abs() < 1e-9, "{a:?} != {b:?}");
    assert!((a.translation.y - b.translation.y).abs() < 1e-9, "{a:?} != {b:?}");
    assert!((a.translation.z - b.translation.z).abs() < 1e-9, "{a:?} != {b:?}");
}

fn stamps(buffer: &TfBuffer<Oriented<Transform>>, parent: &str, child: &str) -> Vec<Time> {
    let h = buffer.history(parent, child).unwrap();
    (0..h.len()).map(|i| h.get(i).unwrap().stamp).collect()
}

fn sample_count(buffer: &TfBuffer<Oriented<Transform>>, parent: &str, child: &str) -> usize {
    buffer.history(parent, child).unwrap().len()
}

#[test]
fn test_basic_tf_lookup() {
    let mut tf_buffer = TfBuffer::new();
    build_test_tree(&mut tf_buffer, 0f64);
    let res = tf_buffer.lookup_transform("camera", "item", &time_from_nanosec(0)).unwrap();
    assert_eq!(res.frame_id, "camera");
    assert_eq!(res.child_frame_id, "item");
    assert_eq!(res.stamp, time_from_nanosec(0));
    assert_eq!(chain(&res.transform), translation(0.5, 0.0, 0.0));
}

#[test]
fn test_basic_tf_interpolation() {
    let mut tf_buffer = TfBuffer::new();
    build_test_tree(&mut tf_buffer, 0f64);
    build_test_tree(&mut tf_buffer, 1f64);
    let res = tf_buffer
        .lookup_transform("camera", "item", &time_from_nanosec(700_000_000))
        .unwrap();
    assert_eq!(res.frame_id, "camera");
    assert_eq!(res.child_frame_id, "item");
    assert_eq!(res.stamp, time_from_nanosec(700_000_000));
    assert_eq!(chain(&res.transform), translation(0.5, -0.7, 0.0));
}

#[test]
fn test_basic_tf_time_travel() {
    let mut tf_buffer = TfBuffer::new();
    build_test_tree(&mut tf_buffer, 0f64);
    build_test_tree(&mut tf_buffer, 1f64);
    let res = tf_buffer
        .lookup_transform_with_time_travel(
            "camera",
            time_from_nanosec(400_000_000),
            "camera",
            time_from_nanosec(700_000_000),
            "item",
        )
        .unwrap();
    assert_eq!(res.frame_id, "camera");
    assert_eq!(res.child_frame_id, "camera");
    assert_eq!(res.stamp, time_from_nanosec(700_000_000));
    assert_approx_eq(travel(&res.transform), translation(0.0, 0.3, 0.0));
}

#[test]
fn test_add_transform() {
    let mut tf_buffer: TfBuffer<Transform> = TfBuffer::new();
    let transform00 = stamped(PARENT, CHILD0, time_from_nanosec(0), Transform::default());
    let transform01 = stamped(PARENT, CHILD0, Time { sec: 1, nanosec: 0 }, Transform::default());
    let transform1 = stamped(PARENT, CHILD1, Time { sec: 2, nanosec: 0 }, Transform::default());
    let static_tf = true;

    tf_buffer.add_transform(&transform00, static_tf);
    assert_eq!(tf_buffer.parents().len(), 1);
    assert!(tf_buffer.parents().contains(&PARENT.to_string()));
    let children = tf_buffer.children(PARENT);
    assert_eq!(children.len(), 1);
    assert!(children.contains(&CHILD0.to_string()));
    assert_eq!(tf_buffer.edge_count(), 1);
    assert!(tf_buffer.history(PARENT, CHILD0).is_some());
    assert_eq!(tf_buffer.history(PARENT, CHILD0).unwrap().len(), 1);

    tf_buffer.add_transform(&transform01, static_tf);
    assert_eq!(tf_buffer.parents().len(), 1);
    assert!(tf_buffer.parents().contains(&PARENT.to_string()));
    let children = tf_buffer.children(PARENT);
    assert_eq!(children.len(), 1);
    assert!(children.contains(&CHILD0.to_string()));
    assert_eq!(tf_buffer.edge_count(), 1);
    assert!(tf_buffer.history(PARENT, CHILD0).is_some());
    assert_eq!(tf_buffer.history(PARENT, CHILD0).unwrap().len(), 2);

    tf_buffer.add_transform(&transform1, static_tf);
    assert_eq!(tf_buffer.parents().len(), 1);
    assert!(tf_buffer.parents().contains(&PARENT.to_string()));
    let children = tf_buffer.children(PARENT);
    assert_eq!(children.len(), 2);
    assert!(children.contains(&CHILD0.to_string()));
    assert!(children.contains(&CHILD1.to_string()));
    assert_eq!(tf_buffer.edge_count(), 2);
    assert!(tf_buffer.history(PARENT, CHILD0).is_some());
    assert!(tf_buffer.history(PARENT, CHILD1).is_some());
    assert_eq!(tf_buffer.history(PARENT, CHILD0).unwrap().len(), 2);
    assert_eq!(tf_buffer.history(PARENT, CHILD1).unwrap().len(), 1);
}

#[test]
fn test_cache_duration() {
    let mut tf_buffer = TfBuffer::new_with_duration(Duration { sec: 1, nanosec: 0 });
    let transform00 = stamped(PARENT, CHILD0, time_from_nanosec(0), Transform::default());
    let transform01 = stamped(PARENT, CHILD0, Time { sec: 1, nanosec: 0 }, Transform::default());
    let transform02 = stamped(PARENT, CHILD0, Time { sec: 2, nanosec: 0 }, Transform::default());
    let static_tf = true;

    tf_buffer.add_transform(&transform00.forward(), static_tf);
    assert_eq!(tf_buffer.parents().len(), 1);
    assert_eq!(tf_buffer.edge_count(), 1);
    assert!(tf_buffer.history(PARENT, CHILD0).is_some());
    assert_eq!(sample_count(&tf_buffer, PARENT, CHILD0), 1);
    assert_eq!(stamps(&tf_buffer, PARENT, CHILD0)[0], time_from_nanosec(0));

    tf_buffer.add_transform(&transform01.forward(), static_tf);
    assert_eq!(tf_buffer.parents().len(), 1);
    assert_eq!(tf_buffer.edge_count(), 1);
    assert!(tf_buffer.history(PARENT, CHILD0).is_some());
    assert_eq!(sample_count(&tf_buffer, PARENT, CHILD0), 2);
    assert_eq!(stamps(&tf_buffer, PARENT, CHILD0)[0], time_from_nanosec(0));
    assert_eq!(stamps(&tf_buffer, PARENT, CHILD0)[1], time_from_nanosec(1_000_000_000));

    tf_buffer.add_transform(&transform02.forward(), static_tf);
    assert_eq!(tf_buffer.parents().len(), 1);
    assert_eq!(tf_buffer.edge_count(), 1);
    assert!(tf_buffer.history(PARENT, CHILD0).is_some());
    assert_eq!(sample_count(&tf_buffer, PARENT, CHILD0), 2);
    assert_eq!(stamps(&tf_buffer, PARENT, CHILD0)[0], time_from_nanosec(1_000_000_000));
    assert_eq!(stamps(&tf_buffer, PARENT, CHILD0)[1], time_from_nanosec(2_000_000_000));
}

fn lookup_translation(buffer: &TfBuffer<Oriented<Transform>>, sec: i32, nanosec: u32) -> Vector3 {
    let r = buffer
        .lookup_transform("base", "target", &Time { sec, nanosec })
        .unwrap();
    chain(&r.transform).translation
}

#[test]
fn test_dynamic_tree() {
    let mut tf_buffer = TfBuffer::new();
    let one = Time { sec: 1, nanosec: 0 };
    let q_flip = Quaternion { x: 0.0, y: 0.0, z: 1.0, w: 0.0 };

    add_both(&mut tf_buffer, &stamped("base", "camera1", one, translation(1.0, 0.0, 0.0)), true);
    let mut base_to_camera2 = stamped("base", "camera2", one, translation(-1.0, 0.0, 0.0));
    base_to_camera2.transform.rotation = q_flip;
    add_both(&mut tf_buffer, &base_to_camera2, true);
    add_both(&mut tf_buffer, &stamped("marker", "target", one, translation(-0.5, 0.0, 0.0)), true);

    let mut camera1_to_marker = stamped("camera1", "marker", one, translation(1.0, 1.0, 0.0));
    add_both(&mut tf_buffer, &camera1_to_marker, false);
    camera1_to_marker.stamp.sec = 2;
    camera1_to_marker.transform.translation.y = -1.0;
    add_both(&mut tf_buffer, &camera1_to_marker, false);

    let mut camera2_to_marker =
        stamped("camera2", "marker", Time { sec: 3, nanosec: 0 }, translation(1.0, 1.0, 0.0));
    add_both(&mut tf_buffer, &camera2_to_marker, false);
    camera2_to_marker.stamp.sec = 4;
    camera2_to_marker.transform.translation.y = -1.0;
    add_both(&mut tf_buffer, &camera2_to_marker, false);

    assert_eq!(lookup_translation(&tf_buffer, 1, 0), Vector3 { x: 1.5, y: 1.0, z: 0.0 });
    assert_eq!(lookup_translation(&tf_buffer, 1, 500_000_000), Vector3 { x: 1.5, y: 0.0, z: 0.0 });
    assert_eq!(lookup_translation(&tf_buffer, 2, 0), Vector3 { x: 1.5, y: -1.0, z: 0.0 });
    let result = tf_buffer.lookup_transform("base", "target", &Time { sec: 2, nanosec: 500_000_000 });
    assert!(result.is_err());
    assert_eq!(lookup_translation(&tf_buffer, 3, 0), Vector3 { x: -1.5, y: -1.0, z: 0.0 });
    assert_eq!(lookup_translation(&tf_buffer, 3, 500_000_000), Vector3 { x: -1.5, y: -0.0, z: 0.0 });
    assert_eq!(lookup_translation(&tf_buffer, 4, 0), Vector3 { x: -1.5, y: 1.0, z: 0.0 });
    let result = tf_buffer.lookup_transform("base", "target", &Time { sec: 4, nanosec: 500_000_000 });
    assert!(result.is_err());

    camera1_to_marker.stamp.sec = 5;
    camera1_to_marker.transform.translation.x = 0.5;
    camera1_to_marker.transform.translation.y = 1.0;
    add_both(&mut tf_buffer, &camera1_to_marker, false);
    camera1_to_marker.stamp.sec = 6;
    camera1_to_marker.transform.translation.y = -1.0;
    add_both(&mut tf_buffer, &camera1_to_marker, false);

    assert_eq!(lookup_translation(&tf_buffer, 5, 0), Vector3 { x: 1.0, y: 1.0, z: 0.0 });
    assert_eq!(lookup_translation(&tf_buffer, 5, 500_000_000), Vector3 { x: 1.0, y: 0.0, z: 0.0 });
    assert_eq!(lookup_translation(&tf_buffer, 6, 0), Vector3 { x: 1.0, y: -1.0, z: 0.0 });
}

#[test]
fn test() {
    // A directed edge is keyed by its (parent, child) pair as a whole.
    let mut buffer: TfBuffer<i32> = TfBuffer::new();
    let one = Time { sec: 1, nanosec: 0 };
    let edge = |parent: &str, child: &str, v: i32| StampedTransform {
        frame_id: parent.to_string(),
        child_frame_id: child.to_string(),
        stamp: one,
        transform: v,
    };
    buffer.add_transform(&edge("parent", "child0", 0), false);
    assert_eq!(buffer.edge_count(), 1);
    buffer.add_transform(&edge("parent", "child0", 1), false);
    assert_eq!(buffer.edge_count(), 1);

    let mut buffer: TfBuffer<i32> = TfBuffer::new();
    buffer.add_transform(&edge("parent0", "child0", 0), false);
    assert_eq!(buffer.edge_count(), 1);
    buffer.add_transform(&edge("child0", "parent0", 0), false);
    assert_eq!(buffer.edge_count(), 2);
    buffer.add_transform(&edge("parent1", "child0", 0), false);
    assert_eq!(buffer.edge_count(), 3);
}

#[test]
fn direct_lookup_through_static_edges() {
    let mut buffer = TfBuffer::new();
    let zero = Time { sec: 0, nanosec: 0 };
    buffer.handle_incoming_transforms(
        vec![
            stamped("world", "base_link", zero, translation(0.0, 0.0, 0.0)),
            stamped("base_link", "camera", zero, translation(0.5, 0.0, 0.0)),
            stamped("world", "item", zero, translation(1.0, 0.0, 0.0)),
        ],
        true,
    );
    let r = buffer.lookup_transform("camera", "item", &zero).unwrap();
    assert_eq!(r.transform.len(), 3);
    assert_approx_eq(chain(&r.transform), translation(0.5, 0.0, 0.0));
    // static edges answer at any time
    let r = buffer
        .lookup_transform("camera", "item", &Time { sec: 42, nanosec: 7 })
        .unwrap();
    assert_approx_eq(chain(&r.transform), translation(0.5, 0.0, 0.0));
}

#[test]
fn out_of_range_lookup_fails() {
    let mut buffer = TfBuffer::new();
    buffer.handle_incoming_transforms(
        vec![
            stamped("a", "b", Time { sec: 1, nanosec: 0 }, translation(0.0, 0.0, 0.0)),
            stamped("a", "b", Time { sec: 2, nanosec: 0 }, translation(1.0, 0.0, 0.0)),
        ],
        false,
    );
    let future = buffer.lookup_transform("a", "b", &Time { sec: 2, nanosec: 500_000_000 });
    assert!(matches!(future, Err(TfError::CouldNotFindTransform(..))));
    let past = buffer.lookup_transform("a", "b", &Time { sec: 0, nanosec: 500_000_000 });
    assert!(matches!(past, Err(TfError::CouldNotFindTransform(..))));
    let h = buffer.history("a", "b").unwrap();
    assert!(matches!(
        h.get_closest_transform(&Time { sec: 2, nanosec: 500_000_000 }),
        Err(TfError::AttemptedLookUpInFuture(..))
    ));
    assert!(matches!(
        h.get_closest_transform(&Time { sec: 0, nanosec: 500_000_000 }),
        Err(TfError::AttemptedLookupInPast(..))
    ));
    let mid = buffer.lookup_transform("a", "b", &Time { sec: 1, nanosec: 250_000_000 }).unwrap();
    assert_approx_eq(chain(&mid.transform), translation(0.25, 0.0, 0.0));
}

#[test]
fn unknown_frames_and_same_frame() {
    let mut buffer = TfBuffer::new();
    let zero = Time { sec: 0, nanosec: 0 };
    buffer.handle_incoming_transforms(vec![stamped("a", "b", zero, translation(1.0, 2.0, 3.0))], true);
    match buffer.lookup_transform("a", "nowhere", &zero) {
        Err(TfError::CouldNotFindTransform(from, to, edges)) => {
            assert_eq!(from, "a");
            assert_eq!(to, "nowhere");
            assert_eq!(edges.len(), 2);
            assert!(edges.contains(&("a".to_string(), "b".to_string())));
            assert!(edges.contains(&("b".to_string(), "a".to_string())));
        }
        other => panic!("unexpected {other:?}"),
    }
    let same = buffer.lookup_transform("nowhere", "nowhere", &zero).unwrap();
    assert!(same.transform.is_empty());
    assert_eq!(chain(&same.transform), identity());
}

#[test]
fn batch_adds_inverse_edges() {
    let mut buffer = TfBuffer::new();
    let t = Time { sec: 3, nanosec: 0 };
    let mut rotated = translation(1.0, 2.0, 0.0);
    rotated.rotation = normalize(Quaternion { x: 0.0, y: 0.0, z: 1.0, w: 1.0 });
    buffer.handle_incoming_transforms(vec![stamped("p", "c", t, rotated)], false);
    let back = buffer.history("c", "p").unwrap().get(0).unwrap();
    assert_eq!(back.frame_id, "c");
    assert_eq!(back.child_frame_id, "p");
    assert_eq!(back.stamp, t);
    assert_eq!(back.transform, Oriented::Inverse(rotated));
    // chain identity: there and back again composes to the identity
    let there = buffer.lookup_transform("p", "c", &t).unwrap();
    let back_again = buffer.lookup_transform("c", "p", &t).unwrap();
    assert_approx_eq(compose(chain(&there.transform), chain(&back_again.transform)), identity());
}

#[test]
fn latest_sentinel_uses_newest_samples() {
    let mut buffer = TfBuffer::new();
    buffer.handle_incoming_transforms(
        vec![
            stamped("a", "b", Time { sec: 1, nanosec: 0 }, translation(1.0, 0.0, 0.0)),
            stamped("a", "b", Time { sec: 2, nanosec: 0 }, translation(2.0, 0.0, 0.0)),
            stamped("b", "c", Time { sec: 5, nanosec: 0 }, translation(0.0, 3.0, 0.0)),
        ],
        false,
    );
    let r = buffer.lookup_transform("a", "c", &Time { sec: 0, nanosec: 0 }).unwrap();
    assert_eq!(
        r.transform,
        vec![
            Segment::Exact(Oriented::Forward(translation(2.0, 0.0, 0.0))),
            Segment::Exact(Oriented::Forward(translation(0.0, 3.0, 0.0)))
        ]
    );
    // no instant other than the sentinel has both edges valid
    assert!(buffer.lookup_transform("a", "c", &Time { sec: 2, nanosec: 0 }).is_err());
}

#[test]
fn static_flag_is_set_at_creation_only() {
    let mut buffer = TfBuffer::new();
    let zero = Time { sec: 1, nanosec: 0 };
    buffer.handle_incoming_transforms(vec![stamped("a", "b", zero, translation(1.0, 0.0, 0.0))], true);
    buffer.handle_incoming_transforms(
        vec![stamped("a", "b", Time { sec: 2, nanosec: 0 }, translation(2.0, 0.0, 0.0))],
        false,
    );
    let h = buffer.history("a", "b").unwrap();
    assert!(h.is_static());
    let r = buffer.lookup_transform("a", "b", &Time { sec: 100, nanosec: 0 }).unwrap();
    assert_approx_eq(chain(&r.transform), translation(2.0, 0.0, 0.0));
}

#[test]
fn time_travel_fails_when_a_leg_has_no_path() {
    let mut buffer = TfBuffer::new();
    buffer.handle_incoming_transforms(
        vec![stamped("a", "fixed", Time { sec: 1, nanosec: 0 }, translation(1.0, 0.0, 0.0))],
        false,
    );
    let r = buffer.lookup_transform_with_time_travel(
        "a",
        Time { sec: 1, nanosec: 0 },
        "other",
        Time { sec: 1, nanosec: 0 },
        "fixed",
    );
    match r {
        Err(TfError::CouldNotFindTransform(from, to, _)) => {
            assert_eq!(from, "other");
            assert_eq!(to, "fixed");
        }
        other => panic!("unexpected {other:?}"),
    }
}

#[test]
fn a_longer_cycle_does_not_hide_the_direct_path() {
    let mut buffer = TfBuffer::new();
    let t = Time { sec: 1, nanosec: 0 };
    buffer.handle_incoming_transforms(
        vec![
            stamped("a", "b", t, translation(1.0, 0.0, 0.0)),
            stamped("b", "c", t, translation(1.0, 0.0, 0.0)),
            stamped("c", "a", t, translation(-2.0, 0.0, 0.0)),
        ],
        true,
    );
    let r = buffer.lookup_transform("a", "c", &t).unwrap();
    assert_eq!(r.transform.len(), 1);
    assert_approx_eq(chain(&r.transform), translation(2.0, 0.0, 0.0));
}

#[test]
fn tree_lookup_goes_through_the_common_parent() {
    let mut buffer = TfBuffer::new();
    let t = Time { sec: 2, nanosec: 0 };
    buffer.handle_incoming_transforms(
        vec![
            stamped("root", "left", t, translation(1.0, 0.0, 0.0)),
            stamped("root", "right", t, translation(0.0, 2.0, 0.0)),
            stamped("right", "leaf", t, translation(0.0, 0.0, 3.0)),
        ],
        true,
    );
    let r = buffer.lookup_transform("left", "leaf", &t).unwrap();
    assert_eq!(r.transform.len(), 3);
    assert_approx_eq(chain(&r.transform), translation(-1.0, 2.0, 3.0));
    assert_eq!(buffer.parents().len(), 4);
    let mut children = buffer.children("root");
    children.sort();
    assert_eq!(children, vec!["left".to_string(), "right".to_string()]);
}

#[test]
fn a_direct_valid_edge_is_the_path_taken() {
    let mut buffer = TfBuffer::new();
    let t = Time { sec: 1, nanosec: 0 };
    buffer.handle_incoming_transforms(
        vec![
            stamped("a", "m", t, translation(1.0, 0.0, 0.0)),
            stamped("m", "n", t, translation(1.0, 0.0, 0.0)),
            stamped("n", "b", t, translation(1.0, 0.0, 0.0)),
            stamped("a", "b", t, translation(5.0, 0.0, 0.0)),
        ],
        true,
    );
    let r = buffer.lookup_transform("a", "b", &t).unwrap();
    assert_eq!(r.transform, vec![Segment::Exact(Oriented::Forward(translation(5.0, 0.0, 0.0)))]);
}

#[test]
fn static_edge_in_a_lookup_uses_the_sample_inserted_last() {
    let mut buffer = TfBuffer::new();
    buffer.handle_incoming_transforms(
        vec![
            stamped("a", "b", Time { sec: 5, nanosec: 0 }, translation(5.0, 0.0, 0.0)),
            stamped("a", "b", Time { sec: 3, nanosec: 0 }, translation(3.0, 0.0, 0.0)),
        ],
        true,
    );
    let r = buffer.lookup_transform("a", "b", &Time { sec: 4, nanosec: 0 }).unwrap();
    assert_approx_eq(chain(&r.transform), translation(3.0, 0.0, 0.0));
}
