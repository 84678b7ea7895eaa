use ketama::bkdr;
use ketama::Ketama;

fn ring_init(ring: &mut Ketama) {
    ring.add("a", 128);
    ring.add("b", 128);
    let strc = String::from("c");
    ring.add(strc.as_str(), 128);
    ring.build();
}

fn is_ascending(positions: &[u32]) -> bool {
    positions.windows(2).all(|w| w[0] <= w[1])
}

#[test]
fn test_query() {
    let mut ring = Ketama::new(128 * 3);
    ring_init(&mut ring);
    println!("{:?}", ring.query("ok"));
    println!("{:?}", ring.query("233"));
    println!("{:?}", ring.query("666"));
    {
        let a = ring.query("a");
        println!("{:?}", a);
    }
}

#[test]
fn three_backends_give_384_entries() {
    let mut ring = Ketama::new(0);
    ring_init(&mut ring);
    assert_eq!(ring.len(), 384);
    let positions = ring.positions();
    assert_eq!(positions.len(), 384);
    assert!(is_ascending(&positions));
    assert_eq!(&positions[..3], &[2947728, 5466755, 5699100]);
    assert_eq!(&positions[382..], &[4291939988, 4294141052]);
}

#[test]
fn three_backends_answer_known_keys() {
    let mut ring = Ketama::new(384);
    ring_init(&mut ring);
    assert_eq!(ring.query("ok"), Some("c"));
    assert_eq!(ring.query("233"), Some("c"));
    assert_eq!(ring.query("666"), Some("c"));
    assert_eq!(ring.query("a"), Some("c"));
    assert_eq!(ring.query(""), Some("c"));
    for _ in 0..10 {
        assert_eq!(ring.query("233"), Some("c"));
    }
}

#[test]
fn three_backends_answer_known_positions() {
    let mut ring = Ketama::new(384);
    ring_init(&mut ring);
    assert_eq!(ring.query_u32(0), Some("c"));
    assert_eq!(ring.query_u32(2947728), Some("c"));
    assert_eq!(ring.query_u32(2947729), Some("a"));
    assert_eq!(ring.query_u32(5466755), Some("a"));
    assert_eq!(ring.query_u32(4294141052), Some("b"));
    assert_eq!(ring.query_u32(4294141053), Some("c"));
    assert_eq!(ring.query_u32(0xFFFF_FFFF), Some("c"));
}

#[test]
fn query_is_query_u32_of_the_key_hash() {
    let mut ring = Ketama::new(384);
    ring_init(&mut ring);
    for key in ["ok", "233", "666", "a", "", "some longer key", "\u{e9}t\u{e9}"] {
        assert_eq!(ring.query(key), ring.query_u32(bkdr(key.as_bytes())));
    }
}

#[test]
fn single_backend_weight_four() {
    let mut ring = Ketama::new(4);
    ring.add("x", 4);
    assert_eq!(ring.positions(), vec![4218471568, 2087102740, 3395501022, 1605818711]);
    ring.build();
    assert_eq!(ring.len(), 4);
    assert_eq!(ring.positions(), vec![1605818711, 2087102740, 3395501022, 4218471568]);
    assert_eq!(ring.query_u32(0xFFFF_FFFF), Some("x"));
    assert_eq!(ring.query_u32(0), Some("x"));
    assert_eq!(ring.query_u32(4218471568), Some("x"));
}

#[test]
fn weight_is_rounded_up_to_a_multiple_of_four() {
    let weights: [usize; 8] = [0, 1, 3, 4, 5, 8, 9, 128];
    let expected: [usize; 8] = [0, 4, 4, 4, 8, 8, 12, 128];
    for i in 0..8 {
        let mut ring = Ketama::new(0);
        ring.add("backend", weights[i]);
        assert_eq!(ring.len(), expected[i]);
        ring.build();
        assert_eq!(ring.len(), expected[i]);
    }
}

#[test]
fn entries_accumulate_over_registrations() {
    let mut ring = Ketama::new(0);
    ring.add("a", 5);
    assert_eq!(ring.len(), 8);
    ring.add("b", 0);
    assert_eq!(ring.len(), 8);
    ring.add("c", 2);
    assert_eq!(ring.len(), 12);
    ring.build();
    assert_eq!(ring.len(), 12);
}

#[test]
fn zero_weight_leaves_the_ring_empty() {
    let mut ring = Ketama::new(16);
    ring.add("a", 0);
    ring.build();
    assert_eq!(ring.len(), 0);
    assert_eq!(ring.query("anything"), None);
    assert_eq!(ring.query_u32(7), None);
}

#[test]
fn empty_ring_answers_none() {
    let ring = Ketama::new(8);
    assert_eq!(ring.len(), 0);
    assert_eq!(ring.query("a"), None);
    assert_eq!(ring.query(""), None);
    assert_eq!(ring.query_u32(0), None);
    assert_eq!(ring.query_u32(0xFFFF_FFFF), None);
    let mut built = Ketama::new(0);
    built.build();
    assert_eq!(built.query("a"), None);
}

#[test]
fn build_is_idempotent() {
    let mut ring = Ketama::new(0);
    ring_init(&mut ring);
    let once = ring.positions();
    let answer = ring.query("233").map(|s| s.to_owned());
    ring.build();
    assert_eq!(ring.positions(), once);
    assert_eq!(ring.query("233").map(|s| s.to_owned()), answer);
}

#[test]
fn same_registrations_give_the_same_ring() {
    let mut first = Ketama::new(0);
    let mut second = Ketama::new(1000);
    ring_init(&mut first);
    ring_init(&mut second);
    assert_eq!(first.positions(), second.positions());
    for key in ["ok", "233", "666", "a", "b", "c", "", "zzz"] {
        assert_eq!(first.query(key), second.query(key));
    }
    let mut h: u32 = 0;
    for _ in 0..1000 {
        assert_eq!(first.query_u32(h), second.query_u32(h));
        h = h.wrapping_add(4_294_967);
    }
}

#[test]
fn keyed_registration_hashes_the_key_and_stores_the_value() {
    let mut ring = Ketama::new(0);
    ring.add_keyed("k1", "first", 5);
    ring.add_keyed("k2", "second", 1);
    ring.build();
    assert_eq!(
        ring.positions(),
        vec![
            637328, 127854058, 347934807, 815205977, 1224698708, 1614705370, 2579458142,
            2813504699, 2871757252, 3020976645, 3912138745, 4188223839
        ]
    );
    assert_eq!(ring.query_u32(0), Some("second"));
    assert_eq!(ring.query_u32(637328), Some("second"));
    assert_eq!(ring.query_u32(637329), Some("first"));
    assert_eq!(ring.query_u32(815205977), Some("second"));
    assert_eq!(ring.query_u32(1 << 31), Some("first"));
    assert_eq!(ring.query_u32(3020976646), Some("second"));
    assert_eq!(ring.query_u32(4188223839), Some("second"));
    assert_eq!(ring.query_u32(4188223840), Some("second"));
    assert_eq!(ring.query_u32(0xFFFF_FFFF), Some("second"));
}

#[test]
fn add_hashes_the_value_as_its_own_key() {
    let mut plain = Ketama::new(0);
    plain.add("x", 9);
    let mut keyed = Ketama::new(0);
    keyed.add_keyed("x", "x", 9);
    assert_eq!(plain.positions(), keyed.positions());
}

#[test]
fn lookup_picks_the_nearest_entry_at_or_after() {
    let mut ring = Ketama::new(0);
    ring.add_keyed("k1", "first", 5);
    ring.add_keyed("k2", "second", 1);
    ring.build();
    let positions = ring.positions();
    let owners = [
        "second", "first", "first", "second", "first", "first", "first", "first", "first",
        "first", "second", "second",
    ];
    for i in 0..positions.len() {
        assert_eq!(ring.query_u32(positions[i]), Some(owners[i]));
        if i > 0 && positions[i - 1] < positions[i] - 1 {
            assert_eq!(ring.query_u32(positions[i] - 1), Some(owners[i]));
        }
    }
}

#[test]
fn unbuilt_ring_is_searched_as_it_stands() {
    let mut ring = Ketama::new(0);
    ring.add_keyed("k1", "first", 5);
    ring.add_keyed("k2", "second", 1);
    assert_eq!(
        ring.positions(),
        vec![
            3020976645, 1614705370, 127854058, 2813504699, 347934807, 2871757252, 1224698708,
            2579458142, 4188223839, 637328, 815205977, 3912138745
        ]
    );
    assert_eq!(ring.query_u32(0), Some("first"));
    assert_eq!(ring.query_u32(637328), Some("first"));
    assert_eq!(ring.query_u32(1 << 31), Some("second"));
    assert_eq!(ring.query_u32(3000000000), Some("second"));
    assert_eq!(ring.query_u32(4000000000), Some("first"));
    assert_eq!(ring.query_u32(0xFFFF_FFFF), Some("first"));
}

#[test]
fn rebuilding_after_a_late_registration() {
    let mut ring = Ketama::new(0);
    ring.add_keyed("k1", "first", 5);
    ring.build();
    ring.add_keyed("k2", "second", 1);
    ring.build();
    let mut fresh = Ketama::new(0);
    fresh.add_keyed("k1", "first", 5);
    fresh.add_keyed("k2", "second", 1);
    fresh.build();
    assert_eq!(ring.positions(), fresh.positions());
    assert_eq!(ring.query_u32(637328), Some("second"));
    assert_eq!(ring.query_u32(637329), Some("first"));
}
