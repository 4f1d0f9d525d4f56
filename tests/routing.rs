use kadtable::id::Id;
use kadtable::table::{InsertError, RoutingTable};
use rand::rngs::StdRng;
use rand::{Rng, SeedableRng};

fn id(hex: &str) -> Id {
    hex.parse::<Id>().unwrap()
}

/// An identifier whose first byte is `first` and whose last byte is `last`.
fn id_with(first: u8, last: u8) -> Id {
    let mut bytes = [0u8; 20];
    bytes[0] = first;
    bytes[19] = last;
    Id(bytes)
}

#[test]
fn returns_closest_items() {
    let nodes = [
        "8bb7c3513f3c547eb8782e775d3895972b22aaa3",
        "3a210072672c070de4029b361f8984b76d3d2fc5",
        "00000856ade0fad1aec472413691ed58698f68cb",
        "41eca3506242e5f033a25e3dd1382007fe350596",
        "3a21185e998b3fc0ebbaf29363c6186022441d45",
    ]
    .map(|hex| hex.parse::<Id>().unwrap());

    let mut table = RoutingTable::new(
        "949e1514bc61a4cda96b40879e5f0513865a2644".parse().unwrap(),
        5,
    );
    for node in &nodes {
        table.insert(*node, ()).unwrap();
    }

    let (closest, _): (Vec<_>, Vec<&()>) = table
        .closest("3a21264604acddf0678e917c1d3440d059c4dfc4".parse().unwrap())
        .into_iter()
        .unzip();

    assert_eq!(
        closest,
        [
            "3a210072672c070de4029b361f8984b76d3d2fc5",
            "3a21185e998b3fc0ebbaf29363c6186022441d45",
            "00000856ade0fad1aec472413691ed58698f68cb",
            "41eca3506242e5f033a25e3dd1382007fe350596",
            "8bb7c3513f3c547eb8782e775d3895972b22aaa3",
        ]
        .map(|hex| hex.parse::<Id>().unwrap())
    );
}

#[test]
fn returns_closest_randomized() {
    // To be able to debug in case of failure.
    let mut seed = [0; 32];
    rand::thread_rng().fill(&mut seed);
    println!("seed: {seed:?}");

    let mut rng = StdRng::from_seed(seed);

    let mut table = RoutingTable::new(Id(rng.gen()), rng.gen_range(1..10));
    for _ in 0..rng.gen_range(100..1000) {
        let _ = table.insert(Id(rng.gen()), ());
    }

    let search = Id(rng.gen());
    let ordered: Vec<_> = table.closest(search);

    for pair in ordered.windows(2) {
        let [(a, _), (b, _)] = pair else {
            unreachable!("hardcoded window size");
        };
        let distance_a = *a ^ search;
        let distance_b = *b ^ search;
        assert!(distance_a <= distance_b);
    }
}

#[test]
fn closest_is_strictly_ascending_and_complete() {
    let mut rng = StdRng::seed_from_u64(7);
    let mut table = RoutingTable::new(Id(rng.gen()), 4);
    let mut stored = 0;
    for _ in 0..300 {
        if let Ok(None) = table.insert(Id(rng.gen()), ()) {
            stored += 1;
        }
    }
    let target = Id(rng.gen());
    let ordered = table.closest(target);
    assert_eq!(ordered.len(), table.len());
    assert!(table.len() <= stored);
    for pair in ordered.windows(2) {
        assert!((pair[0].0 ^ target) < (pair[1].0 ^ target));
    }
}

#[test]
fn closest_returns_contacts() {
    let mut table = RoutingTable::new(Id([0u8; 20]), 3);
    table.insert(id_with(0x80, 1), "far").unwrap();
    table.insert(id_with(0x01, 2), "near").unwrap();
    let ordered = table.closest(Id([0u8; 20]));
    assert_eq!(ordered, vec![(id_with(0x01, 2), &"near"), (id_with(0x80, 1), &"far")]);
}

#[test]
fn closest_on_empty_table_is_empty() {
    let table: RoutingTable<u32> = RoutingTable::new(id_with(1, 1), 5);
    assert!(table.closest(id_with(2, 2)).is_empty());
    assert_eq!(table.len(), 0);
}

#[test]
fn insert_same_id_twice_returns_previous_contact() {
    let mut table = RoutingTable::new(id_with(0, 0), 5);
    let peer = id_with(0x42, 9);
    assert_eq!(table.insert(peer, 1), Ok(None));
    assert_eq!(table.len(), 1);
    assert_eq!(table.insert(peer, 2), Ok(Some(1)));
    assert_eq!(table.len(), 1);
    let ordered = table.closest(peer);
    assert_eq!(ordered, vec![(peer, &2)]);
}

#[test]
fn full_bucket_drops_new_ids() {
    // With an all-zero local identifier every id whose first bit is set
    // lands in the last bucket.
    let mut table = RoutingTable::new(Id([0u8; 20]), 3);
    for last in 0..5u8 {
        assert_eq!(table.insert(id_with(0x80, last), last), Ok(None));
    }
    assert_eq!(table.len(), 3);
    let listed: Vec<Id> = table.closest(Id([0u8; 20])).into_iter().map(|(i, _)| i).collect();
    assert_eq!(listed, vec![id_with(0x80, 0), id_with(0x80, 1), id_with(0x80, 2)]);
    assert!(!listed.contains(&id_with(0x80, 3)));
    assert!(!listed.contains(&id_with(0x80, 4)));
    // A known id in a full bucket is still updated.
    assert_eq!(table.insert(id_with(0x80, 1), 11), Ok(Some(1)));
    // Another bucket still has room.
    assert_eq!(table.insert(id_with(0x40, 0), 7), Ok(None));
    assert_eq!(table.len(), 4);
}

#[test]
fn self_insertion_is_an_error() {
    let local = id("949e1514bc61a4cda96b40879e5f0513865a2644");
    let mut table = RoutingTable::new(local, 2);
    assert_eq!(table.insert(local, ()), Err(InsertError::SelfInsertion));
    table.insert(id_with(3, 3), ()).unwrap();
    assert_eq!(table.insert(local, ()), Err(InsertError::SelfInsertion));
    assert_eq!(table.len(), 1);
}

#[test]
fn len_never_exceeds_buckets_times_capacity() {
    let mut rng = StdRng::seed_from_u64(11);
    let mut table = RoutingTable::new(Id(rng.gen()), 1);
    for _ in 0..2000 {
        let _ = table.insert(Id(rng.gen()), ());
    }
    assert!(table.len() <= 160);
    assert!(table.len() > 0);
}

#[test]
fn partly_filled_bucket_keeps_order_and_stays_full() {
    let local = Id([0u8; 20]);
    let mut table = RoutingTable::new(local, 4);
    // Two entries already in the last bucket.
    table.insert(id_with(0x80, 100), 0).unwrap();
    table.insert(id_with(0x81, 101), 0).unwrap();
    for last in 0..5u8 {
        assert_eq!(table.insert(id_with(0x90, last), 1), Ok(None));
    }
    let listed: Vec<Id> = table.closest(local).into_iter().map(|(i, _)| i).collect();
    assert_eq!(listed.len(), 4);
    for expected in [id_with(0x80, 100), id_with(0x81, 101), id_with(0x90, 0), id_with(0x90, 1)] {
        assert!(listed.contains(&expected));
    }
    // Later insertions elsewhere, and of the excess ids again, never bring them in.
    table.insert(id_with(0x01, 0), 2).unwrap();
    assert_eq!(table.insert(id_with(0x90, 3), 3), Ok(None));
    let listed: Vec<Id> = table.closest(id_with(0x90, 3)).into_iter().map(|(i, _)| i).collect();
    assert_eq!(listed.len(), 5);
    for excess in 2..5u8 {
        assert!(!listed.contains(&id_with(0x90, excess)));
    }
}
