use btree_vector::{btree_from_vector, btreemap_sorted_values, btreemap_values, BTreeVector};
use std::cmp::Ordering;
use std::collections::BTreeMap;

/// A record keyed by `id` and ordered by `name`, then `id`.
#[derive(Clone, Debug, PartialEq, Eq)]
struct Record {
    id: u64,
    name: String,
}

fn rec(id: u64, name: &str) -> Record {
    Record { id, name: name.to_string() }
}

impl BTreeVector<u64> for Record {
    fn key_of(&self) -> u64 {
        self.id
    }

    fn key(&self) -> u64 {
        self.id
    }
}

impl PartialOrd for Record {
    fn partial_cmp(&self, other: &Self) -> Option<Ordering> {
        Some(self.cmp(other))
    }
}

impl Ord for Record {
    fn cmp(&self, other: &Self) -> Ordering {
        self.name.as_bytes().cmp(other.name.as_bytes()).then(self.id.cmp(&other.id))
    }
}

/// An item keyed by `id` whose own order looks at `rank` alone.
#[derive(Clone, Copy, Debug)]
struct Ranked {
    id: u64,
    rank: u8,
}

impl BTreeVector<u64> for Ranked {
    fn key_of(&self) -> u64 {
        self.id
    }

    fn key(&self) -> u64 {
        self.id
    }
}

impl PartialEq for Ranked {
    fn eq(&self, other: &Self) -> bool {
        self.rank == other.rank
    }
}

impl Eq for Ranked {}

impl PartialOrd for Ranked {
    fn partial_cmp(&self, other: &Self) -> Option<Ordering> {
        Some(self.cmp(other))
    }
}

impl Ord for Ranked {
    fn cmp(&self, other: &Self) -> Ordering {
        self.rank.cmp(&other.rank)
    }
}

fn ids(values: &[&Ranked]) -> Vec<u64> {
    values.iter().map(|r| r.id).collect()
}

#[test]
fn scenario_records() {
    let map = btree_from_vector(vec![rec(3, "c"), rec(1, "a"), rec(3, "C")]);
    let mut expected = BTreeMap::new();
    expected.insert(1u64, rec(1, "a"));
    expected.insert(3u64, rec(3, "C"));
    assert_eq!(map, expected);

    let in_key_order = btreemap_values(&map);
    assert_eq!(in_key_order, vec![&rec(1, "a"), &rec(3, "C")]);

    let by_name = btreemap_sorted_values(&map);
    assert_eq!(by_name, vec![&rec(3, "C"), &rec(1, "a")]);
}

#[test]
fn later_element_wins_on_equal_keys() {
    let map = btree_from_vector(vec![rec(7, "first"), rec(7, "second")]);
    assert_eq!(map.len(), 1);
    assert_eq!(map.get(&7), Some(&rec(7, "second")));
}

#[test]
fn duplicates_shrink_the_map() {
    let input = vec![rec(2, "x"), rec(5, "y"), rec(2, "z"), rec(5, "w"), rec(9, "v")];
    let map = btree_from_vector(input.clone());
    assert!(map.len() < input.len());
    assert_eq!(map.len(), 3);
    assert_eq!(map.get(&2), Some(&rec(2, "z")));
    assert_eq!(map.get(&5), Some(&rec(5, "w")));
}

#[test]
fn round_trip_reorders_by_key() {
    let input = vec![rec(30, "q"), rec(10, "r"), rec(20, "s")];
    let map = btree_from_vector(input);
    let listed: Vec<Record> = btreemap_values(&map).into_iter().cloned().collect();
    assert_eq!(listed, vec![rec(10, "r"), rec(20, "s"), rec(30, "q")]);
}

#[test]
fn key_order_listing_ignores_value_order() {
    let map = btree_from_vector(vec![
        Ranked { id: 1, rank: 9 },
        Ranked { id: 2, rank: 0 },
        Ranked { id: 3, rank: 5 },
    ]);
    assert_eq!(ids(&btreemap_values(&map)), vec![1, 2, 3]);
    assert_eq!(ids(&btreemap_sorted_values(&map)), vec![2, 3, 1]);
}

#[test]
fn sorted_listing_keeps_key_order_on_ties() {
    let map = btree_from_vector(vec![
        Ranked { id: 8, rank: 1 },
        Ranked { id: 4, rank: 1 },
        Ranked { id: 6, rank: 0 },
        Ranked { id: 2, rank: 1 },
    ]);
    assert_eq!(ids(&btreemap_sorted_values(&map)), vec![6, 2, 4, 8]);
}

#[test]
fn decoding_the_listing_gives_back_the_map() {
    let map = btree_from_vector(vec![rec(4, "d"), rec(2, "b"), rec(6, "f")]);
    let listed: Vec<Record> = btreemap_values(&map).into_iter().cloned().collect();
    let again = btree_from_vector(listed);
    assert_eq!(again, map);
}

#[test]
fn empty_input_gives_empty_map_and_listings() {
    let map: BTreeMap<u64, Record> = btree_from_vector(Vec::new());
    assert!(map.is_empty());
    assert!(btreemap_values(&map).is_empty());
    assert!(btreemap_sorted_values(&map).is_empty());
}

#[test]
fn sorted_listing_of_one_value() {
    let map = btree_from_vector(vec![rec(u64::MAX, "only")]);
    assert_eq!(btreemap_sorted_values(&map), vec![&rec(u64::MAX, "only")]);
    assert_eq!(btreemap_values(&map), vec![&rec(u64::MAX, "only")]);
}
