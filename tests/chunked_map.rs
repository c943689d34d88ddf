use csv_index::chunked_map::chunk_map;
use csv_index::sorted_map::SortedMap;

#[test]
fn test_split_one() {
    let mut map = SortedMap::new();
    map.insert(1, 'a');
    map.insert(2, 'b');
    map.insert(3, 'c');

    let chunked_map = chunk_map(&mut map, 1);
    assert_eq!(chunked_map.len(), 1);

    let (key, chunk) = &chunked_map[0];
    assert_eq!(key, &1);
    assert_eq!(chunk.len(), 3);
    assert_eq!(chunk.get(&1), Some(&'a'));
    assert_eq!(chunk.get(&2), Some(&'b'));
    assert_eq!(chunk.get(&3), Some(&'c'));
}

#[test]
fn test_split_two() {
    let mut map = SortedMap::new();
    map.insert(1, 'a');
    map.insert(2, 'b');
    map.insert(3, 'c');

    let chunked_map = chunk_map(&mut map, 2);
    assert_eq!(chunked_map.len(), 2);

    let (key, chunk) = &chunked_map[0];
    assert_eq!(key, &1);
    assert_eq!(chunk.len(), 1);
    assert_eq!(chunk.get(&1), Some(&'a'));

    let (key, chunk) = &chunked_map[1];
    assert_eq!(key, &2);
    assert_eq!(chunk.len(), 2);
    assert_eq!(chunk.get(&2), Some(&'b'));
    assert_eq!(chunk.get(&3), Some(&'c'));
}

#[test]
fn chunking_clamps_to_the_number_of_keys() {
    let mut map = SortedMap::new();
    map.insert(5, 'x');
    map.insert(7, 'y');
    let chunked_map = chunk_map(&mut map, 10);
    assert_eq!(chunked_map.len(), 2);
    assert_eq!(chunked_map[0].0, 5);
    assert_eq!(chunked_map[1].0, 7);
    assert_eq!(map.len(), 0);
}

#[test]
fn chunking_an_empty_map_gives_no_chunk() {
    let mut map: SortedMap<i32, char> = SortedMap::new();
    assert_eq!(chunk_map(&mut map, 3).len(), 0);
}

#[test]
fn last_chunk_takes_the_remainder_and_order_is_kept() {
    let mut map = SortedMap::new();
    for k in [9, 3, 7, 1, 5, 8, 2] {
        map.insert(k, k * 10);
    }
    let chunks = chunk_map(&mut map, 3);
    let sizes: Vec<usize> = chunks.iter().map(|c| c.1.len()).collect();
    assert_eq!(sizes, vec![2, 2, 3]);
    let labels: Vec<i32> = chunks.iter().map(|c| c.0).collect();
    assert_eq!(labels, vec![1, 3, 7]);
    let mut all = Vec::new();
    for (_, c) in &chunks {
        for i in 0..c.len() {
            all.push((*c.key_at(i), *c.value_at(i)));
        }
    }
    assert_eq!(all, vec![(1, 10), (2, 20), (3, 30), (5, 50), (7, 70), (8, 80), (9, 90)]);
}
