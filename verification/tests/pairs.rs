use quicktok::chunks::{chunk_bounds, count_chunk, count_pairs_chunked};
use quicktok::merge::merge;
use quicktok::pairs::{count_pairs, count_pairs_between, PairCounts, PairEntry};

fn ids_of(text: &str) -> Vec<usize> {
    text.bytes().map(|b| b as usize).collect()
}

fn sorted_entries(table: &PairCounts) -> Vec<(usize, usize, usize)> {
    let mut entries: Vec<(usize, usize, usize)> = Vec::new();
    for i in 0..table.len() {
        let e = table.entry(i);
        entries.push((e.left, e.right, e.count));
    }
    entries.sort();
    entries
}

#[test]
fn count_pairs_counts_every_adjacent_pair() {
    let table = count_pairs(&ids_of("aaabdaaabac"));
    assert_eq!(
        sorted_entries(&table),
        vec![
            (97, 97, 4),
            (97, 98, 2),
            (97, 99, 1),
            (98, 97, 1),
            (98, 100, 1),
            (100, 97, 1),
        ]
    );
    assert_eq!(table.get(97, 97), 4);
    assert_eq!(table.get(99, 97), 0);
}

#[test]
fn count_pairs_counts_overlapping_occurrences() {
    let table = count_pairs(&vec![7, 7, 7]);
    assert_eq!(table.get(7, 7), 2);
    assert_eq!(table.len(), 1);
}

#[test]
fn count_pairs_lists_pairs_in_order_of_first_occurrence() {
    let table = count_pairs(&vec![5, 6, 5, 6, 7]);
    assert_eq!(table.len(), 3);
    assert_eq!(table.entry(0), PairEntry { left: 5, right: 6, count: 2 });
    assert_eq!(table.entry(1), PairEntry { left: 6, right: 5, count: 1 });
    assert_eq!(table.entry(2), PairEntry { left: 6, right: 7, count: 1 });
}

#[test]
fn count_pairs_of_short_sequences_is_empty() {
    assert_eq!(count_pairs(&vec![]).len(), 0);
    assert_eq!(count_pairs(&vec![42]).len(), 0);
    assert!(count_pairs(&vec![42]).most_common().is_none());
}

#[test]
fn count_pairs_keeps_large_ids_apart() {
    let big = usize::MAX;
    let table = count_pairs(&vec![big, 0, big, 1, 0, big]);
    assert_eq!(table.get(big, 0), 1);
    assert_eq!(table.get(0, big), 2);
    assert_eq!(table.get(big, 1), 1);
    assert_eq!(table.get(1, 0), 1);
    assert_eq!(table.get(0, 1), 0);
}

#[test]
fn count_pairs_between_counts_the_positions_of_the_range() {
    let ids = vec![1, 2, 1, 2, 1, 2];
    let table = count_pairs_between(&ids, 1, 4);
    assert_eq!(table.get(2, 1), 2);
    assert_eq!(table.get(1, 2), 1);
    let past_the_end = count_pairs_between(&ids, 4, 100);
    assert_eq!(past_the_end.get(1, 2), 1);
    assert_eq!(past_the_end.len(), 1);
    assert_eq!(count_pairs_between(&ids, 4, 2).len(), 0);
    assert_eq!(count_pairs_between(&ids, 5, 6).len(), 0);
}

#[test]
fn most_common_takes_the_highest_count() {
    let best = count_pairs(&ids_of("aaabdaaabac")).most_common();
    assert_eq!(best, Some(PairEntry { left: 97, right: 97, count: 4 }));
}

#[test]
fn most_common_breaks_ties_by_the_order_of_pairs() {
    // 9 3 and 3 9 and 2 9 occur once each; 2 9 comes first by its left id.
    let best = count_pairs(&vec![9, 3, 9, 2, 9]).most_common();
    assert_eq!(best, Some(PairEntry { left: 2, right: 9, count: 1 }));
    // 4 8 and 4 6 occur twice each; 4 6 comes first by its right id.
    let best = count_pairs(&vec![4, 8, 4, 8, 0, 4, 6, 4, 6]).most_common();
    assert_eq!(best, Some(PairEntry { left: 4, right: 6, count: 2 }));
}

#[test]
fn add_and_merge_from_add_counts() {
    let mut table = PairCounts::new();
    table.add(1, 2, 3);
    table.add(1, 2, 4);
    table.add(2, 1, 1);
    table.add(5, 5, 0);
    assert_eq!(table.get(1, 2), 7);
    assert_eq!(table.get(5, 5), 0);
    assert_eq!(table.len(), 2);
    let mut other = PairCounts::new();
    other.add(2, 1, 10);
    other.add(3, 3, 1);
    table.merge_from(&other);
    assert_eq!(sorted_entries(&table), vec![(1, 2, 7), (2, 1, 11), (3, 3, 1)]);
}

#[test]
fn chunk_bounds_give_the_rest_to_the_last_chunk() {
    assert_eq!(chunk_bounds(10, 3, 0), (0, 3));
    assert_eq!(chunk_bounds(10, 3, 1), (3, 6));
    assert_eq!(chunk_bounds(10, 3, 2), (6, 10));
    assert_eq!(chunk_bounds(10, 0, 0), (0, 10));
    assert_eq!(chunk_bounds(2, 5, 0), (0, 0));
    assert_eq!(chunk_bounds(2, 5, 3), (0, 0));
    assert_eq!(chunk_bounds(2, 5, 4), (0, 2));
}

#[test]
fn count_chunk_counts_the_pair_that_reaches_into_the_next_chunk() {
    let ids = vec![1, 2, 3, 4, 5, 6];
    let first = count_chunk(&ids, 2, 0);
    assert_eq!(sorted_entries(&first), vec![(1, 2, 1), (2, 3, 1), (3, 4, 1)]);
    let last = count_chunk(&ids, 2, 1);
    assert_eq!(sorted_entries(&last), vec![(4, 5, 1), (5, 6, 1)]);
}

#[test]
fn chunked_counts_equal_sequential_counts_for_every_worker_count() {
    let ids = ids_of("the cat sat on the mat, the rat sat on the cat");
    let expected = sorted_entries(&count_pairs(&ids));
    for workers in 0..ids.len() + 4 {
        let table = count_pairs_chunked(&ids, workers);
        assert_eq!(sorted_entries(&table), expected, "workers = {}", workers);
    }
}

#[test]
fn chunked_counts_of_short_sequences_are_empty() {
    assert_eq!(count_pairs_chunked(&vec![], 4).len(), 0);
    assert_eq!(count_pairs_chunked(&vec![1], 4).len(), 0);
}

#[test]
fn merge_replaces_non_overlapping_occurrences() {
    assert_eq!(merge(&vec![1, 1, 1], 1, 1, 9), vec![9, 1]);
    assert_eq!(merge(&vec![1, 1, 1, 1], 1, 1, 9), vec![9, 9]);
    assert_eq!(merge(&vec![1, 2, 3, 1, 2], 1, 2, 9), vec![9, 3, 9]);
    assert_eq!(merge(&vec![1, 2, 3], 2, 1, 9), vec![1, 2, 3]);
    assert_eq!(merge(&vec![], 1, 2, 9), Vec::<usize>::new());
    assert_eq!(merge(&vec![1], 1, 1, 9), vec![1]);
}

#[test]
fn merge_on_the_known_sequence() {
    let ids = ids_of("aaabdaaabac");
    let once = merge(&ids, 97, 97, 256);
    assert_eq!(once, vec![256, 97, 98, 100, 256, 97, 98, 97, 99]);
    assert_eq!(once.len(), ids.len() - 2);
}
