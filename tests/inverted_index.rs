use std::sync::atomic::AtomicBool;

use sparse::inverted_index::InvertedIndex;
use sparse::inverted_index_mmap::InvertedIndexMmap;
use sparse::inverted_index_ram::InvertedIndexRam;
use sparse::layout::{self, LayoutError};
use sparse::posting_list::{PostingElement, PostingList, PostingListIterator};
use sparse::search_context::SearchError;
use sparse::sparse_vector::{SparseVector, SparseVectorError};
use sparse::types::ScoredPointOffset;

fn vector(indices: &[u32], values: &[i32]) -> SparseVector {
    SparseVector::new(indices.to_vec(), values.to_vec()).unwrap()
}

fn ids(list: &PostingList) -> Vec<u32> {
    list.elements.iter().map(|e| e.record_id).collect()
}

/// Points 0: {1: 10, 2: 20}, 1: {1: 5}, 2: {2: 30} (weights scaled by ten).
fn three_points() -> InvertedIndexRam {
    let mut ram = InvertedIndexRam::new();
    ram.upsert(0, &vector(&[1, 2], &[10, 20]));
    ram.upsert(1, &vector(&[1], &[5]));
    ram.upsert(2, &vector(&[2], &[30]));
    ram
}

fn not_stopped() -> AtomicBool {
    AtomicBool::new(false)
}

#[test]
fn search_three_points_top_two() {
    let index = InvertedIndex::Ram(three_points());
    let query = vector(&[1, 2], &[10, 10]);
    let result = index.search(&query, 2, &not_stopped()).unwrap();
    assert_eq!(
        result,
        vec![ScoredPointOffset { idx: 0, score: 300 }, ScoredPointOffset { idx: 2, score: 300 }]
    );
}

#[test]
fn search_three_points_all() {
    let index = InvertedIndex::Ram(three_points());
    let query = vector(&[1, 2], &[10, 10]);
    let result = index.search(&query, 10, &not_stopped()).unwrap();
    assert_eq!(
        result,
        vec![
            ScoredPointOffset { idx: 0, score: 300 },
            ScoredPointOffset { idx: 2, score: 300 },
            ScoredPointOffset { idx: 1, score: 50 },
        ]
    );
}

#[test]
fn remove_point_zero() {
    let mut ram = three_points();
    ram.remove(0);
    assert_eq!(ids(ram.get(&1).unwrap()), vec![1]);
    assert_eq!(ids(ram.get(&2).unwrap()), vec![2]);
    assert_eq!(ram.indexed_vector_count(), 2);
}

#[test]
fn search_cancelled_before_start() {
    let index = InvertedIndex::Ram(three_points());
    let query = vector(&[1, 2], &[10, 10]);
    let stopped = AtomicBool::new(true);
    assert_eq!(index.search(&query, 2, &stopped), Err(SearchError::Cancelled));
    assert_eq!(index.search_exhaustive(&query, 2, &stopped), Err(SearchError::Cancelled));
}

#[test]
fn search_top_zero_is_empty() {
    let index = InvertedIndex::Ram(three_points());
    let query = vector(&[1, 2], &[10, 10]);
    assert_eq!(index.search(&query, 0, &not_stopped()), Ok(vec![]));
}

#[test]
fn search_unknown_dimension_contributes_nothing() {
    let index = InvertedIndex::Ram(three_points());
    let query = vector(&[1, 7], &[10, 10]);
    let result = index.search(&query, 3, &not_stopped()).unwrap();
    assert_eq!(
        result,
        vec![ScoredPointOffset { idx: 0, score: 100 }, ScoredPointOffset { idx: 1, score: 50 }]
    );
}

#[test]
fn search_negative_weights_rank_last() {
    let mut ram = InvertedIndexRam::new();
    ram.upsert(0, &vector(&[0], &[-4]));
    ram.upsert(1, &vector(&[0], &[3]));
    ram.upsert(2, &vector(&[0, 1], &[1, 9]));
    let index = InvertedIndex::Ram(ram);
    let query = vector(&[0, 1], &[2, -1]);
    let result = index.search(&query, 3, &not_stopped()).unwrap();
    assert_eq!(
        result,
        vec![
            ScoredPointOffset { idx: 1, score: 6 },
            ScoredPointOffset { idx: 2, score: -7 },
            ScoredPointOffset { idx: 0, score: -8 },
        ]
    );
}

#[test]
fn pruned_matches_exhaustive() {
    let mut ram = InvertedIndexRam::new();
    for p in 0..60u32 {
        let a = ((p * 37) % 23) as i32 - 5;
        let b = ((p * 11) % 17) as i32;
        let c = ((p * 7) % 13) as i32 - 6;
        ram.upsert(p, &vector(&[p % 3, 3 + p % 4, 9], &[a, b, c]));
    }
    let index = InvertedIndex::Ram(ram);
    let query = vector(&[0, 1, 3, 5, 9], &[3, -2, 5, 1, 2]);
    for top in 0..12usize {
        let pruned = index.search(&query, top, &not_stopped()).unwrap();
        let full = index.search_exhaustive(&query, top, &not_stopped()).unwrap();
        assert_eq!(pruned, full);
        assert!(pruned.len() <= top);
        for w in pruned.windows(2) {
            assert!(w[0].score > w[1].score || (w[0].score == w[1].score && w[0].idx < w[1].idx));
        }
    }
}

#[test]
fn upsert_replaces_old_dimensions() {
    let mut ram = three_points();
    ram.upsert(0, &vector(&[2, 5], &[7, 0]));
    assert_eq!(ids(ram.get(&1).unwrap()), vec![1]);
    assert_eq!(ram.get(&2).unwrap().elements, vec![
        PostingElement { record_id: 0, weight: 7 },
        PostingElement { record_id: 2, weight: 30 },
    ]);
    assert!(ram.get(&5).is_none());
    assert_eq!(ram.indexed_vector_count(), 3);
}

#[test]
fn upsert_empty_vector_is_noop() {
    let mut ram = three_points();
    ram.upsert(0, &vector(&[], &[]));
    assert_eq!(ids(ram.get(&1).unwrap()), vec![0, 1]);
    assert_eq!(ram.indexed_vector_count(), 3);
}

#[test]
fn upsert_out_of_order_keeps_lists_sorted() {
    let mut ram = InvertedIndexRam::new();
    for p in [5u32, 1, 9, 3, 1, 7] {
        ram.upsert(p, &vector(&[0], &[p as i32 + 1]));
    }
    assert_eq!(ids(ram.get(&0).unwrap()), vec![1, 3, 5, 7, 9]);
    assert_eq!(ram.indexed_vector_count(), 5);
}

#[test]
fn mmap_from_ram_keeps_lists() {
    let ram = three_points();
    let mmap = InvertedIndexMmap::from_ram(&ram, String::from("/data/index.bin"));
    for d in 0..4u32 {
        let from_ram = ram.get(&d).map(|l| l.elements.clone());
        let from_mmap = mmap.get(&d).map(|s| s.to_vec());
        assert_eq!(from_ram, from_mmap);
    }
    assert_eq!(mmap.indexed_vector_count(), 3);
    let index = InvertedIndex::Mmap(mmap);
    assert_eq!(index.files(), vec![String::from("/data/index.bin")]);
    let query = vector(&[1, 2], &[10, 10]);
    let result = index.search(&query, 2, &not_stopped()).unwrap();
    assert_eq!(
        result,
        vec![ScoredPointOffset { idx: 0, score: 300 }, ScoredPointOffset { idx: 2, score: 300 }]
    );
}

#[test]
fn ram_index_has_no_files() {
    let index = InvertedIndex::Ram(three_points());
    assert!(index.files().is_empty());
    assert_eq!(index.indexed_vector_count(), 3);
}

#[test]
fn build_index_changes_nothing() {
    let mut index = InvertedIndex::Ram(three_points());
    assert_eq!(index.build_index(&not_stopped()), Ok(()));
    assert_eq!(index.indexed_vector_count(), 3);
    assert_eq!(index.build_index(&AtomicBool::new(true)), Err(SearchError::Cancelled));
}

#[test]
fn get_returns_cursor_at_start() {
    let index = InvertedIndex::Ram(three_points());
    let it = index.get(&2).unwrap();
    assert_eq!(it.peek(), Some(PostingElement { record_id: 0, weight: 20 }));
    assert!(index.get(&3).is_none());
    assert!(index.get(&0).is_none());
}

#[test]
fn unseen_dimension_below_largest_is_none() {
    let mut ram = InvertedIndexRam::new();
    ram.upsert(4, &vector(&[6], &[1]));
    assert!(ram.get(&2).is_none());
    assert!(ram.get(&6).is_some());
    let mmap = InvertedIndexMmap::from_ram(&ram, String::from("/i"));
    assert!(mmap.get(&2).is_none());
    assert_eq!(mmap.get(&6).map(|s| s.len()), Some(1));
}

#[test]
fn indexed_count_follows_upserts_and_removes() {
    let mut ram = InvertedIndexRam::new();
    assert_eq!(ram.indexed_vector_count(), 0);
    ram.upsert(3, &vector(&[1], &[2]));
    assert_eq!(ram.indexed_vector_count(), 1);
    ram.upsert(3, &vector(&[2], &[5]));
    assert_eq!(ram.indexed_vector_count(), 1);
    ram.upsert(3, &vector(&[2], &[0]));
    assert_eq!(ram.indexed_vector_count(), 0);
    assert!(ram.get(&2).is_none());
    ram.upsert(8, &vector(&[0, 1], &[0, 0]));
    assert_eq!(ram.indexed_vector_count(), 0);
    ram.remove(8);
    assert_eq!(ram.indexed_vector_count(), 0);
}

#[test]
fn exhaustive_top_zero_is_empty() {
    let index = InvertedIndex::Ram(three_points());
    let query = vector(&[1, 2], &[10, 10]);
    assert_eq!(index.search_exhaustive(&query, 0, &AtomicBool::new(true)), Ok(vec![]));
}

#[test]
fn build_index_on_serving_index_always_succeeds() {
    let ram = three_points();
    let mut index = InvertedIndex::Mmap(InvertedIndexMmap::from_ram(&ram, String::from("/i")));
    assert_eq!(index.build_index(&AtomicBool::new(true)), Ok(()));
    assert_eq!(index.indexed_vector_count(), 3);
}

#[test]
fn cursor_skip_to_and_advance() {
    let elements: Vec<PostingElement> = [2u32, 4, 6, 8]
        .iter()
        .map(|&r| PostingElement { record_id: r, weight: r as i32 })
        .collect();
    let mut it = PostingListIterator::new(&elements);
    assert_eq!(it.skip_to(5), Some(PostingElement { record_id: 6, weight: 6 }));
    assert_eq!(it.len_to_end(), 2);
    it.advance();
    assert_eq!(it.peek(), Some(PostingElement { record_id: 8, weight: 8 }));
    assert_eq!(it.skip_to(8), Some(PostingElement { record_id: 8, weight: 8 }));
    assert_eq!(it.skip_to(9), None);
    assert_eq!(it.len_to_end(), 0);
}

#[test]
fn posting_list_remove_missing() {
    let mut list = PostingList::new();
    list.upsert(PostingElement { record_id: 3, weight: 1 });
    list.upsert(PostingElement { record_id: 3, weight: 4 });
    assert!(!list.remove(2));
    assert_eq!(list.elements, vec![PostingElement { record_id: 3, weight: 4 }]);
    assert!(list.remove(3));
    assert!(list.elements.is_empty());
}

#[test]
fn sparse_vector_rejects_bad_input() {
    assert_eq!(
        SparseVector::new(vec![1, 2], vec![1]).err(),
        Some(SparseVectorError::LengthMismatch)
    );
    assert_eq!(
        SparseVector::new(vec![2, 2], vec![1, 1]).err(),
        Some(SparseVectorError::UnsortedIndices)
    );
    assert!(SparseVector::new(vec![1, 4], vec![1, 1]).is_ok());
}

#[test]
fn layout_round_trip() {
    let ram = three_points();
    let mmap = InvertedIndexMmap::from_ram(&ram, String::from("/data/index.bin"));
    let bytes = layout::to_bytes(&mmap);
    let back = layout::from_bytes(&bytes, String::from("/data/index.bin")).unwrap();
    for d in 0..5u32 {
        let from_ram = ram.get(&d).map(|l| l.elements.clone());
        let from_back = back.get(&d).map(|s| s.to_vec());
        assert_eq!(from_ram, from_back);
    }
    assert_eq!(back.indexed_vector_count(), 3);
}

#[test]
fn layout_exact_bytes() {
    let mut ram = InvertedIndexRam::new();
    ram.upsert(7, &vector(&[0], &[-2]));
    let mmap = InvertedIndexMmap::from_ram(&ram, String::from("f"));
    let bytes = layout::to_bytes(&mmap);
    let expected: Vec<u8> = vec![
        1, 0, 0, 0, // version
        1, 0, 0, 0, // one list
        1, 0, 0, 0, 0, 0, 0, 0, // one indexed vector
        28, 0, 0, 0, 0, 0, 0, 0, // the list starts after header and directory
        1, 0, 0, 0, // one entry
        7, 0, 0, 0, // point 7
        0xfe, 0xff, 0xff, 0xff, // weight -2
    ];
    assert_eq!(bytes, expected);
}

#[test]
fn layout_rejects_bad_files() {
    let ram = three_points();
    let mmap = InvertedIndexMmap::from_ram(&ram, String::from("f"));
    let bytes = layout::to_bytes(&mmap);
    assert_eq!(
        layout::from_bytes(&bytes[..10], String::from("f")).err(),
        Some(LayoutError::Truncated)
    );
    let mut other_version = bytes.clone();
    other_version[0] = 2;
    assert_eq!(
        layout::from_bytes(&other_version, String::from("f")).err(),
        Some(LayoutError::UnsupportedVersion)
    );
    let cut = &bytes[..bytes.len() - 1];
    assert_eq!(layout::from_bytes(cut, String::from("f")).err(), Some(LayoutError::Corrupt));
    // dimension 1 holds points 0 and 1; make the second record's point 0 as well
    let mut unsorted = bytes.clone();
    let dir1 = 16 + 12;
    let offset = u64::from_le_bytes(unsorted[dir1..dir1 + 8].try_into().unwrap()) as usize;
    unsorted[offset + 8] = 0;
    assert_eq!(layout::from_bytes(&unsorted, String::from("f")).err(), Some(LayoutError::Corrupt));
    let mut too_many_lists = bytes.clone();
    too_many_lists[4] = 200;
    assert_eq!(
        layout::from_bytes(&too_many_lists, String::from("f")).err(),
        Some(LayoutError::Corrupt)
    );
}

#[test]
fn fits_layout_checks_directory() {
    let ram = three_points();
    let mut mmap = InvertedIndexMmap::from_ram(&ram, String::from("/i"));
    assert!(mmap.fits_layout());
    let last = mmap.directory.len() - 1;
    mmap.directory[last].1 = mmap.elements.len() + 1;
    assert!(!mmap.fits_layout());
    let mut unsorted = InvertedIndexMmap::from_ram(&ram, String::from("/i"));
    unsorted.elements.swap(1, 2);
    assert!(!unsorted.fits_layout());
}
