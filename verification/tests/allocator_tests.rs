use grfpatch::dyn_alloc::{AvailableChunkList, Chunk};
use grfpatch::error::AllocError;

fn chunks(list: &AvailableChunkList) -> Vec<(u64, u64)> {
    (0..list.chunk_count()).map(|i| list.chunk_at(i)).map(|c: Chunk| (c.offset, c.size)).collect()
}

#[test]
fn allocation_from_the_tail_grows_the_file() {
    let mut list = AvailableChunkList::new(46, u64::MAX);
    assert_eq!(list.alloc_chunk(100), Ok(46));
    assert_eq!(list.alloc_chunk(0), Ok(146));
    assert_eq!(list.alloc_chunk(10), Ok(146));
    assert_eq!(list.tail(), 156);
    assert!(chunks(&list).is_empty());
}

#[test]
fn allocation_beyond_the_limit_is_out_of_space() {
    let mut list = AvailableChunkList::new(46, 100);
    assert_eq!(list.alloc_chunk(55), Err(AllocError::OutOfSpace));
    assert_eq!(list.tail(), 46);
    assert_eq!(list.alloc_chunk(54), Ok(46));
    assert_eq!(list.alloc_chunk(1), Err(AllocError::OutOfSpace));
    assert_eq!(list.free_chunk(50, 10), Ok(()));
    assert_eq!(list.alloc_chunk(11), Err(AllocError::OutOfSpace));
    assert_eq!(list.alloc_chunk(10), Ok(50));
}

#[test]
fn allocation_is_first_fit() {
    let mut list = AvailableChunkList::new(0, u64::MAX);
    assert_eq!(list.alloc_chunk(100), Ok(0));
    list.free_chunk(10, 5).unwrap();
    list.free_chunk(30, 20).unwrap();
    list.free_chunk(60, 20).unwrap();
    assert_eq!(chunks(&list), vec![(10, 5), (30, 20), (60, 20)]);
    assert_eq!(list.alloc_chunk(8), Ok(30));
    assert_eq!(chunks(&list), vec![(10, 5), (38, 12), (60, 20)]);
    assert_eq!(list.alloc_chunk(5), Ok(10));
    assert_eq!(chunks(&list), vec![(38, 12), (60, 20)]);
    assert_eq!(list.alloc_chunk(13), Ok(60));
    assert_eq!(list.alloc_chunk(13), Ok(100));
    assert_eq!(chunks(&list), vec![(38, 12), (73, 7)]);
}

#[test]
fn freed_ranges_merge_with_their_neighbours() {
    let mut list = AvailableChunkList::new(0, u64::MAX);
    list.alloc_chunk(100).unwrap();
    list.free_chunk(10, 10).unwrap();
    list.free_chunk(30, 10).unwrap();
    assert_eq!(chunks(&list), vec![(10, 10), (30, 10)]);
    list.free_chunk(20, 10).unwrap();
    assert_eq!(chunks(&list), vec![(10, 30)]);
    list.free_chunk(5, 5).unwrap();
    assert_eq!(chunks(&list), vec![(5, 35)]);
    list.free_chunk(40, 5).unwrap();
    assert_eq!(chunks(&list), vec![(5, 40)]);
    list.free_chunk(90, 10).unwrap();
    assert_eq!(list.tail(), 90);
    list.free_chunk(45, 45).unwrap();
    assert_eq!(list.tail(), 5);
    assert!(chunks(&list).is_empty());
    list.free_chunk(0, 0).unwrap();
    assert_eq!(list.tail(), 5);
}

#[test]
fn freeing_free_bytes_is_refused() {
    let mut list = AvailableChunkList::new(0, u64::MAX);
    list.alloc_chunk(100).unwrap();
    list.free_chunk(10, 10).unwrap();
    assert_eq!(list.free_chunk(15, 10), Err(AllocError::InvalidFree));
    assert_eq!(list.free_chunk(5, 6), Err(AllocError::InvalidFree));
    assert_eq!(list.free_chunk(10, 10), Err(AllocError::InvalidFree));
    assert_eq!(list.free_chunk(95, 6), Err(AllocError::InvalidFree));
    assert_eq!(list.free_chunk(200, 1), Err(AllocError::InvalidFree));
    assert_eq!(list.free_chunk(u64::MAX, 2), Err(AllocError::InvalidFree));
    assert_eq!(chunks(&list), vec![(10, 10)]);
    assert_eq!(list.tail(), 100);
}

#[test]
fn shrinking_frees_the_cut_off_end() {
    let mut list = AvailableChunkList::new(0, u64::MAX);
    list.alloc_chunk(100).unwrap();
    list.alloc_chunk(50).unwrap();
    assert_eq!(list.realloc_chunk(0, 100, 60), Ok(0));
    assert_eq!(chunks(&list), vec![(60, 40)]);
    assert_eq!(list.realloc_chunk(0, 60, 60), Ok(0));
    assert_eq!(chunks(&list), vec![(60, 40)]);
    assert_eq!(list.realloc_chunk(0, 100, 50), Err(AllocError::InvalidFree));
    assert_eq!(chunks(&list), vec![(60, 40)]);
}

#[test]
fn growing_takes_the_run_behind_the_range() {
    let mut list = AvailableChunkList::new(0, u64::MAX);
    list.alloc_chunk(200).unwrap();
    list.free_chunk(50, 30).unwrap();
    assert_eq!(list.realloc_chunk(0, 50, 70), Ok(0));
    assert_eq!(chunks(&list), vec![(70, 10)]);
    assert_eq!(list.realloc_chunk(0, 70, 80), Ok(0));
    assert!(chunks(&list).is_empty());
    assert_eq!(list.realloc_chunk(100, 100, 130), Ok(100));
    assert_eq!(list.tail(), 230);
}

#[test]
fn growing_without_room_moves_the_range() {
    let mut list = AvailableChunkList::new(0, u64::MAX);
    list.alloc_chunk(100).unwrap();
    assert_eq!(list.realloc_chunk(0, 50, 200), Ok(100));
    assert_eq!(chunks(&list), vec![(0, 50)]);
    assert_eq!(list.tail(), 300);
    assert_eq!(list.realloc_chunk(50, 50, 60), Ok(0));
    assert_eq!(chunks(&list), vec![(60, 40)]);
    let mut small = AvailableChunkList::new(0, 120);
    small.alloc_chunk(100).unwrap();
    assert_eq!(small.realloc_chunk(0, 50, 80), Err(AllocError::OutOfSpace));
    assert!(chunks(&small).is_empty());
    assert_eq!(small.tail(), 100);
    assert_eq!(small.realloc_chunk(110, 5, 8), Err(AllocError::InvalidFree));
}

#[test]
fn reserving_splits_the_run_it_lies_in() {
    let mut list = AvailableChunkList::new(46, u64::MAX);
    assert_eq!(list.reserve_chunk(100, 20), Ok(()));
    assert_eq!(chunks(&list), vec![(46, 54)]);
    assert_eq!(list.tail(), 120);
    assert_eq!(list.reserve_chunk(60, 10), Ok(()));
    assert_eq!(chunks(&list), vec![(46, 14), (70, 30)]);
    assert_eq!(list.reserve_chunk(46, 14), Ok(()));
    assert_eq!(list.reserve_chunk(90, 10), Ok(()));
    assert_eq!(chunks(&list), vec![(70, 20)]);
    assert_eq!(list.reserve_chunk(85, 10), Err(AllocError::OutOfSpace));
    assert_eq!(list.reserve_chunk(10, 5), Err(AllocError::OutOfSpace));
    assert_eq!(list.reserve_chunk(120, 5), Ok(()));
    assert_eq!(list.tail(), 125);
    assert_eq!(list.reserve_chunk(3, 0), Ok(()));
}
