use hole_map::data_map::DataMap;
use hole_map::scan::{HoleScan, SeekError, Stage};
use nix::errno::Errno;
use nix::fcntl::{posix_fadvise, PosixFadviseAdvice};
use nix::unistd::{lseek, Whence};
use std::io::{Seek, SeekFrom, Write};

#[test]
fn full_map_covers_everything() {
    let m = DataMap::full(1024);
    assert!(m.range_has_data(0, 512));
    assert!(m.range_has_data(512, 512));
    // A range starting at EOF has no data.
    assert!(!m.range_has_data(1024, 512));
    assert_eq!(m.data_bytes(), 1024);
    assert_eq!(m.extent_count(), 1);
}

#[test]
fn empty_file_full_map_is_empty() {
    let m = DataMap::full(0);
    assert!(!m.range_has_data(0, 512));
    assert_eq!(m.data_bytes(), 0);
    assert_eq!(m.extent_count(), 0);
}

#[test]
fn range_has_data_bisect() {
    // Data at [0,100) and [1000,1100); holes everywhere else.
    let m = DataMap {
        extents: vec![(0, 100), (1000, 1100)],
    };
    assert!(m.range_has_data(0, 10)); // inside first extent
    assert!(m.range_has_data(50, 100)); // straddles end of first extent
    assert!(!m.range_has_data(100, 900)); // entirely in the middle hole
    assert!(!m.range_has_data(200, 700)); // entirely in the middle hole
    assert!(m.range_has_data(900, 200)); // straddles start of second extent
    assert!(m.range_has_data(1050, 10)); // inside second extent
    assert!(!m.range_has_data(1100, 500)); // trailing hole
    assert!(!m.range_has_data(50, 0)); // zero-length range
}

// Best-effort end-to-end check against the real filesystem. If the backing
// filesystem does not support SEEK_HOLE (the scan gives no map) or does not
// actually punch a hole for the sparse region, we only assert the invariants
// that must hold regardless.
#[test]
fn sparse_file_geometry() {
    let block = 512 * 1024usize; // mirror the EBS block size
    let mut tf = tempfile::tempfile().expect("create tempfile");

    // Layout: [data block 0][hole block 1][data block 2], total 3 blocks.
    let payload = vec![0xABu8; block];
    tf.write_all(&payload).expect("write block 0");
    tf.seek(SeekFrom::Start((2 * block) as u64))
        .expect("seek to block 2");
    tf.write_all(&payload).expect("write block 2");
    tf.flush().expect("flush");

    let size = (3 * block) as u64;
    // Ensure the reported length matches even if the fs kept it dense.
    tf.set_len(size).expect("set_len");

    let _ = tf.sync_all();
    let _ = posix_fadvise(&tf, 0, 0, PosixFadviseAdvice::POSIX_FADV_DONTNEED);
    let seek = |pos: i64, whence: Whence| match lseek(&tf, pos, whence) {
        Ok(offset) => Ok(offset),
        Err(Errno::ENXIO) => Err(SeekError::NoData),
        Err(_) => Err(SeekError::Other),
    };
    let mut scan = HoleScan::start(size).expect("start");
    loop {
        match scan.stage {
            Stage::SeekData(pos) => scan.answer(seek(pos, Whence::SeekData)),
            Stage::SeekHole(start) => scan.answer(seek(start, Whence::SeekHole)),
            Stage::Complete | Stage::Unsupported => break,
        }
    }
    let map = match scan.finish() {
        Some(m) => m,
        None => return, // filesystem lacks SEEK_HOLE support; nothing to assert
    };

    // Block 0 and block 2 must always be data.
    assert!(
        map.range_has_data(0, block as u64),
        "block 0 should be data"
    );
    assert!(
        map.range_has_data((2 * block) as u64, block as u64),
        "block 2 should be data"
    );

    // If the fs punched the hole, block 1 must read as a hole and the total
    // data must be <= 2 blocks. If it did not (dense allocation), the map is
    // a single full extent -- still internally consistent.
    if map.extent_count() > 1 {
        assert!(
            !map.range_has_data(block as u64, block as u64),
            "block 1 should be a hole"
        );
        assert!(map.data_bytes() <= (2 * block) as u64);
    }
}

#[test]
fn range_past_the_largest_offset_saturates() {
    let m = DataMap {
        extents: vec![(10, 20), (u64::MAX - 1, u64::MAX)],
    };
    assert!(m.range_has_data(u64::MAX - 1, u64::MAX));
    assert!(m.range_has_data(20, u64::MAX));
    assert!(!m.range_has_data(u64::MAX, u64::MAX));
    assert!(!m.range_has_data(20, u64::MAX - 21));
    assert!(m.range_has_data(20, u64::MAX - 20));
}

#[test]
fn range_agrees_with_each_byte() {
    let m = DataMap {
        extents: vec![(2, 4), (4, 5), (9, 12), (20, 21)],
    };
    let is_data = |b: u64| m.extents().iter().any(|&(s, e)| s <= b && b < e);
    for offset in 0..25u64 {
        for len in 0..25u64 {
            let expected = (offset..offset + len).any(is_data);
            assert_eq!(m.range_has_data(offset, len), expected);
        }
    }
    assert_eq!(m.data_bytes(), (0..25u64).filter(|&b| is_data(b)).count() as u64);
    assert_eq!(m.data_bytes(), 7);
}

#[test]
fn touching_and_overlapping_extents_add_up() {
    let m = DataMap {
        extents: vec![(0, 10), (5, 15)],
    };
    assert_eq!(m.data_bytes(), 20);
}

#[test]
fn map_without_extents_has_no_data() {
    let m = DataMap { extents: vec![] };
    assert!(!m.range_has_data(0, u64::MAX));
    assert_eq!(m.data_bytes(), 0);
    assert!(m.extents().is_empty());
}

#[test]
fn clone_keeps_the_extents() {
    let m = DataMap {
        extents: vec![(0, 100), (1000, 1100)],
    };
    assert_eq!(m.clone().extents, m.extents);
    assert_eq!(m.extents().to_vec(), vec![(0, 100), (1000, 1100)]);
}
