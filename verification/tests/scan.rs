use hole_map::data_map::DataMap;
use hole_map::scan::{HoleScan, SeekError, Stage};

fn run(size: u64, replies: &[Result<i64, SeekError>]) -> HoleScan {
    let mut scan = HoleScan::start(size).unwrap();
    for &reply in replies {
        scan.answer(reply);
    }
    scan
}

fn extents(map: Option<DataMap>) -> Vec<(u64, u64)> {
    map.unwrap().extents
}

/// What `lseek` answers on a file whose data bytes are marked `true`.
fn reply(file: &[bool], stage: Stage) -> Result<i64, SeekError> {
    let (from, wanted) = match stage {
        Stage::SeekData(pos) => (pos as usize, true),
        Stage::SeekHole(start) => (start as usize, false),
        _ => panic!("no question"),
    };
    match (from..file.len()).find(|&b| file[b] == wanted) {
        Some(b) => Ok(b as i64),
        None if wanted => Err(SeekError::NoData),
        None => Ok(file.len() as i64),
    }
}

#[test]
fn size_beyond_file_offsets_is_refused() {
    assert!(HoleScan::start(i64::MAX as u64).is_some());
    assert!(HoleScan::start(i64::MAX as u64 + 1).is_none());
    assert!(HoleScan::start(u64::MAX).is_none());
}

#[test]
fn empty_file_needs_no_seek() {
    let scan = HoleScan::start(0).unwrap();
    assert_eq!(scan.stage, Stage::Complete);
    assert!(extents(scan.finish()).is_empty());
}

#[test]
fn scan_alternates_between_data_and_holes() {
    let mut scan = HoleScan::start(2000).unwrap();
    assert_eq!(scan.stage, Stage::SeekData(0));
    scan.answer(Ok(0));
    assert_eq!(scan.stage, Stage::SeekHole(0));
    scan.answer(Ok(100));
    assert_eq!(scan.stage, Stage::SeekData(100));
    scan.answer(Ok(1000));
    assert_eq!(scan.stage, Stage::SeekHole(1000));
    scan.answer(Ok(1100));
    assert_eq!(scan.stage, Stage::SeekData(1100));
    scan.answer(Err(SeekError::NoData));
    assert_eq!(scan.stage, Stage::Complete);
    assert_eq!(extents(scan.finish()), vec![(0, 100), (1000, 1100)]);
}

#[test]
fn file_without_data_has_an_empty_map() {
    let scan = run(4096, &[Err(SeekError::NoData)]);
    assert!(extents(scan.finish()).is_empty());
}

#[test]
fn data_past_the_size_is_left_out() {
    let scan = run(100, &[Ok(10), Ok(20), Ok(100)]);
    assert_eq!(scan.stage, Stage::Complete);
    assert_eq!(extents(scan.finish()), vec![(10, 20)]);
    let scan = run(100, &[Ok(10), Ok(4096)]);
    assert_eq!(scan.stage, Stage::Complete);
    assert_eq!(extents(scan.finish()), vec![(10, 100)]);
}

#[test]
fn failed_seek_gives_no_map() {
    assert!(run(100, &[Err(SeekError::Other)]).finish().is_none());
    assert!(run(100, &[Ok(10), Err(SeekError::Other)]).finish().is_none());
    assert!(run(100, &[Ok(10), Err(SeekError::NoData)]).finish().is_none());
    let scan = run(100, &[Ok(0), Ok(10), Err(SeekError::Other)]);
    assert_eq!(scan.stage, Stage::Unsupported);
    assert!(scan.finish().is_none());
}

#[test]
fn hole_that_does_not_advance_gives_no_map() {
    let scan = run(100, &[Ok(10), Ok(10)]);
    assert_eq!(scan.stage, Stage::Unsupported);
    assert!(scan.finish().is_none());
    assert!(run(100, &[Ok(10), Ok(3)]).finish().is_none());
}

#[test]
fn unfinished_scan_gives_no_map() {
    assert!(run(100, &[]).finish().is_none());
    assert!(run(100, &[Ok(10)]).finish().is_none());
    assert!(run(100, &[Ok(10), Ok(20)]).finish().is_none());
}

#[test]
fn answers_after_the_end_change_nothing() {
    let scan = run(100, &[Err(SeekError::NoData), Ok(5), Ok(9), Err(SeekError::Other)]);
    assert_eq!(scan.stage, Stage::Complete);
    assert!(extents(scan.finish()).is_empty());
    let scan = run(100, &[Err(SeekError::Other), Err(SeekError::NoData)]);
    assert_eq!(scan.stage, Stage::Unsupported);
}

#[test]
fn answer_before_the_question_breaks_the_order() {
    let scan = run(100, &[Ok(10), Ok(20), Ok(5), Ok(8), Err(SeekError::NoData)]);
    assert_eq!(extents(scan.finish()), vec![(10, 20), (5, 8)]);
}

#[test]
fn truthful_answers_give_exactly_the_data() {
    for bits in 0..1024u32 {
        let file: Vec<bool> = (0..10).map(|b| bits & (1 << b) != 0).collect();
        let mut scan = HoleScan::start(10).unwrap();
        let mut answers = 0;
        while scan.stage != Stage::Complete {
            let answer = reply(&file, scan.stage);
            scan.answer(answer);
            answers += 1;
        }
        assert!(answers <= 20);
        let map = scan.finish().unwrap();
        for b in 0..10u64 {
            assert_eq!(map.range_has_data(b, 1), file[b as usize]);
        }
        for w in map.extents().windows(2) {
            assert!(w[0].1 < w[1].0);
        }
        assert_eq!(map.data_bytes(), bits.count_ones() as u64);
    }
}
