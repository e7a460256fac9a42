use hole_map::data_map::DataMap;
use hole_map::map::{
    b, build_map_entries, generate_sidecar, image_size, qemu_format, Error, MapEntry,
};
use std::path::PathBuf;

fn shape(entries: &[MapEntry]) -> Vec<(u64, u64, bool)> {
    entries.iter().map(|e| (e.start, e.length, e.data)).collect()
}

#[test]
fn qemu_format_is_byte_exact() {
    // data [0,512), hole [512,1024).
    let entries = build_map_entries(&[(0, 512)], 1024);
    let expected = "[{ \"start\": 0, \"length\": 512, \"depth\": 0, \"present\": true, \
             \"zero\": false, \"data\": true, \"compressed\": false, \"offset\": 0},\n\
             { \"start\": 512, \"length\": 512, \"depth\": 0, \"present\": true, \
             \"zero\": true, \"data\": false, \"compressed\": false, \"offset\": 512}]\n";
    assert_eq!(qemu_format(&entries), expected);
}

#[test]
fn build_map_entries_alternates_and_covers_whole_size() {
    // data [0,512), hole [512,1024), data [1024,1536), trailing hole [1536,2048)
    let entries = build_map_entries(&[(0, 512), (1024, 1536)], 2048);
    let shape: Vec<(u64, u64, bool)> = entries
        .iter()
        .map(|e| (e.start, e.length, e.data))
        .collect();
    assert_eq!(
        shape,
        vec![
            (0, 512, true),
            (512, 512, false),
            (1024, 512, true),
            (1536, 512, false),
        ]
    );
    // Contiguous coverage of [0, size) with no gaps.
    assert_eq!(entries.first().unwrap().start, 0);
    let last = entries.last().unwrap();
    assert_eq!(last.start + last.length, 2048);
    for w in entries.windows(2) {
        assert_eq!(w[0].start + w[0].length, w[1].start);
    }
}

#[test]
fn qemu_format_empty_is_bracket_pair() {
    assert_eq!(qemu_format(&build_map_entries(&[], 0)), "[]\n");
}

#[test]
fn bools_are_bare_words() {
    assert_eq!(b(true), "true");
    assert_eq!(b(false), "false");
}

#[test]
fn image_without_data_is_one_hole() {
    let entries = build_map_entries(&[], 4096);
    assert_eq!(shape(&entries), vec![(0, 4096, false)]);
    assert_eq!(
        qemu_format(&entries),
        "[{ \"start\": 0, \"length\": 4096, \"depth\": 0, \"present\": true, \
         \"zero\": true, \"data\": false, \"compressed\": false, \"offset\": 0}]\n"
    );
}

#[test]
fn image_full_of_data_is_one_run() {
    let entries = build_map_entries(DataMap::full(4096).extents(), 4096);
    assert_eq!(shape(&entries), vec![(0, 4096, true)]);
}

#[test]
fn leading_hole_and_touching_extents() {
    let entries = build_map_entries(&[(5, 10), (10, 12)], 12);
    assert_eq!(shape(&entries), vec![(0, 5, false), (5, 5, true), (10, 2, true)]);
}

#[test]
fn extents_out_of_order_get_no_hole_between() {
    let entries = build_map_entries(&[(10, 20), (5, 8)], 30);
    assert_eq!(
        shape(&entries),
        vec![(0, 10, false), (10, 10, true), (5, 3, true), (8, 22, false)]
    );
}

#[test]
fn size_before_the_last_extent_adds_no_hole() {
    let entries = build_map_entries(&[(0, 10)], 5);
    assert_eq!(shape(&entries), vec![(0, 10, true)]);
}

#[test]
fn largest_numbers_are_written_in_full() {
    let entries = build_map_entries(&[(1234567890, u64::MAX)], u64::MAX);
    assert_eq!(
        qemu_format(&entries),
        "[{ \"start\": 0, \"length\": 1234567890, \"depth\": 0, \"present\": true, \
         \"zero\": true, \"data\": false, \"compressed\": false, \"offset\": 0},\n\
         { \"start\": 1234567890, \"length\": 18446744072474983725, \"depth\": 0, \
         \"present\": true, \"zero\": false, \"data\": true, \"compressed\": false, \
         \"offset\": 1234567890}]\n"
    );
}

#[test]
fn numbers_have_no_leading_zeroes() {
    for n in [0, 7, 9, 10, 99, 100, 101, 1000, 65535, u64::MAX] {
        let entry = MapEntry {
            start: n,
            length: 1,
            data: true,
        };
        let expected = format!("[{{ \"start\": {}, \"length\": 1, ", n);
        let text = qemu_format(&[entry]);
        assert!(text.starts_with(&expected));
        assert!(text.ends_with(&format!(", \"offset\": {}}}]\n", n)));
        assert!(text.is_ascii());
    }
}

#[test]
fn data_runs_give_the_extents_back() {
    let extents = vec![(3, 7), (9, 10), (12, 40)];
    let entries = build_map_entries(&extents, 64);
    let back: Vec<(u64, u64)> = entries
        .iter()
        .filter(|e| e.data)
        .map(|e| (e.start, e.start + e.length))
        .collect();
    assert_eq!(back, extents);
    let total: u64 = entries.iter().map(|e| e.length).sum();
    assert_eq!(total, 64);
    let live = DataMap { extents };
    let read = DataMap { extents: back };
    for offset in 0..70u64 {
        for len in 0..70u64 {
            assert_eq!(live.range_has_data(offset, len), read.range_has_data(offset, len));
        }
    }
}

#[test]
fn different_maps_have_different_texts() {
    let mut texts: Vec<String> = Vec::new();
    for size in 0..12u64 {
        for start in 0..size {
            for end in start + 1..size + 1 {
                texts.push(qemu_format(&build_map_entries(&[(start, end)], size)));
            }
        }
        texts.push(qemu_format(&build_map_entries(&[], size)));
    }
    let count = texts.len();
    texts.sort();
    texts.dedup();
    assert_eq!(texts.len(), count);
}

#[test]
fn size_comes_from_the_metadata() {
    let path = PathBuf::from("/images/disk.raw");
    assert_eq!(image_size(path, Ok(1024)).unwrap(), 1024);
}

#[test]
fn missing_metadata_is_reported() {
    let path = PathBuf::from("/images/disk.raw");
    let source = std::io::Error::from(std::io::ErrorKind::NotFound);
    let shown = source.to_string();
    let error = image_size(path.clone(), Err(source)).unwrap_err();
    match &error {
        Error::Metadata { path: at, source } => {
            assert_eq!(at, &path);
            assert_eq!(source.kind(), std::io::ErrorKind::NotFound);
        }
        _ => panic!("wrong error"),
    }
    assert_eq!(
        error.message("/images/disk.raw", &shown),
        format!("failed to read metadata for '/images/disk.raw': {}", shown)
    );
}

#[test]
fn failed_scan_is_reported() {
    let path = PathBuf::from("/images/disk.raw");
    let source = std::io::Error::from(std::io::ErrorKind::PermissionDenied);
    let error = generate_sidecar(path.clone(), 1024, Err(source)).unwrap_err();
    match &error {
        Error::Scan { path: at, source } => {
            assert_eq!(at, &path);
            assert_eq!(source.kind(), std::io::ErrorKind::PermissionDenied);
        }
        _ => panic!("wrong error"),
    }
    assert_eq!(
        error.message("/images/disk.raw", "permission denied"),
        "failed to scan '/images/disk.raw' for holes: permission denied"
    );
}

#[test]
fn missing_hole_support_is_reported() {
    let path = PathBuf::from("/images/disk.raw");
    let error = generate_sidecar(path.clone(), 1024, Ok(None)).unwrap_err();
    assert!(matches!(&error, Error::Unsupported { path: at } if at == &path));
    assert_eq!(
        error.message("/images/disk.raw", ""),
        "filesystem holding '/images/disk.raw' does not support SEEK_HOLE hole detection; \
         cannot generate a side-car"
    );
}

#[test]
fn sidecar_is_the_text_of_the_map() {
    let map = DataMap {
        extents: vec![(0, 512)],
    };
    let sidecar = generate_sidecar(PathBuf::from("disk.raw"), 1024, Ok(Some(map))).unwrap();
    assert_eq!(sidecar, qemu_format(&build_map_entries(&[(0, 512)], 1024)));
}
