//! A `qemu-img map --output=json`-compatible JSON side-car for a raw image.
//!
//! Each element of the array is one contiguous `[start, start + length)` run of the
//! image; the runs are contiguous and sorted and together cover `[0, size)`:
//!
//! ```text
//! hole  ->  present: true, zero: true,  data: false
//! data  ->  present: true, zero: false, data: true
//! ```
//!
//! `present` is always true for a raw file: there is no backing chain, so the one
//! layer determines every range. `offset` equals `start` and `compressed` is always
//! false. An allocated-zero region -- real zero bytes written to disk -- is reported
//! as data: the map is built without reading block contents.
use crate::data_map::{forward, DataMap};
use crate::decimal::{decimal, push_decimal};
use crate::readback::{read_map, text_is_one_array, text_reads_back};
use vstd::prelude::*;

verus! {

/// One extent of the emitted map.
#[derive(Debug)]
pub struct MapEntry {
    pub start: u64,
    pub length: u64,
    pub data: bool,
}

/// The end of the last extent, or the start of the file.
pub open spec fn last_end(extents: Seq<(u64, u64)>) -> u64 {
    if extents.len() == 0 {
        0
    } else {
        extents.last().1
    }
}

/// The hole `[start, end)`, or nothing where that is empty.
pub open spec fn hole(start: u64, end: u64) -> Seq<MapEntry> {
    if start < end {
        seq![MapEntry { start, length: (end - start) as u64, data: false }]
    } else {
        Seq::empty()
    }
}

/// The data run of an extent.
pub open spec fn data_run(extent: (u64, u64)) -> MapEntry {
    MapEntry { start: extent.0, length: (extent.1 - extent.0) as u64, data: true }
}

/// The data runs of all extents, each after the gap that precedes it.
pub open spec fn runs(extents: Seq<(u64, u64)>) -> Seq<MapEntry>
    decreases extents.len(),
{
    if extents.len() == 0 {
        Seq::empty()
    } else {
        let before = extents.drop_last();
        let extent = extents.last();
        (runs(before) + hole(last_end(before), extent.0)).push(data_run(extent))
    }
}

/// The map of a file of `size` bytes with these data extents.
pub open spec fn map_entries(extents: Seq<(u64, u64)>, size: u64) -> Seq<MapEntry> {
    runs(extents) + hole(last_end(extents), size)
}

/// The JSON text of a bool.
pub open spec fn bool_text(value: bool) -> Seq<char> {
    if value {
        "true"@
    } else {
        "false"@
    }
}

/// The JSON object of one entry.
pub open spec fn entry_text(entry: MapEntry) -> Seq<char> {
    "{ \"start\": "@ + decimal(entry.start as nat) + ", \"length\": "@ + decimal(
        entry.length as nat,
    ) + ", \"depth\": 0, \"present\": true, \"zero\": "@ + bool_text(!entry.data)
        + ", \"data\": "@ + bool_text(entry.data) + ", \"compressed\": false, \"offset\": "@
        + decimal(entry.start as nat) + "}"@
}

/// The JSON objects of all entries, joined by a comma and a line break.
pub open spec fn joined_text(entries: Seq<MapEntry>) -> Seq<char>
    decreases entries.len(),
{
    if entries.len() == 0 {
        Seq::empty()
    } else if entries.len() == 1 {
        entry_text(entries[0])
    } else {
        joined_text(entries.drop_last()) + ",\n"@ + entry_text(entries.last())
    }
}

/// The JSON array of all entries.
pub open spec fn map_text(entries: Seq<MapEntry>) -> Seq<char> {
    "["@ + joined_text(entries) + "]\n"@
}

/// Render a bool the way qemu-img's JSON writer does: bare `true`/`false`.
pub fn b(value: bool) -> (text: &'static str)
    ensures
        text@ == bool_text(value),
        value ==> text@ == "true"@,
        !value ==> text@ == "false"@,
{
    if value {
        "true"
    } else {
        "false"
    }
}

/// Turn the sorted data extents and total size into the full alternating map.
///
/// `data_extents` is the `[(start, end), ...]` list of data-bearing runs (holes
/// excluded). The gaps between them -- and any trailing gap up to `size` -- become
/// hole entries so the result covers `[0, size)` with no gaps, like `qemu-img map`.
pub fn build_map_entries(data_extents: &[(u64, u64)], size: u64) -> (entries: Vec<MapEntry>)
    requires
        forward(data_extents@),
    ensures
        entries@ == map_entries(data_extents@, size),
{
    let mut entries: Vec<MapEntry> = Vec::new();
    let mut pos: u64 = 0;
    let mut i: usize = 0;
    while i < data_extents.len()
        invariant
            i <= data_extents@.len(),
            forward(data_extents@),
            pos == last_end(data_extents@.take(i as int)),
            entries@ == runs(data_extents@.take(i as int)),
        decreases data_extents@.len() - i,
    {
        let (start, end) = data_extents[i];
        proof {
            assert(data_extents@.take(i + 1).drop_last() =~= data_extents@.take(i as int));
        }
        if start > pos {
            entries.push(MapEntry { start: pos, length: start - pos, data: false });
        }
        entries.push(MapEntry { start, length: end - start, data: true });
        pos = end;
        i = i + 1;
    }
    proof {
        assert(data_extents@.take(i as int) =~= data_extents@);
    }
    if pos < size {
        entries.push(MapEntry { start: pos, length: size - pos, data: false });
    }
    entries
}

/// The JSON object of one entry.
fn format_entry(entry: &MapEntry) -> (text: String)
    ensures
        text@ == entry_text(*entry),
{
    let mut text: String = "{ \"start\": ".to_string();
    push_decimal(&mut text, entry.start);
    text.append(", \"length\": ");
    push_decimal(&mut text, entry.length);
    text.append(", \"depth\": 0, \"present\": true, \"zero\": ");
    text.append(b(!entry.data));
    text.append(", \"data\": ");
    text.append(b(entry.data));
    text.append(", \"compressed\": false, \"offset\": ");
    push_decimal(&mut text, entry.start);
    text.append("}");
    text
}

/// Serialize entries byte-for-byte like `qemu-img map --output=json`.
///
/// The array opens with `[` glued to the first object, objects are joined by `,\n`,
/// each object is `{ ` + space-separated `"key": value` pairs + `}`, `offset` is
/// always emitted (equal to `start` for a raw file), and the stream is terminated by
/// `]\n`. An empty map is `[]\n`.
pub fn qemu_format(entries: &[MapEntry]) -> (text: String)
    ensures
        text@ == map_text(entries@),
        entries@.len() == 0 ==> text@ == "[]\n"@,
        text@.len() >= 3,
        text@[0] == '[',
        text@[text@.len() - 2] == ']' && text@[text@.len() - 1] == '\n',
        read_map(text@) is Some,
        read_map(text@)->0.len() == entries@.len(),
        forall|i: int|
            0 <= i < entries@.len() ==> {
                let object = #[trigger] read_map(text@)->0[i];
                &&& object.start == entries@[i].start && object.offset == entries@[i].start
                &&& object.length == entries@[i].length
                &&& object.data == entries@[i].data && object.zero == !entries@[i].data
                &&& object.depth == 0 && object.present && !object.compressed
            },
{
    proof {
        text_is_one_array(entries@);
        text_reads_back(entries@);
    }
    proof {
        reveal_strlit("[");
        reveal_strlit("]\n");
        reveal_strlit("[]\n");
        assert(map_text(Seq::empty()) =~= "[]\n"@);
    }
    if entries.is_empty() {
        return "[]\n".to_string();
    }
    let mut out: String = "[".to_string();
    let mut i: usize = 0;
    while i < entries.len()
        invariant
            i <= entries@.len(),
            out@ == "["@ + joined_text(entries@.take(i as int)),
        decreases entries@.len() - i,
    {
        proof {
            assert(entries@.take(i + 1).drop_last() =~= entries@.take(i as int));
            assert(entries@.take(i + 1).last() == entries@[i as int]);
        }
        if i > 0 {
            out.append(",\n");
        }
        out.append(format_entry(&entries[i]).as_str());
        i = i + 1;
        proof {
            assert(out@ =~= "["@ + joined_text(entries@.take(i as int)));
        }
    }
    proof {
        assert(entries@.take(i as int) =~= entries@);
    }
    out.append("]\n");
    out
}

/// An owned file system path, as std has it; nothing is stated of it.
#[verifier::external_type_specification]
#[verifier::external_body]
pub struct ExPathBuf(std::path::PathBuf);

/// An I/O error, as std has it; nothing is stated of it.
#[verifier::external_type_specification]
#[verifier::external_body]
pub struct ExIoError(std::io::Error);

/// Errors from generating a side-car.
#[derive(Debug)]
pub enum Error {
    /// The size of the image could not be read.
    Metadata { path: std::path::PathBuf, source: std::io::Error },
    /// The image could not be opened for the scan.
    Scan { path: std::path::PathBuf, source: std::io::Error },
    /// The filesystem does not tell data from holes.
    Unsupported { path: std::path::PathBuf },
}

/// The message of an error whose path and source are shown as `path` and `source`.
pub open spec fn error_text(error: Error, path: Seq<char>, source: Seq<char>) -> Seq<char> {
    match error {
        Error::Metadata { .. } => "failed to read metadata for '"@ + path + "': "@ + source,
        Error::Scan { .. } => "failed to scan '"@ + path + "' for holes: "@ + source,
        Error::Unsupported { .. } => "filesystem holding '"@ + path
            + "' does not support SEEK_HOLE hole detection; cannot generate a side-car"@,
    }
}

/// The message of every error shows the path in quotes, that of an error with a source ends with
/// the source, and the rest is fixed by the kind of the error.
pub proof fn message_shows_path_and_source(error: Error, path: Seq<char>, source: Seq<char>)
    ensures
        ({
            let text = error_text(error, path, source);
            let opening = match error {
                Error::Metadata { .. } => "failed to read metadata for '"@,
                Error::Scan { .. } => "failed to scan '"@,
                Error::Unsupported { .. } => "filesystem holding '"@,
            };
            let shown = opening.len() + path.len();
            &&& text.len() >= shown
            &&& text.take(opening.len() as int) == opening
            &&& text.subrange(opening.len() as int, shown as int) == path
            &&& text.skip(shown as int) == match error {
                Error::Metadata { .. } => "': "@ + source,
                Error::Scan { .. } => "' for holes: "@ + source,
                Error::Unsupported {
                    ..
                } => "' does not support SEEK_HOLE hole detection; cannot generate a side-car"@,
            }
        }),
{
    let text = error_text(error, path, source);
    match error {
        Error::Metadata { .. } => {
            let n = "failed to read metadata for '"@.len() as int;
            assert(text.take(n) =~= "failed to read metadata for '"@);
            assert(text.subrange(n, n + path.len()) =~= path);
            assert(text.skip(n + path.len()) =~= "': "@ + source);
        },
        Error::Scan { .. } => {
            let n = "failed to scan '"@.len() as int;
            assert(text.take(n) =~= "failed to scan '"@);
            assert(text.subrange(n, n + path.len()) =~= path);
            assert(text.skip(n + path.len()) =~= "' for holes: "@ + source);
        },
        Error::Unsupported { .. } => {
            let n = "filesystem holding '"@.len() as int;
            assert(text.take(n) =~= "filesystem holding '"@);
            assert(text.subrange(n, n + path.len()) =~= path);
            assert(text.skip(n + path.len())
                =~= "' does not support SEEK_HOLE hole detection; cannot generate a side-car"@);
        },
    }
}

impl Error {
    /// The message of this error, where its own path and source are shown as `path` and
    /// `source`. An error without a source leaves `source` out.
    pub fn message(&self, path: &str, source: &str) -> (text: String)
        ensures
            text@ == error_text(*self, path@, source@),
    {
        match self {
            Error::Metadata { .. } => "failed to read metadata for '".to_string().concat(
                path,
            ).concat("': ").concat(source),
            Error::Scan { .. } => "failed to scan '".to_string().concat(path).concat(
                "' for holes: ",
            ).concat(source),
            Error::Unsupported { .. } => "filesystem holding '".to_string().concat(path).concat(
                "' does not support SEEK_HOLE hole detection; cannot generate a side-car",
            ),
        }
    }
}

/// The size of the image at `path`, from the answer to the question for its metadata.
pub fn image_size(path: std::path::PathBuf, metadata: Result<u64, std::io::Error>) -> (size: Result<
    u64,
    Error,
>)
    ensures
        size == (match metadata {
            Ok(len) => Ok::<u64, Error>(len),
            Err(source) => Err(Error::Metadata { path, source }),
        }),
{
    match metadata {
        Ok(len) => Ok(len),
        Err(source) => Err(Error::Metadata { path, source }),
    }
}

/// Build the qemu-img-map JSON text for the raw image of `size` bytes at `path`, from the
/// outcome of the scan for its data.
///
/// Errors out when the filesystem does not support hole detection: a whole-file
/// "everything is data" map is worse than none, since it would defeat the point of the
/// side-car.
pub fn generate_sidecar(
    path: std::path::PathBuf,
    size: u64,
    scan: Result<Option<DataMap>, std::io::Error>,
) -> (sidecar: Result<String, Error>)
    requires
        scan matches Ok(Some(map)) ==> forward(map@),
    ensures
        match scan {
            Ok(Some(map)) => sidecar is Ok && sidecar->Ok_0@ == map_text(map_entries(map@, size)),
            Ok(None) => sidecar == Err::<String, Error>(Error::Unsupported { path }),
            Err(source) => sidecar == Err::<String, Error>(Error::Scan { path, source }),
        },
{
    match scan {
        Ok(Some(map)) => {
            let entries: Vec<MapEntry> = build_map_entries(map.extents(), size);
            Ok(qemu_format(entries.as_slice()))
        },
        Ok(None) => Err(Error::Unsupported { path }),
        Err(source) => Err(Error::Scan { path, source }),
    }
}

} // verus!
