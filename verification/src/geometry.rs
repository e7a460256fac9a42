//! What a scan finds, against what is really in the file.
//!
//! The geometry of a file is the predicate that tells its data bytes from all
//! other offsets; past the end of the file nothing is data.
use crate::coverage::{
    map_alternates, map_tells_data_from_holes, map_tiles_the_file, run_contains, run_lies_in_file,
    tiles,
};
use crate::data_map::{covers, range_overlaps, separated, well_formed, within};
use crate::map::map_entries;
use crate::scan::{begin, step, ScanModel, SeekError, Stage};
use vstd::prelude::*;

verus! {

/// The scan after all of `replies`, the first one first.
pub open spec fn after(scan: ScanModel, replies: Seq<Result<i64, SeekError>>) -> ScanModel
    decreases replies.len(),
{
    if replies.len() == 0 {
        scan
    } else {
        step(after(scan, replies.drop_last()), replies.last())
    }
}

/// The scan waits for an answer.
pub open spec fn waiting(scan: ScanModel) -> bool {
    scan.stage is SeekData || scan.stage is SeekHole
}

/// A seek for data does not answer with an offset before the one that it was asked about.
pub open spec fn ordered(stage: Stage, reply: Result<i64, SeekError>) -> bool {
    match (stage, reply) {
        (Stage::SeekData(pos), Ok(offset)) => pos <= offset,
        _ => true,
    }
}

/// Each of `replies` is ordered for the stage that it answers.
pub open spec fn all_ordered(scan: ScanModel, replies: Seq<Result<i64, SeekError>>) -> bool {
    forall|k: int|
        0 <= k < replies.len() ==> ordered(after(scan, replies.take(k)).stage, #[trigger] replies[k])
}

/// `offset` is the first data byte at or after `from`.
pub open spec fn is_next_data(is_data: spec_fn(int) -> bool, from: int, offset: int) -> bool {
    &&& from <= offset
    &&& is_data(offset)
    &&& forall|byte: int| from <= byte < offset ==> !#[trigger] is_data(byte)
}

/// `offset` is the first byte at or after `from` that is not data. The end of the file counts
/// as one.
pub open spec fn is_next_hole(is_data: spec_fn(int) -> bool, from: int, offset: int) -> bool {
    &&& from <= offset
    &&& !is_data(offset)
    &&& forall|byte: int| from <= byte < offset ==> #[trigger] is_data(byte)
}

/// There is no data at or after `from`.
pub open spec fn no_data_from(is_data: spec_fn(int) -> bool, from: int) -> bool {
    forall|byte: int| from <= byte ==> !#[trigger] is_data(byte)
}

/// `reply` is what `lseek` answers on a file of this geometry.
pub open spec fn truthful(
    is_data: spec_fn(int) -> bool,
    stage: Stage,
    reply: Result<i64, SeekError>,
) -> bool {
    match (stage, reply) {
        (Stage::SeekData(pos), Ok(offset)) => is_next_data(is_data, pos as int, offset as int),
        (Stage::SeekData(pos), Err(SeekError::NoData)) => no_data_from(is_data, pos as int),
        (Stage::SeekHole(start), Ok(offset)) => is_next_hole(is_data, start as int, offset as int),
        (Stage::Complete, _) => true,
        _ => false,
    }
}

/// Each of `replies` is truthful for the stage that it answers.
pub open spec fn all_truthful(
    is_data: spec_fn(int) -> bool,
    scan: ScanModel,
    replies: Seq<Result<i64, SeekError>>,
) -> bool {
    forall|k: int|
        0 <= k < replies.len() ==> truthful(
            is_data,
            after(scan, replies.take(k)).stage,
            #[trigger] replies[k],
        )
}

/// What holds of every scan whose answers were ordered: the extents are those of a well-formed
/// map, and end at or before the offset that the scan has reached.
spec fn sound(scan: ScanModel) -> bool {
    &&& well_formed(scan.extents)
    &&& within(scan.extents, scan.size as int)
    &&& match scan.stage {
        Stage::SeekData(pos) => 0 <= pos < scan.size && within(scan.extents, pos as int),
        Stage::SeekHole(start) => 0 <= start < scan.size && within(scan.extents, start as int),
        _ => true,
    }
}

/// An upper bound on the number of answers that a scan still takes.
spec fn answers_left(scan: ScanModel) -> int {
    match scan.stage {
        Stage::SeekData(pos) => 2 * (scan.size - pos),
        Stage::SeekHole(start) => 2 * (scan.size - start) - 1,
        _ => 0,
    }
}

proof fn lemma_step_sound(scan: ScanModel, reply: Result<i64, SeekError>)
    requires
        sound(scan),
        ordered(scan.stage, reply),
    ensures
        sound(step(scan, reply)),
        step(scan, reply).size == scan.size,
        waiting(scan) ==> 0 <= answers_left(step(scan, reply)) < answers_left(scan),
        !waiting(scan) ==> step(scan, reply) == scan,
{
}

proof fn lemma_ordered_prefix(scan: ScanModel, replies: Seq<Result<i64, SeekError>>)
    requires
        replies.len() > 0,
        all_ordered(scan, replies),
    ensures
        all_ordered(scan, replies.drop_last()),
        ordered(after(scan, replies.drop_last()).stage, replies.last()),
{
    let n = replies.len() - 1;
    assert(replies.take(n) =~= replies.drop_last());
    assert(ordered(after(scan, replies.take(n)).stage, replies[n]));
    assert forall|k: int| 0 <= k < n implies ordered(
        after(scan, replies.drop_last().take(k)).stage,
        #[trigger] replies.drop_last()[k],
    ) by {
        assert(replies.drop_last().take(k) =~= replies.take(k));
        assert(ordered(after(scan, replies.take(k)).stage, replies[k]));
    }
}

proof fn lemma_after_sound(size: i64, replies: Seq<Result<i64, SeekError>>)
    requires
        0 <= size,
        all_ordered(begin(size), replies),
    ensures
        sound(after(begin(size), replies)),
        after(begin(size), replies).size == size,
        waiting(after(begin(size), replies)) ==> answers_left(after(begin(size), replies))
            + replies.len() <= 2 * size,
    decreases replies.len(),
{
    if replies.len() > 0 {
        lemma_ordered_prefix(begin(size), replies);
        lemma_after_sound(size, replies.drop_last());
        lemma_step_sound(after(begin(size), replies.drop_last()), replies.last());
    }
}

/// Whatever the file system answers, as long as no seek for data answers with an offset before
/// the one that it was asked about, the extents found are non-empty, sorted, do not overlap and
/// lie inside the file.
pub proof fn scan_extents_are_well_formed(size: i64, replies: Seq<Result<i64, SeekError>>)
    requires
        0 <= size,
        all_ordered(begin(size), replies),
    ensures
        well_formed(after(begin(size), replies).extents),
        within(after(begin(size), replies).extents, size as int),
{
    lemma_after_sound(size, replies);
}

/// A scan ends: as long as no seek for data answers with an offset before the one that it was
/// asked about, a file of `size` bytes takes at most `2 * size` answers.
pub proof fn scan_ends(size: i64, replies: Seq<Result<i64, SeekError>>)
    requires
        0 <= size,
        all_ordered(begin(size), replies),
        replies.len() >= 2 * size,
    ensures
        !waiting(after(begin(size), replies)),
{
    lemma_after_sound(size, replies);
}

/// The scan knows exactly the data bytes before the offset that it has reached.
spec fn tracks(scan: ScanModel, is_data: spec_fn(int) -> bool) -> bool {
    &&& sound(scan)
    &&& separated(scan.extents)
    &&& match scan.stage {
        Stage::SeekData(pos) => {
            &&& scan.extents.len() > 0 ==> !is_data(pos as int)
            &&& forall|byte: int| 0 <= byte < pos ==> covers(scan.extents, byte) == #[trigger] is_data(byte)
        },
        Stage::SeekHole(start) => {
            &&& is_data(start as int)
            &&& forall|i: int|
                0 <= i < scan.extents.len() ==> (#[trigger] scan.extents[i]).1 < start
            &&& forall|byte: int| 0 <= byte < start ==> covers(scan.extents, byte) == #[trigger] is_data(byte)
        },
        Stage::Complete => forall|byte: int|
            0 <= byte < scan.size ==> covers(scan.extents, byte) == #[trigger] is_data(byte),
        Stage::Unsupported => false,
    }
}

proof fn lemma_step_tracks(
    scan: ScanModel,
    is_data: spec_fn(int) -> bool,
    reply: Result<i64, SeekError>,
)
    requires
        tracks(scan, is_data),
        truthful(is_data, scan.stage, reply),
    ensures
        tracks(step(scan, reply), is_data),
{
    let next = step(scan, reply);
    lemma_step_sound(scan, reply);
    match scan.stage {
        Stage::SeekData(pos) => {
            let limit: int = match next.stage {
                Stage::SeekHole(start) => start as int,
                _ => scan.size as int,
            };
            assert forall|byte: int| 0 <= byte < limit implies covers(next.extents, byte)
                == #[trigger] is_data(byte) by {
                if byte >= pos && covers(next.extents, byte) {
                    assert(within(scan.extents, pos as int));
                }
            }
        },
        Stage::SeekHole(start) => {
            let region = next.extents.last();
            assert forall|byte: int| 0 <= byte < region.1 implies covers(next.extents, byte)
                == #[trigger] is_data(byte) by {
                if byte < start {
                    if covers(scan.extents, byte) {
                        let i = choose|i: int|
                            0 <= i < scan.extents.len() && (#[trigger] scan.extents[i]).0 <= byte
                                < scan.extents[i].1;
                        assert(next.extents[i] == scan.extents[i]);
                    }
                    if covers(next.extents, byte) {
                        let i = choose|i: int|
                            0 <= i < next.extents.len() && (#[trigger] next.extents[i]).0 <= byte
                                < next.extents[i].1;
                        assert(scan.extents[i] == next.extents[i]);
                    }
                } else {
                    assert(next.extents[scan.extents.len() as int] == region);
                }
            }
        },
        _ => {},
    }
}

proof fn lemma_truthful_prefix(
    is_data: spec_fn(int) -> bool,
    scan: ScanModel,
    replies: Seq<Result<i64, SeekError>>,
)
    requires
        replies.len() > 0,
        all_truthful(is_data, scan, replies),
    ensures
        all_truthful(is_data, scan, replies.drop_last()),
        truthful(is_data, after(scan, replies.drop_last()).stage, replies.last()),
{
    let n = replies.len() - 1;
    assert(replies.take(n) =~= replies.drop_last());
    assert(truthful(is_data, after(scan, replies.take(n)).stage, replies[n]));
    assert forall|k: int| 0 <= k < n implies truthful(
        is_data,
        after(scan, replies.drop_last().take(k)).stage,
        #[trigger] replies.drop_last()[k],
    ) by {
        assert(replies.drop_last().take(k) =~= replies.take(k));
        assert(truthful(is_data, after(scan, replies.take(k)).stage, replies[k]));
    }
}

proof fn lemma_after_tracks(
    is_data: spec_fn(int) -> bool,
    size: i64,
    replies: Seq<Result<i64, SeekError>>,
)
    requires
        0 <= size,
        all_truthful(is_data, begin(size), replies),
    ensures
        tracks(after(begin(size), replies), is_data),
        after(begin(size), replies).size == size,
    decreases replies.len(),
{
    if replies.len() > 0 {
        lemma_truthful_prefix(is_data, begin(size), replies);
        lemma_after_tracks(is_data, size, replies.drop_last());
        lemma_step_tracks(after(begin(size), replies.drop_last()), is_data, replies.last());
    }
}

/// Answers in turn to `SEEK_DATA` and `SEEK_HOLE`, the former first, after each of which the scan
/// of a file of `size` bytes has to go on: offsets inside the file, those of holes behind the
/// start of the data that they end.
pub open spec fn goes_on(size: i64, replies: Seq<Result<i64, SeekError>>) -> bool {
    &&& size > 0
    &&& forall|k: int|
        0 <= k < replies.len() ==> (#[trigger] replies[k]) is Ok && replies[k]->Ok_0 < size
    &&& forall|k: int|
        0 <= k < replies.len() && k % 2 == 1 ==> replies[k - 1]->Ok_0 < (#[trigger] replies[k])->Ok_0
}

proof fn lemma_goes_on_prefix(size: i64, replies: Seq<Result<i64, SeekError>>)
    requires
        goes_on(size, replies),
        replies.len() > 0,
    ensures
        goes_on(size, replies.drop_last()),
        replies.last() is Ok && replies.last()->Ok_0 < size,
        replies.len() % 2 == 0 ==> replies.drop_last().last()->Ok_0 < replies.last()->Ok_0,
{
    let n = replies.len() - 1;
    let before = replies.drop_last();
    assert(replies[n] == replies.last());
    assert(forall|k: int| 0 <= k < n ==> #[trigger] before[k] == replies[k]);
    if n % 2 == 1 {
        assert(before.last() == replies[n - 1]);
    }
}

/// While a scan goes on, it asks for data first at the start of the file and then where the last
/// hole was found, and for a hole where the last data was found. Each pair of answers so far is
/// one extent.
pub proof fn scan_asks_where_the_last_answer_points(
    size: i64,
    replies: Seq<Result<i64, SeekError>>,
)
    requires
        goes_on(size, replies),
    ensures
        after(begin(size), replies).size == size,
        replies.len() == 0 ==> after(begin(size), replies).stage == Stage::SeekData(0),
        replies.len() > 0 && replies.len() % 2 == 0 ==> after(begin(size), replies).stage
            == Stage::SeekData(replies.last()->Ok_0),
        replies.len() % 2 == 1 ==> after(begin(size), replies).stage == Stage::SeekHole(
            replies.last()->Ok_0,
        ),
        after(begin(size), replies).extents == Seq::new(
            (replies.len() / 2) as nat,
            |k: int| (replies[2 * k]->Ok_0 as u64, replies[2 * k + 1]->Ok_0 as u64),
        ),
    decreases replies.len(),
{
    let found = Seq::new(
        (replies.len() / 2) as nat,
        |k: int| (replies[2 * k]->Ok_0 as u64, replies[2 * k + 1]->Ok_0 as u64),
    );
    if replies.len() == 0 {
        assert(after(begin(size), replies).extents =~= found);
    } else {
        let before = replies.drop_last();
        let n = replies.len() - 1;
        lemma_goes_on_prefix(size, replies);
        scan_asks_where_the_last_answer_points(size, before);
        let scan = after(begin(size), before);
        let known = Seq::new(
            (before.len() / 2) as nat,
            |k: int| (before[2 * k]->Ok_0 as u64, before[2 * k + 1]->Ok_0 as u64),
        );
        assert(scan.extents == known);
        if n % 2 == 0 {
            assert(found =~= known);
        } else {
            assert(before.last() == replies[n - 1]);
            assert(found =~= known.push((replies[n - 1]->Ok_0 as u64, replies[n]->Ok_0 as u64)));
        }
    }
}

/// How a scan that went on so far ends. Data at or behind the size, or none, completes it without
/// another extent; a hole at or behind the size completes it with the data up to the size. Any
/// other failure, and a hole that is not behind the start of its data, makes it give up.
pub proof fn last_answer_decides(
    size: i64,
    replies: Seq<Result<i64, SeekError>>,
    reply: Result<i64, SeekError>,
)
    requires
        goes_on(size, replies),
    ensures
        replies.len() % 2 == 0 ==> {
            &&& reply is Ok && reply->Ok_0 >= size || reply == Err::<i64, SeekError>(
                SeekError::NoData,
            ) ==> after(begin(size), replies.push(reply)).stage is Complete
            &&& reply == Err::<i64, SeekError>(SeekError::Other) ==> after(
                begin(size),
                replies.push(reply),
            ).stage is Unsupported
            &&& after(begin(size), replies.push(reply)).extents == after(
                begin(size),
                replies,
            ).extents
        },
        replies.len() % 2 == 1 ==> {
            &&& reply is Ok && reply->Ok_0 > replies.last()->Ok_0 && reply->Ok_0 >= size ==> {
                &&& after(begin(size), replies.push(reply)).stage is Complete
                &&& after(begin(size), replies.push(reply)).extents == after(
                    begin(size),
                    replies,
                ).extents.push((replies.last()->Ok_0 as u64, size as u64))
            }
            &&& reply is Ok && reply->Ok_0 <= replies.last()->Ok_0 ==> after(
                begin(size),
                replies.push(reply),
            ).stage is Unsupported
            &&& reply is Err ==> after(begin(size), replies.push(reply)).stage is Unsupported
        },
{
    scan_asks_where_the_last_answer_points(size, replies);
    assert(replies.push(reply).drop_last() =~= replies);
    if replies.len() > 0 {
        lemma_goes_on_prefix(size, replies);
    }
}

/// A scan of an empty file is complete at once and finds nothing.
pub proof fn empty_file_is_scanned_at_once(replies: Seq<Result<i64, SeekError>>)
    ensures
        after(begin(0), replies).stage is Complete,
        after(begin(0), replies).extents.len() == 0,
{
    ended_scan_ignores_answers(begin(0), replies);
}

/// A scan that has ended, complete or given up, stays as it is whatever is answered.
pub proof fn ended_scan_ignores_answers(scan: ScanModel, replies: Seq<Result<i64, SeekError>>)
    requires
        scan.stage is Complete || scan.stage is Unsupported,
    ensures
        after(scan, replies) == scan,
    decreases replies.len(),
{
    if replies.len() > 0 {
        ended_scan_ignores_answers(scan, replies.drop_last());
    }
}

proof fn lemma_after_concat(
    scan: ScanModel,
    first: Seq<Result<i64, SeekError>>,
    second: Seq<Result<i64, SeekError>>,
)
    ensures
        after(scan, first + second) == after(after(scan, first), second),
    decreases second.len(),
{
    if second.len() == 0 {
        assert(first + second =~= first);
    } else {
        lemma_after_concat(scan, first, second.drop_last());
        assert((first + second).drop_last() =~= first + second.drop_last());
    }
}

/// Once a seek that the scan waited for has failed, other than by finding no more data, the scan
/// has given up, and whatever is answered later it gives no map.
pub proof fn failed_seek_is_final(scan: ScanModel, replies: Seq<Result<i64, SeekError>>, k: int)
    requires
        0 <= k < replies.len(),
        replies[k] is Err,
        match after(scan, replies.take(k)).stage {
            Stage::SeekData(_) => replies[k] != Err::<i64, SeekError>(SeekError::NoData),
            Stage::SeekHole(_) => true,
            _ => false,
        },
    ensures
        after(scan, replies).stage is Unsupported,
{
    let first = replies.take(k + 1);
    let second = replies.skip(k + 1);
    assert(first.drop_last() =~= replies.take(k));
    assert(replies =~= first + second);
    lemma_after_concat(scan, first, second);
    ended_scan_ignores_answers(after(scan, first), second);
}

/// A completed scan had an answer to each seek that it waited for: an offset, or that there is no
/// more data.
pub proof fn complete_scan_was_answered(
    scan: ScanModel,
    replies: Seq<Result<i64, SeekError>>,
    k: int,
)
    requires
        0 <= k < replies.len(),
        after(scan, replies).stage is Complete,
    ensures
        after(scan, replies.take(k)).stage is SeekData ==> replies[k] is Ok || replies[k] == Err::<
            i64,
            SeekError,
        >(SeekError::NoData),
        after(scan, replies.take(k)).stage is SeekHole ==> replies[k] is Ok,
{
    if replies[k] is Err && match after(scan, replies.take(k)).stage {
        Stage::SeekData(_) => replies[k] != Err::<i64, SeekError>(SeekError::NoData),
        Stage::SeekHole(_) => true,
        _ => false,
    } {
        failed_seek_is_final(scan, replies, k);
    }
}

/// On a file system that answers as `lseek` is documented to, a scan is never given up, and
/// completes after at most `2 * size` answers.
pub proof fn truthful_scan_completes(
    is_data: spec_fn(int) -> bool,
    size: i64,
    replies: Seq<Result<i64, SeekError>>,
)
    requires
        0 <= size,
        all_truthful(is_data, begin(size), replies),
    ensures
        !(after(begin(size), replies).stage is Unsupported),
        replies.len() >= 2 * size ==> after(begin(size), replies).stage is Complete,
{
    lemma_after_tracks(is_data, size, replies);
    assert(all_ordered(begin(size), replies)) by {
        assert forall|k: int| 0 <= k < replies.len() implies ordered(
            after(begin(size), replies.take(k)).stage,
            #[trigger] replies[k],
        ) by {
            assert(truthful(is_data, after(begin(size), replies.take(k)).stage, replies[k]));
        }
    }
    lemma_after_sound(size, replies);
}

/// On a file system that answers as `lseek` is documented to, a completed scan has found exactly
/// the data bytes of the file, in extents that a hole separates.
pub proof fn truthful_scan_finds_exactly_the_data(
    is_data: spec_fn(int) -> bool,
    size: i64,
    replies: Seq<Result<i64, SeekError>>,
)
    requires
        0 <= size,
        all_truthful(is_data, begin(size), replies),
        after(begin(size), replies).stage is Complete,
    ensures
        forall|byte: int| #[trigger]
            covers(after(begin(size), replies).extents, byte) == (0 <= byte < size && is_data(byte)),
        well_formed(after(begin(size), replies).extents),
        separated(after(begin(size), replies).extents),
        within(after(begin(size), replies).extents, size as int),
{
    lemma_after_tracks(is_data, size, replies);
    let extents = after(begin(size), replies).extents;
    assert forall|byte: int| #[trigger] covers(extents, byte) == (0 <= byte < size && is_data(byte)) by {
        if 0 <= byte < size {
            assert(covers(extents, byte) == is_data(byte));
        }
    }
}

/// A block that the map of a truthful scan calls free of data holds no data byte of the file, and
/// a block that it calls data holds one: skipping the former and reading the latter loses nothing.
pub proof fn truthful_scan_skips_only_holes(
    is_data: spec_fn(int) -> bool,
    size: i64,
    replies: Seq<Result<i64, SeekError>>,
    offset: u64,
    len: u64,
)
    requires
        0 <= size,
        all_truthful(is_data, begin(size), replies),
        after(begin(size), replies).stage is Complete,
    ensures
        range_overlaps(after(begin(size), replies).extents, offset as int, len as int) == exists|
            byte: int,
        |
            offset <= byte < offset + len && byte < size && #[trigger] is_data(byte),
{
    truthful_scan_finds_exactly_the_data(is_data, size, replies);
    let extents = after(begin(size), replies).extents;
    if exists|byte: int| offset <= byte < offset + len && byte < size && #[trigger] is_data(byte) {
        let byte = choose|byte: int|
            offset <= byte < offset + len && byte < size && #[trigger] is_data(byte);
        assert(covers(extents, byte));
    }
}

/// The map emitted for a truthful scan describes the file: its runs tile the file, data and hole
/// runs take turns, and a run says data of exactly the data bytes of the file.
pub proof fn emitted_map_describes_the_file(
    is_data: spec_fn(int) -> bool,
    size: i64,
    replies: Seq<Result<i64, SeekError>>,
)
    requires
        0 <= size,
        all_truthful(is_data, begin(size), replies),
        after(begin(size), replies).stage is Complete,
    ensures
        ({
            let entries = map_entries(after(begin(size), replies).extents, size as u64);
            &&& tiles(entries, size as int)
            &&& forall|i: int, j: int|
                0 <= i && j == i + 1 && j < entries.len() ==> (#[trigger] entries[i]).data != (
                #[trigger] entries[j]).data
            &&& forall|i: int, byte: int|
                0 <= i < entries.len() && #[trigger] run_contains(entries[i], byte)
                    ==> entries[i].data == is_data(byte)
        }),
{
    let extents = after(begin(size), replies).extents;
    let entries = map_entries(extents, size as u64);
    truthful_scan_finds_exactly_the_data(is_data, size, replies);
    map_tiles_the_file(extents, size as u64);
    assert forall|i: int, j: int| 0 <= i && j == i + 1 && j < entries.len() implies (
    #[trigger] entries[i]).data != (#[trigger] entries[j]).data by {
        map_alternates(extents, size as u64, i);
    }
    assert forall|i: int, byte: int|
        0 <= i < entries.len() && #[trigger] run_contains(entries[i], byte) implies entries[i].data
        == is_data(byte) by {
        map_tells_data_from_holes(extents, size as u64, i, byte);
        run_lies_in_file(entries, size as int, i);
    }
}

} // verus!
