//! What the emitted map says of the file.
use crate::data_map::{covers, forward, separated, well_formed, within};
use crate::map::{data_run, hole, last_end, map_entries, runs, MapEntry};
use vstd::prelude::*;

verus! {

/// The offset at which a run ends.
pub open spec fn run_end(entry: MapEntry) -> int {
    entry.start + entry.length
}

/// `byte` lies in the run of `entry`.
pub open spec fn run_contains(entry: MapEntry, byte: int) -> bool {
    entry.start <= byte < run_end(entry)
}

/// The runs are not empty, and each starts where the one before it ends, from the start of the
/// file up to `size`.
pub open spec fn tiles(entries: Seq<MapEntry>, size: int) -> bool {
    &&& entries.len() == 0 ==> size == 0
    &&& entries.len() > 0 ==> entries[0].start == 0 && run_end(entries.last()) == size
    &&& forall|i: int| 0 <= i < entries.len() ==> (#[trigger] entries[i]).length > 0
    &&& forall|i: int, j: int|
        0 <= i && j == i + 1 && j < entries.len() ==> run_end(#[trigger] entries[i]) == (
        #[trigger] entries[j]).start
}

/// The extents that the data runs of a map stand for.
pub open spec fn data_extents(entries: Seq<MapEntry>) -> Seq<(u64, u64)>
    decreases entries.len(),
{
    if entries.len() == 0 {
        Seq::empty()
    } else if entries.last().data {
        data_extents(entries.drop_last()).push(
            (entries.last().start, run_end(entries.last()) as u64),
        )
    } else {
        data_extents(entries.drop_last())
    }
}

/// The sum of the lengths of all runs.
pub open spec fn total_run_length(entries: Seq<MapEntry>) -> int
    decreases entries.len(),
{
    if entries.len() == 0 {
        0
    } else {
        total_run_length(entries.drop_last()) + entries.last().length
    }
}

proof fn lemma_tiles_push(entries: Seq<MapEntry>, size: int, entry: MapEntry)
    requires
        tiles(entries, size),
        entry.start == size,
        entry.length > 0,
    ensures
        tiles(entries.push(entry), run_end(entry)),
{
    let all = entries.push(entry);
    assert forall|i: int, j: int| 0 <= i && j == i + 1 && j < all.len() implies run_end(
        #[trigger] all[i],
    ) == (#[trigger] all[j]).start by {
        if j < entries.len() {
            assert(all[i] == entries[i] && all[j] == entries[j]);
        }
    }
}

proof fn lemma_tiles_hole(entries: Seq<MapEntry>, start: u64, end: u64)
    requires
        tiles(entries, start as int),
        start <= end,
    ensures
        tiles(entries + hole(start, end), end as int),
{
    if start < end {
        let entry = hole(start, end)[0];
        lemma_tiles_push(entries, start as int, entry);
        assert(entries + hole(start, end) =~= entries.push(entry));
    } else {
        assert(entries + hole(start, end) =~= entries);
    }
}

proof fn lemma_well_formed_prefix(extents: Seq<(u64, u64)>)
    requires
        well_formed(extents),
        extents.len() > 0,
    ensures
        well_formed(extents.drop_last()),
        last_end(extents.drop_last()) <= extents.last().0,
        within(extents.drop_last(), last_end(extents.drop_last()) as int),
{
    let before = extents.drop_last();
    if before.len() > 0 {
        assert(extents[before.len() - 1].1 <= extents[before.len() as int].0);
        assert forall|i: int| 0 <= i < before.len() implies (#[trigger] before[i]).1 <= last_end(
            before,
        ) by {
            if i < before.len() - 1 {
                assert(extents[i].1 <= extents[before.len() - 1].0);
            }
        }
    }
}

proof fn lemma_runs_tile(extents: Seq<(u64, u64)>)
    requires
        well_formed(extents),
    ensures
        tiles(runs(extents), last_end(extents) as int),
    decreases extents.len(),
{
    if extents.len() > 0 {
        let before = extents.drop_last();
        let extent = extents.last();
        lemma_well_formed_prefix(extents);
        lemma_runs_tile(before);
        lemma_tiles_hole(runs(before), last_end(before), extent.0);
        lemma_tiles_push(
            runs(before) + hole(last_end(before), extent.0),
            extent.0 as int,
            data_run(extent),
        );
    }
}

/// The runs of the map are contiguous and together cover `[0, size)` with no gaps.
pub proof fn map_tiles_the_file(extents: Seq<(u64, u64)>, size: u64)
    requires
        well_formed(extents),
        within(extents, size as int),
    ensures
        tiles(map_entries(extents, size), size as int),
{
    lemma_runs_tile(extents);
    assert(last_end(extents) <= size);
    lemma_tiles_hole(runs(extents), last_end(extents), size);
}

/// Runs that tile a file are sorted and do not overlap.
pub proof fn tiles_are_sorted(entries: Seq<MapEntry>, size: int, i: int, j: int)
    requires
        tiles(entries, size),
        0 <= i < j < entries.len(),
    ensures
        run_end(entries[i]) <= entries[j].start,
        run_end(entries[j]) <= size,
    decreases j - i, entries.len() - j,
{
    if i + 1 < j {
        tiles_are_sorted(entries, size, i, j - 1);
    }
    assert(run_end(entries[j - 1]) == entries[j].start);
    run_lies_in_file(entries, size, j);
}

/// Each of the runs that tile a file lies inside the file.
pub proof fn run_lies_in_file(entries: Seq<MapEntry>, size: int, i: int)
    requires
        tiles(entries, size),
        0 <= i < entries.len(),
    ensures
        run_end(entries[i]) <= size,
    decreases entries.len() - i,
{
    if i + 1 < entries.len() {
        run_lies_in_file(entries, size, i + 1);
        assert(run_end(entries[i]) == entries[i + 1].start);
    }
}

/// Of runs that tile a file, exactly one contains any given byte of it.
pub proof fn tiles_contain_each_byte_once(entries: Seq<MapEntry>, size: int, byte: int)
    requires
        tiles(entries, size),
        0 <= byte < size,
    ensures
        exists|i: int| 0 <= i < entries.len() && #[trigger] run_contains(entries[i], byte),
        forall|i: int, j: int|
            0 <= i < entries.len() && 0 <= j < entries.len() && #[trigger] run_contains(
                entries[i],
                byte,
            ) && #[trigger] run_contains(entries[j], byte) ==> i == j,
{
    lemma_byte_found(entries, size, byte, 0);
    assert forall|i: int, j: int|
        0 <= i < entries.len() && 0 <= j < entries.len() && #[trigger] run_contains(
            entries[i],
            byte,
        ) && #[trigger] run_contains(entries[j], byte) implies i == j by {
        if i < j {
            tiles_are_sorted(entries, size, i, j);
        } else if j < i {
            tiles_are_sorted(entries, size, j, i);
        }
    }
}

proof fn lemma_byte_found(entries: Seq<MapEntry>, size: int, byte: int, from: int)
    requires
        tiles(entries, size),
        0 <= from < entries.len(),
        entries[from].start <= byte < size,
    ensures
        exists|i: int| 0 <= i < entries.len() && #[trigger] run_contains(entries[i], byte),
    decreases entries.len() - from,
{
    if run_contains(entries[from], byte) {
    } else {
        assert(from + 1 < entries.len());
        assert(run_end(entries[from]) == entries[from + 1].start);
        lemma_byte_found(entries, size, byte, from + 1);
    }
}

proof fn lemma_runs_classify(extents: Seq<(u64, u64)>, i: int, byte: int)
    requires
        well_formed(extents),
        0 <= i < runs(extents).len(),
        run_contains(runs(extents)[i], byte),
    ensures
        runs(extents)[i].data == covers(extents, byte),
    decreases extents.len(),
{
    if extents.len() > 0 {
        let n = extents.len() - 1;
        let before = extents.drop_last();
        let extent = extents.last();
        let entry = runs(extents)[i];
        lemma_well_formed_prefix(extents);
        if i < runs(before).len() {
            lemma_runs_classify(before, i, byte);
            lemma_runs_tile(before);
            run_lies_in_file(runs(before), last_end(before) as int, i);
            if covers(before, byte) {
                let k = choose|k: int|
                    0 <= k < before.len() && (#[trigger] before[k]).0 <= byte < before[k].1;
                assert(extents[k] == before[k]);
            }
            if covers(extents, byte) {
                let k = choose|k: int|
                    0 <= k < extents.len() && (#[trigger] extents[k]).0 <= byte < extents[k].1;
                assert(k < n);
                assert(before[k] == extents[k]);
            }
        } else if i == runs(extents).len() - 1 {
            assert(entry == data_run(extent));
            assert(extents[n].0 <= byte < extents[n].1);
        } else {
            assert(entry == hole(last_end(before), extent.0)[0]);
            if covers(extents, byte) {
                let k = choose|k: int|
                    0 <= k < extents.len() && (#[trigger] extents[k]).0 <= byte < extents[k].1;
                assert(k < n);
                assert(before[k].1 <= last_end(before));
            }
        }
    }
}

/// A run of the map says data of exactly the bytes that lie in a data extent, and hole of
/// exactly the others.
pub proof fn map_tells_data_from_holes(extents: Seq<(u64, u64)>, size: u64, i: int, byte: int)
    requires
        well_formed(extents),
        within(extents, size as int),
        0 <= i < map_entries(extents, size).len(),
        run_contains(map_entries(extents, size)[i], byte),
    ensures
        map_entries(extents, size)[i].data == covers(extents, byte),
{
    if i < runs(extents).len() {
        lemma_runs_classify(extents, i, byte);
    } else {
        assert(map_entries(extents, size)[i] == hole(last_end(extents), size)[0]);
        if extents.len() > 0 {
            lemma_well_formed_prefix(extents);
        }
        if covers(extents, byte) {
            let k = choose|k: int|
                0 <= k < extents.len() && (#[trigger] extents[k]).0 <= byte < extents[k].1;
            if k < extents.len() - 1 {
                assert(extents[k].1 <= extents[extents.len() - 1].0);
            }
        }
    }
}

/// A map has no runs exactly if the file is empty.
pub proof fn map_is_empty_only_for_empty_file(extents: Seq<(u64, u64)>, size: u64)
    requires
        well_formed(extents),
        within(extents, size as int),
    ensures
        map_entries(extents, size).len() == 0 <==> size == 0,
{
    map_tiles_the_file(extents, size);
    if size == 0 && extents.len() > 0 {
        assert(extents[0].0 < extents[0].1);
    }
}

proof fn lemma_runs_gaps(extents: Seq<(u64, u64)>, i: int)
    requires
        forward(extents),
        0 <= i < runs(extents).len(),
    ensures
        runs(extents).last().data,
        run_end(runs(extents).last()) == last_end(extents),
        !runs(extents)[i].data ==> {
            &&& runs(extents)[i].length > 0
            &&& runs(extents)[i].start == if i == 0 {
                0
            } else {
                run_end(runs(extents)[i - 1])
            }
            &&& i + 1 < runs(extents).len()
            &&& run_end(runs(extents)[i]) == runs(extents)[i + 1].start
        },
        runs(extents)[i].data ==> {
            &&& i == 0 ==> runs(extents)[i].start == 0
            &&& i > 0 && runs(extents)[i - 1].data ==> runs(extents)[i].start <= run_end(
                runs(extents)[i - 1],
            )
        },
    decreases extents.len(),
{
    if extents.len() > 0 {
        let before = extents.drop_last();
        let extent = extents.last();
        assert(extents[extents.len() - 1] == extent);
        assert forall|k: int| 0 <= k < before.len() implies (#[trigger] before[k]).0
            <= before[k].1 by {
            assert(before[k] == extents[k]);
        }
        if before.len() > 0 {
            assert(runs(before).len() > 0);
            lemma_runs_gaps(before, if i < runs(before).len() {
                i
            } else {
                runs(before).len() - 1
            });
        }
    }
}

/// Every gap before, between or behind the extents, and nothing else, becomes a hole run that
/// fills it, for extents in any order and for every size.
pub proof fn map_fills_every_gap(extents: Seq<(u64, u64)>, size: u64, i: int)
    requires
        forward(extents),
        0 <= i < map_entries(extents, size).len(),
    ensures
        !map_entries(extents, size)[i].data ==> {
            &&& map_entries(extents, size)[i].length > 0
            &&& map_entries(extents, size)[i].start == if i == 0 {
                0
            } else {
                run_end(map_entries(extents, size)[i - 1])
            }
            &&& run_end(map_entries(extents, size)[i]) == if i + 1 == map_entries(
                extents,
                size,
            ).len() {
                size as int
            } else {
                map_entries(extents, size)[i + 1].start as int
            }
        },
        map_entries(extents, size)[i].data ==> {
            &&& i == 0 ==> map_entries(extents, size)[i].start == 0
            &&& i > 0 && map_entries(extents, size)[i - 1].data ==> map_entries(
                extents,
                size,
            )[i].start <= run_end(map_entries(extents, size)[i - 1])
            &&& i + 1 == map_entries(extents, size).len() ==> size <= run_end(
                map_entries(extents, size)[i],
            )
        },
{
    if runs(extents).len() > 0 {
        lemma_runs_gaps(extents, if i < runs(extents).len() {
            i
        } else {
            runs(extents).len() - 1
        });
    } else {
        assert(extents.len() == 0);
    }
}

/// A map without runs is that of an empty file without extents.
pub proof fn map_without_runs_is_that_of_nothing(extents: Seq<(u64, u64)>, size: u64)
    requires
        map_entries(extents, size).len() == 0,
    ensures
        extents.len() == 0,
        size == 0,
{
    assert(runs(extents).len() == 0);
}

proof fn lemma_no_hole_after_hole(extents: Seq<(u64, u64)>, i: int)
    requires
        0 <= i < runs(extents).len() - 1,
    ensures
        runs(extents)[i].data || runs(extents)[i + 1].data,
    decreases extents.len(),
{
    if extents.len() > 0 {
        let before = extents.drop_last();
        if before.len() > 0 {
            assert(runs(before).last().data);
        }
        if i < runs(before).len() - 1 {
            lemma_no_hole_after_hole(before, i);
        }
    }
}

/// Of any two neighbouring runs of a map, at least one is data: a hole is never split.
pub proof fn map_never_splits_a_hole(extents: Seq<(u64, u64)>, size: u64, i: int)
    requires
        0 <= i < map_entries(extents, size).len() - 1,
    ensures
        map_entries(extents, size)[i].data || map_entries(extents, size)[i + 1].data,
{
    if i < runs(extents).len() - 1 {
        lemma_no_hole_after_hole(extents, i);
    } else {
        assert(runs(extents).last().data);
    }
}

proof fn lemma_runs_alternate(extents: Seq<(u64, u64)>, i: int)
    requires
        well_formed(extents),
        separated(extents),
        0 <= i < runs(extents).len() - 1,
    ensures
        runs(extents)[i].data != runs(extents)[i + 1].data,
    decreases extents.len(),
{
    if extents.len() > 0 {
        let before = extents.drop_last();
        lemma_well_formed_prefix(extents);
        if before.len() > 0 {
            assert(extents[before.len() - 1].1 < extents[before.len() as int].0);
            assert(runs(before).last().data);
        }
        if i < runs(before).len() - 1 {
            lemma_runs_alternate(before, i);
        }
    }
}

/// Where a hole separates any two extents, data and hole runs take turns.
pub proof fn map_alternates(extents: Seq<(u64, u64)>, size: u64, i: int)
    requires
        well_formed(extents),
        separated(extents),
        0 <= i < map_entries(extents, size).len() - 1,
    ensures
        map_entries(extents, size)[i].data != map_entries(extents, size)[i + 1].data,
{
    if i < runs(extents).len() - 1 {
        lemma_runs_alternate(extents, i);
    } else {
        assert(runs(extents).len() > 0);
        assert(runs(extents).last().data);
    }
}

proof fn lemma_data_extents_hole(entries: Seq<MapEntry>, start: u64, end: u64)
    ensures
        data_extents(entries + hole(start, end)) == data_extents(entries),
{
    if start < end {
        let entry = hole(start, end)[0];
        assert((entries + hole(start, end)).drop_last() =~= entries);
    } else {
        assert(entries + hole(start, end) =~= entries);
    }
}

proof fn lemma_runs_keep_extents(extents: Seq<(u64, u64)>)
    requires
        forward(extents),
    ensures
        data_extents(runs(extents)) == extents,
    decreases extents.len(),
{
    if extents.len() > 0 {
        let before = extents.drop_last();
        let extent = extents.last();
        let with_gap = runs(before) + hole(last_end(before), extent.0);
        lemma_runs_keep_extents(before);
        lemma_data_extents_hole(runs(before), last_end(before), extent.0);
        assert(runs(extents).drop_last() =~= with_gap);
        assert(data_extents(runs(extents)) =~= before.push(extent));
        assert(before.push(extent) =~= extents);
    }
}

/// The data runs of the map give back the extents that it was built from.
pub proof fn map_keeps_the_extents(extents: Seq<(u64, u64)>, size: u64)
    requires
        forward(extents),
    ensures
        data_extents(map_entries(extents, size)) == extents,
{
    lemma_runs_keep_extents(extents);
    lemma_data_extents_hole(runs(extents), last_end(extents), size);
}

/// Runs that tile a file are together as long as the file.
pub proof fn tiles_add_up(entries: Seq<MapEntry>, size: int)
    requires
        tiles(entries, size),
    ensures
        total_run_length(entries) == size,
    decreases entries.len(),
{
    if entries.len() > 0 {
        let before = entries.drop_last();
        let start = entries.last().start as int;
        assert(tiles(before, start)) by {
            if before.len() > 0 {
                assert(run_end(entries[before.len() - 1]) == entries[before.len() as int].start);
            }
            assert forall|i: int, j: int| 0 <= i && j == i + 1 && j < before.len() implies run_end(
                #[trigger] before[i],
            ) == (#[trigger] before[j]).start by {
                assert(run_end(entries[i]) == entries[j].start);
            }
        }
        tiles_add_up(before, start);
    }
}

} // verus!
