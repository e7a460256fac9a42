//! The byte ranges of a file that contain data.
//!
//! A [`DataMap`] tells which bytes of a file hold data and which lie in a hole,
//! so that a block lying entirely in a hole can be skipped without reading it.
//! Bytes explicitly written with zeroes are data, not holes.
use vstd::prelude::*;
use vstd::set_lib::{lemma_int_range, lemma_set_disjoint_lens, set_int_range};

verus! {

/// No extent ends before it starts.
pub open spec fn forward(extents: Seq<(u64, u64)>) -> bool {
    forall|i: int| 0 <= i < extents.len() ==> (#[trigger] extents[i]).0 <= extents[i].1
}

/// The extents are non-empty, sorted and do not overlap.
pub open spec fn well_formed(extents: Seq<(u64, u64)>) -> bool {
    &&& forall|i: int| 0 <= i < extents.len() ==> (#[trigger] extents[i]).0 < extents[i].1
    &&& forall|i: int, j: int|
        0 <= i < j < extents.len() ==> (#[trigger] extents[i]).1 <= (#[trigger] extents[j]).0
}

/// Between any two extents there is at least one byte of hole.
pub open spec fn separated(extents: Seq<(u64, u64)>) -> bool {
    forall|i: int, j: int|
        0 <= i < j < extents.len() ==> (#[trigger] extents[i]).1 < (#[trigger] extents[j]).0
}

/// Every extent ends at or before `size`.
pub open spec fn within(extents: Seq<(u64, u64)>, size: int) -> bool {
    forall|i: int| 0 <= i < extents.len() ==> (#[trigger] extents[i]).1 <= size
}

/// Some extent contains `byte`.
pub open spec fn covers(extents: Seq<(u64, u64)>, byte: int) -> bool {
    exists|i: int| 0 <= i < extents.len() && (#[trigger] extents[i]).0 <= byte < extents[i].1
}

/// The set of all bytes that some extent contains.
pub open spec fn covered_bytes(extents: Seq<(u64, u64)>) -> Set<int> {
    Set::new(|byte: int| covers(extents, byte))
}

/// The sum of the lengths of all extents.
pub open spec fn total_length(extents: Seq<(u64, u64)>) -> int
    decreases extents.len(),
{
    if extents.len() == 0 {
        0
    } else {
        total_length(extents.drop_last()) + (extents.last().1 - extents.last().0)
    }
}

/// Some byte of `[offset, offset + len)` is data.
pub open spec fn range_overlaps(extents: Seq<(u64, u64)>, offset: int, len: int) -> bool {
    exists|byte: int| offset <= byte < offset + len && #[trigger] covers(extents, byte)
}

/// The extents before `idx` end at or before `offset`, those from `idx` on end after it.
pub open spec fn splits_at(extents: Seq<(u64, u64)>, offset: u64, idx: int) -> bool {
    &&& 0 <= idx <= extents.len()
    &&& forall|i: int| 0 <= i < idx ==> (#[trigger] extents[i]).1 <= offset
    &&& forall|i: int| idx <= i < extents.len() ==> offset < (#[trigger] extents[i]).1
}

/// A sorted, non-overlapping set of `[start, end)` byte ranges that contain
/// data. Any offset not covered by an extent is a hole (reads back as zeroes).
#[derive(Debug)]
pub struct DataMap {
    pub extents: Vec<(u64, u64)>,
}

impl View for DataMap {
    type V = Seq<(u64, u64)>;

    open spec fn view(&self) -> Seq<(u64, u64)> {
        self.extents@
    }
}

impl Clone for DataMap {
    fn clone(&self) -> (copy: Self)
        ensures
            copy@ == self@,
    {
        let mut extents: Vec<(u64, u64)> = Vec::with_capacity(self.extents.len());
        let mut i: usize = 0;
        while i < self.extents.len()
            invariant
                i <= self@.len(),
                extents@ == self@.take(i as int),
            decreases self@.len() - i,
        {
            extents.push(self.extents[i]);
            i = i + 1;
        }
        DataMap { extents }
    }
}

impl DataMap {
    /// The extents are what the type promises: non-empty, sorted, not overlapping.
    pub open spec fn wf(self) -> bool {
        well_formed(self@)
    }

    /// Treat the entire file as data, so no block is skipped as a hole.
    pub fn full(size: u64) -> (map: Self)
        ensures
            map.wf(),
            within(map@, size as int),
            size == 0 ==> map@ == Seq::<(u64, u64)>::empty(),
            size != 0 ==> map@ == seq![(0u64, size)],
            forall|byte: int| #[trigger] covers(map@, byte) <==> 0 <= byte < size,
            forall|offset: int, len: int|
                0 <= offset ==> #[trigger] range_overlaps(map@, offset, len) == (len > 0 && offset
                    < size),
            total_length(map@) == size,
    {
        let map: DataMap = DataMap {
            extents: if size == 0 {
                Vec::new()
            } else {
                vec![(0, size)]
            },
        };
        proof {
            reveal_with_fuel(total_length, 2);
            if size != 0 {
                assert(map@ =~= seq![(0u64, size)]);
                assert(map@[0] == (0u64, size));
            }
            assert forall|offset: int, len: int| 0 <= offset implies #[trigger] range_overlaps(
                map@,
                offset,
                len,
            ) == (len > 0 && offset < size) by {
                if len > 0 && offset < size {
                    assert(covers(map@, offset));
                }
            }
        }
        map
    }

    /// The data extents, in the order of the file.
    pub fn extents(&self) -> (extents: &[(u64, u64)])
        ensures
            extents@ == self@,
    {
        self.extents.as_slice()
    }

    /// Returns `true` if `[offset, offset + len)` overlaps any data extent.
    ///
    /// Where the extents are not sorted by their ends, the answer is not determined.
    pub fn range_has_data(&self, offset: u64, len: u64) -> (answer: bool)
        ensures
            self.wf() ==> answer == range_overlaps(self@, offset as int, len as int),
            len == 0 ==> !answer,
            (forall|i: int| 0 <= i < self@.len() ==> (#[trigger] self@[i]).0 < self@[i].1) && (forall|
                i: int,
                j: int,
            |
                0 <= i < j < self@.len() ==> (#[trigger] self@[i]).1 <= (#[trigger] self@[j]).0)
                ==> (answer <==> len > 0 && exists|i: int|
                0 <= i < self@.len() && (#[trigger] self@[i]).0 < offset + len && offset
                    < self@[i].1),
            forall|idx: int| #[trigger]
                splits_at(self@, offset, idx) ==> answer == (len != 0 && idx < self@.len()
                    && self@[idx].0 < u64::MAX && self@[idx].0 < offset + len),
    {
        if len == 0 {
            return false;
        }
        let end: u64 = offset.saturating_add(len);
        // Only the first extent ending after `offset` can overlap.
        let idx: usize = self.first_ending_after(offset);
        let answer: bool = if idx < self.extents.len() {
            self.extents[idx].0 < end
        } else {
            false
        };
        proof {
            if self.wf() {
                lemma_first_extent_decides(self@, offset, len, idx as int);
                range_has_data_where_an_extent_meets_it(self@, offset as int, len as int);
            }
        }
        answer
    }

    /// Number of extents that end at or before `offset`, where these come first.
    fn first_ending_after(&self, offset: u64) -> (idx: usize)
        ensures
            idx <= self@.len(),
            forall|k: int| #[trigger] splits_at(self@, offset, k) ==> k == idx,
            self.wf() ==> splits_at(self@, offset, idx as int),
    {
        let mut low: usize = 0;
        let mut high: usize = self.extents.len();
        while low < high
            invariant
                low <= high <= self@.len(),
                forall|k: int| #[trigger] splits_at(self@, offset, k) ==> low <= k <= high,
                self.wf() ==> forall|i: int| 0 <= i < low ==> (#[trigger] self@[i]).1 <= offset,
                self.wf() ==> forall|i: int|
                    high <= i < self@.len() ==> offset < (#[trigger] self@[i]).1,
            decreases high - low,
        {
            let mid: usize = low + (high - low) / 2;
            if self.extents[mid].1 <= offset {
                low = mid + 1;
            } else {
                high = mid;
            }
        }
        low
    }

    /// Number of data extents in the map (for logging/diagnostics).
    pub fn extent_count(&self) -> (count: usize)
        ensures
            count == self@.len(),
    {
        self.extents.len()
    }

    /// Total number of bytes that contain data across all extents.
    pub fn data_bytes(&self) -> (bytes: u64)
        requires
            self.wf() || (forward(self@) && total_length(self@) <= u64::MAX),
        ensures
            bytes == total_length(self@),
    {
        proof {
            if self.wf() {
                lemma_total_length_bounded(self@);
            }
            assert(self@.take(0) =~= Seq::<(u64, u64)>::empty());
        }
        let mut bytes: u64 = 0;
        let mut i: usize = 0;
        while i < self.extents.len()
            invariant
                0 <= i <= self@.len(),
                forward(self@),
                total_length(self@) <= u64::MAX,
                bytes == total_length(self@.take(i as int)),
            decreases self@.len() - i,
        {
            proof {
                assert(self@.take(i + 1).drop_last() =~= self@.take(i as int));
                lemma_total_length_prefix(self@, i + 1);
            }
            bytes = bytes + (self.extents[i].1 - self.extents[i].0);
            i = i + 1;
        }
        proof {
            assert(self@.take(i as int) =~= self@);
        }
        bytes
    }
}

/// Of a well-formed map, only the first extent that ends after `offset` decides whether a
/// range from `offset` on holds data.
proof fn lemma_first_extent_decides(extents: Seq<(u64, u64)>, offset: u64, len: u64, idx: int)
    requires
        well_formed(extents),
        splits_at(extents, offset, idx),
        len > 0,
    ensures
        range_overlaps(extents, offset as int, len as int) == (idx < extents.len()
            && extents[idx].0 < offset + len),
{
    if idx < extents.len() && extents[idx].0 < offset + len {
        let byte: int = if extents[idx].0 < offset {
            offset as int
        } else {
            extents[idx].0 as int
        };
        assert(covers(extents, byte));
    }
    if range_overlaps(extents, offset as int, len as int) {
        let byte = choose|byte: int|
            offset <= byte < offset + len && #[trigger] covers(extents, byte);
        let i = choose|i: int|
            0 <= i < extents.len() && (#[trigger] extents[i]).0 <= byte < extents[i].1;
        assert(idx <= i);
        if idx < i {
            assert(extents[idx].1 <= extents[i].0);
        }
    }
}

/// A byte is covered by an extended list of extents if it was before or lies in the new extent;
/// no extents cover nothing.
pub proof fn an_extent_covers_its_bytes(extents: Seq<(u64, u64)>, extent: (u64, u64), byte: int)
    ensures
        !covers(Seq::empty(), byte),
        covers(extents.push(extent), byte) <==> covers(extents, byte) || extent.0 <= byte
            < extent.1,
{
    let all = extents.push(extent);
    if covers(extents, byte) {
        let i = choose|i: int|
            0 <= i < extents.len() && (#[trigger] extents[i]).0 <= byte < extents[i].1;
        assert(all[i] == extents[i]);
    }
    if extent.0 <= byte < extent.1 {
        assert(all[extents.len() as int] == extent);
    }
    if covers(all, byte) {
        let i = choose|i: int| 0 <= i < all.len() && (#[trigger] all[i]).0 <= byte < all[i].1;
        if i < extents.len() {
            assert(extents[i] == all[i]);
        }
    }
}

/// A range holds data exactly if it is not empty and some extent with a byte in it starts before
/// the range ends and ends after the range starts.
pub proof fn range_has_data_where_an_extent_meets_it(
    extents: Seq<(u64, u64)>,
    offset: int,
    len: int,
)
    ensures
        range_overlaps(extents, offset, len) <==> len > 0 && exists|i: int|
            0 <= i < extents.len() && (#[trigger] extents[i]).0 < extents[i].1 && extents[i].0
                < offset + len && offset < extents[i].1,
{
    if range_overlaps(extents, offset, len) {
        let byte = choose|byte: int|
            offset <= byte < offset + len && #[trigger] covers(extents, byte);
        let i = choose|i: int|
            0 <= i < extents.len() && (#[trigger] extents[i]).0 <= byte < extents[i].1;
        assert(extents[i].0 < offset + len);
    }
    if len > 0 && exists|i: int|
        0 <= i < extents.len() && (#[trigger] extents[i]).0 < extents[i].1 && extents[i].0 < offset
            + len && offset < extents[i].1 {
        let i = choose|i: int|
            0 <= i < extents.len() && (#[trigger] extents[i]).0 < extents[i].1 && extents[i].0
                < offset + len && offset < extents[i].1;
        let byte: int = if extents[i].0 < offset {
            offset
        } else {
            extents[i].0 as int
        };
        assert(covers(extents, byte));
    }
}

/// A range holds data exactly if one of its two parts does, wherever it is cut.
pub proof fn range_has_data_where_a_part_has(
    extents: Seq<(u64, u64)>,
    offset: int,
    first: int,
    second: int,
)
    requires
        0 <= first,
        0 <= second,
    ensures
        range_overlaps(extents, offset, first + second) <==> range_overlaps(extents, offset, first)
            || range_overlaps(extents, offset + first, second),
{
    if range_overlaps(extents, offset, first + second) {
        let byte = choose|byte: int|
            offset <= byte < offset + (first + second) && #[trigger] covers(extents, byte);
        assert(covers(extents, byte));
    }
}

/// What makes extents good is kept by one more exactly if that one is good and lies behind them.
pub proof fn good_extents_grow_at_the_end(
    extents: Seq<(u64, u64)>,
    extent: (u64, u64),
    size: int,
)
    ensures
        forward(Seq::empty()) && well_formed(Seq::empty()) && separated(Seq::empty()) && within(
            Seq::empty(),
            size,
        ),
        forward(extents.push(extent)) <==> forward(extents) && extent.0 <= extent.1,
        well_formed(extents.push(extent)) <==> well_formed(extents) && extent.0 < extent.1 && (
        extents.len() > 0 ==> extents.last().1 <= extent.0),
        separated(extents.push(extent)) <==> separated(extents) && forall|i: int|
            0 <= i < extents.len() ==> (#[trigger] extents[i]).1 < extent.0,
        within(extents.push(extent), size) <==> within(extents, size) && extent.1 <= size,
{
    let n = extents.len() as int;
    let all = extents.push(extent);
    assert(all[n] == extent);
    assert(forall|i: int| 0 <= i < n ==> #[trigger] extents[i] == all[i]);
    assert(forall|i: int| 0 <= i < n ==> #[trigger] all[i] == extents[i]);
    if well_formed(extents) && extent.0 < extent.1 && (n > 0 ==> extents.last().1 <= extent.0) {
        assert forall|i: int, j: int| 0 <= i < j < all.len() implies (#[trigger] all[i]).1 <= (
        #[trigger] all[j]).0 by {
            if j == n && i < n - 1 {
                assert(extents[i].1 <= extents[n - 1].0);
            }
        }
    }
    if well_formed(all) && n > 0 {
        assert(all[n - 1].1 <= all[n].0);
    }
}

/// The point that splits extents is any up to which all end by `offset` and from which on none
/// does.
pub proof fn splitting_point_is_recognised(extents: Seq<(u64, u64)>, offset: u64, idx: int)
    requires
        0 <= idx <= extents.len(),
        forall|i: int|
            0 <= i < extents.len() ==> (i < idx <==> (#[trigger] extents[i]).1 <= offset),
    ensures
        splits_at(extents, offset, idx),
{
}

/// The length of one extent is the distance from its start to its end, and the lengths of two
/// lists of extents add up.
pub proof fn lengths_add_up(a: Seq<(u64, u64)>, b: Seq<(u64, u64)>, extent: (u64, u64))
    ensures
        total_length(seq![extent]) == extent.1 - extent.0,
        total_length(a + b) == total_length(a) + total_length(b),
    decreases b.len(),
{
    assert(seq![extent].drop_last() =~= Seq::<(u64, u64)>::empty());
    assert(total_length(seq![extent].drop_last()) == 0);
    if b.len() == 0 {
        assert(a + b =~= a);
    } else {
        lengths_add_up(a, b.drop_last(), extent);
        assert((a + b).drop_last() =~= a + b.drop_last());
    }
}

/// The first extents of a map are not longer together than all of them.
proof fn lemma_total_length_prefix(extents: Seq<(u64, u64)>, n: int)
    requires
        forward(extents),
        0 <= n <= extents.len(),
    ensures
        0 <= total_length(extents.take(n)) <= total_length(extents),
    decreases extents.len(),
{
    if n == extents.len() {
        assert(extents.take(n) =~= extents);
        if extents.len() > 0 {
            lemma_total_length_prefix(extents.drop_last(), n - 1);
        }
    } else {
        lemma_total_length_prefix(extents.drop_last(), n);
        assert(extents.drop_last().take(n) =~= extents.take(n));
    }
}

/// Together the extents of a well-formed map are not longer than the end of the last one.
proof fn lemma_total_length_bounded(extents: Seq<(u64, u64)>)
    requires
        well_formed(extents),
    ensures
        forward(extents),
        0 <= total_length(extents),
        extents.len() > 0 ==> total_length(extents) <= extents.last().1,
        total_length(extents) <= u64::MAX,
    decreases extents.len(),
{
    if extents.len() > 0 {
        lemma_total_length_bounded(extents.drop_last());
    }
}

/// Together the extents of a well-formed map inside a file are not longer than the file.
pub proof fn total_length_fits_the_file(extents: Seq<(u64, u64)>, size: u64)
    requires
        well_formed(extents),
        within(extents, size as int),
    ensures
        0 <= total_length(extents) <= size,
{
    lemma_total_length_bounded(extents);
}

/// Together the extents of a well-formed map are as long as there are data bytes.
pub proof fn total_length_counts_data_bytes(extents: Seq<(u64, u64)>)
    requires
        well_formed(extents),
    ensures
        covered_bytes(extents).finite(),
        covered_bytes(extents).len() == total_length(extents),
    decreases extents.len(),
{
    if extents.len() == 0 {
        assert(covered_bytes(extents) =~= Set::empty());
    } else {
        let before = extents.drop_last();
        let extent = extents.last();
        let last_bytes = set_int_range(extent.0 as int, extent.1 as int);
        total_length_counts_data_bytes(before);
        lemma_int_range(extent.0 as int, extent.1 as int);
        assert forall|byte: int| covers(extents, byte) == (covers(before, byte)
            || last_bytes.contains(byte)) by {
            if covers(before, byte) {
                let i = choose|i: int|
                    0 <= i < before.len() && (#[trigger] before[i]).0 <= byte < before[i].1;
                assert(extents[i] == before[i]);
            }
            if last_bytes.contains(byte) {
                assert(extents[extents.len() - 1] == extent);
            }
            if covers(extents, byte) && !last_bytes.contains(byte) {
                let i = choose|i: int|
                    0 <= i < extents.len() && (#[trigger] extents[i]).0 <= byte < extents[i].1;
                assert(before[i] == extents[i]);
            }
        }
        assert(covered_bytes(extents) =~= covered_bytes(before).union(last_bytes));
        assert(covered_bytes(before).disjoint(last_bytes)) by {
            assert forall|byte: int| covers(before, byte) implies !last_bytes.contains(byte) by {
                let i = choose|i: int|
                    0 <= i < before.len() && (#[trigger] before[i]).0 <= byte < before[i].1;
                assert(extents[i].1 <= extents[extents.len() - 1].0);
            }
        }
        lemma_set_disjoint_lens(covered_bytes(before), last_bytes);
    }
}

} // verus!
