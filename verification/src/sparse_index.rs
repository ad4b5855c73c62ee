//! The sparse index of one segment.
//!
//! For some of a segment's records the index holds where in the file they
//! start. An entry is due for the first record and then whenever `interval`
//! bytes have gone by since the last one. On disk an entry is eight bytes: the
//! offset relative to the segment's base, and the file position, both
//! big-endian.
use vstd::prelude::*;

use crate::wire;

verus! {

broadcast use wire::group_lengths;

/// The bytes of one entry on disk.
pub const ENTRY_SIZE: usize = 8;

/// One entry: the record with this relative offset starts at this position.
#[derive(Clone, Copy, Debug, PartialEq, Eq, Structural)]
pub struct IndexEntry {
    /// The record's offset, less the segment's base offset.
    pub relative_offset: u32,
    /// Where the record starts in the segment's file.
    pub file_position: u32,
}

/// The index of one segment.
#[derive(Debug)]
pub struct SparseIndex {
    base_offset: u64,
    entries: Vec<IndexEntry>,
    bytes_since_last_entry: u64,
    interval: u64,
}

/// An index as a value.
#[verifier::ext_equal]
pub struct IndexView {
    /// The segment's base offset.
    pub base_offset: u64,
    /// The entries, oldest first.
    pub entries: Seq<IndexEntry>,
    /// How many bytes of records came since the last entry, that entry's own
    /// record among them.
    pub bytes_since_last_entry: u64,
    /// After how many bytes the next entry is due.
    pub interval: u64,
}

impl View for SparseIndex {
    type V = IndexView;

    closed spec fn view(&self) -> IndexView {
        IndexView {
            base_offset: self.base_offset,
            entries: self.entries@,
            bytes_since_last_entry: self.bytes_since_last_entry,
            interval: self.interval,
        }
    }
}

/// One entry on disk.
pub open spec fn entry_bytes(entry: IndexEntry) -> Seq<u8> {
    wire::be32(entry.relative_offset) + wire::be32(entry.file_position)
}

/// Entries on disk, one behind the other.
pub open spec fn entries_bytes(entries: Seq<IndexEntry>) -> Seq<u8>
    decreases entries.len(),
{
    if entries.len() == 0 {
        Seq::empty()
    } else {
        entries_bytes(entries.drop_last()) + entry_bytes(entries.last())
    }
}

/// The entry whose bytes stand at `i` entries from the front.
pub open spec fn entry_at(bytes: Seq<u8>, i: int) -> IndexEntry {
    IndexEntry {
        relative_offset: wire::from_be32(bytes.subrange(8 * i, 8 * i + 4)),
        file_position: wire::from_be32(bytes.subrange(8 * i + 4, 8 * i + 8)),
    }
}

/// The entries that an index file holds; bytes that do not make up an entry at
/// its end count for nothing.
pub open spec fn parse_entries(bytes: Seq<u8>) -> Seq<IndexEntry> {
    Seq::new((bytes.len() / 8) as nat, |i: int| entry_at(bytes, i))
}

impl IndexView {
    /// Whether the entries are in order of offset.
    pub open spec fn sorted(self) -> bool {
        forall|i: int, j: int|
            0 <= i < j < self.entries.len() ==> self.entries[i].relative_offset
                <= self.entries[j].relative_offset
    }

    /// Whether every entry names an offset that exists.
    pub open spec fn addressable(self) -> bool {
        forall|i: int|
            0 <= i < self.entries.len() ==> self.base_offset
                + #[trigger] self.entries[i].relative_offset <= u64::MAX
    }

    /// Whether the next record gets an entry.
    pub open spec fn entry_due(self) -> bool {
        self.entries.len() == 0 || self.bytes_since_last_entry >= self.interval
    }

    /// Whether an entry for this record can be written down.
    pub open spec fn indexable(self, offset: u64, file_position: u64) -> bool {
        self.base_offset <= offset && offset - self.base_offset <= u32::MAX && file_position
            <= u32::MAX
    }

    /// Whether the next record can be tracked: where it gets an entry, the
    /// entry can be written down.
    pub open spec fn can_track(self, offset: u64, file_position: u64) -> bool {
        self.entry_due() ==> self.indexable(offset, file_position)
    }

    /// The entry for a record.
    pub open spec fn entry_for(self, offset: u64, file_position: u64) -> IndexEntry {
        IndexEntry {
            relative_offset: (offset - self.base_offset) as u32,
            file_position: file_position as u32,
        }
    }

    /// What the next record adds to the index file.
    pub open spec fn pending_bytes(self, offset: u64, file_position: u64) -> Seq<u8> {
        if self.entry_due() {
            entry_bytes(self.entry_for(offset, file_position))
        } else {
            Seq::empty()
        }
    }

    /// The index once a record has been tracked.
    pub open spec fn after_track(self, offset: u64, file_position: u64, size: nat) -> Self {
        if self.entry_due() {
            IndexView {
                base_offset: self.base_offset,
                entries: self.entries.push(self.entry_for(offset, file_position)),
                bytes_since_last_entry: size as u64,
                interval: self.interval,
            }
        } else {
            IndexView {
                base_offset: self.base_offset,
                entries: self.entries,
                bytes_since_last_entry: (self.bytes_since_last_entry + size) as u64,
                interval: self.interval,
            }
        }
    }

    /// The index with its first `n` entries alone, `bytes` bytes of records
    /// behind the last of them.
    pub open spec fn after_truncate(self, n: nat, bytes: u64) -> Self {
        IndexView {
            base_offset: self.base_offset,
            entries: self.entries.take(n as int),
            bytes_since_last_entry: bytes,
            interval: self.interval,
        }
    }

    /// How many entries are for records at or before `offset`, in an index in
    /// order.
    pub open spec fn entries_up_to(self, offset: u64, n: int) -> bool {
        &&& 0 <= n <= self.entries.len()
        &&& forall|i: int|
            0 <= i < n ==> self.base_offset + #[trigger] self.entries[i].relative_offset <= offset
        &&& forall|i: int|
            n <= i < self.entries.len() ==> self.base_offset
                + #[trigger] self.entries[i].relative_offset > offset
    }

    /// Whether `start` is where the search for a record starts: behind the
    /// entries up to the record, in an index in order. In one that is not, it
    /// is the position of some entry or the start of the segment.
    pub open spec fn search_start(self, offset: u64, start: (u64, u64)) -> bool {
        &&& self.sorted() ==> exists|n: int|
            #[trigger] self.entries_up_to(offset, n) && start == self.start_behind(n)
        &&& exists|n: int|
            0 <= n <= self.entries.len() && start == #[trigger] self.start_behind(n)
    }

    /// Where the search for a record starts, and at which offset, if `n`
    /// entries are for records at or before it.
    pub open spec fn start_behind(self, n: int) -> (u64, u64) {
        if n == 0 {
            (0, self.base_offset)
        } else {
            let entry = self.entries[n - 1];
            (entry.file_position as u64, (self.base_offset + entry.relative_offset) as u64)
        }
    }
}

/// An index file gives back the entries that were written to it, and a torn
/// entry at its end changes nothing.
pub proof fn law_parse_inverts_write(entries: Seq<IndexEntry>, torn: Seq<u8>)
    requires
        torn.len() < ENTRY_SIZE,
    ensures
        parse_entries(entries_bytes(entries) + torn) == entries,
        entries_bytes(entries).len() == 8 * entries.len(),
    decreases entries.len(),
{
    let bytes = entries_bytes(entries);
    if entries.len() > 0 {
        let init = entries.drop_last();
        let last = entries.last();
        let n = init.len() as int;
        law_parse_inverts_write(init, Seq::empty());
        let init_bytes = entries_bytes(init);
        assert(init_bytes + Seq::<u8>::empty() =~= init_bytes);
        assert forall|i: int| 0 <= i < entries.len() implies entry_at(bytes + torn, i)
            == entries[i] by {
            if i < n {
                assert((bytes + torn).subrange(8 * i, 8 * i + 4) =~= init_bytes.subrange(
                    8 * i,
                    8 * i + 4,
                ));
                assert((bytes + torn).subrange(8 * i + 4, 8 * i + 8) =~= init_bytes.subrange(
                    8 * i + 4,
                    8 * i + 8,
                ));
                assert(parse_entries(init_bytes)[i] == init[i]);
            } else {
                assert((bytes + torn).subrange(8 * i, 8 * i + 4) =~= wire::be32(
                    last.relative_offset,
                ));
                assert((bytes + torn).subrange(8 * i + 4, 8 * i + 8) =~= wire::be32(
                    last.file_position,
                ));
                wire::lemma_be32_round_trip(last.relative_offset);
                wire::lemma_be32_round_trip(last.file_position);
            }
        }
    }
    assert(parse_entries(bytes + torn) =~= entries);
}

/// Tracking a record writes to the file what it adds to the index.
pub proof fn law_track_matches_file(index: IndexView, offset: u64, file_position: u64, size: nat)
    ensures
        entries_bytes(index.after_track(offset, file_position, size).entries) == entries_bytes(
            index.entries,
        ) + index.pending_bytes(offset, file_position),
{
    let entries = index.after_track(offset, file_position, size).entries;
    if index.entry_due() {
        assert(entries.drop_last() =~= index.entries);
    } else {
        assert(entries_bytes(index.entries) + Seq::<u8>::empty() =~= entries_bytes(index.entries));
    }
}

impl SparseIndex {
    /// The index of a new segment.
    pub fn create(base_offset: u64, interval: u64) -> (index: Self)
        ensures
            index@ == (IndexView {
                base_offset,
                entries: Seq::empty(),
                bytes_since_last_entry: 0,
                interval,
            }),
    {
        SparseIndex { base_offset, entries: Vec::new(), bytes_since_last_entry: 0, interval }
    }

    /// The index that a file holds.
    pub fn open(base_offset: u64, interval: u64, bytes: &[u8]) -> (index: Self)
        ensures
            index@ == (IndexView {
                base_offset,
                entries: parse_entries(bytes@),
                bytes_since_last_entry: 0,
                interval,
            }),
    {
        let mut entries: Vec<IndexEntry> = Vec::new();
        let count: usize = bytes.len() / ENTRY_SIZE;
        let mut i: usize = 0;
        while i < count
            invariant
                i <= count,
                count == bytes@.len() / 8,
                bytes@.len() <= usize::MAX,
                entries@.len() == i,
                forall|j: int| 0 <= j < i ==> entries@[j] == entry_at(bytes@, j),
            decreases count - i,
        {
            let at: usize = ENTRY_SIZE * i;
            entries.push(
                IndexEntry {
                    relative_offset: wire::read_be32(bytes, at),
                    file_position: wire::read_be32(bytes, at + 4),
                },
            );
            i = i + 1;
        }
        assert(entries@ =~= parse_entries(bytes@));
        SparseIndex { base_offset, entries, bytes_since_last_entry: 0, interval }
    }

    /// The segment's base offset.
    pub fn base_offset(&self) -> (base_offset: u64)
        ensures
            base_offset == self@.base_offset,
    {
        self.base_offset
    }

    /// After how many bytes the next entry is due.
    pub fn interval(&self) -> (interval: u64)
        ensures
            interval == self@.interval,
    {
        self.interval
    }

    /// The number of entries.
    pub fn len(&self) -> (len: usize)
        ensures
            len == self@.entries.len(),
    {
        self.entries.len()
    }

    /// How many bytes of records came since the last entry.
    pub fn bytes_since_last_entry(&self) -> (bytes: u64)
        ensures
            bytes == self@.bytes_since_last_entry,
    {
        self.bytes_since_last_entry
    }

    /// Whether there are no entries.
    pub fn is_empty(&self) -> (empty: bool)
        ensures
            empty == (self@.entries.len() == 0),
    {
        self.entries.len() == 0
    }

    /// Whether every entry names an offset that exists. Only an index file
    /// that nothing here wrote can hold another.
    pub fn is_addressable(&self) -> (addressable: bool)
        ensures
            addressable == self@.addressable(),
    {
        let mut i: usize = 0;
        while i < self.entries.len()
            invariant
                i <= self.entries@.len(),
                forall|j: int|
                    0 <= j < i ==> self.base_offset + #[trigger] self.entries@[j].relative_offset
                        <= u64::MAX,
            decreases self.entries@.len() - i,
        {
            if self.entries[i].relative_offset as u64 > u64::MAX - self.base_offset {
                assert(self@.base_offset + self@.entries[i as int].relative_offset > u64::MAX);
                return false;
            }
            i = i + 1;
        }
        true
    }

    /// Whether the next record can be tracked: an entry that is due but whose
    /// offset or position does not fit cannot be.
    pub fn can_track(&self, offset: u64, file_position: u64) -> (trackable: bool)
        ensures
            trackable == self@.can_track(offset, file_position),
    {
        if self.entries.len() == 0 || self.bytes_since_last_entry >= self.interval {
            self.base_offset <= offset && offset - self.base_offset <= u32::MAX as u64
                && file_position <= u32::MAX as u64
        } else {
            true
        }
    }

    /// What to append to the index file for the next record, before it is
    /// tracked: one entry, or nothing.
    pub fn pending_entry(&self, offset: u64, file_position: u64) -> (bytes: Vec<u8>)
        requires
            self@.can_track(offset, file_position),
        ensures
            bytes@ == self@.pending_bytes(offset, file_position),
    {
        let mut bytes: Vec<u8> = Vec::new();
        if self.entries.len() == 0 || self.bytes_since_last_entry >= self.interval {
            wire::push_be32(&mut bytes, (offset - self.base_offset) as u32);
            wire::push_be32(&mut bytes, file_position as u32);
            assert(bytes@ =~= entry_bytes(self@.entry_for(offset, file_position)));
        }
        bytes
    }

    /// Tracks a record, its entry, where one is due, being on disk.
    pub fn track_append(&mut self, offset: u64, file_position: u64, record_size: usize)
        requires
            old(self)@.can_track(offset, file_position),
            old(self)@.bytes_since_last_entry + record_size <= u64::MAX,
        ensures
            final(self)@ == old(self)@.after_track(offset, file_position, record_size as nat),
    {
        if self.entries.len() == 0 || self.bytes_since_last_entry >= self.interval {
            self.entries.push(
                IndexEntry {
                    relative_offset: (offset - self.base_offset) as u32,
                    file_position: file_position as u32,
                },
            );
            self.bytes_since_last_entry = 0;
        }
        self.bytes_since_last_entry = self.bytes_since_last_entry + record_size as u64;
    }

    /// Takes back all entries but the first `len`, `bytes` bytes of records
    /// behind the last of those.
    pub fn truncate(&mut self, len: usize, bytes: u64)
        requires
            len <= old(self)@.entries.len(),
        ensures
            final(self)@ == old(self)@.after_truncate(len as nat, bytes),
    {
        self.entries.truncate(len);
        self.bytes_since_last_entry = bytes;
    }

    /// Where to start reading to find a record: the position of the closest
    /// entry at or before it, and that entry's offset; where there is none,
    /// the start of the segment.
    pub fn lookup(&self, offset: u64) -> (start: (u64, u64))
        requires
            self@.addressable(),
        ensures
            self@.search_start(offset, start),
    {
        let mut low: usize = 0;
        let mut high: usize = self.entries.len();
        while low < high
            invariant
                low <= high <= self.entries@.len(),
                self@.addressable(),
                self@.sorted() ==> forall|i: int|
                    0 <= i < low ==> self.base_offset + #[trigger] self.entries@[i].relative_offset
                        <= offset,
                self@.sorted() ==> forall|i: int|
                    high <= i < self.entries@.len() ==> self.base_offset
                        + #[trigger] self.entries@[i].relative_offset > offset,
            decreases high - low,
        {
            let middle: usize = low + (high - low) / 2;
            let entry: IndexEntry = self.entries[middle];
            assert(self@.entries[middle as int] == entry);
            if self.base_offset + entry.relative_offset as u64 <= offset {
                low = middle + 1;
            } else {
                high = middle;
            }
        }
        assert(self@.sorted() ==> self@.entries_up_to(offset, low as int));
        let start: (u64, u64) = if low == 0 {
            (0, self.base_offset)
        } else {
            let entry: IndexEntry = self.entries[low - 1];
            assert(self@.entries[low - 1] == entry);
            (entry.file_position as u64, self.base_offset + entry.relative_offset as u64)
        };
        assert(start == self@.start_behind(low as int));
        start
    }
}

/// In an index file every entry takes up eight bytes, big-endian: the offset
/// relative to the segment's base, and the position.
pub proof fn law_index_file_layout(entries: Seq<IndexEntry>, i: int)
    requires
        0 <= i < entries.len(),
    ensures
        ({
            let file = entries_bytes(entries);
            &&& file.len() == 8 * entries.len()
            &&& wire::from_be32(file.subrange(8 * i, 8 * i + 4)) == entries[i].relative_offset
            &&& wire::from_be32(file.subrange(8 * i + 4, 8 * i + 8)) == entries[i].file_position
        }),
{
    law_parse_inverts_write(entries, Seq::empty());
    let file = entries_bytes(entries);
    assert(file + Seq::<u8>::empty() =~= file);
    assert(parse_entries(file)[i] == entries[i]);
}

/// An index file gives as many entries as it has room for, each read off its
/// own eight bytes.
pub proof fn law_index_file_is_read_entry_by_entry(file: Seq<u8>, i: int)
    ensures
        8 * parse_entries(file).len() <= file.len() < 8 * parse_entries(file).len() + 8,
        0 <= i < parse_entries(file).len() ==> ({
            let entry = parse_entries(file)[i];
            &&& entry.relative_offset == wire::from_be32(file.subrange(8 * i, 8 * i + 4))
            &&& entry.file_position == wire::from_be32(file.subrange(8 * i + 4, 8 * i + 8))
        }),
{
}

/// The first record of a segment gets an entry, and then each record that has
/// at least the interval's bytes of records between it and the start of the last
/// one that got one. The entry says which record it is and where it starts; all
/// other entries stay.
pub proof fn law_entries_come_at_the_interval(
    index: IndexView,
    offset: u64,
    file_position: u64,
    size: nat,
)
    requires
        index.can_track(offset, file_position),
        index.bytes_since_last_entry + size <= u64::MAX,
    ensures
        ({
            let later = index.after_track(offset, file_position, size);
            let due = index.entries.len() == 0 || index.bytes_since_last_entry >= index.interval;
            &&& later.base_offset == index.base_offset
            &&& later.interval == index.interval
            &&& due ==> {
                &&& later.entries.len() == index.entries.len() + 1
                &&& later.entries.last().relative_offset == offset - index.base_offset
                &&& later.entries.last().file_position == file_position
                &&& later.entries.drop_last() == index.entries
                &&& later.bytes_since_last_entry == size
            }
            &&& !due ==> {
                &&& later.entries == index.entries
                &&& later.bytes_since_last_entry == index.bytes_since_last_entry + size
            }
        }),
{
    let later = index.after_track(offset, file_position, size);
    if index.entry_due() {
        assert(later.entries.drop_last() =~= index.entries);
    }
}

/// A record can be tracked unless it is to get an entry and is further than 32
/// bits reach from the segment's base, or from the start of its file.
pub proof fn law_records_that_can_be_tracked(index: IndexView, offset: u64, file_position: u64)
    ensures
        index.can_track(offset, file_position) <==> (index.entries.len() > 0
            && index.bytes_since_last_entry < index.interval) || (index.base_offset <= offset
            && offset <= index.base_offset + 0xffff_ffff && file_position <= 0xffff_ffff),
        index.addressable() <==> (forall|i: int|
            0 <= i < index.entries.len() ==> index.base_offset
                + #[trigger] index.entries[i].relative_offset <= 0xffff_ffff_ffff_ffff),
{
}

/// A search starts at the closest entry at or before the record, and so at the
/// segment's start only where no entry is at or before it.
pub proof fn law_search_starts_at_the_closest_entry(
    index: IndexView,
    offset: u64,
    start: (u64, u64),
    i: int,
)
    requires
        index.addressable(),
        forall|a: int, b: int|
            0 <= a < b < index.entries.len() ==> index.entries[a].relative_offset
                <= index.entries[b].relative_offset,
        index.search_start(offset, start),
        0 <= i < index.entries.len(),
    ensures
        ({
            let entry = index.entries[i];
            let of_entry = index.base_offset + entry.relative_offset;
            &&& of_entry <= offset ==> of_entry <= start.1 <= offset
            &&& of_entry > offset ==> start.1 <= of_entry
        }),
        start == (0u64, index.base_offset) || exists|n: int|
            0 <= n < index.entries.len() && start.0 == (
            #[trigger] index.entries[n]).file_position && start.1 == index.base_offset
                + index.entries[n].relative_offset,
        start != (0u64, index.base_offset) ==> index.base_offset <= start.1 <= offset,
{
    assert(index.sorted());
    let n = choose|n: int|
        #[trigger] index.entries_up_to(offset, n) && start == index.start_behind(n);
    if n > 0 {
        let closest = index.entries[n - 1];
        assert(index.base_offset + index.entries[n - 1].relative_offset <= offset);
        assert(start.0 == closest.file_position && start.1 == index.base_offset
            + closest.relative_offset);
    }
    assert(index.base_offset + index.entries[i].relative_offset <= u64::MAX);
    if i < n {
        assert(index.base_offset + index.entries[i].relative_offset <= offset);
    } else {
        assert(index.base_offset + index.entries[i].relative_offset > offset);
    }
}

/// In an index without entries a search starts at the segment's start.
pub proof fn law_search_without_entries_starts_at_the_front(
    index: IndexView,
    offset: u64,
    start: (u64, u64),
)
    requires
        index.entries.len() == 0,
        index.search_start(offset, start),
    ensures
        start == (0u64, index.base_offset),
{
    let n = choose|n: int|
        0 <= n <= index.entries.len() && start == #[trigger] index.start_behind(n);
}

/// Taking entries back leaves those before them as they were.
pub proof fn law_truncated_index_keeps_its_front(index: IndexView, n: nat, bytes: u64, i: int)
    requires
        n <= index.entries.len(),
    ensures
        index.after_truncate(n, bytes).entries.len() == n,
        0 <= i < n ==> index.after_truncate(n, bytes).entries[i] == index.entries[i],
        index.after_truncate(n, bytes).bytes_since_last_entry == bytes,
        index.after_truncate(n, bytes).base_offset == index.base_offset,
        index.after_truncate(n, bytes).interval == index.interval,
{
}

} // verus!
