//! The bookkeeping of one segment file.
//!
//! A [`Segment`] knows how long its file is and, where it is known, the
//! position the open file stands at, so that a seek to where the file already
//! stands can be left out. That is sound because a segment has one owner.
use vstd::prelude::*;

verus! {

/// One segment of the log: a file of records whose first has the offset
/// `base_offset`.
#[derive(Debug)]
pub struct Segment {
    base_offset: u64,
    size: u64,
    cursor: Option<u64>,
}

/// A segment as a value.
pub struct SegmentView {
    /// The offset of the segment's first record.
    pub base_offset: u64,
    /// The length of the segment's file.
    pub size: u64,
    /// Where the open file stands, if that is known.
    pub cursor: Option<u64>,
}

impl View for Segment {
    type V = SegmentView;

    closed spec fn view(&self) -> SegmentView {
        SegmentView { base_offset: self.base_offset, size: self.size, cursor: self.cursor }
    }
}

/// An open file: what it holds, and where it stands.
pub struct OpenFile {
    /// The contents.
    pub data: Seq<u8>,
    /// The position of the next read or write.
    pub position: nat,
}

impl OpenFile {
    /// The file after a seek.
    pub open spec fn seek(self, position: nat) -> Self {
        OpenFile { data: self.data, position }
    }

    /// The file after a write, which overwrites what stands there and makes
    /// the file longer where it goes past the end.
    pub open spec fn write(self, bytes: Seq<u8>) -> Self
        recommends
            self.position <= self.data.len(),
    {
        let end = self.position + bytes.len();
        OpenFile {
            data: self.data.take(self.position as int) + bytes + if end < self.data.len() {
                self.data.skip(end as int)
            } else {
                Seq::empty()
            },
            position: end,
        }
    }

    /// The file after a read of `n` bytes.
    pub open spec fn read(self, n: nat) -> Self {
        OpenFile { data: self.data, position: self.position + n }
    }

    /// The file after it was cut to `size` bytes; where it then stands depends
    /// on the platform.
    pub open spec fn cut(self, size: nat, position: nat) -> Self {
        OpenFile { data: self.data.take(size as int), position }
    }
}

impl SegmentView {
    /// Whether the bookkeeping is right about the file.
    pub open spec fn describes(self, file: OpenFile) -> bool {
        &&& self.size == file.data.len()
        &&& self.cursor matches Some(at) ==> at == file.position
    }

    /// Whether the file has to be moved before it is used at `position`.
    pub open spec fn needs_seek(self, position: u64) -> bool {
        self.cursor != Some(position)
    }

    /// The bookkeeping after a seek.
    pub open spec fn after_seek(self, position: u64) -> Self {
        SegmentView { cursor: Some(position), ..self }
    }

    /// The bookkeeping after `n` bytes were appended.
    pub open spec fn after_append(self, n: nat) -> Self {
        SegmentView {
            base_offset: self.base_offset,
            size: (self.size + n) as u64,
            cursor: Some((self.size + n) as u64),
        }
    }

    /// The bookkeeping after `n` bytes were read at `position`.
    pub open spec fn after_read(self, position: u64, n: nat) -> Self {
        SegmentView { cursor: Some((position + n) as u64), ..self }
    }

    /// The bookkeeping after the file was cut to `size` bytes.
    pub open spec fn after_truncate(self, size: u64) -> Self {
        SegmentView { base_offset: self.base_offset, size, cursor: None }
    }

    /// The file once a seek, where one is needed, has been done.
    pub open spec fn sought(self, file: OpenFile, position: u64) -> OpenFile {
        if self.needs_seek(position) {
            file.seek(position as nat)
        } else {
            file
        }
    }

    /// Whether `additional` more bytes would take the segment past
    /// `threshold`. A segment that holds nothing takes a record of any size.
    pub open spec fn would_overflow(self, additional: nat, threshold: u64) -> bool {
        self.size > 0 && self.size + additional > threshold
    }
}

/// Skipping needless seeks is sound: an append lands at the end of the file,
/// and the bookkeeping stays right about the file.
pub proof fn law_append_extends_file(segment: SegmentView, file: OpenFile, bytes: Seq<u8>)
    requires
        segment.describes(file),
        segment.size + bytes.len() <= u64::MAX,
    ensures
        ({
            let at_end = segment.sought(file, segment.size);
            let after = at_end.write(bytes);
            &&& at_end.position == file.data.len()
            &&& after.data == file.data + bytes
            &&& segment.after_append(bytes.len()).describes(after)
        }),
{
    let after = segment.sought(file, segment.size).write(bytes);
    assert(after.data =~= file.data + bytes);
}

/// Skipping needless seeks is sound: a read starts where it was asked to, and
/// the bookkeeping stays right about the file.
pub proof fn law_read_starts_at_position(
    segment: SegmentView,
    file: OpenFile,
    position: u64,
    n: nat,
)
    requires
        segment.describes(file),
        position + n <= file.data.len(),
    ensures
        ({
            let there = segment.sought(file, position);
            &&& there.position == position
            &&& there.data == file.data
            &&& segment.after_read(position, n).describes(there.read(n))
        }),
{
}

/// After a cut the bookkeeping is right about the file wherever the platform
/// left it standing.
pub proof fn law_truncate_keeps_bookkeeping(
    segment: SegmentView,
    file: OpenFile,
    size: u64,
    position: nat,
)
    requires
        segment.describes(file),
        size <= segment.size,
    ensures
        segment.after_truncate(size).describes(file.cut(size as nat, position)),
{
}

impl Segment {
    /// A new segment: its file has just been created.
    pub fn create(base_offset: u64) -> (segment: Self)
        ensures
            segment@ == (SegmentView { base_offset, size: 0, cursor: Some(0) }),
    {
        Segment { base_offset, size: 0, cursor: Some(0) }
    }

    /// A segment whose file, `size` bytes long, has just been opened.
    pub fn open(base_offset: u64, size: u64) -> (segment: Self)
        ensures
            segment@ == (SegmentView { base_offset, size, cursor: Some(0) }),
    {
        Segment { base_offset, size, cursor: Some(0) }
    }

    /// The offset of the segment's first record.
    pub fn base_offset(&self) -> (base_offset: u64)
        ensures
            base_offset == self@.base_offset,
    {
        self.base_offset
    }

    /// The length of the segment's file.
    pub fn size(&self) -> (size: u64)
        ensures
            size == self@.size,
    {
        self.size
    }

    /// Whether `additional` more bytes would take the segment past
    /// `threshold`. A segment that holds nothing takes a record of any size.
    pub fn would_overflow(&self, additional: usize, threshold: u64) -> (overflows: bool)
        ensures
            overflows == self@.would_overflow(additional as nat, threshold),
    {
        let additional: u64 = additional as u64;
        self.size > 0 && (additional > threshold || self.size > threshold - additional)
    }

    /// Whether the file has to be moved before it is used at `position`.
    pub fn needs_seek(&self, position: u64) -> (needed: bool)
        ensures
            needed == self@.needs_seek(position),
    {
        match self.cursor {
            Some(at) => at != position,
            None => true,
        }
    }

    /// Notes that the file was moved to `position`.
    pub fn seek_done(&mut self, position: u64)
        ensures
            final(self)@ == old(self)@.after_seek(position),
    {
        self.cursor = Some(position);
    }

    /// Notes that `n` bytes were appended, and returns where they start.
    pub fn append(&mut self, n: usize) -> (file_pos: u64)
        requires
            old(self)@.size + n <= u64::MAX,
        ensures
            file_pos == old(self)@.size,
            final(self)@ == old(self)@.after_append(n as nat),
    {
        let file_pos: u64 = self.size;
        let end: u64 = file_pos + n as u64;
        self.cursor = Some(end);
        self.size = end;
        file_pos
    }

    /// Notes that `n` bytes were read at `position`.
    pub fn read_at(&mut self, position: u64, n: usize)
        requires
            position + n <= u64::MAX,
        ensures
            final(self)@ == old(self)@.after_read(position, n as nat),
    {
        self.cursor = Some(position + n as u64);
    }

    /// Notes that the file was cut to `size` bytes.
    pub fn truncate(&mut self, size: u64)
        ensures
            final(self)@ == old(self)@.after_truncate(size),
    {
        self.size = size;
        self.cursor = None;
    }
}

/// A segment is full for some bytes if and only if it holds something already
/// and would be longer than the threshold with them; one that is empty takes
/// anything, of whatever length.
pub proof fn law_full_segment(segment: SegmentView, additional: nat, threshold: u64)
    ensures
        segment.size == 0 ==> !segment.would_overflow(additional, threshold),
        segment.size > 0 ==> (segment.would_overflow(additional, threshold) <==> segment.size
            + additional > threshold),
{
}

/// The bookkeeping is right about a file if it has its length, and where it says
/// that the file stands, the file stands; a seek can be left out just there.
pub proof fn law_bookkeeping_is_about_length_and_position(
    segment: SegmentView,
    file: OpenFile,
    position: u64,
)
    requires
        segment.describes(file),
    ensures
        segment.size == file.data.len(),
        !segment.needs_seek(position) ==> file.position == position,
        segment.cursor == Some(position) ==> !segment.needs_seek(position),
        segment.sought(file, position).position == position,
        segment.sought(file, position).data == file.data,
{
}

/// What each operation leaves of the bookkeeping: the base offset always, and
/// the length where nothing is written or cut.
pub proof fn law_operations_keep_what_they_do_not_touch(
    segment: SegmentView,
    position: u64,
    n: nat,
    size: u64,
)
    requires
        segment.size + n <= u64::MAX,
        position + n <= u64::MAX,
    ensures
        segment.after_seek(position) == (SegmentView { cursor: Some(position), ..segment }),
        segment.after_read(position, n).size == segment.size,
        segment.after_read(position, n).base_offset == segment.base_offset,
        segment.after_read(position, n).cursor == Some((position + n) as u64),
        segment.after_append(n).size == segment.size + n,
        segment.after_append(n).base_offset == segment.base_offset,
        segment.after_truncate(size).size == size,
        segment.after_truncate(size).base_offset == segment.base_offset,
        segment.after_truncate(size).cursor is None,
{
}

/// What a write leaves in a file: every byte in front of it and behind it, and
/// its own bytes.
pub proof fn law_write_changes_only_its_place(file: OpenFile, bytes: Seq<u8>, i: int)
    requires
        file.position <= file.data.len(),
    ensures
        ({
            let after = file.write(bytes);
            let end = file.position + bytes.len();
            &&& after.position == end
            &&& after.data.len() == if end < file.data.len() {
                file.data.len()
            } else {
                end
            }
            &&& file.position <= i < end ==> after.data[i] == bytes[i - file.position]
            &&& (0 <= i < file.position || end <= i < file.data.len()) ==> after.data[i]
                == file.data[i]
        }),
{
}

} // verus!
