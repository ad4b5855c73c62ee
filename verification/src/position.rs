//! Where a record sits in a topic.
use vstd::prelude::*;

verus! {

/// The address of one record: a partition and the record's offset in it.
#[derive(Clone, Copy, Debug, PartialEq, Eq, Hash, Structural)]
pub struct RecordPosition {
    partition: u32,
    offset: u64,
}

impl RecordPosition {
    /// The partition this position names.
    pub closed spec fn spec_partition(self) -> u32 {
        self.partition
    }

    /// The offset this position names.
    pub closed spec fn spec_offset(self) -> u64 {
        self.offset
    }

    /// A position is determined by its partition and its offset.
    pub proof fn law_fields_determine_position(a: Self, b: Self)
        ensures
            (a.spec_partition() == b.spec_partition() && a.spec_offset() == b.spec_offset())
                <==> a == b,
    {
    }

    /// Builds the position of the record at `offset` in `partition`.
    pub fn new(partition: u32, offset: u64) -> (position: Self)
        ensures
            position.spec_partition() == partition,
            position.spec_offset() == offset,
    {
        RecordPosition { partition, offset }
    }

    /// The partition the record is in.
    pub fn partition(&self) -> (partition: u32)
        ensures
            partition == self.spec_partition(),
    {
        self.partition
    }

    /// The record's offset within its partition.
    pub fn offset(&self) -> (offset: u64)
        ensures
            offset == self.spec_offset(),
    {
        self.offset
    }
}

} // verus!
