//! Records one behind the other: what a segment file holds.
use vstd::prelude::*;

use crate::compression::CodecSet;
use crate::error::KafkoError;
use crate::record;
use crate::record::Record;
use crate::sparse_index;
use crate::sparse_index::SparseIndex;
use crate::wire;

verus! {

broadcast use wire::group_lengths;

/// How many records can be read one after the other off the front of `data`.
pub open spec fn count(codecs: CodecSet, data: Seq<u8>) -> nat
    decreases data.len(),
{
    let parsed = record::parse(codecs, data);
    if parsed.outcome is Ok && 0 < parsed.consumed <= data.len() {
        1 + count(codecs, data.skip(parsed.consumed))
    } else {
        0
    }
}

/// Where the `n`th record from the front starts.
pub open spec fn position(codecs: CodecSet, data: Seq<u8>, n: nat) -> int
    decreases n,
{
    if n == 0 {
        0
    } else {
        let consumed = record::parse(codecs, data).consumed;
        consumed + position(codecs, data.skip(consumed), (n - 1) as nat)
    }
}

/// The `n`th record from the front.
pub open spec fn record_at(codecs: CodecSet, data: Seq<u8>, n: nat) -> record::RecordView {
    record::parse(codecs, data.skip(position(codecs, data, n))).outcome->Ok_0
}

/// Whether `data` is nothing but records, one behind the other.
pub open spec fn whole(codecs: CodecSet, data: Seq<u8>) -> bool
    decreases data.len(),
{
    data.len() == 0 || {
        let parsed = record::parse(codecs, data);
        &&& parsed.outcome is Ok
        &&& 0 < parsed.consumed <= data.len()
        &&& whole(codecs, data.skip(parsed.consumed))
    }
}

/// Whether an error means that a record was not completely written: recovery
/// cuts the file there.
pub open spec fn is_torn(e: KafkoError) -> bool {
    e is Truncated || e is CrcMismatch || e is InvalidLength
}

/// How much of `data` recovery keeps: the records up to the first one that was
/// not completely written. Any other error stops recovery.
pub open spec fn valid_prefix(codecs: CodecSet, data: Seq<u8>) -> Result<int, KafkoError>
    decreases data.len(),
{
    let parsed = record::parse(codecs, data);
    match parsed.outcome {
        Ok(_) => if 0 < parsed.consumed <= data.len() {
            match valid_prefix(codecs, data.skip(parsed.consumed)) {
                Ok(n) => Ok(parsed.consumed + n),
                Err(e) => Err(e),
            }
        } else {
            Ok(0)
        },
        Err(e) => if is_torn(e) {
            Ok(0)
        } else {
            Err(e)
        },
    }
}

/// The record with the offset `target`, if the first in `data` has the offset
/// `start`. The search ends without a find where the data ends, be it within a
/// record.
pub open spec fn find(codecs: CodecSet, data: Seq<u8>, start: int, target: int) -> Result<
    Option<record::RecordView>,
    KafkoError,
>
    decreases data.len(),
{
    let parsed = record::parse(codecs, data);
    match parsed.outcome {
        Ok(r) => if start == target {
            Ok(Some(r))
        } else if 0 < parsed.consumed <= data.len() {
            find(codecs, data.skip(parsed.consumed), start + 1, target)
        } else {
            Ok(None)
        },
        Err(e) => if e is Truncated {
            Ok(None)
        } else {
            Err(e)
        },
    }
}

/// What rebuilding an index from a segment's records comes to.
pub enum Replay {
    /// The index, and how many records there are.
    Done(sparse_index::IndexView, nat),
    /// A record cannot be read.
    Failed(KafkoError),
    /// An entry is due whose offset or position does not fit the index.
    IndexOverflow,
}

/// Tracks the records in `data`, of which the first is the `n`th of its
/// segment and starts at `file_pos`.
pub open spec fn replay(
    codecs: CodecSet,
    data: Seq<u8>,
    index: sparse_index::IndexView,
    file_pos: nat,
    n: nat,
) -> Replay
    decreases data.len(),
{
    let parsed = record::parse(codecs, data);
    if data.len() == 0 {
        Replay::Done(index, n)
    } else {
        match parsed.outcome {
            Err(e) => Replay::Failed(e),
            Ok(_) => {
                let offset = (index.base_offset + n) as u64;
                if !(0 < parsed.consumed <= data.len()) {
                    Replay::Done(index, n)
                } else if !index.can_track(offset, file_pos as u64) {
                    Replay::IndexOverflow
                } else {
                    replay(
                        codecs,
                        data.skip(parsed.consumed),
                        index.after_track(offset, file_pos as u64, parsed.consumed as nat),
                        (file_pos + parsed.consumed) as nat,
                        n + 1,
                    )
                }
            },
        }
    }
}

/// Why an index could not be rebuilt.
#[derive(Debug)]
pub enum RecoveryError {
    /// A record cannot be read.
    Record(KafkoError),
    /// An entry is due whose offset or position does not fit the index.
    IndexOverflow,
}

/// How much of a segment file recovery keeps. See [`valid_prefix`].
pub fn scan_for_last_valid_position(data: &[u8]) -> (kept: Result<u64, KafkoError>)
    ensures
        match kept {
            Ok(n) => valid_prefix(CodecSet::of_this_build(), data@) == Ok::<int, KafkoError>(
                n as int,
            ) && n <= data@.len(),
            Err(e) => valid_prefix(CodecSet::of_this_build(), data@) == Err::<int, KafkoError>(e),
        },
{
    let ghost codecs = CodecSet::of_this_build();
    let mut rest: &[u8] = data;
    let mut last_valid_pos: u64 = 0;
    let size: usize = data.len();
    assert(data@.skip(0) =~= data@);
    while rest.len() > 0
        invariant_except_break
            codecs == CodecSet::of_this_build(),
            size == data@.len(),
            last_valid_pos + rest@.len() == size,
            valid_prefix(codecs, data@) == (match valid_prefix(codecs, rest@) {
                Ok(n) => Ok::<int, KafkoError>(last_valid_pos + n),
                Err(e) => Err(e),
            }),
        ensures
            codecs == CodecSet::of_this_build(),
            last_valid_pos <= data@.len(),
            valid_prefix(codecs, data@) == Ok::<int, KafkoError>(last_valid_pos as int),
        decreases rest@.len(),
    {
        let start_len: usize = rest.len();
        proof {
            record::law_parse_within_input(codecs, rest@);
        }
        match Record::decode(&mut rest) {
            Ok(_) => {
                let consumed: u64 = (start_len - rest.len()) as u64;
                last_valid_pos = last_valid_pos + consumed;
            },
            Err(KafkoError::Truncated { .. })
            | Err(KafkoError::CrcMismatch { .. })
            | Err(KafkoError::InvalidLength(_)) => {
                break;
            },
            Err(e) => {
                return Err(e);
            },
        }
    }
    Ok(last_valid_pos)
}

/// The record with the offset `offset` in some bytes of a segment, of which
/// the first record has the offset `starting_offset`. See [`find`].
pub fn find_record(data: &[u8], starting_offset: u64, offset: u64) -> (found: Result<
    Option<Record>,
    KafkoError,
>)
    ensures
        found_as(
            find(CodecSet::of_this_build(), data@, starting_offset as int, offset as int),
            found,
        ),
{
    let ghost codecs = CodecSet::of_this_build();
    let mut rest: &[u8] = data;
    let mut current: u128 = starting_offset as u128;
    let size: usize = data.len();
    while rest.len() > 0
        invariant
            codecs == CodecSet::of_this_build(),
            size == data@.len(),
            rest@.len() <= size,
            current <= u64::MAX + (size - rest@.len()),
            find(codecs, data@, starting_offset as int, offset as int) == find(
                codecs,
                rest@,
                current as int,
                offset as int,
            ),
        decreases rest@.len(),
    {
        proof {
            record::law_parse_within_input(codecs, rest@);
        }
        match Record::decode(&mut rest) {
            Ok(r) => {
                if current == offset as u128 {
                    return Ok(Some(r));
                }
            },
            Err(KafkoError::Truncated { .. }) => {
                return Ok(None);
            },
            Err(e) => {
                return Err(e);
            },
        }
        current = current + 1;
    }
    Ok(None)
}

/// Whether a search returned what it should.
pub open spec fn found_as(
    expected: Result<Option<record::RecordView>, KafkoError>,
    found: Result<Option<Record>, KafkoError>,
) -> bool {
    match found {
        Ok(Some(r)) => expected == Ok::<Option<record::RecordView>, KafkoError>(Some(r@)),
        Ok(None) => expected == Ok::<Option<record::RecordView>, KafkoError>(None),
        Err(e) => expected == Err::<Option<record::RecordView>, KafkoError>(e),
    }
}

/// Rebuilds a segment's index from its records: fills the empty `index`, and
/// returns how many records there are and what the index file is to hold. See
/// [`replay`].
pub fn replay_records_to_index(data: &[u8], index: &mut SparseIndex) -> (result: Result<
    (u64, Vec<u8>),
    RecoveryError,
>)
    requires
        old(index)@.entries.len() == 0,
        old(index)@.bytes_since_last_entry == 0,
        old(index)@.base_offset + data@.len() <= u64::MAX,
    ensures
        match replay(CodecSet::of_this_build(), data@, old(index)@, 0, 0) {
            Replay::Done(rebuilt, n) => {
                &&& result matches Ok((records, file))
                &&& records == n
                &&& final(index)@ == rebuilt
                &&& file@ == sparse_index::entries_bytes(rebuilt.entries)
            },
            Replay::Failed(e) => result == Err::<(u64, Vec<u8>), RecoveryError>(
                RecoveryError::Record(e),
            ),
            Replay::IndexOverflow => result == Err::<(u64, Vec<u8>), RecoveryError>(
                RecoveryError::IndexOverflow,
            ),
        },
{
    let ghost codecs = CodecSet::of_this_build();
    let ghost empty = index@;
    let base_offset: u64 = index.base_offset();
    let mut file: Vec<u8> = Vec::new();
    let mut rest: &[u8] = data;
    let mut file_pos: u64 = 0;
    let mut records: u64 = 0;
    let size: usize = data.len();
    while rest.len() > 0
        invariant
            codecs == CodecSet::of_this_build(),
            empty == old(index)@,
            size == data@.len(),
            file_pos + rest@.len() == size,
            records <= file_pos,
            index@.base_offset == base_offset,
            base_offset + size <= u64::MAX,
            index@.bytes_since_last_entry <= file_pos,
            file@ == sparse_index::entries_bytes(index@.entries),
            replay(codecs, data@, empty, 0, 0) == replay(
                codecs,
                rest@,
                index@,
                file_pos as nat,
                records as nat,
            ),
        decreases rest@.len(),
    {
        let start_len: usize = rest.len();
        proof {
            record::law_parse_within_input(codecs, rest@);
        }
        match Record::decode(&mut rest) {
            Ok(_) => {},
            Err(e) => {
                return Err(RecoveryError::Record(e));
            },
        }
        let consumed: usize = start_len - rest.len();
        let offset: u64 = base_offset + records;
        if !index.can_track(offset, file_pos) {
            return Err(RecoveryError::IndexOverflow);
        }
        let mut entry: Vec<u8> = index.pending_entry(offset, file_pos);
        proof {
            sparse_index::law_track_matches_file(index@, offset, file_pos, consumed as nat);
        }
        file.append(&mut entry);
        index.track_append(offset, file_pos, consumed);
        file_pos = file_pos + consumed as u64;
        records = records + 1;
    }
    Ok((records, file))
}

/// Every record takes up room, and the records fit in the data.
pub proof fn lemma_position_bounds(codecs: CodecSet, data: Seq<u8>, n: nat)
    requires
        n <= count(codecs, data),
    ensures
        25 * n <= position(codecs, data, n) <= data.len(),
    decreases n,
{
    record::law_parse_within_input(codecs, data);
    if n > 0 {
        let consumed = record::parse(codecs, data).consumed;
        lemma_position_bounds(codecs, data.skip(consumed), (n - 1) as nat);
    }
}

/// Counting can pause behind any record.
pub proof fn lemma_split(codecs: CodecSet, data: Seq<u8>, a: nat, b: nat)
    requires
        a <= count(codecs, data),
    ensures
        ({
            let rest = data.skip(position(codecs, data, a));
            &&& count(codecs, data) == a + count(codecs, rest)
            &&& a + b <= count(codecs, data) ==> position(codecs, data, a + b) == position(
                codecs,
                data,
                a,
            ) + position(codecs, rest, b)
        }),
    decreases a,
{
    record::law_parse_within_input(codecs, data);
    if a == 0 {
        assert(data.skip(0) =~= data);
    } else {
        let consumed = record::parse(codecs, data).consumed;
        let behind = data.skip(consumed);
        lemma_split(codecs, behind, (a - 1) as nat, b);
        lemma_position_bounds(codecs, behind, (a - 1) as nat);
        assert(behind.skip(position(codecs, behind, (a - 1) as nat)) =~= data.skip(
            position(codecs, data, a),
        ));
    }
}

/// Where the data is nothing but records, the records reach to its end.
pub proof fn lemma_whole_ends_at_last_record(codecs: CodecSet, data: Seq<u8>)
    requires
        whole(codecs, data),
    ensures
        position(codecs, data, count(codecs, data)) == data.len(),
    decreases data.len(),
{
    if data.len() > 0 {
        let consumed = record::parse(codecs, data).consumed;
        lemma_whole_ends_at_last_record(codecs, data.skip(consumed));
    }
}

/// What stands behind whole records changes nothing about them, and adds its
/// own records to theirs.
pub proof fn lemma_extend(codecs: CodecSet, data: Seq<u8>, more: Seq<u8>)
    requires
        whole(codecs, data),
    ensures
        count(codecs, data + more) == count(codecs, data) + count(codecs, more),
        whole(codecs, more) ==> whole(codecs, data + more),
    decreases data.len(),
{
    if data.len() == 0 {
        assert(data + more =~= more);
    } else {
        let consumed = record::parse(codecs, data).consumed;
        record::law_parse_ignores_what_follows(codecs, data, more);
        lemma_extend(codecs, data.skip(consumed), more);
        assert((data + more).skip(consumed) =~= data.skip(consumed) + more);
    }
}

/// A record within whole records is the same record, at the same place,
/// whatever stands behind them.
pub proof fn lemma_extend_keeps_record(codecs: CodecSet, data: Seq<u8>, more: Seq<u8>, n: nat)
    requires
        whole(codecs, data),
        n <= count(codecs, data),
    ensures
        position(codecs, data + more, n) == position(codecs, data, n),
        n < count(codecs, data) ==> record_at(codecs, data + more, n) == record_at(
            codecs,
            data,
            n,
        ),
    decreases n,
{
    if n == 0 {
        assert(data.skip(0) =~= data);
        assert((data + more).skip(0) =~= data + more);
        if data.len() > 0 {
            record::law_parse_ignores_what_follows(codecs, data, more);
        }
    } else {
        let consumed = record::parse(codecs, data).consumed;
        let behind = data.skip(consumed);
        record::law_parse_within_input(codecs, data);
        record::law_parse_ignores_what_follows(codecs, data, more);
        lemma_extend_keeps_record(codecs, behind, more, (n - 1) as nat);
        assert((data + more).skip(consumed) =~= behind + more);
        lemma_position_bounds(codecs, behind, (n - 1) as nat);
        let at = position(codecs, behind, (n - 1) as nat);
        assert(behind.skip(at) =~= data.skip(consumed + at));
        assert((behind + more).skip(at) =~= (data + more).skip(consumed + at));
    }
}

/// The records behind whole records follow them in order.
pub proof fn lemma_extend_appends_record(codecs: CodecSet, data: Seq<u8>, more: Seq<u8>, n: nat)
    requires
        whole(codecs, data),
        n < count(codecs, more),
    ensures
        position(codecs, data + more, count(codecs, data) + n) == data.len() + position(
            codecs,
            more,
            n,
        ),
        record_at(codecs, data + more, count(codecs, data) + n) == record_at(codecs, more, n),
{
    let before = count(codecs, data);
    lemma_extend(codecs, data, more);
    lemma_extend_keeps_record(codecs, data, more, before);
    lemma_whole_ends_at_last_record(codecs, data);
    assert((data + more).skip(data.len() as int) =~= more);
    lemma_split(codecs, data + more, before, n);
    lemma_position_bounds(codecs, more, n);
    let at = position(codecs, more, n);
    assert((data + more).skip(data.len() + at) =~= more.skip(at));
}

/// One encoded record is whole records.
pub proof fn lemma_encoded_record_is_whole(
    codecs: CodecSet,
    codec: crate::compression::Compression,
    r: record::RecordView,
    bytes: Seq<u8>,
)
    requires
        codecs.supports(codec),
        record::encodes(codec, r, bytes),
        record::readable(codec, r, bytes),
    ensures
        whole(codecs, bytes),
        count(codecs, bytes) == 1,
        record_at(codecs, bytes, 0) == r,
{
    record::law_decode_inverts_encode(codecs, codec, r, bytes, Seq::empty());
    assert(bytes + Seq::<u8>::empty() =~= bytes);
    let behind = bytes.skip(bytes.len() as int);
    assert(whole(codecs, behind));
    assert(count(codecs, behind) == 0);
    assert(bytes.skip(0) =~= bytes);
}

/// A search that starts at a record before the one it is for finds it.
pub proof fn law_find_reaches_record(codecs: CodecSet, data: Seq<u8>, base: int, from: nat, n: nat)
    requires
        from <= n < count(codecs, data),
    ensures
        find(codecs, data.skip(position(codecs, data, from)), base + from, base + n) == Ok::<
            Option<record::RecordView>,
            KafkoError,
        >(Some(record_at(codecs, data, n))),
    decreases n - from,
{
    lemma_split(codecs, data, from, 1);
    lemma_position_bounds(codecs, data, from);
    if from < n {
        let rest = data.skip(position(codecs, data, from));
        let consumed = record::parse(codecs, rest).consumed;
        assert(position(codecs, rest, 1) == consumed + position(codecs, rest.skip(consumed), 0));
        law_find_reaches_record(codecs, data, base, from + 1, n);
        assert(rest.skip(consumed) =~= data.skip(position(codecs, data, from + 1)));
    }
}

/// A search for an offset before the start of whole records finds nothing.
pub proof fn law_find_nothing_before_start(
    codecs: CodecSet,
    data: Seq<u8>,
    start: int,
    target: int,
)
    requires
        whole(codecs, data),
        target < start,
    ensures
        find(codecs, data, start, target) == Ok::<Option<record::RecordView>, KafkoError>(None),
    decreases data.len(),
{
    if data.len() > 0 {
        let consumed = record::parse(codecs, data).consumed;
        law_find_nothing_before_start(codecs, data.skip(consumed), start + 1, target);
    }
}

/// Recovery keeps whole records, and goes on behind them as if they were not
/// there.
pub proof fn lemma_recovery_goes_on(codecs: CodecSet, data: Seq<u8>, tail: Seq<u8>)
    requires
        whole(codecs, data),
    ensures
        valid_prefix(codecs, data + tail) == match valid_prefix(codecs, tail) {
            Ok(n) => Ok::<int, KafkoError>(data.len() + n),
            Err(e) => Err(e),
        },
    decreases data.len(),
{
    if data.len() == 0 {
        assert(data + tail =~= tail);
    } else {
        let consumed = record::parse(codecs, data).consumed;
        record::law_parse_ignores_what_follows(codecs, data, tail);
        lemma_recovery_goes_on(codecs, data.skip(consumed), tail);
        assert((data + tail).skip(consumed) =~= data.skip(consumed) + tail);
    }
}

/// Recovery keeps exactly the whole records in front of a record that was not
/// completely written.
pub proof fn law_recovery_keeps_whole_records(codecs: CodecSet, data: Seq<u8>, tail: Seq<u8>)
    requires
        whole(codecs, data),
        record::parse(codecs, tail).outcome matches Err(e) && is_torn(e),
    ensures
        valid_prefix(codecs, data + tail) == Ok::<int, KafkoError>(data.len() as int),
{
    lemma_recovery_goes_on(codecs, data, tail);
}

/// Recovery cuts off a record that was cut short, at whatever byte, and keeps
/// everything in front of it.
pub proof fn law_recovery_drops_cut_record(
    codecs: CodecSet,
    codec: crate::compression::Compression,
    r: record::RecordView,
    data: Seq<u8>,
    bytes: Seq<u8>,
    kept: int,
)
    requires
        whole(codecs, data),
        record::encodes(codec, r, bytes),
        bytes.len() - 4 <= u32::MAX,
        0 <= kept < bytes.len(),
    ensures
        valid_prefix(codecs, data + bytes.take(kept)) == Ok::<int, KafkoError>(data.len() as int),
{
    record::law_cut_record_is_truncated(codecs, codec, r, bytes, kept);
    law_recovery_keeps_whole_records(codecs, data, bytes.take(kept));
}

/// Recovery leaves a segment that ends behind a record as it is.
pub proof fn law_recovery_keeps_clean_segment(codecs: CodecSet, data: Seq<u8>)
    requires
        whole(codecs, data),
    ensures
        valid_prefix(codecs, data) == Ok::<int, KafkoError>(data.len() as int),
{
    law_recovery_keeps_whole_records(codecs, data, Seq::empty());
    assert(data + Seq::<u8>::empty() =~= data);
}

/// Whatever a rebuild of the index gets through is nothing but records.
pub proof fn lemma_replay_means_whole(
    codecs: CodecSet,
    data: Seq<u8>,
    index: sparse_index::IndexView,
    file_pos: nat,
    n: nat,
)
    requires
        replay(codecs, data, index, file_pos, n) is Done,
    ensures
        whole(codecs, data),
    decreases data.len(),
{
    if data.len() > 0 {
        let parsed = record::parse(codecs, data);
        let offset = (index.base_offset + n) as u64;
        record::law_parse_within_input(codecs, data);
        lemma_replay_means_whole(
            codecs,
            data.skip(parsed.consumed),
            index.after_track(offset, file_pos as u64, parsed.consumed as nat),
            (file_pos + parsed.consumed) as nat,
            n + 1,
        );
    }
}

/// Recovering twice is the same as recovering once: of whatever a first
/// recovery kept and could build an index from, a second removes nothing.
pub proof fn law_second_recovery_removes_nothing(
    codecs: CodecSet,
    data: Seq<u8>,
    kept: int,
    index: sparse_index::IndexView,
)
    requires
        valid_prefix(codecs, data) == Ok::<int, KafkoError>(kept),
        replay(codecs, data.take(kept), index, 0, 0) is Done,
    ensures
        0 <= kept <= data.len(),
        whole(codecs, data.take(kept)),
        valid_prefix(codecs, data.take(kept)) == Ok::<int, KafkoError>(kept),
{
    lemma_valid_prefix_bounds(codecs, data);
    lemma_replay_means_whole(codecs, data.take(kept), index, 0, 0);
    law_recovery_keeps_clean_segment(codecs, data.take(kept));
}

/// Recovery keeps no more than there is.
pub proof fn lemma_valid_prefix_bounds(codecs: CodecSet, data: Seq<u8>)
    ensures
        valid_prefix(codecs, data) matches Ok(kept) ==> 0 <= kept <= data.len(),
    decreases data.len(),
{
    let parsed = record::parse(codecs, data);
    record::law_parse_within_input(codecs, data);
    if parsed.outcome is Ok {
        lemma_valid_prefix_bounds(codecs, data.skip(parsed.consumed));
    }
}

/// Whether an index is right about the first `n` records of a segment: its
/// entries are for some of them, in order, and each says where its record
/// starts.
pub open spec fn index_sound(
    codecs: CodecSet,
    data: Seq<u8>,
    index: sparse_index::IndexView,
    n: nat,
) -> bool {
    &&& n <= count(codecs, data)
    &&& index.sorted()
    &&& forall|i: int|
        0 <= i < index.entries.len() ==> {
            let entry = #[trigger] index.entries[i];
            &&& entry.relative_offset < n
            &&& entry.file_position == position(codecs, data, entry.relative_offset as nat)
        }
}

/// Tracking the next record keeps the index right.
pub proof fn lemma_track_keeps_sound(
    codecs: CodecSet,
    data: Seq<u8>,
    index: sparse_index::IndexView,
    n: nat,
    size: nat,
)
    requires
        index_sound(codecs, data, index, n),
        n < count(codecs, data),
        index.base_offset + n <= u64::MAX,
        position(codecs, data, n) <= u64::MAX,
        index.can_track((index.base_offset + n) as u64, position(codecs, data, n) as u64),
    ensures
        index_sound(
            codecs,
            data,
            index.after_track(
                (index.base_offset + n) as u64,
                position(codecs, data, n) as u64,
                size,
            ),
            n + 1,
        ),
{
    lemma_position_bounds(codecs, data, n);
    let after = index.after_track(
        (index.base_offset + n) as u64,
        position(codecs, data, n) as u64,
        size,
    );
    assert forall|i: int| 0 <= i < after.entries.len() implies {
        let entry = #[trigger] after.entries[i];
        &&& entry.relative_offset < n + 1
        &&& entry.file_position == position(codecs, data, entry.relative_offset as nat)
    } by {
        if i < index.entries.len() {
            assert(after.entries[i] == index.entries[i]);
        }
    }
}

/// What is right about some whole records stays right when more follow.
pub proof fn lemma_extend_keeps_sound(
    codecs: CodecSet,
    data: Seq<u8>,
    more: Seq<u8>,
    index: sparse_index::IndexView,
    n: nat,
)
    requires
        whole(codecs, data),
        index_sound(codecs, data, index, n),
    ensures
        index_sound(codecs, data + more, index, n),
{
    lemma_extend(codecs, data, more);
    assert forall|i: int| 0 <= i < index.entries.len() implies {
        let entry = #[trigger] index.entries[i];
        &&& entry.relative_offset < n
        &&& entry.file_position == position(codecs, data + more, entry.relative_offset as nat)
    } by {
        lemma_extend_keeps_record(codecs, data, more, index.entries[i].relative_offset as nat);
    }
}

/// The size up to which the positions and offsets of a segment's records fit
/// its index.
pub const INDEX_REACH: u64 = 0x1_0000_0000;

/// An index rebuilt from whole records is right about all of them, and the
/// rebuild counts them all.
pub proof fn lemma_replay_is_sound(
    codecs: CodecSet,
    data: Seq<u8>,
    index: sparse_index::IndexView,
    n: nat,
)
    requires
        n <= count(codecs, data),
        whole(codecs, data.skip(position(codecs, data, n))),
        index_sound(codecs, data, index, n),
        index.base_offset + data.len() <= u64::MAX,
        data.len() <= u64::MAX,
        index.bytes_since_last_entry <= position(codecs, data, n),
    ensures
        match replay(
            codecs,
            data.skip(position(codecs, data, n)),
            index,
            position(codecs, data, n) as nat,
            n,
        ) {
            Replay::Done(rebuilt, records) => {
                &&& records == count(codecs, data)
                &&& rebuilt.base_offset == index.base_offset
                &&& rebuilt.interval == index.interval
                &&& index_sound(codecs, data, rebuilt, records)
                &&& rebuilt.bytes_since_last_entry <= data.len()
            },
            Replay::Failed(_) => false,
            Replay::IndexOverflow => data.len() > INDEX_REACH,
        },
    decreases count(codecs, data) - n,
{
    let at = position(codecs, data, n);
    let rest = data.skip(at);
    lemma_position_bounds(codecs, data, n);
    lemma_split(codecs, data, n, 1);
    if rest.len() > 0 {
        let consumed = record::parse(codecs, rest).consumed;
        assert(position(codecs, rest, 1) == consumed + position(codecs, rest.skip(consumed), 0));
        assert(rest.skip(consumed) =~= data.skip(position(codecs, data, n + 1)));
        lemma_position_bounds(codecs, data, n + 1);
        if index.can_track((index.base_offset + n) as u64, at as u64) {
            lemma_track_keeps_sound(codecs, data, index, n, consumed as nat);
            lemma_replay_is_sound(
                codecs,
                data,
                index.after_track((index.base_offset + n) as u64, at as u64, consumed as nat),
                n + 1,
            );
        }
    }
}

/// A rebuilt index is of the same segment, its entries name offsets that
/// exist, and it counts no more records than there are bytes.
pub proof fn lemma_replay_bounds(
    codecs: CodecSet,
    data: Seq<u8>,
    index: sparse_index::IndexView,
    file_pos: nat,
    n: nat,
)
    requires
        index.addressable(),
        index.base_offset + n + data.len() <= u64::MAX,
    ensures
        replay(codecs, data, index, file_pos, n) matches Replay::Done(rebuilt, records) ==> {
            &&& n <= records <= n + data.len()
            &&& rebuilt.base_offset == index.base_offset
            &&& rebuilt.addressable()
        },
    decreases data.len(),
{
    let parsed = record::parse(codecs, data);
    let offset = (index.base_offset + n) as u64;
    record::law_parse_within_input(codecs, data);
    if data.len() > 0 && parsed.outcome is Ok && index.can_track(offset, file_pos as u64) {
        let later = index.after_track(offset, file_pos as u64, parsed.consumed as nat);
        assert forall|i: int| 0 <= i < later.entries.len() implies later.base_offset
            + #[trigger] later.entries[i].relative_offset <= u64::MAX by {
            if i < index.entries.len() {
                assert(later.entries[i] == index.entries[i]);
            }
        }
        lemma_replay_bounds(
            codecs,
            data.skip(parsed.consumed),
            later,
            (file_pos + parsed.consumed) as nat,
            n + 1,
        );
    }
}

/// Rebuilding the index of whole records cannot fail on a record, nor on the
/// size of a segment of up to 4 GiB; it gives an index that is right about all
/// records, and counts them.
pub proof fn law_replay_rebuilds_index(codecs: CodecSet, data: Seq<u8>, base: u64, interval: u64)
    requires
        whole(codecs, data),
        base + data.len() <= u64::MAX,
    ensures
        match replay(
            codecs,
            data,
            sparse_index::IndexView {
                base_offset: base,
                entries: Seq::empty(),
                bytes_since_last_entry: 0,
                interval,
            },
            0,
            0,
        ) {
            Replay::Done(rebuilt, records) => {
                &&& records == count(codecs, data)
                &&& rebuilt.base_offset == base
                &&& rebuilt.interval == interval
                &&& index_sound(codecs, data, rebuilt, records)
                &&& rebuilt.bytes_since_last_entry <= data.len()
            },
            Replay::Failed(_) => false,
            Replay::IndexOverflow => data.len() > INDEX_REACH,
        },
{
    let index = sparse_index::IndexView {
        base_offset: base,
        entries: Seq::<sparse_index::IndexEntry>::empty(),
        bytes_since_last_entry: 0,
        interval,
    };
    assert(data.skip(0) =~= data);
    lemma_replay_is_sound(codecs, data, index, 0);
}

/// Recovery takes an error for a torn record if it is of one of three kinds.
pub proof fn law_torn_errors(e: KafkoError)
    ensures
        is_torn(e) <==> (e is Truncated || e is CrcMismatch || e is InvalidLength),
{
}

/// One encoded record is one record, from its first byte to its last, of
/// whatever length; records behind one another stay what they are, and their
/// numbers add up.
pub proof fn law_encoded_records_add_up(
    codecs: CodecSet,
    codec: crate::compression::Compression,
    r: record::RecordView,
    bytes: Seq<u8>,
    data: Seq<u8>,
    n: nat,
)
    requires
        codecs.supports(codec),
        record::encodes(codec, r, bytes),
        bytes.len() - 4 <= u32::MAX,
        codec == crate::compression::Compression::Uncompressed || r.value.len() <= 16 * 1024
            * 1024,
        whole(codecs, data),
    ensures
        whole(codecs, Seq::empty()),
        whole(codecs, data + bytes),
        count(codecs, Seq::empty()) == 0,
        count(codecs, data + bytes) == count(codecs, data) + 1,
        position(codecs, data, 0) == 0,
        position(codecs, data + bytes, count(codecs, data)) == data.len(),
        record_at(codecs, data + bytes, count(codecs, data)) == r,
        n < count(codecs, data) ==> {
            &&& position(codecs, data + bytes, n) == position(codecs, data, n)
            &&& record_at(codecs, data + bytes, n) == record_at(codecs, data, n)
        },
{
    lemma_encoded_record_is_whole(codecs, codec, r, bytes);
    lemma_extend(codecs, data, bytes);
    lemma_extend_appends_record(codecs, data, bytes, 0);
    if n < count(codecs, data) {
        lemma_extend_keeps_record(codecs, data, bytes, n);
    }
}

/// An error that does not come of a torn record stops recovery, wherever in the
/// data it is.
pub proof fn law_recovery_stops_at_other_errors(
    codecs: CodecSet,
    data: Seq<u8>,
    tail: Seq<u8>,
    e: KafkoError,
)
    requires
        whole(codecs, data),
        record::parse(codecs, tail).outcome == Err::<record::RecordView, KafkoError>(e),
        !(e is Truncated),
        !(e is CrcMismatch),
        !(e is InvalidLength),
    ensures
        valid_prefix(codecs, data + tail) == Err::<int, KafkoError>(e),
{
    lemma_recovery_goes_on(codecs, data, tail);
}

/// Recovery cuts off a record with one byte or more that its checksum was not
/// made of, however long it is, with all that follows it, and keeps everything
/// in front of it.
pub proof fn law_recovery_drops_damaged_record(codecs: CodecSet, data: Seq<u8>, tail: Seq<u8>)
    requires
        whole(codecs, data),
        tail.len() >= 4,
        wire::from_be32(tail.subrange(0, 4)) >= 21,
        tail.len() >= 4 + wire::from_be32(tail.subrange(0, 4)),
        crate::outside::crc32(tail.subrange(8, 4 + wire::from_be32(tail.subrange(0, 4))))
            != wire::from_be32(tail.subrange(4, 8)),
    ensures
        valid_prefix(codecs, data + tail) == Ok::<int, KafkoError>(data.len() as int),
{
    assert(tail.subrange(0, 4) =~= tail.take(4));
    law_recovery_keeps_whole_records(codecs, data, tail);
}

/// A search finds a record in any number of others, by its place among them.
pub proof fn law_search_finds_by_place(
    codecs: CodecSet,
    data: Seq<u8>,
    rest: Seq<u8>,
    start: u64,
    offset: u64,
    found: Result<Option<Record>, KafkoError>,
)
    requires
        whole(codecs, data),
        start <= offset < start + count(codecs, data),
        found_as(find(codecs, data + rest, start as int, offset as int), found),
    ensures
        found matches Ok(Some(r)) && r@ == record_at(codecs, data, (offset - start) as nat),
{
    let n = (offset - start) as nat;
    lemma_extend(codecs, data, rest);
    lemma_extend_keeps_record(codecs, data, rest, n);
    law_find_reaches_record(codecs, data + rest, start as int, 0, n);
    assert((data + rest).skip(0) =~= data + rest);
}

proof fn lemma_find_goes_on(
    codecs: CodecSet,
    data: Seq<u8>,
    tail: Seq<u8>,
    start: int,
    target: int,
)
    requires
        whole(codecs, data),
        target < start || target >= start + count(codecs, data),
    ensures
        find(codecs, data + tail, start, target) == find(
            codecs,
            tail,
            start + count(codecs, data),
            target,
        ) || target < start,
    decreases data.len(),
{
    if data.len() == 0 {
        assert(data + tail =~= tail);
    } else if target >= start {
        let consumed = record::parse(codecs, data).consumed;
        record::law_parse_ignores_what_follows(codecs, data, tail);
        lemma_find_goes_on(codecs, data.skip(consumed), tail, start + 1, target);
        assert((data + tail).skip(consumed) =~= data.skip(consumed) + tail);
    }
}

/// A search for a record that is not there finds nothing where the data ends,
/// be it within a record, and reports a record that cannot be read where there
/// is one in between.
pub proof fn law_search_past_the_end(
    codecs: CodecSet,
    data: Seq<u8>,
    tail: Seq<u8>,
    start: u64,
    offset: u64,
    found: Result<Option<Record>, KafkoError>,
    e: KafkoError,
)
    requires
        whole(codecs, data),
        offset >= start + count(codecs, data),
        record::parse(codecs, tail).outcome == Err::<record::RecordView, KafkoError>(e),
        found_as(find(codecs, data + tail, start as int, offset as int), found),
    ensures
        e is Truncated ==> found == Ok::<Option<Record>, KafkoError>(None),
        !(e is Truncated) ==> found == Err::<Option<Record>, KafkoError>(e),
{
    lemma_find_goes_on(codecs, data, tail, start as int, offset as int);
}

/// Rebuilding an index tracks every record, one after the other, where it
/// starts and with the bytes it takes up.
pub proof fn law_rebuild_tracks_every_record(
    codecs: CodecSet,
    codec: crate::compression::Compression,
    r: record::RecordView,
    bytes: Seq<u8>,
    rest: Seq<u8>,
    index: sparse_index::IndexView,
    file_pos: u64,
    n: nat,
)
    requires
        codecs.supports(codec),
        record::encodes(codec, r, bytes),
        bytes.len() - 4 <= u32::MAX,
        codec == crate::compression::Compression::Uncompressed || r.value.len() <= 16 * 1024
            * 1024,
        index.base_offset + n <= u64::MAX,
    ensures
        replay(codecs, Seq::empty(), index, file_pos as nat, n) == Replay::Done(index, n),
        replay(codecs, bytes + rest, index, file_pos as nat, n) == if index.can_track(
            (index.base_offset + n) as u64,
            file_pos,
        ) {
            replay(
                codecs,
                rest,
                index.after_track((index.base_offset + n) as u64, file_pos, bytes.len()),
                file_pos as nat + bytes.len(),
                n + 1,
            )
        } else {
            Replay::IndexOverflow
        },
{
    record::law_decode_inverts_encode(codecs, codec, r, bytes, rest);
    lemma_encoded_record_is_whole(codecs, codec, r, bytes);
    lemma_position_bounds(codecs, bytes, 1);
    assert((bytes + rest).skip(bytes.len() as int) =~= rest);
}

} // verus!
