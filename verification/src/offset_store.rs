//! The committed offsets of a consumer group.
//!
//! A group's offsets stand in one file, little-endian:
//!
//! ```text
//! crc32 u32 | count u32 | (partition u32 | offset u64) * count
//! ```
//!
//! with the checksum over everything behind it. A file that is torn or
//! corrupt counts as no commit at all.
use vstd::prelude::*;
use vstd::slice::slice_subrange;
use vstd::string::StringExecFns;

use crate::error::KafkoError;
use crate::outside;
use crate::wire;

verus! {

broadcast use wire::group_lengths;

/// Whether a character may stand in a group's name, which is a file name.
pub open spec fn is_group_char(c: char) -> bool {
    'A' <= c <= 'Z' || 'a' <= c <= 'z' || '0' <= c <= '9' || c == '.' || c == '_' || c == '-'
}

/// Whether a group may have this name.
pub open spec fn is_group_name(name: Seq<char>) -> bool {
    &&& name.len() > 0
    &&& name != seq!['.']
    &&& name != seq!['.', '.']
    &&& forall|i: int| 0 <= i < name.len() ==> is_group_char(#[trigger] name[i])
}

/// The committed offsets on disk, one entry per partition.
pub open spec fn entries_bytes(offsets: Seq<u64>) -> Seq<u8>
    decreases offsets.len(),
{
    if offsets.len() == 0 {
        Seq::empty()
    } else {
        entries_bytes(offsets.drop_last()) + (wire::le32((offsets.len() - 1) as u32)
            + wire::le64(offsets.last()))
    }
}

/// What the checksum of a file covers.
pub open spec fn body_bytes(offsets: Seq<u64>) -> Seq<u8> {
    wire::le32(offsets.len() as u32) + entries_bytes(offsets)
}

/// A group's file.
pub open spec fn file_bytes(offsets: Seq<u64>) -> Seq<u8> {
    wire::le32(outside::crc32(body_bytes(offsets))) + body_bytes(offsets)
}

/// No commit: every partition at its start.
pub open spec fn no_commit(partitions: nat) -> Seq<u64> {
    Seq::new(partitions, |i: int| 0u64)
}

/// The partition in the `i`th entry of a body.
pub open spec fn entry_partition(body: Seq<u8>, i: int) -> u32 {
    wire::from_le32(body.subrange(4 + 12 * i, 8 + 12 * i))
}

/// The offset in the `i`th entry of a body.
pub open spec fn entry_offset(body: Seq<u8>, i: int) -> u64 {
    wire::from_le64(body.subrange(8 + 12 * i, 16 + 12 * i))
}

/// The offsets that the first `count` entries of a body give; entries for
/// partitions that do not exist are passed over.
pub open spec fn entries_applied(body: Seq<u8>, count: nat, partitions: nat) -> Seq<u64>
    decreases count,
{
    if count == 0 {
        no_commit(partitions)
    } else {
        let before = entries_applied(body, (count - 1) as nat, partitions);
        let partition = entry_partition(body, count - 1);
        if partition < partitions {
            before.update(partition as int, entry_offset(body, count - 1))
        } else {
            before
        }
    }
}

/// Whether a file is whole: its checksum is right, and it is as long as it
/// says.
pub open spec fn is_whole(bytes: Seq<u8>) -> bool {
    &&& bytes.len() >= 8
    &&& outside::crc32(bytes.skip(4)) == wire::from_le32(bytes.take(4))
    &&& bytes.len() - 4 >= 4 + 12 * wire::from_le32(bytes.subrange(4, 8))
}

/// The offsets that a file gives for a topic of so many partitions.
pub open spec fn parse_offsets(bytes: Seq<u8>, partitions: nat) -> Seq<u64> {
    if is_whole(bytes) {
        entries_applied(
            bytes.skip(4),
            wire::from_le32(bytes.subrange(4, 8)) as nat,
            partitions,
        )
    } else {
        no_commit(partitions)
    }
}

/// Refuses a name that a group may not have.
pub fn validate_group_name(group: &str) -> (result: Result<(), KafkoError>)
    ensures
        match result {
            Ok(()) => is_group_name(group@),
            Err(e) => !is_group_name(group@) && (e matches KafkoError::InvalidGroupName(name)
                && name@ == group@),
        },
{
    let ghost chars = group@;
    if !group.is_ascii() {
        proof {
            if is_group_name(chars) {
                let i = choose|i: int|
                    0 <= i < chars.len() && !('\0' <= #[trigger] chars[i] <= '\u{7f}');
                assert(is_group_char(chars[i]));
            }
        }
        return Err(KafkoError::InvalidGroupName(group.to_owned()));
    }
    proof {
        vstd::utf8::is_ascii_chars_encode_utf8(chars);
    }
    let bytes: &[u8] = group.as_bytes();
    assert forall|i: int| 0 <= i < chars.len() implies (#[trigger] chars[i]) as int
        == bytes@[i] by {
        assert(chars[i] as u8 == bytes@[i]);
    }
    let len: usize = bytes.len();
    if len == 0 {
        return Err(KafkoError::InvalidGroupName(group.to_owned()));
    }
    if len == 1 && bytes[0] == 46 {
        assert(chars[0] as int == 46);
        assert(chars =~= seq!['.']);
        return Err(KafkoError::InvalidGroupName(group.to_owned()));
    }
    if len == 2 && bytes[0] == 46 && bytes[1] == 46 {
        assert(chars[0] as int == 46);
        assert(chars[1] as int == 46);
        assert(chars =~= seq!['.', '.']);
        return Err(KafkoError::InvalidGroupName(group.to_owned()));
    }
    proof {
        if chars == seq!['.'] {
            assert(chars[0] as int == bytes@[0]);
        }
        if chars == seq!['.', '.'] {
            assert(chars[0] as int == bytes@[0]);
            assert(chars[1] as int == bytes@[1]);
        }
    }
    let mut i: usize = 0;
    while i < len
        invariant
            i <= len,
            len == bytes@.len(),
            chars.len() == len,
            chars == group@,
            forall|j: int| 0 <= j < chars.len() ==> (#[trigger] chars[j]) as int == bytes@[j],
            forall|j: int| 0 <= j < i ==> is_group_char(#[trigger] chars[j]),
        decreases len - i,
    {
        let b: u8 = bytes[i];
        let allowed: bool = (65 <= b && b <= 90) || (97 <= b && b <= 122) || (48 <= b && b <= 57)
            || b == 46 || b == 95 || b == 45;
        assert(chars[i as int] as int == b);
        assert(allowed == is_group_char(chars[i as int]));
        if !allowed {
            return Err(KafkoError::InvalidGroupName(group.to_owned()));
        }
        i = i + 1;
    }
    Ok(())
}

/// A group's file, for these offsets.
pub fn encode(offsets: &[u64]) -> (bytes: Vec<u8>)
    ensures
        bytes@ == file_bytes(offsets@),
{
    let mut body: Vec<u8> = Vec::new();
    let count: u32 = #[verifier::truncate]
    (offsets.len() as u32);
    wire::push_le32(&mut body, count);
    let mut i: usize = 0;
    assert(offsets@.take(0) =~= Seq::<u64>::empty());
    assert(body@ =~= wire::le32(count) + entries_bytes(offsets@.take(0)));
    while i < offsets.len()
        invariant
            i <= offsets@.len(),
            body@ == wire::le32(count) + entries_bytes(offsets@.take(i as int)),
        decreases offsets@.len() - i,
    {
        let partition: u32 = #[verifier::truncate]
        (i as u32);
        wire::push_le32(&mut body, partition);
        wire::push_le64(&mut body, offsets[i]);
        assert(offsets@.take(i + 1).drop_last() =~= offsets@.take(i as int));
        assert(body@ =~= wire::le32(count) + entries_bytes(offsets@.take(i + 1)));
        i = i + 1;
    }
    assert(offsets@.take(i as int) =~= offsets@);
    let crc: u32 = outside::crc32_hash(body.as_slice());
    let mut out: Vec<u8> = Vec::new();
    wire::push_le32(&mut out, crc);
    out.append(&mut body);
    assert(out@ =~= file_bytes(offsets@));
    out
}

/// The offsets that a file gives for a topic of so many partitions.
pub fn decode(bytes: &[u8], partition_count: usize) -> (offsets: Vec<u64>)
    ensures
        offsets@ == parse_offsets(bytes@, partition_count as nat),
{
    let mut result: Vec<u64> = vec![0u64;partition_count];
    assert(result@ =~= no_commit(partition_count as nat));
    if bytes.len() < 8 {
        return result;
    }
    let len: usize = bytes.len();
    let crc: u32 = wire::read_le32(bytes, 0);
    let body: &[u8] = slice_subrange(bytes, 4, len);
    assert(bytes@.subrange(0, 4) =~= bytes@.take(4));
    assert(body@ =~= bytes@.skip(4));
    if outside::crc32_hash(body) != crc {
        return result;
    }
    let count: u32 = wire::read_le32(body, 0);
    assert(body@.subrange(0, 4) =~= bytes@.subrange(4, 8));
    if (body.len() as u64) < 4 + (count as u64) * 12 {
        return result;
    }
    let mut i: u32 = 0;
    while i < count
        invariant
            i <= count,
            body@.len() >= 4 + 12 * count,
            body@.len() <= usize::MAX,
            result@.len() == partition_count,
            result@ == entries_applied(body@, i as nat, partition_count as nat),
        decreases count - i,
    {
        let at: usize = 4 + (i as usize) * 12;
        let partition: u32 = wire::read_le32(body, at);
        let offset: u64 = wire::read_le64(body, at + 4);
        if (partition as usize) < partition_count {
            result.set(partition as usize, offset);
        }
        i = i + 1;
    }
    result
}

/// The entries of a file, one by one.
proof fn lemma_entry_at(offsets: Seq<u64>, i: int)
    requires
        0 <= i < offsets.len() <= u32::MAX,
    ensures
        entries_bytes(offsets).len() == 12 * offsets.len(),
        entry_partition(body_bytes(offsets), i) == i,
        entry_offset(body_bytes(offsets), i) == offsets[i],
    decreases offsets.len(),
{
    let init = offsets.drop_last();
    let n = init.len() as int;
    lemma_entries_len(offsets);
    lemma_entries_len(init);
    let body = body_bytes(offsets);
    if i < n {
        lemma_entry_at(init, i);
        assert(body.subrange(4 + 12 * i, 8 + 12 * i) =~= body_bytes(init).subrange(
            4 + 12 * i,
            8 + 12 * i,
        ));
        assert(body.subrange(8 + 12 * i, 16 + 12 * i) =~= body_bytes(init).subrange(
            8 + 12 * i,
            16 + 12 * i,
        ));
    } else {
        assert(body.subrange(4 + 12 * i, 8 + 12 * i) =~= wire::le32(n as u32));
        assert(body.subrange(8 + 12 * i, 16 + 12 * i) =~= wire::le64(offsets.last()));
        wire::lemma_le32_round_trip(n as u32);
        wire::lemma_le64_round_trip(offsets.last());
    }
}

proof fn lemma_entries_len(offsets: Seq<u64>)
    ensures
        entries_bytes(offsets).len() == 12 * offsets.len(),
    decreases offsets.len(),
{
    if offsets.len() > 0 {
        lemma_entries_len(offsets.drop_last());
    }
}

/// The offsets that the first entries of a file give.
proof fn lemma_applied(offsets: Seq<u64>, count: nat, partitions: nat)
    requires
        count <= offsets.len() <= u32::MAX,
    ensures
        entries_applied(body_bytes(offsets), count, partitions) == Seq::new(
            partitions,
            |i: int|
                if i < count {
                    offsets[i]
                } else {
                    0u64
                },
        ),
    decreases count,
{
    let expected = Seq::new(
        partitions,
        |i: int|
            if i < count {
                offsets[i]
            } else {
                0u64
            },
    );
    if count > 0 {
        lemma_applied(offsets, (count - 1) as nat, partitions);
        lemma_entry_at(offsets, count - 1);
    }
    assert(entries_applied(body_bytes(offsets), count, partitions) =~= expected);
}

/// A commit is read back as it was written; where the topic has another number
/// of partitions by then, partition for partition.
pub proof fn law_committed_offsets_are_read_back(offsets: Seq<u64>, partitions: nat)
    requires
        offsets.len() <= u32::MAX,
    ensures
        parse_offsets(file_bytes(offsets), partitions) == Seq::new(
            partitions,
            |i: int|
                if i < offsets.len() {
                    offsets[i]
                } else {
                    0u64
                },
        ),
        offsets.len() == partitions ==> parse_offsets(file_bytes(offsets), partitions) == offsets,
{
    let bytes = file_bytes(offsets);
    let body = body_bytes(offsets);
    lemma_entries_len(offsets);
    lemma_applied(offsets, offsets.len(), partitions);
    assert(bytes.skip(4) =~= body);
    assert(bytes.take(4) =~= wire::le32(outside::crc32(body)));
    assert(bytes.subrange(4, 8) =~= wire::le32(offsets.len() as u32));
    wire::lemma_le32_round_trip(outside::crc32(body));
    wire::lemma_le32_round_trip(offsets.len() as u32);
    if offsets.len() == partitions {
        assert(parse_offsets(bytes, partitions) =~= offsets);
    }
}

/// A file that is not whole counts as no commit.
pub proof fn law_damaged_file_is_no_commit(bytes: Seq<u8>, partitions: nat)
    requires
        !is_whole(bytes),
    ensures
        parse_offsets(bytes, partitions) == no_commit(partitions),
{
}

/// The file that a group's commit is written to before it takes the place of
/// the group's file.
pub open spec fn temp_name(group: Seq<char>) -> Seq<char> {
    group + ".tmp"@
}

/// The directory of a topic's offset files while a commit is under way: the
/// temporary file holds as much as was written to it.
pub open spec fn commit_begun(
    files: Map<Seq<char>, Seq<u8>>,
    group: Seq<char>,
    written: Seq<u8>,
) -> Map<Seq<char>, Seq<u8>> {
    files.insert(temp_name(group), written)
}

/// The directory once the temporary file has taken the place of the group's
/// file.
pub open spec fn commit_ended(
    files: Map<Seq<char>, Seq<u8>>,
    group: Seq<char>,
    offsets: Seq<u64>,
) -> Map<Seq<char>, Seq<u8>> {
    files.remove(temp_name(group)).insert(group, file_bytes(offsets))
}

/// The offsets that a group finds in the directory.
pub open spec fn found_offsets(
    files: Map<Seq<char>, Seq<u8>>,
    group: Seq<char>,
    partitions: nat,
) -> Seq<u64> {
    if files.contains_key(group) {
        parse_offsets(files[group], partitions)
    } else {
        no_commit(partitions)
    }
}

/// A commit that is cut off at whatever byte leaves the group its previous
/// offsets; one that is not gives it the new ones.
pub proof fn law_commit_is_all_or_nothing(
    files: Map<Seq<char>, Seq<u8>>,
    group: Seq<char>,
    offsets: Seq<u64>,
    written: Seq<u8>,
)
    requires
        offsets.len() <= u32::MAX,
    ensures
        found_offsets(commit_begun(files, group, written), group, offsets.len()) == found_offsets(
            files,
            group,
            offsets.len(),
        ),
        found_offsets(
            commit_ended(commit_begun(files, group, written), group, offsets),
            group,
            offsets.len(),
        ) == offsets,
{
    reveal_strlit(".tmp");
    assert(temp_name(group).len() == group.len() + 4);
    law_committed_offsets_are_read_back(offsets, offsets.len());
}

/// A commit of one group changes nothing for another, whether or not it is cut
/// off. The one exception is a group named like the temporary file.
pub proof fn law_groups_are_independent(
    files: Map<Seq<char>, Seq<u8>>,
    group: Seq<char>,
    other: Seq<char>,
    offsets: Seq<u64>,
    written: Seq<u8>,
    partitions: nat,
)
    requires
        group != other,
        other != temp_name(group),
    ensures
        found_offsets(commit_begun(files, group, written), other, partitions) == found_offsets(
            files,
            other,
            partitions,
        ),
        found_offsets(
            commit_ended(commit_begun(files, group, written), group, offsets),
            other,
            partitions,
        ) == found_offsets(files, other, partitions),
{
}

/// The committed offsets of one group on one topic.
#[derive(Debug)]
pub struct OffsetStore {
    group: String,
    committed: Vec<u64>,
}

impl OffsetStore {
    /// The group's name.
    pub closed spec fn spec_group(&self) -> Seq<char> {
        self.group@
    }

    /// The committed offset of each partition.
    pub closed spec fn spec_committed(&self) -> Seq<u64> {
        self.committed@
    }

    /// Opens the store of a group, given what its file holds, or that there is
    /// none.
    pub fn open(group: &str, partition_count: u32, file: Option<&[u8]>) -> (store: Result<
        Self,
        KafkoError,
    >)
        ensures
            match store {
                Ok(s) => {
                    &&& is_group_name(group@)
                    &&& s.spec_group() == group@
                    &&& s.spec_committed() == match file {
                        Some(bytes) => parse_offsets(bytes@, partition_count as nat),
                        None => no_commit(partition_count as nat),
                    }
                },
                Err(e) => !is_group_name(group@) && (e matches KafkoError::InvalidGroupName(name)
                    && name@ == group@),
            },
    {
        match validate_group_name(group) {
            Err(e) => {
                return Err(e);
            },
            Ok(()) => {},
        }
        let n: usize = partition_count as usize;
        let committed: Vec<u64> = match file {
            Some(bytes) => decode(bytes, n),
            None => {
                let none: Vec<u64> = vec![0u64;n];
                assert(none@ =~= no_commit(partition_count as nat));
                none
            },
        };
        Ok(OffsetStore { group: group.to_owned(), committed })
    }

    /// The committed offset of each partition.
    pub fn committed(&self) -> (committed: &[u64])
        ensures
            committed@ == self.spec_committed(),
    {
        self.committed.as_slice()
    }

    /// The group's name.
    pub fn group(&self) -> (group: &str)
        ensures
            group@ == self.spec_group(),
    {
        self.group.as_str()
    }

    /// The name of the group's file.
    pub fn file_name(&self) -> (name: String)
        ensures
            name@ == self.spec_group(),
    {
        self.group.clone()
    }

    /// The name of the file that a commit is written to before it takes the
    /// place of the group's file.
    pub fn temp_file_name(&self) -> (name: String)
        ensures
            name@ == temp_name(self.spec_group()),
    {
        let mut name: String = self.group.clone();
        name.append(".tmp");
        name
    }

    /// Notes that these offsets were committed: [`encode`] of them is in the
    /// group's file.
    pub fn commit_done(&mut self, offsets: &[u64])
        ensures
            final(self).spec_group() == old(self).spec_group(),
            final(self).spec_committed() == offsets@,
    {
        self.committed = vstd::slice::slice_to_vec(offsets);
    }
}

/// A group may have any name, of whatever length, made of ASCII letters, digits,
/// dots, underscores and hyphens, except the names of the directory itself and
/// the one above it; and no other.
pub proof fn law_group_names_by_character(name: Seq<char>)
    ensures
        is_group_name(name) <==> {
            &&& name.len() >= 1
            &&& !(name.len() == 1 && name[0] == '.')
            &&& !(name.len() == 2 && name[0] == '.' && name[1] == '.')
            &&& forall|i: int|
                0 <= i < name.len() ==> {
                    let c = #[trigger] name[i];
                    ||| 'A' <= c <= 'Z'
                    ||| 'a' <= c <= 'z'
                    ||| '0' <= c <= '9'
                    ||| c == '.'
                    ||| c == '_'
                    ||| c == '-'
                }
        },
{
    if name.len() == 1 && name[0] == '.' {
        assert(name =~= seq!['.']);
    }
    if name.len() == 2 && name[0] == '.' && name[1] == '.' {
        assert(name =~= seq!['.', '.']);
    }
    if name == seq!['.'] {
        assert(name.len() == 1 && name[0] == '.');
    }
    if name == seq!['.', '.'] {
        assert(name.len() == 2 && name[0] == '.' && name[1] == '.');
    }
    if is_group_name(name) {
        assert forall|i: int| 0 <= i < name.len() implies is_group_char(#[trigger] name[i]) by {}
    }
}

/// Two names that groups may have make up a third, put one behind the other.
pub proof fn law_group_names_can_be_joined(a: Seq<char>, b: Seq<char>)
    requires
        is_group_name(a),
        is_group_name(b),
    ensures
        is_group_name(a + b),
{
    let joined = a + b;
    law_group_names_by_character(a);
    law_group_names_by_character(b);
    if joined.len() == 2 {
        assert(joined[0] == a[0]);
    }
    assert forall|i: int| 0 <= i < joined.len() implies is_group_char(#[trigger] joined[i]) by {
        if i < a.len() {
            assert(is_group_char(a[i]));
        } else {
            assert(is_group_char(b[i - a.len()]));
        }
    }
    law_group_names_by_character(joined);
}

/// A group's file holds, little-endian, the checksum of what follows, the
/// number of partitions, and for each partition its number and its offset.
pub proof fn law_offset_file_layout(offsets: Seq<u64>, i: int)
    requires
        offsets.len() <= u32::MAX,
    ensures
        ({
            let file = file_bytes(offsets);
            &&& file.len() == 8 + 12 * offsets.len()
            &&& wire::from_le32(file.subrange(0, 4)) == outside::crc32(file.skip(4))
            &&& wire::from_le32(file.subrange(4, 8)) == offsets.len()
            &&& 0 <= i < offsets.len() ==> {
                &&& wire::from_le32(file.subrange(8 + 12 * i, 12 + 12 * i)) == i
                &&& wire::from_le64(file.subrange(12 + 12 * i, 20 + 12 * i)) == offsets[i]
            }
        }),
{
    let file = file_bytes(offsets);
    let body = body_bytes(offsets);
    lemma_entries_len(offsets);
    assert(file.skip(4) =~= body);
    assert(file.subrange(0, 4) =~= wire::le32(outside::crc32(body)));
    assert(file.subrange(4, 8) =~= wire::le32(offsets.len() as u32));
    wire::lemma_le32_round_trip(outside::crc32(body));
    wire::lemma_le32_round_trip(offsets.len() as u32);
    if 0 <= i < offsets.len() {
        lemma_entry_at(offsets, i);
        assert(file.subrange(8 + 12 * i, 12 + 12 * i) =~= body.subrange(4 + 12 * i, 8 + 12 * i));
        assert(file.subrange(12 + 12 * i, 20 + 12 * i) =~= body.subrange(
            8 + 12 * i,
            16 + 12 * i,
        ));
    }
}

/// Any file at all gives one offset per partition. Where the file is too short
/// for what it says it holds, or a single byte of it is not what its checksum
/// was made of, they are all 0.
pub proof fn law_damaged_offset_file_gives_zeros(bytes: Seq<u8>, partitions: nat, partition: int)
    requires
        bytes.len() < 8 || bytes.len() < 8 + 12 * wire::from_le32(bytes.subrange(4, 8))
            || outside::crc32(bytes.skip(4)) != wire::from_le32(bytes.subrange(0, 4)),
    ensures
        parse_offsets(bytes, partitions).len() == partitions,
        0 <= partition < partitions ==> parse_offsets(bytes, partitions)[partition] == 0,
{
    if bytes.len() >= 8 {
        assert(bytes.subrange(0, 4) =~= bytes.take(4));
    }
}

proof fn lemma_last_entry(body: Seq<u8>, count: nat, partitions: nat, partition: int)
    requires
        0 <= partition < partitions,
    ensures
        entries_applied(body, count, partitions).len() == partitions,
        (forall|i: int| 0 <= i < count ==> #[trigger] entry_partition(body, i) != partition)
            ==> entries_applied(body, count, partitions)[partition] == 0,
        forall|i: int|
            0 <= i < count && #[trigger] entry_partition(body, i) == partition && (forall|j: int|
                i < j < count ==> #[trigger] entry_partition(body, j) != partition)
                ==> entries_applied(body, count, partitions)[partition] == entry_offset(body, i),
    decreases count,
{
    if count > 0 {
        let n = (count - 1) as nat;
        lemma_last_entry(body, n, partitions, partition);
        let last = entry_partition(body, n as int);
        assert forall|i: int|
            0 <= i < count && #[trigger] entry_partition(body, i) == partition && (forall|j: int|
                i < j < count ==> #[trigger] entry_partition(body, j) != partition) implies
            entries_applied(body, count, partitions)[partition] == entry_offset(body, i) by {
            if i < n {
                assert(entry_partition(body, n as int) != partition);
            }
        }
    }
}

/// A file that is whole gives each partition the offset in the last entry for
/// it, and 0 where there is none; entries for other partitions count for
/// nothing.
pub proof fn law_last_entry_of_a_partition_counts(
    bytes: Seq<u8>,
    partitions: nat,
    partition: int,
    i: int,
)
    requires
        bytes.len() >= 8,
        outside::crc32(bytes.skip(4)) == wire::from_le32(bytes.subrange(0, 4)),
        bytes.len() >= 8 + 12 * wire::from_le32(bytes.subrange(4, 8)),
        0 <= partition < partitions,
    ensures
        ({
            let count = wire::from_le32(bytes.subrange(4, 8));
            let offsets = parse_offsets(bytes, partitions);
            &&& offsets.len() == partitions
            &&& (forall|j: int|
                0 <= j < count ==> wire::from_le32(
                    #[trigger] bytes.subrange(8 + 12 * j, 12 + 12 * j),
                ) != partition) ==> offsets[partition] == 0
            &&& 0 <= i < count && wire::from_le32(bytes.subrange(8 + 12 * i, 12 + 12 * i))
                == partition && (forall|j: int|
                i < j < count ==> wire::from_le32(
                    #[trigger] bytes.subrange(8 + 12 * j, 12 + 12 * j),
                ) != partition) ==> offsets[partition] == wire::from_le64(
                bytes.subrange(12 + 12 * i, 20 + 12 * i),
            )
        }),
{
    let count = wire::from_le32(bytes.subrange(4, 8)) as nat;
    let body = bytes.skip(4);
    assert(bytes.subrange(0, 4) =~= bytes.take(4));
    lemma_last_entry(body, count, partitions, partition);
    assert forall|j: int| 0 <= j < count implies #[trigger] entry_partition(body, j)
        == wire::from_le32(bytes.subrange(8 + 12 * j, 12 + 12 * j)) by {
        assert(body.subrange(4 + 12 * j, 8 + 12 * j) =~= bytes.subrange(8 + 12 * j, 12 + 12 * j));
    }
    if 0 <= i < count {
        assert(entry_partition(body, i) == wire::from_le32(
            bytes.subrange(8 + 12 * i, 12 + 12 * i),
        ));
        assert(body.subrange(8 + 12 * i, 16 + 12 * i) =~= bytes.subrange(
            12 + 12 * i,
            20 + 12 * i,
        ));
    }
    if forall|j: int|
        0 <= j < count ==> wire::from_le32(#[trigger] bytes.subrange(8 + 12 * j, 12 + 12 * j))
            != partition {
        assert forall|j: int| 0 <= j < count implies #[trigger] entry_partition(body, j)
            != partition by {
            assert(wire::from_le32(bytes.subrange(8 + 12 * j, 12 + 12 * j)) != partition);
        }
    }
    if forall|j: int|
        i < j < count ==> wire::from_le32(#[trigger] bytes.subrange(8 + 12 * j, 12 + 12 * j))
            != partition {
        assert forall|j: int| i < j < count && 0 <= i implies #[trigger] entry_partition(body, j)
            != partition by {
            assert(wire::from_le32(bytes.subrange(8 + 12 * j, 12 + 12 * j)) != partition);
        }
    }
}

/// A group that never committed starts at 0 in every partition.
pub proof fn law_no_commit_is_all_zeros(partitions: nat, partition: int)
    ensures
        no_commit(partitions).len() == partitions,
        0 <= partition < partitions ==> no_commit(partitions)[partition] == 0,
{
}

/// The temporary file of a commit is named after the group, and no two groups
/// share one.
pub proof fn law_temporary_names_differ(a: Seq<char>, b: Seq<char>)
    ensures
        temp_name(a) == a + seq!['.', 't', 'm', 'p'],
        temp_name(a) == temp_name(b) ==> a == b,
{
    reveal_strlit(".tmp");
    assert(".tmp"@ =~= seq!['.', 't', 'm', 'p']);
    assert(temp_name(a) =~= a + seq!['.', 't', 'm', 'p']);
    assert(temp_name(b) =~= b + seq!['.', 't', 'm', 'p']);
    if temp_name(a) == temp_name(b) {
        assert(a =~= temp_name(a).take(temp_name(a).len() - 4));
        assert(b =~= temp_name(b).take(temp_name(b).len() - 4));
    }
}

} // verus!
