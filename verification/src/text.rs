//! Numbers in text and in file names.
use vstd::prelude::*;
use vstd::string::StringExecFns;

verus! {

/// The digits in a segment's file name.
pub const FILENAME_DIGITS: usize = 20;

/// The character of a digit.
pub open spec fn digit(d: nat) -> char {
    (48 + d) as char
}

/// The character of a hexadecimal digit.
pub open spec fn hex_digit(d: nat) -> char {
    if d < 10 {
        (48 + d) as char
    } else {
        (87 + d) as char
    }
}

/// A number in decimal.
pub open spec fn decimal(n: nat) -> Seq<char>
    decreases n,
{
    if n < 10 {
        seq![digit(n)]
    } else {
        decimal(n / 10).push(digit(n % 10))
    }
}

/// A number in hexadecimal, lower case.
pub open spec fn hexadecimal(n: nat) -> Seq<char>
    decreases n,
{
    if n < 16 {
        seq![hex_digit(n)]
    } else {
        hexadecimal(n / 16).push(hex_digit(n % 16))
    }
}

/// A number in decimal, with zeros in front up to a width.
pub open spec fn zero_padded(n: nat, width: nat) -> Seq<char> {
    let digits = decimal(n);
    if digits.len() < width {
        Seq::new((width - digits.len()) as nat, |i: int| '0') + digits
    } else {
        digits
    }
}

/// Whether a character is a decimal digit.
pub open spec fn is_digit(c: char) -> bool {
    '0' <= c <= '9'
}

/// The number that some digits stand for.
pub open spec fn value_of(digits: Seq<char>) -> nat
    decreases digits.len(),
{
    if digits.len() == 0 {
        0
    } else {
        value_of(digits.drop_last()) * 10 + (digits.last() as int - 48) as nat
    }
}

/// Whether a text is digits, at least one.
pub open spec fn is_digits(text: Seq<char>) -> bool {
    text.len() > 0 && forall|i: int| 0 <= i < text.len() ==> is_digit(#[trigger] text[i])
}

/// A text without the plus sign in front of it, if there is one.
pub open spec fn unsigned(text: Seq<char>) -> Seq<char> {
    if text.len() > 0 && text[0] == '+' {
        text.skip(1)
    } else {
        text
    }
}

/// The number that a text stands for, if it is one and no greater than `max`:
/// one digit or more, behind a plus sign or not.
pub open spec fn parse_number(text: Seq<char>, max: nat) -> Option<nat> {
    let digits = unsigned(text);
    if is_digits(digits) && value_of(digits) <= max {
        Some(value_of(digits))
    } else {
        None
    }
}

/// The text of a digit.
fn digit_text(d: u8) -> (text: &'static str)
    requires
        d < 16,
    ensures
        text@ == seq![hex_digit(d as nat)],
{
    proof {
        reveal_strlit("0");
        reveal_strlit("1");
        reveal_strlit("2");
        reveal_strlit("3");
        reveal_strlit("4");
        reveal_strlit("5");
        reveal_strlit("6");
        reveal_strlit("7");
        reveal_strlit("8");
        reveal_strlit("9");
        reveal_strlit("a");
        reveal_strlit("b");
        reveal_strlit("c");
        reveal_strlit("d");
        reveal_strlit("e");
        reveal_strlit("f");
    }
    let text: &'static str = match d {
        0 => "0",
        1 => "1",
        2 => "2",
        3 => "3",
        4 => "4",
        5 => "5",
        6 => "6",
        7 => "7",
        8 => "8",
        9 => "9",
        10 => "a",
        11 => "b",
        12 => "c",
        13 => "d",
        14 => "e",
        _ => "f",
    };
    assert(text@ =~= seq![hex_digit(d as nat)]);
    text
}

/// Appends a number in decimal.
pub fn append_decimal(text: &mut String, n: u64)
    ensures
        final(text)@ == old(text)@ + decimal(n as nat),
    decreases n,
{
    let ghost before = text@;
    if n >= 10 {
        append_decimal(text, n / 10);
    }
    text.append(digit_text((n % 10) as u8));
    assert(text@ =~= before + decimal(n as nat));
}

/// Appends a number in hexadecimal.
pub fn append_hexadecimal(text: &mut String, n: u64)
    ensures
        final(text)@ == old(text)@ + hexadecimal(n as nat),
    decreases n,
{
    let ghost before = text@;
    if n >= 16 {
        append_hexadecimal(text, n / 16);
    }
    text.append(digit_text((n % 16) as u8));
    assert(text@ =~= before + hexadecimal(n as nat));
}

/// How many digits a number has in decimal.
fn decimal_len(n: u64) -> (len: usize)
    ensures
        len == decimal(n as nat).len(),
        1 <= len <= 20,
{
    let mut rest: u64 = n;
    let mut len: usize = 1;
    proof {
        lemma_decimal_len_u64(n);
    }
    while rest >= 10
        invariant
            len + decimal(rest as nat).len() - 1 == decimal(n as nat).len(),
            decimal(rest as nat).len() >= 1,
            decimal(n as nat).len() <= 20,
            1 <= len,
        decreases rest,
    {
        rest = rest / 10;
        len = len + 1;
    }
    len
}

/// A number that fits in 64 bits has at most 20 digits.
pub proof fn lemma_decimal_len_u64(n: u64)
    ensures
        1 <= decimal(n as nat).len() <= 20,
{
    reveal_with_fuel(decimal, 20);
}

/// Appends a number in decimal, with zeros in front up to the width of the
/// numbers in file names.
fn append_zero_padded(text: &mut String, n: u64)
    ensures
        final(text)@ == old(text)@ + zero_padded(n as nat, FILENAME_DIGITS as nat),
{
    let ghost before = text@;
    proof {
        reveal_strlit("0");
    }
    let len: usize = decimal_len(n);
    let mut zeros: usize = 0;
    while zeros < FILENAME_DIGITS - len
        invariant
            zeros <= FILENAME_DIGITS - len,
            len <= 20,
            "0"@ == seq!['0'],
            text@ == before + Seq::new(zeros as nat, |i: int| '0'),
        decreases FILENAME_DIGITS - len - zeros,
    {
        text.append("0");
        zeros = zeros + 1;
        assert(text@ =~= before + Seq::new(zeros as nat, |i: int| '0'));
    }
    append_decimal(text, n);
    assert(text@ =~= before + zero_padded(n as nat, FILENAME_DIGITS as nat));
}

/// The name of the file of the segment with this base offset.
pub fn segment_file_name(base_offset: u64) -> (name: String)
    ensures
        name@ == zero_padded(base_offset as nat, 20) + ".log"@,
{
    let mut name: String = String::new();
    append_zero_padded(&mut name, base_offset);
    name.append(".log");
    name
}

/// The name of the index file of the segment with this base offset.
pub fn index_file_name(base_offset: u64) -> (name: String)
    ensures
        name@ == zero_padded(base_offset as nat, 20) + ".index"@,
{
    let mut name: String = String::new();
    append_zero_padded(&mut name, base_offset);
    name.append(".index");
    name
}

/// The base offset in a segment's file name: what stands before `.log`, if it
/// is a number. Any other name is not a segment's.
pub open spec fn segment_base(name: Seq<char>) -> Option<nat> {
    let stem = name.len() - 4;
    if stem >= 0 && name.skip(stem) == ".log"@ {
        parse_number(name.take(stem), u64::MAX as nat)
    } else {
        None
    }
}

/// Zeros in front of digits change nothing about their value.
proof fn lemma_zeros_in_front(zeros: nat, digits: Seq<char>)
    ensures
        value_of(Seq::new(zeros, |i: int| '0') + digits) == value_of(digits),
    decreases zeros + digits.len(),
{
    let padded = Seq::new(zeros, |i: int| '0') + digits;
    if digits.len() > 0 {
        lemma_zeros_in_front(zeros, digits.drop_last());
        assert(padded.drop_last() =~= Seq::new(zeros, |i: int| '0') + digits.drop_last());
    } else if zeros > 0 {
        lemma_zeros_in_front((zeros - 1) as nat, digits);
        assert(padded.drop_last() =~= Seq::new((zeros - 1) as nat, |i: int| '0') + digits);
    }
}

/// A number in decimal is digits, and stands for the number.
proof fn lemma_decimal_value(n: nat)
    ensures
        is_digits(decimal(n)),
        value_of(decimal(n)) == n,
    decreases n,
{
    reveal_with_fuel(value_of, 2);
    if n < 10 {
        assert(decimal(n).drop_last() =~= Seq::<char>::empty());
    } else {
        lemma_decimal_value(n / 10);
        assert(decimal(n).drop_last() =~= decimal(n / 10));
    }
}

/// The base offset can be read back off a segment's file name.
pub proof fn law_segment_name_round_trip(base_offset: u64)
    ensures
        segment_base(zero_padded(base_offset as nat, 20) + ".log"@) == Some(base_offset as nat),
{
    reveal_strlit(".log");
    let n = base_offset as nat;
    let number = zero_padded(n, 20);
    let name = number + ".log"@;
    let zeros = (20 - decimal(n).len()) as nat;
    lemma_decimal_len_u64(base_offset);
    lemma_decimal_value(n);
    lemma_zeros_in_front(zeros, decimal(n));
    assert(number =~= Seq::new(zeros, |i: int| '0') + decimal(n));
    assert(name.skip(name.len() - 4) =~= ".log"@);
    assert(name.take(name.len() - 4) =~= number);
    assert forall|i: int| 0 <= i < number.len() implies is_digit(#[trigger] number[i]) by {
        if i >= zeros {
            assert(number[i] == decimal(n)[i - zeros]);
        }
    }
    assert(number[0] != '+');
}

/// Every segment's file name has the same length: all digits and the extension.
pub proof fn law_segment_name_length(base_offset: u64)
    ensures
        (zero_padded(base_offset as nat, 20) + ".log"@).len() == 24,
{
    reveal_strlit(".log");
    lemma_decimal_len_u64(base_offset);
}

/// The value of some digits is at least that of the digits before the last.
proof fn lemma_value_grows(digits: Seq<char>, k: int)
    requires
        0 <= k <= digits.len(),
    ensures
        value_of(digits.take(k)) <= value_of(digits),
    decreases digits.len() - k,
{
    if k < digits.len() {
        lemma_value_grows(digits, k + 1);
        assert(digits.take(k + 1).drop_last() =~= digits.take(k));
    } else {
        assert(digits.take(k) =~= digits);
    }
}

/// Reads a number off ASCII text. See [`parse_number`].
fn parse_ascii_number(text: &[u8], Ghost(chars): Ghost<Seq<char>>, max: u64) -> (n: Option<u64>)
    requires
        text@.len() == chars.len(),
        forall|i: int|
            0 <= i < chars.len() ==> (#[trigger] chars[i]) as int == text@[i],
    ensures
        match n {
            Some(v) => parse_number(chars, max as nat) == Some(v as nat),
            None => parse_number(chars, max as nat) is None,
        },
{
    let len: usize = text.len();
    let mut i: usize = 0;
    let ghost digits = unsigned(chars);
    if len > 0 && text[0] == 43 {
        assert(chars[0] as int == 43);
        assert(chars[0] == '+');
        i = 1;
    } else if len > 0 {
        assert(chars[0] as int == text@[0]);
        assert(chars[0] != '+');
    }
    let start: usize = i;
    if len == start {
        return None;
    }
    assert(digits.take(0) =~= Seq::<char>::empty());
    let mut value: u64 = 0;
    while i < len
        invariant
            start <= i <= len,
            start < len,
            len == text@.len(),
            text@.len() == chars.len(),
            digits == unsigned(chars),
            digits == chars.skip(start as int),
            forall|j: int|
                0 <= j < chars.len() ==> (#[trigger] chars[j]) as int == text@[j],
            forall|j: int| 0 <= j < i - start ==> is_digit(#[trigger] digits[j]),
            value == value_of(digits.take(i - start)),
            value <= max,
        decreases len - i,
    {
        let byte: u8 = text[i];
        let ghost k = i - start;
        proof {
            assert(digits[k] == chars[i as int]);
            assert(digits[k] as int == byte);
            assert(digits.take(k + 1).drop_last() =~= digits.take(k));
        }
        if byte < 48 || byte > 57 {
            assert(!is_digit(digits[k]));
            return None;
        }
        let d: u64 = (byte - 48) as u64;
        assert(value_of(digits.take(k + 1)) == value * 10 + d);
        if value as u128 * 10 + d as u128 > max as u128 {
            proof {
                lemma_value_grows(digits, k + 1);
            }
            return None;
        }
        value = value * 10 + d;
        i = i + 1;
    }
    assert(digits.take(i - start) =~= digits);
    Some(value)
}

/// The base offset in a segment's file name. See [`segment_base`].
pub fn parse_segment_name(name: &str) -> (base: Option<u64>)
    ensures
        match base {
            Some(v) => segment_base(name@) == Some(v as nat),
            None => segment_base(name@) is None,
        },
{
    proof {
        reveal_strlit(".log");
    }
    let ghost chars = name@;
    let ghost stem = chars.len() - 4;
    if !name.is_ascii() {
        proof {
            if segment_base(chars) is Some {
                let digits = unsigned(chars.take(stem));
                let i = choose|i: int|
                    0 <= i < chars.len() && !('\0' <= #[trigger] chars[i] <= '\u{7f}');
                if i >= stem {
                    assert(chars.skip(stem)[i - stem] == chars[i]);
                } else {
                    let shift = chars.take(stem).len() - digits.len();
                    if i >= shift {
                        assert(digits[i - shift] == chars[i]);
                    }
                }
            }
        }
        return None;
    }
    proof {
        vstd::utf8::is_ascii_chars_encode_utf8(chars);
    }
    let bytes: &[u8] = name.as_bytes();
    let len: usize = bytes.len();
    assert forall|i: int| 0 <= i < chars.len() implies (#[trigger] chars[i]) as int
        == bytes@[i] by {
        assert(chars[i] as u8 == bytes@[i]);
    }
    if len < 4 || bytes[len - 4] != 46 || bytes[len - 3] != 108 || bytes[len - 2] != 111
        || bytes[len - 1] != 103 {
        proof {
            if chars.len() >= 4 && chars.skip(stem) == ".log"@ {
                assert(chars[stem] == chars.skip(stem)[0]);
                assert(chars[stem + 1] == chars.skip(stem)[1]);
                assert(chars[stem + 2] == chars.skip(stem)[2]);
                assert(chars[stem + 3] == chars.skip(stem)[3]);
            }
        }
        return None;
    }
    proof {
        assert(chars[stem] as int == 46);
        assert(chars[stem + 1] as int == 108);
        assert(chars[stem + 2] as int == 111);
        assert(chars[stem + 3] as int == 103);
        assert(chars.skip(stem) =~= ".log"@);
    }
    parse_ascii_number(
        vstd::slice::slice_subrange(bytes, 0, len - 4),
        Ghost(chars.take(stem)),
        u64::MAX,
    )
}

/// The number that a name is, if it is one that fits in 32 bits: partitions'
/// directories are named so.
pub fn parse_partition_name(name: &str) -> (index: Option<u32>)
    ensures
        match index {
            Some(v) => parse_number(name@, u32::MAX as nat) == Some(v as nat),
            None => parse_number(name@, u32::MAX as nat) is None,
        },
{
    let ghost chars = name@;
    if !name.is_ascii() {
        proof {
            if parse_number(chars, u32::MAX as nat) is Some {
                let digits = unsigned(chars);
                let i = choose|i: int|
                    0 <= i < chars.len() && !('\0' <= #[trigger] chars[i] <= '\u{7f}');
                let shift = chars.len() - digits.len();
                if i >= shift {
                    assert(digits[i - shift] == chars[i]);
                }
            }
        }
        return None;
    }
    proof {
        vstd::utf8::is_ascii_chars_encode_utf8(chars);
    }
    let bytes: &[u8] = name.as_bytes();
    assert forall|i: int| 0 <= i < chars.len() implies (#[trigger] chars[i]) as int
        == bytes@[i] by {
        assert(chars[i] as u8 == bytes@[i]);
    }
    match parse_ascii_number(bytes, Ghost(chars), u32::MAX as u64) {
        Some(v) => Some(v as u32),
        None => None,
    }
}

/// Whether numbers are in ascending order.
pub open spec fn ascending(numbers: Seq<u64>) -> bool {
    forall|i: int, j: int| 0 <= i < j < numbers.len() ==> numbers[i] <= numbers[j]
}

/// Puts a number into numbers in ascending order.
pub fn insert_sorted(numbers: &mut Vec<u64>, n: u64)
    requires
        ascending(old(numbers)@),
    ensures
        ascending(final(numbers)@),
        final(numbers)@.to_multiset() == old(numbers)@.to_multiset().insert(n),
        final(numbers)@.len() == old(numbers)@.len() + 1,
{
    let ghost before = numbers@;
    let mut i: usize = numbers.len();
    while i > 0 && numbers[i - 1] > n
        invariant
            i <= numbers@.len(),
            numbers@ == before,
            forall|j: int| i <= j < numbers@.len() ==> numbers@[j] > n,
        decreases i,
    {
        i = i - 1;
    }
    numbers.insert(i, n);
    proof {
        let after = numbers@;
        assert(after =~= before.insert(i as int, n));
        assert(after.remove(i as int) =~= before);
        vstd::seq_lib::to_multiset_remove(after, i as int);
        broadcast use vstd::seq_lib::group_to_multiset_ensures;

        assert(after[i as int] == n);
        assert(after.contains(n));
        assert(after.to_multiset().count(n) > 0);
        assert(after.to_multiset() =~= before.to_multiset().insert(n));
    }
}

/// The base offsets in some file names, in the order of the names.
pub open spec fn segment_bases(names: Seq<String>) -> Seq<u64>
    decreases names.len(),
{
    if names.len() == 0 {
        Seq::empty()
    } else {
        let before = segment_bases(names.drop_last());
        match segment_base(names.last()@) {
            Some(base) => before.push(base as u64),
            None => before,
        }
    }
}

/// The base offsets of the segments among some files, in ascending order.
/// Files with other names are passed over.
pub fn discover_segment_offsets(names: &Vec<String>) -> (offsets: Vec<u64>)
    ensures
        ascending(offsets@),
        offsets@.to_multiset() == segment_bases(names@).to_multiset(),
        forall|base: u64| #[trigger]
            offsets@.contains(base) <==> exists|i: int|
                0 <= i < names@.len() && segment_base((#[trigger] names@[i])@) == Some(
                    base as nat,
                ),
{
    let mut offsets: Vec<u64> = Vec::new();
    let mut i: usize = 0;
    proof {
        broadcast use vstd::seq_lib::group_to_multiset_ensures;

        assert(names@.take(0) =~= Seq::<String>::empty());
    }
    while i < names.len()
        invariant
            i <= names@.len(),
            ascending(offsets@),
            offsets@.to_multiset() == segment_bases(names@.take(i as int)).to_multiset(),
        decreases names@.len() - i,
    {
        proof {
            broadcast use vstd::seq_lib::group_to_multiset_ensures;

            assert(names@.take(i + 1).drop_last() =~= names@.take(i as int));
        }
        match parse_segment_name(names[i].as_str()) {
            Some(base) => {
                insert_sorted(&mut offsets, base);
                proof {
                    vstd::seq_lib::to_multiset_build(
                        segment_bases(names@.take(i as int)),
                        base,
                    );
                }
            },
            None => {},
        }
        i = i + 1;
    }
    assert(names@.take(i as int) =~= names@);
    proof {
        let bases = segment_bases(names@);
        assert forall|base: u64| #[trigger] offsets@.contains(base) <==> exists|i: int|
            0 <= i < names@.len() && segment_base((#[trigger] names@[i])@) == Some(
                base as nat,
            ) by {
            broadcast use vstd::seq_lib::group_to_multiset_ensures;

            law_every_segment_is_found(names@, base);
            assert(offsets@.contains(base) <==> offsets@.to_multiset().count(base) > 0);
            assert(bases.contains(base) <==> bases.to_multiset().count(base) > 0);
        }
    }
    offsets
}

/// Whether two sequences agree up to `k`, and the first ends there or goes on
/// with the smaller byte.
pub open spec fn less_at(a: Seq<u8>, b: Seq<u8>, k: int) -> bool {
    &&& 0 <= k <= a.len()
    &&& k < b.len()
    &&& forall|i: int| 0 <= i < k ==> a[i] == b[i]
    &&& k == a.len() || a[k] < b[k]
}

/// Whether one sequence of bytes comes before another in lexicographic order.
pub open spec fn bytes_less(a: Seq<u8>, b: Seq<u8>) -> bool {
    exists|k: int| #[trigger] less_at(a, b, k)
}

/// Whether one text comes before another: by their bytes.
pub open spec fn text_less(a: Seq<char>, b: Seq<char>) -> bool {
    bytes_less(vstd::utf8::encode_utf8(a), vstd::utf8::encode_utf8(b))
}

/// Whether texts are in order, none twice.
pub open spec fn in_order(texts: Seq<String>) -> bool {
    forall|i: int, j: int|
        #![trigger texts[i], texts[j]]
        0 <= i < j < texts.len() ==> text_less(texts[i]@, texts[j]@)
}

/// Whether a text is among some texts.
pub open spec fn has_text(texts: Seq<String>, text: Seq<char>) -> bool {
    exists|i: int| 0 <= i < texts.len() && (#[trigger] texts[i])@ == text
}

/// Putting a text among others adds that text and no other.
pub proof fn lemma_insert_adds_text(
    before: Seq<String>,
    after: Seq<String>,
    text: String,
    other: Seq<char>,
)
    requires
        exists|p: int|
            0 <= p <= before.len() && after == #[trigger] before.insert(p, text),
    ensures
        has_text(after, other) <==> has_text(before, other) || other == text@,
{
    let p = choose|p: int| 0 <= p <= before.len() && after == #[trigger] before.insert(p, text);
    if has_text(before, other) {
        let i = choose|i: int| 0 <= i < before.len() && (#[trigger] before[i])@ == other;
        assert(after[if i < p {
            i
        } else {
            i + 1
        }]@ == other);
    }
    assert(after[p] == text);
    if has_text(after, other) {
        let i = choose|i: int| 0 <= i < after.len() && (#[trigger] after[i])@ == other;
        if i != p {
            assert(before[if i < p {
                i
            } else {
                i - 1
            }]@ == other);
        }
    }
}

proof fn lemma_less_transitive(a: Seq<u8>, b: Seq<u8>, c: Seq<u8>)
    requires
        bytes_less(a, b),
        bytes_less(b, c),
    ensures
        bytes_less(a, c),
{
    let k = choose|k: int| #[trigger] less_at(a, b, k);
    let l = choose|l: int| #[trigger] less_at(b, c, l);
    let m = if k < l {
        k
    } else {
        l
    };
    assert(less_at(a, c, m));
}

/// Whether two texts are the same.
pub fn same_text(a: &str, b: &str) -> (same: bool)
    ensures
        same == (a@ == b@),
{
    let x: &[u8] = a.as_bytes();
    let y: &[u8] = b.as_bytes();
    if x.len() != y.len() {
        return false;
    }
    let mut i: usize = 0;
    while i < x.len()
        invariant
            i <= x@.len(),
            x@.len() == y@.len(),
            x@ == vstd::utf8::encode_utf8(a@),
            y@ == vstd::utf8::encode_utf8(b@),
            forall|j: int| 0 <= j < i ==> x@[j] == y@[j],
        decreases x@.len() - i,
    {
        if x[i] != y[i] {
            return false;
        }
        i = i + 1;
    }
    proof {
        assert(x@ =~= y@);
        vstd::utf8::encode_utf8_decode_utf8(a@);
        vstd::utf8::encode_utf8_decode_utf8(b@);
    }
    true
}

/// Whether one text comes before another; the two are not the same.
fn comes_before(a: &str, b: &str) -> (before: bool)
    requires
        a@ != b@,
    ensures
        before == text_less(a@, b@),
        !before ==> text_less(b@, a@),
{
    let x: &[u8] = a.as_bytes();
    let y: &[u8] = b.as_bytes();
    let mut i: usize = 0;
    while i < x.len() && i < y.len() && x[i] == y[i]
        invariant
            i <= x@.len(),
            i <= y@.len(),
            forall|j: int| 0 <= j < i ==> x@[j] == y@[j],
        decreases x@.len() - i,
    {
        i = i + 1;
    }
    proof {
        vstd::utf8::encode_utf8_decode_utf8(a@);
        vstd::utf8::encode_utf8_decode_utf8(b@);
        if i == x@.len() && i == y@.len() {
            assert(x@ =~= y@);
        }
        assert forall|k: int| less_at(x@, y@, k) implies k == i by {
            if k < i {
                assert(x@[k] == y@[k]);
            }
        }
        assert forall|k: int| less_at(y@, x@, k) implies k == i by {
            if k < i {
                assert(x@[k] == y@[k]);
            }
        }
    }
    if i == y.len() {
        assert(less_at(y@, x@, i as int));
        false
    } else if i == x.len() || x[i] < y[i] {
        assert(less_at(x@, y@, i as int));
        true
    } else {
        assert(less_at(y@, x@, i as int));
        false
    }
}

/// Puts a text among texts in order, where it is not yet.
pub fn insert_text(texts: &mut Vec<String>, text: String)
    requires
        in_order(old(texts)@),
        forall|i: int| 0 <= i < old(texts)@.len() ==> (#[trigger] old(texts)@[i])@ != text@,
    ensures
        in_order(final(texts)@),
        exists|p: int|
            0 <= p <= old(texts)@.len() && final(texts)@ == #[trigger] old(texts)@.insert(p, text),
{
    let ghost before = texts@;
    let mut p: usize = texts.len();
    while p > 0 && comes_before(text.as_str(), texts[p - 1].as_str())
        invariant
            p <= texts@.len(),
            texts@ == before,
            forall|i: int| 0 <= i < before.len() ==> (#[trigger] before[i])@ != text@,
            forall|i: int| p <= i < before.len() ==> text_less(text@, (#[trigger] before[i])@),
        decreases p,
    {
        p = p - 1;
    }
    assert(p > 0 ==> text_less(before[p - 1]@, text@));
    texts.insert(p, text);
    proof {
        let after = texts@;
        assert(after == before.insert(p as int, text));
        assert forall|i: int, j: int|
            #![trigger after[i], after[j]]
            0 <= i < j < after.len() implies text_less(after[i]@, after[j]@) by {
            if i < p && j == p {
                assert(after[i] == before[i]);
                if i < p - 1 {
                    assert(text_less(before[i]@, before[p - 1]@));
                    lemma_less_transitive(
                        vstd::utf8::encode_utf8(before[i]@),
                        vstd::utf8::encode_utf8(before[p - 1]@),
                        vstd::utf8::encode_utf8(text@),
                    );
                }
            } else if i == p {
                assert(after[j] == before[j - 1]);
            } else {
                let x = if i < p {
                    i
                } else {
                    i - 1
                };
                let y = if j < p {
                    j
                } else {
                    j - 1
                };
                assert(after[i] == before[x]);
                assert(after[j] == before[y]);
            }
        }
    }
}

/// The value of digits is that of the digits before the last, ten times over,
/// and the last.
pub proof fn law_value_of_digits(digits: Seq<char>, last: char)
    requires
        '0' <= last <= '9',
    ensures
        value_of(Seq::empty()) == 0,
        value_of(digits.push(last)) == 10 * value_of(digits) + (last as int - 48),
{
    assert(digits.push(last).drop_last() =~= digits);
}

/// A number in decimal is made of digits, has none in front that could be left
/// out, and stands for the number.
pub proof fn law_decimal_stands_for_number(n: nat, i: int)
    ensures
        decimal(n).len() >= 1,
        0 <= i < decimal(n).len() ==> '0' <= decimal(n)[i] <= '9',
        n >= 10 ==> decimal(n).len() >= 2 && decimal(n)[0] != '0',
        value_of(decimal(n)) == n,
    decreases n,
{
    lemma_decimal_value(n);
    assert(0 <= i < decimal(n).len() ==> is_digit(decimal(n)[i]));
    if n >= 10 {
        law_decimal_stands_for_number(n / 10, 0);
        assert(decimal(n)[0] == decimal(n / 10)[0]);
        if n / 10 < 10 {
            assert(decimal(n / 10)[0] == digit(n / 10));
        }
    }
}

/// A number in hexadecimal is the number without its last hexadecimal digit,
/// and that digit: `0` to `9`, or `a` to `f` for ten to fifteen.
pub proof fn law_hexadecimal_digit_by_digit(n: nat)
    ensures
        ({
            let last = hexadecimal(n).last();
            let d = n % 16;
            &&& d < 10 ==> last as int == '0' as int + d
            &&& d >= 10 ==> last as int == 'a' as int + (d - 10)
        }),
        n < 16 ==> hexadecimal(n).len() == 1,
        n >= 16 ==> hexadecimal(n).drop_last() == hexadecimal(n / 16),
{
    if n >= 16 {
        assert(hexadecimal(n).drop_last() =~= hexadecimal(n / 16));
    }
}

/// A text is read as a number if and only if it is digits, at least one, with
/// or without a plus sign in front, and the number is not above the limit.
pub proof fn law_number_is_read_off_digits(text: Seq<char>, max: nat, n: nat)
    ensures
        (parse_number(text, max) == Some(n)) <==> n <= max && ({
            ||| text.len() >= 1 && value_of(text) == n && (forall|i: int|
                0 <= i < text.len() ==> '0' <= #[trigger] text[i] <= '9')
            ||| text.len() >= 2 && text[0] == '+' && value_of(text.skip(1)) == n && (forall|i: int|
                1 <= i < text.len() ==> '0' <= #[trigger] text[i] <= '9')
        }),
{
    let rest = text.skip(1);
    if text.len() >= 1 && text[0] == '+' {
        assert(!('0' <= text[0] <= '9'));
        if forall|i: int| 1 <= i < text.len() ==> '0' <= #[trigger] text[i] <= '9' {
            assert forall|i: int| 0 <= i < rest.len() implies is_digit(#[trigger] rest[i]) by {
                assert(rest[i] == text[i + 1]);
            }
        }
        if is_digits(rest) {
            assert forall|i: int| 1 <= i < text.len() implies '0' <= #[trigger] text[i] <= '9' by {
                assert(is_digit(rest[i - 1]));
            }
        }
    } else if is_digits(text) {
        assert forall|i: int| 0 <= i < text.len() implies '0' <= #[trigger] text[i] <= '9' by {
            assert(is_digit(text[i]));
        }
    }
}

/// The name of a segment's file is twenty digits that stand for the base
/// offset, and `.log`.
pub proof fn law_segment_name_spells_base(base: u64, i: int)
    ensures
        ({
            let number = zero_padded(base as nat, 20);
            &&& number.len() == 20
            &&& 0 <= i < 20 ==> '0' <= number[i] <= '9'
            &&& value_of(number) == base
        }),
{
    let n = base as nat;
    let zeros = (20 - decimal(n).len()) as nat;
    let number = zero_padded(n, 20);
    lemma_decimal_len_u64(base);
    lemma_decimal_value(n);
    lemma_zeros_in_front(zeros, decimal(n));
    assert(number =~= Seq::new(zeros, |i: int| '0') + decimal(n));
    if zeros <= i < 20 {
        assert(number[i] == decimal(n)[i - zeros]);
        assert(is_digit(decimal(n)[i - zeros]));
    }
}

/// Whether a file name is digits, with or without a plus sign in front, and
/// then `.log`, and the digits stand for this number, is decided by the
/// characters alone: those names, of whatever length and for whatever base
/// offset, are segments' names, and no others.
pub proof fn law_segment_name_is_digits_and_extension(name: Seq<char>, base: u64)
    ensures
        (segment_base(name) == Some(base as nat)) <==> ({
            let n = name.len() - 4;
            &&& n >= 1
            &&& name[n] == '.' && name[n + 1] == 'l' && name[n + 2] == 'o' && name[n + 3] == 'g'
            &&& ({
                ||| value_of(name.take(n)) == base && (forall|i: int|
                    0 <= i < n ==> '0' <= #[trigger] name[i] <= '9')
                ||| n >= 2 && name[0] == '+' && value_of(name.subrange(1, n)) == base && (forall|
                    i: int,
                |
                    1 <= i < n ==> '0' <= #[trigger] name[i] <= '9')
            })
        }),
{
    reveal_strlit(".log");
    let n = name.len() - 4;
    if n >= 0 {
        let stem = name.take(n);
        let ending = name.skip(n);
        law_number_is_read_off_digits(stem, u64::MAX as nat, base as nat);
        assert(ending[0] == name[n] && ending[1] == name[n + 1] && ending[2] == name[n + 2]
            && ending[3] == name[n + 3]);
        assert((ending == ".log"@) <==> name[n] == '.' && name[n + 1] == 'l' && name[n + 2] == 'o'
            && name[n + 3] == 'g') by {
            if name[n] == '.' && name[n + 1] == 'l' && name[n + 2] == 'o' && name[n + 3] == 'g' {
                assert(ending =~= ".log"@);
            }
        }
        if n >= 1 {
            assert(stem.skip(1) =~= name.subrange(1, n));
        }
        assert forall|i: int| 0 <= i < n implies #[trigger] stem[i] == name[i] by {}
        assert((forall|i: int| 0 <= i < n ==> '0' <= #[trigger] name[i] <= '9') <==> (forall|i: int|
            0 <= i < n ==> '0' <= #[trigger] stem[i] <= '9')) by {
            if forall|i: int| 0 <= i < n ==> '0' <= #[trigger] stem[i] <= '9' {
                assert forall|i: int| 0 <= i < n implies '0' <= #[trigger] name[i] <= '9' by {
                    assert('0' <= stem[i] <= '9');
                }
            }
        }
        assert((forall|i: int| 1 <= i < n ==> '0' <= #[trigger] name[i] <= '9') <==> (forall|i: int|
            1 <= i < n ==> '0' <= #[trigger] stem[i] <= '9')) by {
            if forall|i: int| 1 <= i < n ==> '0' <= #[trigger] stem[i] <= '9' {
                assert forall|i: int| 1 <= i < n implies '0' <= #[trigger] name[i] <= '9' by {
                    assert('0' <= stem[i] <= '9');
                }
            }
        }
    }
}

/// The base offsets found in some file names are those of the names, each as
/// often as it occurs: none is passed over, whatever its value, and none is
/// made up.
pub proof fn law_every_segment_is_found(names: Seq<String>, base: u64)
    ensures
        segment_bases(names).contains(base) <==> exists|i: int|
            0 <= i < names.len() && segment_base((#[trigger] names[i])@) == Some(base as nat),
        segment_bases(names).len() <= names.len(),
    decreases names.len(),
{
    let found = segment_bases(names);
    if names.len() > 0 {
        let before = names.drop_last();
        let last = names.len() - 1;
        law_every_segment_is_found(before, base);
        if segment_bases(before).contains(base) {
            let i = choose|i: int|
                0 <= i < before.len() && segment_base((#[trigger] before[i])@) == Some(
                    base as nat,
                );
            assert(names[i] == before[i]);
            let k = choose|k: int|
                0 <= k < segment_bases(before).len() && segment_bases(before)[k] == base;
            assert(found[k] == base);
        }
        if segment_base(names[last]@) == Some(base as nat) {
            assert(found.last() == base);
        }
        if found.contains(base) && !segment_bases(before).contains(base) {
            let k = choose|k: int| 0 <= k < found.len() && found[k] == base;
            if k < segment_bases(before).len() {
                assert(segment_bases(before)[k] == base);
            }
            lemma_segment_base_fits(names[last]@);
            assert(segment_base(names[last]@) == Some(base as nat));
        }
        if exists|i: int|
            0 <= i < names.len() && segment_base((#[trigger] names[i])@) == Some(base as nat) {
            let i = choose|i: int|
                0 <= i < names.len() && segment_base((#[trigger] names[i])@) == Some(base as nat);
            if i < last {
                assert(before[i] == names[i]);
            }
        }
    }
}

proof fn lemma_segment_base_fits(name: Seq<char>)
    ensures
        segment_base(name) matches Some(base) ==> base <= u64::MAX,
{
}

/// The segment files of a log are found for what they are, in any number, at
/// any base offset, and whatever other files lie between them.
pub proof fn law_segments_of_a_log_are_found(names: Seq<String>, bases: Seq<u64>)
    requires
        forall|k: int|
            0 <= k < bases.len() ==> exists|i: int|
                0 <= i < names.len() && (#[trigger] names[i])@ == zero_padded(
                    #[trigger] bases[k] as nat,
                    20,
                ) + ".log"@,
        forall|i: int|
            0 <= i < names.len() ==> segment_base((#[trigger] names[i])@) is None || exists|k: int|
                0 <= k < bases.len() && names[i]@ == zero_padded(#[trigger] bases[k] as nat, 20)
                    + ".log"@,
    ensures
        forall|base: u64| #[trigger]
            segment_bases(names).contains(base) <==> bases.contains(base),
{
    assert forall|base: u64| #[trigger] segment_bases(names).contains(base) <==> bases.contains(
        base,
    ) by {
        law_every_segment_is_found(names, base);
        law_segment_name_round_trip(base);
        if bases.contains(base) {
            let k = choose|k: int| 0 <= k < bases.len() && bases[k] == base;
            assert(bases[k] == base);
            let i = choose|i: int|
                0 <= i < names.len() && (#[trigger] names[i])@ == zero_padded(
                    bases[k] as nat,
                    20,
                ) + ".log"@;
            assert(segment_base(names[i]@) == Some(base as nat));
        }
        if segment_bases(names).contains(base) {
            let i = choose|i: int|
                0 <= i < names.len() && segment_base((#[trigger] names[i])@) == Some(base as nat);
            let k = choose|k: int|
                0 <= k < bases.len() && names[i]@ == zero_padded(#[trigger] bases[k] as nat, 20)
                    + ".log"@;
            law_segment_name_round_trip(bases[k]);
            assert(bases[k] == base);
        }
    }
}

/// Numbers in ascending order: none is greater than one behind it.
pub proof fn law_ascending_means_sorted(numbers: Seq<u64>, i: int, j: int)
    requires
        ascending(numbers),
        0 <= i <= j < numbers.len(),
    ensures
        numbers[i] <= numbers[j],
{
}

/// Texts in order differ from those behind them at some byte of their UTF-8
/// form, at which they have the smaller one or have ended.
pub proof fn law_order_is_by_bytes(texts: Seq<String>, i: int, j: int) -> (k: int)
    requires
        in_order(texts),
        0 <= i < j < texts.len(),
    ensures
        ({
            let a = vstd::utf8::encode_utf8(texts[i]@);
            let b = vstd::utf8::encode_utf8(texts[j]@);
            &&& 0 <= k <= a.len()
            &&& k < b.len()
            &&& forall|m: int| 0 <= m < k ==> a[m] == b[m]
            &&& k < a.len() ==> a[k] < b[k]
        }),
{
    let a = vstd::utf8::encode_utf8(texts[i]@);
    let b = vstd::utf8::encode_utf8(texts[j]@);
    assert(text_less(texts[i]@, texts[j]@));
    choose|k: int| #[trigger] less_at(a, b, k)
}

/// A text is among others if and only if one of them is the same, character by
/// character.
pub proof fn law_listed_means_listed(texts: Seq<String>, text: Seq<char>)
    ensures
        has_text(texts, text) <==> exists|i: int|
            0 <= i < texts.len() && (#[trigger] texts[i])@ == text,
{
}

} // verus!
