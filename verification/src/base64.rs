//! Base64 encoding and decoding.
//!
//! `encode` always pads its output; `decode` takes text with or without padding.
use vstd::prelude::*;
use vstd::utf8::*;
use crate::text::{decimal, has_part, hex_byte, hex_byte_string, law_parts_are_found, push_decimal};

verus! {

/// The character `=`, which fills up the last group of four.
pub const PADDING_CHAR: u8 = 61;

pub const BIT_GROUP_LEN: usize = 6;

/// Marks a byte that is no base64 character.
pub const BAD_IDX: u8 = 255;

/// The base64 characters, by value.
pub const TABLE: [u8; 64] = [
    65, 66, 67, 68, 69, 70, 71, 72, 73, 74, 75, 76, 77, 78, 79, 80,
    81, 82, 83, 84, 85, 86, 87, 88, 89, 90, 97, 98, 99, 100, 101, 102,
    103, 104, 105, 106, 107, 108, 109, 110, 111, 112, 113, 114, 115, 116, 117, 118,
    119, 120, 121, 122, 48, 49, 50, 51, 52, 53, 54, 55, 56, 57, 43, 47,
];

/// The value of each base64 character, by character.
pub const TABLE_REVERSE: [u8; 123] = [
    255, 255, 255, 255, 255, 255, 255, 255, 255, 255, 255, 255, 255, 255, 255, 255,
    255, 255, 255, 255, 255, 255, 255, 255, 255, 255, 255, 255, 255, 255, 255, 255,
    255, 255, 255, 255, 255, 255, 255, 255, 255, 255, 255, 62, 255, 255, 255, 63,
    52, 53, 54, 55, 56, 57, 58, 59, 60, 61, 255, 255, 255, 255, 255, 255,
    255, 0, 1, 2, 3, 4, 5, 6, 7, 8, 9, 10, 11, 12, 13, 14,
    15, 16, 17, 18, 19, 20, 21, 22, 23, 24, 25, 255, 255, 255, 255, 255,
    255, 26, 27, 28, 29, 30, 31, 32, 33, 34, 35, 36, 37, 38, 39, 40,
    41, 42, 43, 44, 45, 46, 47, 48, 49, 50, 51,
];

/// The base64 character of a value below 64.
pub open spec fn symbol(v: int) -> u8 {
    if v < 26 {
        (v + 65) as u8
    } else if v < 52 {
        (v + 71) as u8
    } else if v < 62 {
        (v - 4) as u8
    } else if v == 62 {
        43
    } else {
        47
    }
}

/// The value of a base64 character.
pub open spec fn index_of(b: u8) -> Option<u8> {
    if 65 <= b <= 90 {
        Some((b - 65) as u8)
    } else if 97 <= b <= 122 {
        Some((b - 71) as u8)
    } else if 48 <= b <= 57 {
        Some((b + 4) as u8)
    } else if b == 43 {
        Some(62u8)
    } else if b == 47 {
        Some(63u8)
    } else {
        None
    }
}

proof fn lemma_table()
    ensures
        forall|i: int| 0 <= i < 64 ==> #[trigger] TABLE@[i] == symbol(i),
{
}

proof fn lemma_table_reverse()
    ensures
        forall|i: int|
            0 <= i < 123 ==> #[trigger] TABLE_REVERSE@[i] == (match index_of(i as u8) {
                Some(v) => v,
                None => BAD_IDX,
            }),
{
}

/// Why a text is not base64.
#[derive(Clone, Debug)]
pub struct InvalidBase64String {
    pub invalid_byte: Option<u8>,
    pub index: usize,
}

impl InvalidBase64String {
    /// The wording of `message`.
    pub open spec fn message_text(&self) -> Seq<char> {
        match self.invalid_byte {
            Some(c) => if c == PADDING_CHAR {
                "Base64 string contains padding character that is not at the end of the string. '"@
                    + seq![c as char] + "' at index '"@ + decimal(self.index as nat) + "'"@
            } else {
                "Base64 string contains character that is not valid base64. '"@ + hex_byte(c)
                    + "'/'"@ + seq![c as char] + "' at index '"@ + decimal(self.index as nat)
                    + "'"@
            },
            None =>
                "Base64 string is invalid length. Must be empty or at least 2 characters, that are not only padding characters."@,
        }
    }

    /// The error in words.
    pub fn message(&self) -> (s: String)
        ensures
            s@ == self.message_text(),
    {
        let mut s = String::new();
        match self.invalid_byte {
            Some(c) => {
                if c == PADDING_CHAR {
                    s.push_str(
                        "Base64 string contains padding character that is not at the end of the string. '",
                    );
                } else {
                    s.push_str("Base64 string contains character that is not valid base64. '");
                    let h = hex_byte_string(c);
                    s.push_str(h.as_str());
                    s.push_str("'/'");
                }
                s.push(c as char);
                s.push_str("' at index '");
                push_decimal(&mut s, self.index as u64);
                s.push_str("'");
            },
            None => {
                s.push_str(
                    "Base64 string is invalid length. Must be empty or at least 2 characters, that are not only padding characters.",
                );
            },
        }
        assert(s@ =~= self.message_text());
        s
    }
}

/// The base64 characters of `b`, without padding.
pub open spec fn encoded_groups(b: Seq<u8>) -> Seq<u8>
    decreases b.len(),
{
    if b.len() == 0 {
        seq![]
    } else if b.len() == 1 {
        seq![symbol(b[0] as int / 4), symbol((b[0] as int % 4) * 16)]
    } else if b.len() == 2 {
        seq![
            symbol(b[0] as int / 4),
            symbol((b[0] as int % 4) * 16 + b[1] as int / 16),
            symbol((b[1] as int % 16) * 4),
        ]
    } else {
        seq![
            symbol(b[0] as int / 4),
            symbol((b[0] as int % 4) * 16 + b[1] as int / 16),
            symbol((b[1] as int % 16) * 4 + b[2] as int / 64),
            symbol(b[2] as int % 64),
        ] + encoded_groups(b.skip(3))
    }
}

/// The padding behind the characters of `len` bytes.
pub open spec fn padding(len: nat) -> Seq<u8> {
    if len % 3 == 0 {
        seq![]
    } else if len % 3 == 1 {
        seq![PADDING_CHAR, PADDING_CHAR]
    } else {
        seq![PADDING_CHAR]
    }
}

/// The padded base64 text of `b`, as bytes.
pub open spec fn encoded_bytes(b: Seq<u8>) -> Seq<u8> {
    encoded_groups(b) + padding(b.len())
}

/// Text of one character per byte.
pub open spec fn ascii_text(b: Seq<u8>) -> Seq<char> {
    Seq::new(b.len(), |i: int| b[i] as char)
}

/// The padded base64 text of `b`.
pub open spec fn encoded(b: Seq<u8>) -> Seq<char> {
    ascii_text(encoded_bytes(b))
}

/// Length of the padded base64 text of `len` bytes.
pub open spec fn encoded_len(len: nat) -> nat {
    (len + 2) / 3 * 4
}

proof fn lemma_encoded_groups_split(b: Seq<u8>, i: int)
    requires
        0 <= i < b.len(),
        i % 3 == 0,
    ensures
        encoded_groups(b.take(i)) + encoded_groups(b.skip(i)) == encoded_groups(b),
    decreases b.len(),
{
    if i == 0 {
        assert(b.take(0) =~= Seq::<u8>::empty());
        assert(b.skip(0) =~= b);
        assert(encoded_groups(b.take(0)) + encoded_groups(b) =~= encoded_groups(b));
    } else {
        let c = b.skip(3);
        lemma_encoded_groups_split(c, i - 3);
        assert(b.take(i).skip(3) =~= c.take(i - 3));
        assert(b.skip(i) =~= c.skip(i - 3));
        assert(encoded_groups(b.take(i)) + encoded_groups(b.skip(i)) =~= encoded_groups(b));
    }
}

proof fn lemma_encoded_groups_extend(b: Seq<u8>, i: int)
    requires
        0 <= i,
        i + 3 <= b.len(),
        i % 3 == 0,
    ensures
        encoded_groups(b.take(i + 3)) == encoded_groups(b.take(i)) + encoded_groups(
            b.subrange(i, i + 3),
        ),
{
    let c = b.take(i + 3);
    lemma_encoded_groups_split(c, i);
    assert(c.take(i) =~= b.take(i));
    assert(c.skip(i) =~= b.subrange(i, i + 3));
}

proof fn lemma_encoded_groups_len(b: Seq<u8>)
    ensures
        encoded_groups(b).len() + padding(b.len()).len() == encoded_len(b.len()),
    decreases b.len(),
{
    if b.len() >= 3 {
        lemma_encoded_groups_len(b.skip(3));
    }
}

/// The padded text has four characters for every three bytes, rounded up.
pub proof fn law_encoded_len(b: Seq<u8>)
    ensures
        encoded(b).len() == encoded_len(b.len()),
{
    lemma_encoded_groups_len(b);
}

fn table_at(v: u8) -> (c: u8)
    requires
        v < 64,
    ensures
        c == symbol(v as int),
{
    proof {
        lemma_table();
    }
    TABLE[v as usize]
}

/// Encode bytes to base64 string.
pub fn encode(bytes: &[u8]) -> (s: String)
    requires
        bytes@.len() * 8 <= usize::MAX,
    ensures
        s@ == encoded(bytes@),
{
    let len: usize = bytes.len();
    let mut output: Vec<u8> = Vec::with_capacity(get_encode_capacity(bytes));
    let mut i: usize = 0;
    while i + 3 <= len
        invariant
            i % 3 == 0,
            i <= len,
            len == bytes@.len(),
            len * 8 <= usize::MAX,
            output@ == encoded_groups(bytes@.take(i as int)),
        decreases len - i,
    {
        output.push(table_at(bytes[i] / 4));
        output.push(table_at((bytes[i] % 4) * 16 + bytes[i + 1] / 16));
        output.push(table_at((bytes[i + 1] % 16) * 4 + bytes[i + 2] / 64));
        output.push(table_at(bytes[i + 2] % 64));
        proof {
            let g = bytes@.subrange(i as int, i + 3);
            lemma_encoded_groups_extend(bytes@, i as int);
            assert(encoded_groups(g.skip(3)) =~= seq![]);
            assert(output@ =~= encoded_groups(bytes@.take(i as int)) + encoded_groups(g));
        }
        i += 3;
    }
    proof {
        if i < len {
            lemma_encoded_groups_split(bytes@, i as int);
        } else {
            assert(bytes@.take(i as int) =~= bytes@);
        }
    }
    if i < len {
        output.push(table_at(bytes[i] / 4));
        if i + 1 < len {
            output.push(table_at((bytes[i] % 4) * 16 + bytes[i + 1] / 16));
            output.push(table_at((bytes[i + 1] % 16) * 4));
            output.push(PADDING_CHAR);
        } else {
            output.push(table_at((bytes[i] % 4) * 16));
            output.push(PADDING_CHAR);
            output.push(PADDING_CHAR);
        }
    }
    assert(output@ =~= encoded_bytes(bytes@));
    ascii_string(output.as_slice())
}

/// The string with one character per byte.
fn ascii_string(bytes: &[u8]) -> (s: String)
    ensures
        s@ == ascii_text(bytes@),
{
    let mut s = String::new();
    let mut i: usize = 0;
    while i < bytes.len()
        invariant
            i <= bytes.len(),
            s@ == ascii_text(bytes@.take(i as int)),
        decreases bytes.len() - i,
    {
        s.push(bytes[i] as char);
        i += 1;
        assert(s@ =~= ascii_text(bytes@.take(i as int)));
    }
    assert(bytes@.take(i as int) =~= bytes@);
    s
}

/// Length of the padded base64 text of `input_bytes`.
fn get_encode_capacity(input_bytes: &[u8]) -> (capacity: usize)
    requires
        input_bytes@.len() * 8 <= usize::MAX,
    ensures
        capacity == encoded_len(input_bytes@.len()),
{
    let bits: usize = input_bytes.len() * 8;
    let mut capacity: usize = bits / BIT_GROUP_LEN;
    if bits % BIT_GROUP_LEN != 0 {
        capacity += 1;
    }
    let rest: usize = capacity % 4;
    if rest != 0 {
        capacity += 4 - rest;
    }
    capacity
}

/// First, second and third byte of a group of four values.
pub open spec fn group_byte_1(a: u8, b: u8) -> u8 {
    (a * 4 + b / 16) as u8
}

pub open spec fn group_byte_2(b: u8, c: u8) -> u8 {
    ((b % 16) * 16 + c / 4) as u8
}

pub open spec fn group_byte_3(c: u8, d: u8) -> u8 {
    ((c % 4) * 64 + d) as u8
}

/// How many base64 characters a text starts with.
pub open spec fn leading(b: Seq<u8>) -> nat
    decreases b.len(),
{
    if b.len() == 0 || index_of(b[0]) is None {
        0
    } else {
        1 + leading(b.skip(1))
    }
}

/// The value of the character at an index.
pub open spec fn value_at(b: Seq<u8>, i: int) -> u8 {
    index_of(b[i])->0
}

/// The byte at index `j` of what base64 characters stand for, six bits each.
pub open spec fn unpacked_byte(b: Seq<u8>, j: int) -> u8 {
    let i = j / 3 * 4;
    if j % 3 == 0 {
        group_byte_1(value_at(b, i), value_at(b, i + 1))
    } else if j % 3 == 1 {
        group_byte_2(value_at(b, i + 1), value_at(b, i + 2))
    } else {
        group_byte_3(value_at(b, i + 2), value_at(b, i + 3))
    }
}

/// The bytes that base64 characters stand for; bits that do not fill a byte are dropped.
pub open spec fn unpacked(b: Seq<u8>) -> Seq<u8> {
    Seq::new(b.len() * 6 / 8, |j: int| unpacked_byte(b, j))
}

/// Whether a text from index `i` on is nothing but padding, of at most two characters.
pub open spec fn is_padding_from(b: Seq<u8>, i: int) -> bool {
    b.len() - i <= 2 && forall|k: int| i <= k < b.len() ==> #[trigger] b[k] == PADDING_CHAR
}

/// What decoding gives: the bytes, or why the text is not base64.
pub type Decoded = Result<Seq<u8>, InvalidBase64String>;

/// What a text, given as its bytes, decodes to: the bytes that its base64 characters stand for,
/// where nothing else is behind them but the padding of a group that has begun. A group of one
/// character stands for no byte.
pub open spec fn decoded(b: Seq<u8>) -> Decoded {
    let n = leading(b) as int;
    let no_length = Err(InvalidBase64String { invalid_byte: None, index: 0 });
    if b.len() == 0 {
        Ok(seq![])
    } else if b.len() == 1 || (b.len() < 4 && b[b.len() - 1] == PADDING_CHAR && b[b.len() - 2]
        == PADDING_CHAR) {
        no_length
    } else if n == b.len() {
        if n % 4 == 1 {
            no_length
        } else {
            Ok(unpacked(b))
        }
    } else if n % 4 >= 2 && is_padding_from(b, n) {
        Ok(unpacked(b.take(n)))
    } else {
        Err(InvalidBase64String { invalid_byte: Some(b[n]), index: n as usize })
    }
}

/// The outcome of `decode`, with the bytes as a sequence.
pub open spec fn outcome(r: Result<Vec<u8>, InvalidBase64String>) -> Decoded {
    match r {
        Ok(v) => Ok(v@),
        Err(e) => Err(e),
    }
}

proof fn lemma_leading(b: Seq<u8>, n: int)
    requires
        0 <= n <= b.len(),
        forall|k: int| 0 <= k < n ==> index_of(#[trigger] b[k]) is Some,
        n < b.len() ==> index_of(b[n]) is None,
    ensures
        leading(b) == n,
    decreases b.len(),
{
    if n > 0 {
        let c = b.skip(1);
        assert forall|k: int| 0 <= k < n - 1 implies index_of(#[trigger] c[k]) is Some by {
            assert(c[k] == b[k + 1]);
        }
        assert(index_of(b[0]) is Some);
        lemma_leading(c, n - 1);
    }
}

fn get_index_of_byte(byte: u8, byte_index: usize) -> (r: Result<u8, InvalidBase64String>)
    ensures
        match index_of(byte) {
            Some(v) => r == Ok::<u8, InvalidBase64String>(v) && v < 64,
            None => r == Err::<u8, InvalidBase64String>(
                (InvalidBase64String { invalid_byte: Some(byte), index: byte_index }),
            ),
        },
{
    proof {
        lemma_table_reverse();
    }
    if byte as usize >= TABLE_REVERSE.len() || TABLE_REVERSE[byte as usize] == BAD_IDX {
        return Err(InvalidBase64String { invalid_byte: Some(byte), index: byte_index });
    }
    Ok(TABLE_REVERSE[byte as usize])
}

/// How many bytes a text of at least two characters decodes to where its padding is in place.
fn get_decode_capacity(string_bytes: &[u8]) -> (capacity: usize)
    requires
        2 <= string_bytes@.len(),
        string_bytes@.len() * 6 <= usize::MAX,
        string_bytes@.len() >= 4 || !(string_bytes@[string_bytes@.len() - 1] == PADDING_CHAR
            && string_bytes@[string_bytes@.len() - 2] == PADDING_CHAR),
    ensures
        capacity == string_bytes@.len() * 6 / 8 - (if string_bytes@[string_bytes@.len() - 1]
            == PADDING_CHAR {
            1int
        } else {
            0
        }) - (if string_bytes@[string_bytes@.len() - 2] == PADDING_CHAR {
            1int
        } else {
            0
        }),
{
    let len: usize = string_bytes.len();
    let mut capacity: usize = len * BIT_GROUP_LEN / 8;
    if string_bytes[len - 1] == PADDING_CHAR {
        capacity -= 1;
    }
    if string_bytes[len - 2] == PADDING_CHAR {
        capacity -= 1;
    }
    capacity
}

proof fn lemma_unpacked_group_begins(b: Seq<u8>, i: int)
    requires
        0 <= i < b.len(),
        i % 4 == 0,
    ensures
        unpacked(b.take(i + 1)) == unpacked(b.take(i)),
{
    let t = b.take(i + 1);
    let s = b.take(i);
    assert(unpacked(t).len() == i / 4 * 3);
    assert(unpacked(s).len() == i / 4 * 3);
    assert forall|j: int| 0 <= j < i / 4 * 3 implies #[trigger] unpacked(t)[j] == unpacked(
        s,
    )[j] by {
        let k = j / 3 * 4;
        assert(t[k] == s[k] && t[k + 1] == s[k + 1] && t[k + 2] == s[k + 2] && t[k + 3] == s[k
            + 3]);
    }
    assert(unpacked(t) =~= unpacked(s));
}

/// The bytes grow by one with the second, the third and the fourth character of a group.
proof fn lemma_unpacked_grows(b: Seq<u8>, i: int, n: int)
    requires
        0 <= i,
        i % 4 == 0,
        2 <= n <= 4,
        i + n <= b.len(),
    ensures
        unpacked(b.take(i + n)) == unpacked(
            b.take(
                if n == 2 {
                    i
                } else {
                    i + n - 1
                },
            ),
        ).push(
            if n == 2 {
                group_byte_1(value_at(b, i), value_at(b, i + 1))
            } else if n == 3 {
                group_byte_2(value_at(b, i + 1), value_at(b, i + 2))
            } else {
                group_byte_3(value_at(b, i + 2), value_at(b, i + 3))
            },
        ),
{
    let t = b.take(i + n);
    let s = b.take(
        if n == 2 {
            i
        } else {
            i + n - 1
        },
    );
    let last = i / 4 * 3 + n - 2;
    assert(unpacked(t).len() == last + 1);
    assert(unpacked(s).len() == last);
    assert forall|j: int| 0 <= j < last implies #[trigger] unpacked(t)[j] == unpacked(s)[j] by {
        let k = j / 3 * 4;
        assert(t[k] == s[k] && t[k + 1] == s[k + 1]);
        if j % 3 >= 1 {
            assert(t[k + 2] == s[k + 2]);
        }
        if j % 3 == 2 {
            assert(t[k + 3] == s[k + 3]);
        }
    }
    assert(last / 3 * 4 == i);
    assert(unpacked(t) =~= unpacked(s).push(unpacked_byte(t, last)));
}

/// Whether a text from index `i` on is nothing but padding, of at most two characters.
fn ends_in_padding(bytes: &[u8], i: usize) -> (r: bool)
    requires
        i < bytes@.len(),
    ensures
        r == is_padding_from(bytes@, i as int),
{
    let len: usize = bytes.len();
    if len - i > 2 || bytes[i] != PADDING_CHAR {
        return false;
    }
    len - i == 1 || bytes[i + 1] == PADDING_CHAR
}

fn first_byte(one: u8, two: u8) -> (r: u8)
    requires
        one < 64,
        two < 64,
    ensures
        r == group_byte_1(one, two),
{
    one * 4 + two / 16
}

fn second_byte(two: u8, three: u8) -> (r: u8)
    requires
        three < 64,
    ensures
        r == group_byte_2(two, three),
{
    (two % 16) * 16 + three / 4
}

fn third_byte(three: u8, four: u8) -> (r: u8)
    requires
        four < 64,
    ensures
        r == group_byte_3(three, four),
{
    (three % 4) * 64 + four
}

/// What is known once the first `i` characters are through.
#[verifier::opaque]
spec fn is_decoded_to(b: Seq<u8>, i: int, output: Seq<u8>) -> bool {
    &&& 0 <= i <= b.len()
    &&& forall|k: int| 0 <= k < i ==> index_of(#[trigger] b[k]) is Some
    &&& output == unpacked(b.take(i))
}

/// Whether a text is long enough to be decoded at all.
spec fn has_length(b: Seq<u8>) -> bool {
    b.len() >= 2 && (b.len() >= 4 || !(b[b.len() - 1] == PADDING_CHAR && b[b.len() - 2]
        == PADDING_CHAR))
}

/// One character more. The first of a group adds no byte yet.
proof fn lemma_decoded_one_more(b: Seq<u8>, i: int, output: Seq<u8>)
    requires
        is_decoded_to(b, i, output),
        i < b.len(),
        index_of(b[i]) is Some,
    ensures
        is_decoded_to(
            b,
            i + 1,
            if i % 4 == 0 {
                output
            } else if i % 4 == 1 {
                output.push(group_byte_1(value_at(b, i - 1), value_at(b, i)))
            } else if i % 4 == 2 {
                output.push(group_byte_2(value_at(b, i - 1), value_at(b, i)))
            } else {
                output.push(group_byte_3(value_at(b, i - 1), value_at(b, i)))
            },
        ),
{
    reveal(is_decoded_to);
    let g = i - i % 4;
    if i % 4 == 0 {
        lemma_unpacked_group_begins(b, i);
    } else {
        lemma_unpacked_grows(b, g, i % 4 + 1);
        if i % 4 == 1 {
            lemma_unpacked_group_begins(b, g);
        }
    }
}

proof fn lemma_decoded_at_end(b: Seq<u8>, output: Seq<u8>)
    requires
        has_length(b),
        is_decoded_to(b, b.len() as int, output),
        b.len() % 4 != 1,
    ensures
        decoded(b) == Ok::<Seq<u8>, InvalidBase64String>(output),
{
    reveal(is_decoded_to);
    lemma_leading(b, b.len() as int);
    assert(b.take(b.len() as int) =~= b);
}

/// What a character that is not base64 decodes to.
proof fn lemma_decoded_at(b: Seq<u8>, i: int, output: Seq<u8>)
    requires
        has_length(b),
        is_decoded_to(b, i, output),
        i < b.len(),
        index_of(b[i]) is None,
    ensures
        decoded(b) == if i % 4 >= 2 && is_padding_from(b, i) {
            Ok::<Seq<u8>, InvalidBase64String>(output)
        } else {
            Err(InvalidBase64String { invalid_byte: Some(b[i]), index: i as usize })
        },
{
    reveal(is_decoded_to);
    lemma_leading(b, i);
}

proof fn lemma_lone_character(b: Seq<u8>, output: Seq<u8>)
    requires
        has_length(b),
        is_decoded_to(b, b.len() as int, output),
        b.len() % 4 == 1,
    ensures
        decoded(b) == Err::<Seq<u8>, InvalidBase64String>(
            InvalidBase64String { invalid_byte: None, index: 0 },
        ),
{
    reveal(is_decoded_to);
    lemma_leading(b, b.len() as int);
}

/// Decodes a group of four characters, or what the text ends with; nothing where it goes on.
fn decode_group(bytes: &[u8], i: usize, output: &mut Vec<u8>) -> (r: Option<
    Result<(), InvalidBase64String>,
>)
    requires
        has_length(bytes@),
        bytes@.len() * 6 <= usize::MAX,
        i < bytes@.len(),
        i % 4 == 0,
        is_decoded_to(bytes@, i as int, old(output)@),
    ensures
        match r {
            None => i + 4 <= bytes@.len() && is_decoded_to(bytes@, i + 4, final(output)@),
            Some(Ok(())) => decoded(bytes@) == Ok::<Seq<u8>, InvalidBase64String>(final(output)@),
            Some(Err(e)) => decoded(bytes@) == Err::<Seq<u8>, InvalidBase64String>(e),
        },
{
    let len: usize = bytes.len();
    let index_one: u8 = match get_index_of_byte(bytes[i], i) {
        Ok(v) => v,
        Err(e) => {
            proof {
                lemma_decoded_at(bytes@, i as int, output@);
            }
            return Some(Err(e));
        },
    };
    proof {
        lemma_decoded_one_more(bytes@, i as int, output@);
    }
    if i + 1 >= len {
        proof {
            lemma_lone_character(bytes@, output@);
        }
        return Some(Err(InvalidBase64String { invalid_byte: None, index: 0 }));
    }
    let index_two: u8 = match get_index_of_byte(bytes[i + 1], i + 1) {
        Ok(v) => v,
        Err(e) => {
            proof {
                lemma_decoded_at(bytes@, i + 1, output@);
            }
            return Some(Err(e));
        },
    };
    proof {
        lemma_decoded_one_more(bytes@, i + 1, output@);
    }
    output.push(first_byte(index_one, index_two));
    if i + 2 >= len {
        proof {
            lemma_decoded_at_end(bytes@, output@);
        }
        return Some(Ok(()));
    }
    let index_three: u8 = match get_index_of_byte(bytes[i + 2], i + 2) {
        Ok(v) => v,
        Err(e) => {
            proof {
                lemma_decoded_at(bytes@, i + 2, output@);
            }
            return if ends_in_padding(bytes, i + 2) {
                Some(Ok(()))
            } else {
                Some(Err(e))
            };
        },
    };
    proof {
        lemma_decoded_one_more(bytes@, i + 2, output@);
    }
    output.push(second_byte(index_two, index_three));
    if i + 3 >= len {
        proof {
            lemma_decoded_at_end(bytes@, output@);
        }
        return Some(Ok(()));
    }
    let index_four: u8 = match get_index_of_byte(bytes[i + 3], i + 3) {
        Ok(v) => v,
        Err(e) => {
            proof {
                lemma_decoded_at(bytes@, i + 3, output@);
            }
            return if ends_in_padding(bytes, i + 3) {
                Some(Ok(()))
            } else {
                Some(Err(e))
            };
        },
    };
    proof {
        lemma_decoded_one_more(bytes@, i + 3, output@);
    }
    output.push(third_byte(index_three, index_four));
    None
}

/// Decode base64 string to bytes. Handles padding and no padding.
pub fn decode(base64_string: &str) -> (r: Result<Vec<u8>, InvalidBase64String>)
    requires
        encode_utf8(base64_string@).len() * 6 <= usize::MAX,
    ensures
        outcome(r) == decoded(encode_utf8(base64_string@)),
{
    let bytes = base64_string.as_bytes();
    let len: usize = bytes.len();
    if len == 0 {
        return Ok(Vec::new());
    }
    if len == 1 {
        return Err(InvalidBase64String { invalid_byte: None, index: 0 });
    }
    if len < 4 && bytes[len - 1] == PADDING_CHAR && bytes[len - 2] == PADDING_CHAR {
        return Err(InvalidBase64String { invalid_byte: None, index: 0 });
    }
    let mut output: Vec<u8> = Vec::with_capacity(get_decode_capacity(bytes));
    let mut i: usize = 0;
    proof {
        reveal(is_decoded_to);
        assert(output@ =~= unpacked(bytes@.take(0)));
    }
    while i < len
        invariant
            len == bytes@.len(),
            len * 6 <= usize::MAX,
            has_length(bytes@),
            i <= len,
            i % 4 == 0,
            bytes@ == encode_utf8(base64_string@),
            is_decoded_to(bytes@, i as int, output@),
        decreases len - i,
    {
        match decode_group(bytes, i, &mut output) {
            Some(Ok(())) => return Ok(output),
            Some(Err(e)) => return Err(e),
            None => {},
        }
        i += 4;
    }
    proof {
        lemma_decoded_at_end(bytes@, output@);
    }
    Ok(output)
}

proof fn lemma_index_of_symbol(v: int)
    requires
        0 <= v < 64,
    ensures
        index_of(symbol(v)) == Some(v as u8),
        symbol(v) != PADDING_CHAR,
{
}

/// The four values of three bytes, and the bytes again.
proof fn lemma_group(a: u8, b: u8, c: u8)
    ensures
        ({
            let v1 = a as int / 4;
            let v2 = (a as int % 4) * 16 + b as int / 16;
            let v3 = (b as int % 16) * 4 + c as int / 64;
            let v4 = c as int % 64;
            &&& index_of(symbol(v1)) == Some(v1 as u8)
            &&& index_of(symbol(v2)) == Some(v2 as u8)
            &&& index_of(symbol(v3)) == Some(v3 as u8)
            &&& index_of(symbol(v4)) == Some(v4 as u8)
            &&& symbol(v3) != PADDING_CHAR
            &&& symbol(v4) != PADDING_CHAR
            &&& group_byte_1(v1 as u8, v2 as u8) == a
            &&& group_byte_2(v2 as u8, v3 as u8) == b
            &&& group_byte_3(v3 as u8, v4 as u8) == c
        }),
{
    let v1 = a as int / 4;
    let v2 = (a as int % 4) * 16 + b as int / 16;
    let v3 = (b as int % 16) * 4 + c as int / 64;
    let v4 = c as int % 64;
    lemma_index_of_symbol(v1);
    lemma_index_of_symbol(v2);
    lemma_index_of_symbol(v3);
    lemma_index_of_symbol(v4);
}

/// The byte at an index three further stands in the characters four further.
proof fn lemma_unpacked_byte_skip(e: Seq<u8>, j: int)
    requires
        3 <= j < e.len() * 6 / 8,
    ensures
        unpacked_byte(e, j) == unpacked_byte(e.skip(4), j - 3),
{
    let i = (j - 3) / 3 * 4;
    let rest = e.skip(4);
    assert(j / 3 * 4 == i + 4);
    assert(e[i + 4] == rest[i] && e[i + 5] == rest[i + 1]);
    if j % 3 >= 1 {
        assert(e[i + 6] == rest[i + 2]);
    }
    if j % 3 == 2 {
        assert(e[i + 7] == rest[i + 3]);
    }
}

/// The first group of characters, and what it stands for.
proof fn lemma_first_group(b: Seq<u8>)
    requires
        b.len() >= 3,
    ensures
        ({
            let e = encoded_groups(b);
            &&& e.len() == 4 + encoded_groups(b.skip(3)).len()
            &&& e.skip(4) == encoded_groups(b.skip(3))
            &&& forall|i: int| 0 <= i < 4 ==> index_of(#[trigger] e[i]) is Some
            &&& unpacked_byte(e, 0) == b[0]
            &&& unpacked_byte(e, 1) == b[1]
            &&& unpacked_byte(e, 2) == b[2]
        }),
{
    lemma_group(b[0], b[1], b[2]);
    assert(encoded_groups(b).skip(4) =~= encoded_groups(b.skip(3)));
}

/// The characters of bytes stand for these bytes.
proof fn lemma_unpacked_groups(b: Seq<u8>)
    ensures
        unpacked(encoded_groups(b)) == b,
    decreases b.len(),
{
    let e = encoded_groups(b);
    lemma_encoded_groups_len(b);
    if b.len() == 0 {
    } else if b.len() == 1 {
        lemma_group(b[0], 0, 0);
    } else if b.len() == 2 {
        lemma_group(b[0], b[1], 0);
    } else {
        let c = b.skip(3);
        lemma_first_group(b);
        lemma_unpacked_groups(c);
        assert forall|j: int| 0 <= j < b.len() implies #[trigger] unpacked(e)[j] == b[j] by {
            if j >= 3 {
                lemma_unpacked_byte_skip(e, j);
                assert(unpacked(e.skip(4))[j - 3] == c[j - 3]);
            }
        }
    }
    assert(unpacked(e) =~= b);
}

/// The characters of bytes are base64 characters, and their padding fills the last group.
proof fn lemma_groups_are_filled(b: Seq<u8>)
    ensures
        encoded_groups(b).len() % 4 != 1,
        fill(encoded_groups(b).len()) == padding(b.len()),
        forall|i: int|
            0 <= i < encoded_groups(b).len() ==> index_of(#[trigger] encoded_groups(b)[i]) is Some,
    decreases b.len(),
{
    if b.len() == 1 {
        lemma_group(b[0], 0, 0);
    } else if b.len() == 2 {
        lemma_group(b[0], b[1], 0);
    } else if b.len() >= 3 {
        let e = encoded_groups(b);
        let rest = encoded_groups(b.skip(3));
        lemma_first_group(b);
        lemma_groups_are_filled(b.skip(3));
        assert forall|i: int| 0 <= i < e.len() implies index_of(#[trigger] e[i]) is Some by {
            if i >= 4 {
                assert(e.skip(4)[i - 4] == e[i]);
            }
        }
    }
}

proof fn lemma_ascii_text(b: Seq<u8>)
    requires
        forall|i: int| 0 <= i < b.len() ==> b[i] < 128,
    ensures
        encode_utf8(ascii_text(b)) == b,
{
    let t = ascii_text(b);
    assert(is_ascii_chars(t));
    is_ascii_chars_encode_utf8(t);
    assert(encode_utf8(t) =~= b);
}

proof fn lemma_encoded_groups_ascii(b: Seq<u8>)
    ensures
        forall|i: int|
            0 <= i < encoded_groups(b).len() ==> 43 <= #[trigger] encoded_groups(b)[i] < 123
                && encoded_groups(b)[i] != PADDING_CHAR,
    decreases b.len(),
{
    if b.len() >= 3 {
        let rest = encoded_groups(b.skip(3));
        lemma_encoded_groups_ascii(b.skip(3));
        assert forall|i: int| 0 <= i < encoded_groups(b).len() implies 43
            <= #[trigger] encoded_groups(b)[i] < 123 && encoded_groups(b)[i] != PADDING_CHAR by {
            if i >= 4 {
                assert(encoded_groups(b)[i] == rest[i - 4]);
            }
        }
    }
}

/// The padding that makes a text of `len` base64 characters one of whole groups of four.
pub open spec fn fill(len: nat) -> Seq<u8> {
    if len % 4 == 2 {
        seq![PADDING_CHAR, PADDING_CHAR]
    } else if len % 4 == 3 {
        seq![PADDING_CHAR]
    } else {
        seq![]
    }
}

/// Padding makes no difference: any base64 characters that do not end in a group of one decode to
/// the bytes that they stand for, with the padding that fills their last group and without it.
pub proof fn law_decode_without_padding(t: Seq<u8>)
    requires
        forall|i: int| 0 <= i < t.len() ==> index_of(#[trigger] t[i]) is Some,
        t.len() % 4 != 1,
    ensures
        decoded(encode_utf8(ascii_text(t))) == Ok::<Seq<u8>, InvalidBase64String>(unpacked(t)),
        decoded(encode_utf8(ascii_text(t + fill(t.len())))) == Ok::<
            Seq<u8>,
            InvalidBase64String,
        >(unpacked(t)),
{
    let p = t + fill(t.len());
    lemma_ascii_text(t);
    lemma_ascii_text(p);
    lemma_leading(t, t.len() as int);
    lemma_leading(p, t.len() as int);
    if t.len() == 0 {
        assert(unpacked(t) =~= seq![]);
        assert(p =~= t);
    } else {
        if t.len() < 4 {
            assert(t[t.len() - 1] != PADDING_CHAR);
        }
        if t.len() % 4 == 0 {
            assert(p =~= t);
        }
        assert(p.take(t.len() as int) =~= t);
    }
}

/// Decoding what was encoded gives back the bytes, also where the padding has been taken off.
pub proof fn law_decode_of_encode(b: Seq<u8>)
    ensures
        decoded(encode_utf8(encoded(b))) == Ok::<Seq<u8>, InvalidBase64String>(b),
        decoded(encode_utf8(ascii_text(encoded_groups(b)))) == Ok::<
            Seq<u8>,
            InvalidBase64String,
        >(b),
{
    lemma_unpacked_groups(b);
    lemma_groups_are_filled(b);
    law_decode_without_padding(encoded_groups(b));
}

/// Different bytes have different texts.
pub proof fn law_encoded_injective(a: Seq<u8>, b: Seq<u8>)
    requires
        encoded(a) == encoded(b),
    ensures
        a == b,
{
    law_decode_of_encode(a);
    law_decode_of_encode(b);
}

/// The characters of a base64 text lie between `+` and `z`.
pub proof fn lemma_encoded_chars(b: Seq<u8>)
    ensures
        forall|i: int| 0 <= i < encoded(b).len() ==> '+' <= #[trigger] encoded(b)[i] <= 'z',
{
    lemma_encoded_groups_ascii(b);
    assert forall|i: int| 0 <= i < encoded(b).len() implies '+' <= #[trigger] encoded(b)[i]
        <= 'z' by {
        if i < encoded_groups(b).len() {
            assert(encoded_bytes(b)[i] == encoded_groups(b)[i]);
        }
    }
}

/// The characters of base64 stand for values in this order: the capital letters, the small letters,
/// the digits, plus and slash.
pub proof fn law_alphabet(c: char)
    requires
        (c as u32) < 128,
    ensures
        'A' <= c <= 'Z' ==> index_of(c as u8) == Some((c as int - 'A' as int) as u8),
        'a' <= c <= 'z' ==> index_of(c as u8) == Some((c as int - 'a' as int + 26) as u8),
        '0' <= c <= '9' ==> index_of(c as u8) == Some((c as int - '0' as int + 52) as u8),
        c == '+' ==> index_of(c as u8) == Some(62u8),
        c == '/' ==> index_of(c as u8) == Some(63u8),
        index_of(c as u8) is Some ==> 'A' <= c <= 'Z' || 'a' <= c <= 'z' || '0' <= c <= '9' || c
            == '+' || c == '/',
{
}

/// Three bytes, read as one number from the first byte on, have the four characters as digits in
/// base 64; fewer bytes stand for the number with noughts behind it, and the text is filled up to
/// four characters.
#[verifier::rlimit(40)]
pub proof fn law_three_bytes_are_four_digits(a: u8, b: u8, c: u8, rest: Seq<u8>)
    ensures
        ({
            let t = encoded_groups(seq![a, b, c] + rest);
            &&& t.len() >= 4
            &&& value_at(t, 0) * 262144 + value_at(t, 1) * 4096 + value_at(t, 2) * 64 + value_at(t, 3)
                == a * 65536 + b * 256 + c
            &&& t.skip(4) == encoded_groups(rest)
        }),
        ({
            let t = encoded(seq![a, b]);
            &&& t.len() == 4 && t[3] == '='
            &&& index_of(t[0] as u8)->0 * 4096 + index_of(t[1] as u8)->0 * 64 + index_of(
                t[2] as u8,
            )->0 == (a * 256 + b) * 4
        }),
        ({
            let t = encoded(seq![a]);
            &&& t.len() == 4 && t[2] == '=' && t[3] == '='
            &&& index_of(t[0] as u8)->0 * 64 + index_of(t[1] as u8)->0 == a * 16
        }),
        encoded(seq![]).len() == 0,
{
    lemma_group(a, b, c);
    lemma_group(a, b, 0);
    lemma_group(a, 0, 0);
    let all = seq![a, b, c] + rest;
    assert(all.skip(3) =~= rest);
    let t = encoded_groups(all);
    assert(t.skip(4) =~= encoded_groups(rest));
    let two = encoded_bytes(seq![a, b]);
    let one = encoded_bytes(seq![a]);
    assert(forall|i: int| 0 <= i < two.len() ==> (two[i] as char) as u8 == two[i]);
    assert(forall|i: int| 0 <= i < one.len() ==> (one[i] as char) as u8 == one[i]);
}

/// Where a text is refused for a character, it is the first that is no base64 character. Where it
/// is accepted, at most two fill characters stand behind its base64 characters, and there are at
/// least two of those.
pub proof fn law_first_bad_character_is_told(b: Seq<u8>)
    requires
        b.len() <= usize::MAX,
    ensures
        match decoded(b) {
            Err(e) => match e.invalid_byte {
                Some(c) => e.index < b.len() && b[e.index as int] == c && index_of(c) is None
                    && forall|k: int| 0 <= k < e.index ==> index_of(#[trigger] b[k]) is Some,
                None => e.index == 0,
            },
            Ok(_) => b.len() == 0 || (exists|n: int|
                #![trigger b.take(n)]
                2 <= n <= b.len() && b.len() - n <= 2 && n % 4 != 1 && (forall|k: int|
                    0 <= k < n ==> index_of(#[trigger] b[k]) is Some) && (forall|k: int|
                    n <= k < b.len() ==> #[trigger] b[k] == '=' as u8)),
        },
        b.len() == 1 ==> (decoded(b) matches Err(e) && e.invalid_byte is None),
{
    lemma_leading_is_first(b);
    let n = leading(b) as int;
    if decoded(b) is Ok && b.len() > 0 {
        assert(b.take(n) == b.take(n));
        if n == b.len() && n < 2 {
            assert(b.len() == 1);
        }
    }
}

proof fn lemma_leading_is_first(b: Seq<u8>)
    ensures
        leading(b) <= b.len(),
        forall|k: int| 0 <= k < leading(b) ==> index_of(#[trigger] b[k]) is Some,
        leading(b) < b.len() ==> index_of(b[leading(b) as int]) is None,
    decreases b.len(),
{
    if b.len() > 0 && index_of(b[0]) is Some {
        let c = b.skip(1);
        lemma_leading_is_first(c);
        assert forall|k: int| 0 <= k < leading(b) implies index_of(#[trigger] b[k]) is Some by {
            if k > 0 {
                assert(c[k - 1] == b[k]);
            }
        }
        if leading(b) < b.len() {
            assert(c[leading(c) as int] == b[leading(b) as int]);
        }
    }
}

/// A bad character is told with its place, and one that is no fill character in hexadecimal too.
#[verifier::rlimit(40)]
pub proof fn law_bad_character_is_named(e: InvalidBase64String)
    ensures
        e.invalid_byte matches Some(c) ==> has_part(e.message_text(), decimal(e.index as nat))
            && has_part(e.message_text(), seq![c as char]) && (c != PADDING_CHAR ==> has_part(
            e.message_text(),
            hex_byte(c),
        )),
{
    if let Some(c) = e.invalid_byte {
        let x = "Base64 string contains padding character that is not at the end of the string. '"@;
        let y = "Base64 string contains character that is not valid base64. '"@;
        let z = "' at index '"@;
        let q = "'"@;
        let s = seq![c as char];
        let d = decimal(e.index as nat);
        let t = e.message_text();
        let u = if c == PADDING_CHAR {
            x
        } else {
            y + hex_byte(c) + "'/'"@
        };
        law_parts_are_found(u, s, z + d + q);
        assert(u + s + (z + d + q) =~= t);
        law_parts_are_found(u + s + z, d, q);
        if c != PADDING_CHAR {
            law_parts_are_found(y, hex_byte(c), "'/'"@ + s + z + d + q);
            assert(y + hex_byte(c) + ("'/'"@ + s + z + d + q) =~= t);
        }
    }
}

} // verus!
