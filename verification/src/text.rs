//! Operations on text, stated over sequences of characters.
use vstd::prelude::*;
use vstd::utf8::*;

verus! {

broadcast use vstd::string::group_string_axioms;

/// `String::push` appends one character.
pub assume_specification[ String::push ](s: &mut String, ch: char)
    ensures
        final(s)@ == old(s)@.push(ch),
;

/// `String::push_str` appends the characters of a string slice.
pub assume_specification[ String::push_str ](s: &mut String, other: &str)
    ensures
        final(s)@ == old(s)@ + other@,
;

/// The characters of `s`, in order.
pub fn chars_of(s: &str) -> (chars: Vec<char>)
    ensures
        chars@ == s@,
{
    let mut chars: Vec<char> = Vec::new();
    for c in it: s.chars()
        invariant
            it.seq() == s@,
            chars@ == s@.take(it.index()),
    {
        chars.push(c);
        assert(s@.take(it.index() + 1) =~= s@.take(it.index()).push(s@[it.index()]));
    }
    assert(s@.take(s@.len() as int) =~= s@);
    chars
}

/// Whether two string slices hold the same characters.
pub fn str_eq(a: &str, b: &str) -> (same: bool)
    ensures
        same == (a@ == b@),
{
    broadcast use encode_utf8_decode_utf8;

    let x = a.as_bytes();
    let y = b.as_bytes();
    if x.len() != y.len() {
        return false;
    }
    let mut i: usize = 0;
    while i < x.len()
        invariant
            i <= x@.len(),
            x@.len() == y@.len(),
            x@ == encode_utf8(a@),
            y@ == encode_utf8(b@),
            forall|j: int| 0 <= j < i ==> x@[j] == y@[j],
        decreases x@.len() - i,
    {
        if x[i] != y[i] {
            assert(a@ != b@);
            return false;
        }
        i += 1;
    }
    proof {
        assert(x@ =~= y@);
        assert(decode_utf8(encode_utf8(a@)) == a@);
        assert(decode_utf8(encode_utf8(b@)) == b@);
    }
    true
}

/// Whether a text is empty.
pub fn is_empty_text(s: &str) -> (r: bool)
    ensures
        r == (s@.len() == 0),
{
    let chars = chars_of(s);
    chars.len() == 0
}

/// What a list of strings says.
pub open spec fn texts(s: Seq<String>) -> Seq<Seq<char>> {
    Seq::new(s.len(), |i: int| s[i]@)
}

/// What a string says that may be there.
pub open spec fn opt_text(s: Option<String>) -> Option<Seq<char>> {
    match s {
        Some(t) => Some(t@),
        None => None,
    }
}

/// Two texts behind each other.
pub fn cat2(a: &str, b: &str) -> (r: String)
    ensures
        r@ == a@ + b@,
{
    let mut r = String::new();
    r.push_str(a);
    r.push_str(b);
    assert(r@ =~= a@ + b@);
    r
}

/// Three texts behind each other.
pub fn cat3(a: &str, b: &str, c: &str) -> (r: String)
    ensures
        r@ == a@ + b@ + c@,
{
    let mut r = String::new();
    r.push_str(a);
    r.push_str(b);
    r.push_str(c);
    assert(r@ =~= a@ + b@ + c@);
    r
}

/// Five texts behind each other.
pub fn cat5(a: &str, b: &str, c: &str, d: &str, e: &str) -> (r: String)
    ensures
        r@ == a@ + b@ + c@ + d@ + e@,
{
    let mut r = String::new();
    r.push_str(a);
    r.push_str(b);
    r.push_str(c);
    r.push_str(d);
    r.push_str(e);
    assert(r@ =~= a@ + b@ + c@ + d@ + e@);
    r
}

/// Seven texts behind each other.
pub fn cat7(a: &str, b: &str, c: &str, d: &str, e: &str, f: &str, g: &str) -> (r: String)
    ensures
        r@ == a@ + b@ + c@ + d@ + e@ + f@ + g@,
{
    let mut r = String::new();
    r.push_str(a);
    r.push_str(b);
    r.push_str(c);
    r.push_str(d);
    r.push_str(e);
    r.push_str(f);
    r.push_str(g);
    assert(r@ =~= a@ + b@ + c@ + d@ + e@ + f@ + g@);
    r
}

/// The decimal digit of a number below ten.
pub open spec fn digit(d: nat) -> char {
    (d + 48) as char
}

/// `n` in decimal, without leading zeros.
pub open spec fn decimal(n: nat) -> Seq<char>
    decreases n,
{
    if n < 10 {
        seq![digit(n)]
    } else {
        decimal(n / 10).push(digit(n % 10))
    }
}

/// Appends `n` in decimal.
pub fn push_decimal(out: &mut String, n: u64)
    ensures
        final(out)@ == old(out)@ + decimal(n as nat),
    decreases n,
{
    if n >= 10 {
        push_decimal(out, n / 10);
    }
    let d: u8 = (n % 10) as u8;
    out.push((d + 48) as char);
    assert(out@ =~= old(out)@ + decimal(n as nat));
}

/// `n` in decimal.
pub fn decimal_string(n: u64) -> (s: String)
    ensures
        s@ == decimal(n as nat),
{
    let mut s = String::new();
    push_decimal(&mut s, n);
    assert(s@ =~= decimal(n as nat));
    s
}

/// The lower-case hexadecimal digit of a number below sixteen.
pub open spec fn hex_digit(d: nat) -> char {
    if d < 10 {
        (d + 48) as char
    } else {
        (d + 87) as char
    }
}

/// A byte in hexadecimal, without leading zeros, behind `0x`.
pub open spec fn hex_byte(b: u8) -> Seq<char> {
    if b < 16 {
        seq!['0', 'x', hex_digit(b as nat)]
    } else {
        seq!['0', 'x', hex_digit((b / 16) as nat), hex_digit((b % 16) as nat)]
    }
}

fn hex_char(d: u8) -> (c: char)
    requires
        d < 16,
    ensures
        c == hex_digit(d as nat),
{
    if d < 10 {
        (d + 48) as char
    } else {
        (d + 87) as char
    }
}

/// A byte in hexadecimal, behind `0x`.
pub fn hex_byte_string(b: u8) -> (s: String)
    ensures
        s@ == hex_byte(b),
{
    let mut s = String::new();
    s.push('0');
    s.push('x');
    if b >= 16 {
        s.push(hex_char(b / 16));
    }
    s.push(hex_char(b % 16));
    assert(s@ =~= hex_byte(b));
    s
}

/// Whether a character has Unicode's `White_Space` property.
pub open spec fn is_white_space(c: char) -> bool {
    let n = c as u32;
    ||| 0x9 <= n <= 0xd
    ||| n == 0x20
    ||| n == 0x85
    ||| n == 0xa0
    ||| n == 0x1680
    ||| 0x2000 <= n <= 0x200a
    ||| n == 0x2028
    ||| n == 0x2029
    ||| n == 0x202f
    ||| n == 0x205f
    ||| n == 0x3000
}

fn white_space(c: char) -> (r: bool)
    ensures
        r == is_white_space(c),
{
    let n: u32 = c as u32;
    (0x9 <= n && n <= 0xd) || n == 0x20 || n == 0x85 || n == 0xa0 || n == 0x1680 || (0x2000 <= n
        && n <= 0x200a) || n == 0x2028 || n == 0x2029 || n == 0x202f || n == 0x205f || n == 0x3000
}

/// `s` without white space at its start.
pub open spec fn trimmed_start(s: Seq<char>) -> Seq<char>
    decreases s.len(),
{
    if s.len() > 0 && is_white_space(s[0]) {
        trimmed_start(s.skip(1))
    } else {
        s
    }
}

/// `s` without white space at its end.
pub open spec fn trimmed_end(s: Seq<char>) -> Seq<char>
    decreases s.len(),
{
    if s.len() > 0 && is_white_space(s.last()) {
        trimmed_end(s.drop_last())
    } else {
        s
    }
}

/// `s` without white space at its ends.
pub open spec fn trimmed(s: Seq<char>) -> Seq<char> {
    trimmed_end(trimmed_start(s))
}

/// The characters from `from` up to `to`.
fn string_between(chars: &Vec<char>, from: usize, to: usize) -> (s: String)
    requires
        from <= to <= chars@.len(),
    ensures
        s@ == chars@.subrange(from as int, to as int),
{
    let mut s = String::new();
    let mut i: usize = from;
    while i < to
        invariant
            from <= i <= to <= chars@.len(),
            s@ == chars@.subrange(from as int, i as int),
        decreases to - i,
    {
        s.push(chars[i]);
        i += 1;
        assert(s@ =~= chars@.subrange(from as int, i as int));
    }
    s
}

/// `s` without white space at its ends.
pub fn trim(s: &str) -> (r: String)
    ensures
        r@ == trimmed(s@),
{
    let chars = chars_of(s);
    let mut from: usize = 0;
    assert(s@.skip(0) =~= s@);
    while from < chars.len() && white_space(chars[from])
        invariant
            from <= chars@.len(),
            chars@ == s@,
            trimmed_start(s@) == trimmed_start(s@.skip(from as int)),
        decreases chars@.len() - from,
    {
        assert(s@.skip(from as int).skip(1) =~= s@.skip(from + 1));
        from += 1;
    }
    let ghost t = s@.skip(from as int);
    assert(trimmed_start(s@) == t);
    let mut to: usize = chars.len();
    assert(s@.subrange(from as int, to as int) =~= t);
    while to > from && white_space(chars[to - 1])
        invariant
            from <= to <= chars@.len(),
            chars@ == s@,
            trimmed_end(t) == trimmed_end(s@.subrange(from as int, to as int)),
        decreases to,
    {
        assert(s@.subrange(from as int, to as int).drop_last() =~= s@.subrange(
            from as int,
            to - 1,
        ));
        to -= 1;
    }
    string_between(&chars, from, to)
}

/// Whether `s` starts with `prefix`.
pub open spec fn has_prefix(s: Seq<char>, prefix: Seq<char>) -> bool {
    prefix.len() <= s.len() && s.take(prefix.len() as int) == prefix
}

/// Whether `part` occurs in `s` at `i`.
pub open spec fn occurs_at(s: Seq<char>, part: Seq<char>, i: int) -> bool {
    0 <= i && i + part.len() <= s.len() && s.subrange(i, i + part.len()) == part
}

/// Whether `part` occurs in `s`.
pub open spec fn has_part(s: Seq<char>, part: Seq<char>) -> bool {
    exists|i: int| occurs_at(s, part, i)
}

fn part_at(s: &Vec<char>, part: &Vec<char>, at: usize) -> (r: bool)
    requires
        at <= s@.len(),
    ensures
        r == occurs_at(s@, part@, at as int),
{
    let len: usize = s.len();
    if len - at < part.len() {
        return false;
    }
    let mut i: usize = 0;
    while i < part.len()
        invariant
            i <= part@.len(),
            len == s@.len(),
            at + part@.len() <= len,
            forall|j: int| 0 <= j < i ==> s@[at + j] == part@[j],
        decreases part@.len() - i,
    {
        if s[at + i] != part[i] {
            proof {
                assert(s@.subrange(at as int, at + part@.len())[i as int] != part@[i as int]);
            }
            return false;
        }
        i += 1;
    }
    assert(s@.subrange(at as int, at + part@.len()) =~= part@);
    true
}

/// Whether `s` starts with `prefix`.
pub fn starts_with(s: &str, prefix: &str) -> (r: bool)
    ensures
        r == has_prefix(s@, prefix@),
{
    let s_chars = chars_of(s);
    let prefix_chars = chars_of(prefix);
    proof {
        if prefix@.len() <= s@.len() {
            assert(s@.subrange(0, prefix@.len() as int) =~= s@.take(prefix@.len() as int));
        }
    }
    part_at(&s_chars, &prefix_chars, 0)
}

/// Whether `part` occurs in `s`.
pub fn contains_text(s: &str, part: &str) -> (r: bool)
    ensures
        r == has_part(s@, part@),
{
    let s_chars = chars_of(s);
    let part_chars = chars_of(part);
    let mut i: usize = 0;
    while i < s_chars.len()
        invariant
            i <= s_chars@.len(),
            s_chars@ == s@,
            part_chars@ == part@,
            forall|j: int| 0 <= j < i ==> !occurs_at(s@, part@, j),
        decreases s_chars@.len() - i,
    {
        if part_at(&s_chars, &part_chars, i) {
            return true;
        }
        i += 1;
    }
    part_at(&s_chars, &part_chars, i)
}

/// Whether `c` occurs in `s`.
pub fn contains_char(s: &str, c: char) -> (r: bool)
    ensures
        r == s@.contains(c),
{
    let chars = chars_of(s);
    let mut i: usize = 0;
    while i < chars.len()
        invariant
            i <= chars@.len(),
            chars@ == s@,
            forall|j: int| 0 <= j < i ==> s@[j] != c,
        decreases chars@.len() - i,
    {
        if chars[i] == c {
            assert(s@[i as int] == c);
            return true;
        }
        i += 1;
    }
    false
}

/// `s` with `to` for every `from`.
pub open spec fn replaced(s: Seq<char>, from: char, to: char) -> Seq<char> {
    Seq::new(
        s.len(),
        |i: int|
            if s[i] == from {
                to
            } else {
                s[i]
            },
    )
}

/// `s` with `to` for every `from`.
pub fn replace_char(s: &str, from: char, to: char) -> (r: String)
    ensures
        r@ == replaced(s@, from, to),
{
    let chars = chars_of(s);
    let mut r = String::new();
    let mut i: usize = 0;
    while i < chars.len()
        invariant
            i <= chars@.len(),
            chars@ == s@,
            r@ == replaced(s@, from, to).take(i as int),
        decreases chars@.len() - i,
    {
        if chars[i] == from {
            r.push(to);
        } else {
            r.push(chars[i]);
        }
        i += 1;
        assert(r@ =~= replaced(s@, from, to).take(i as int));
    }
    assert(r@ =~= replaced(s@, from, to));
    r
}

/// `s` without its first `n` characters.
pub fn skip_chars(s: &str, n: usize) -> (r: String)
    requires
        n <= s@.len(),
    ensures
        r@ == s@.skip(n as int),
{
    let chars = chars_of(s);
    let r = string_between(&chars, n, chars.len());
    assert(r@ =~= s@.skip(n as int));
    r
}

/// `s` with one backslash for every two, taken from the left.
pub open spec fn single_backslashes(s: Seq<char>) -> Seq<char>
    decreases s.len(),
{
    if s.len() == 0 {
        s
    } else if s.len() >= 2 && s[0] == '\\' && s[1] == '\\' {
        seq!['\\'] + single_backslashes(s.skip(2))
    } else {
        seq![s[0]] + single_backslashes(s.skip(1))
    }
}

/// `s` with one backslash for every two, taken from the left.
pub fn collapse_backslashes(s: &str) -> (r: String)
    ensures
        r@ == single_backslashes(s@),
{
    let chars = chars_of(s);
    let mut r = String::new();
    let mut i: usize = 0;
    assert(s@.skip(0) =~= s@);
    assert(r@ + single_backslashes(s@) =~= single_backslashes(s@));
    while i < chars.len()
        invariant
            i <= chars@.len(),
            chars@ == s@,
            single_backslashes(s@) == r@ + single_backslashes(s@.skip(i as int)),
        decreases chars@.len() - i,
    {
        let ghost before = r@;
        let ghost rest = s@.skip(i as int);
        if chars[i] == '\\' && i + 1 < chars.len() && chars[i + 1] == '\\' {
            r.push('\\');
            proof {
                assert(rest.skip(2) =~= s@.skip(i + 2));
                assert(before + (seq!['\\'] + single_backslashes(rest.skip(2))) =~= r@
                    + single_backslashes(rest.skip(2)));
            }
            i += 2;
        } else {
            r.push(chars[i]);
            proof {
                assert(rest.skip(1) =~= s@.skip(i + 1));
                assert(before + (seq![rest[0]] + single_backslashes(rest.skip(1))) =~= r@
                    + single_backslashes(rest.skip(1)));
            }
            i += 1;
        }
    }
    assert(r@ + single_backslashes(s@.skip(i as int)) =~= r@);
    r
}

/// Whether a character is a decimal digit.
pub open spec fn is_digit(c: char) -> bool {
    '0' <= c <= '9'
}

/// The number that decimal digits stand for.
pub open spec fn digits_value(s: Seq<char>) -> nat
    decreases s.len(),
{
    if s.len() == 0 {
        0
    } else {
        digits_value(s.drop_last()) * 10 + (s.last() as nat - 48) as nat
    }
}

/// Whether `s` is one or more decimal digits.
pub open spec fn is_digits(s: Seq<char>) -> bool {
    s.len() > 0 && forall|i: int| 0 <= i < s.len() ==> is_digit(#[trigger] s[i])
}

/// Whether `s` is a number of 32 bits with an optional sign.
pub open spec fn is_i32(s: Seq<char>) -> bool {
    if s.len() > 0 && s[0] == '-' {
        is_digits(s.skip(1)) && digits_value(s.skip(1)) <= 0x8000_0000
    } else if s.len() > 0 && s[0] == '+' {
        is_digits(s.skip(1)) && digits_value(s.skip(1)) <= 0x7fff_ffff
    } else {
        is_digits(s) && digits_value(s) <= 0x7fff_ffff
    }
}

proof fn lemma_digits_value_grows(s: Seq<char>, i: int)
    requires
        0 <= i <= s.len(),
    ensures
        digits_value(s.take(i)) <= digits_value(s),
    decreases s.len() - i,
{
    if i < s.len() {
        lemma_digits_value_grows(s, i + 1);
        assert(s.take(i + 1).drop_last() =~= s.take(i));
    } else {
        assert(s.take(i) =~= s);
    }
}

/// Whether the characters from `from` on are digits of a number up to `limit`.
fn digits_up_to(chars: &Vec<char>, from: usize, limit: u64) -> (r: bool)
    requires
        from <= chars@.len(),
        limit <= 0xffff_ffff,
    ensures
        r == (is_digits(chars@.skip(from as int)) && digits_value(chars@.skip(from as int))
            <= limit),
{
    let ghost t = chars@.skip(from as int);
    if from >= chars.len() {
        return false;
    }
    let mut value: u64 = 0;
    let mut i: usize = from;
    while i < chars.len()
        invariant
            from <= i <= chars@.len(),
            t == chars@.skip(from as int),
            limit <= 0xffff_ffff,
            value == digits_value(t.take(i - from)),
            value <= limit,
            forall|j: int| 0 <= j < i - from ==> is_digit(#[trigger] t[j]),
        decreases chars@.len() - i,
    {
        let c: char = chars[i];
        assert(t[i - from] == c);
        if c < '0' || c > '9' {
            assert(!is_digit(t[i - from]));
            return false;
        }
        proof {
            assert(t.take(i - from + 1).drop_last() =~= t.take(i - from));
            lemma_digits_value_grows(t, i - from + 1);
        }
        value = value * 10 + (c as u64 - 48);
        if value > limit {
            return false;
        }
        i += 1;
    }
    assert(t.take(i - from) =~= t);
    true
}

/// Whether `s` is a number of 32 bits with an optional sign.
pub fn parses_as_i32(s: &str) -> (r: bool)
    ensures
        r == is_i32(s@),
{
    let chars = chars_of(s);
    assert(s@.skip(0) =~= s@);
    if chars.len() > 0 && chars[0] == '-' {
        digits_up_to(&chars, 1, 0x8000_0000)
    } else if chars.len() > 0 && chars[0] == '+' {
        digits_up_to(&chars, 1, 0x7fff_ffff)
    } else {
        digits_up_to(&chars, 0, 0x7fff_ffff)
    }
}

/// Whether `a` stands before `b` in the order by code points.
pub open spec fn before(a: Seq<char>, b: Seq<char>) -> bool
    decreases a.len(),
{
    if b.len() == 0 {
        false
    } else if a.len() == 0 {
        true
    } else if a[0] == b[0] {
        before(a.skip(1), b.skip(1))
    } else {
        a[0] < b[0]
    }
}

/// Whether `a` stands before `b` in the order by code points.
pub fn is_before(a: &str, b: &str) -> (r: bool)
    ensures
        r == before(a@, b@),
{
    let x = chars_of(a);
    let y = chars_of(b);
    let mut i: usize = 0;
    assert(a@.skip(0) =~= a@ && b@.skip(0) =~= b@);
    while i < x.len() && i < y.len() && x[i] == y[i]
        invariant
            i <= x@.len(),
            i <= y@.len(),
            x@ == a@,
            y@ == b@,
            before(a@, b@) == before(a@.skip(i as int), b@.skip(i as int)),
        decreases x@.len() - i,
    {
        assert(a@.skip(i as int).skip(1) =~= a@.skip(i + 1));
        assert(b@.skip(i as int).skip(1) =~= b@.skip(i + 1));
        i += 1;
    }
    if i >= y.len() {
        false
    } else if i >= x.len() {
        true
    } else {
        x[i] < y[i]
    }
}

/// Nothing stands before itself.
pub proof fn lemma_before_irreflexive(a: Seq<char>)
    ensures
        !before(a, a),
    decreases a.len(),
{
    if a.len() > 0 {
        lemma_before_irreflexive(a.skip(1));
    }
}

pub proof fn lemma_before_transitive(a: Seq<char>, b: Seq<char>, c: Seq<char>)
    requires
        before(a, b),
        before(b, c),
    ensures
        before(a, c),
    decreases a.len(),
{
    if a.len() > 0 && a[0] == b[0] && b[0] == c[0] {
        lemma_before_transitive(a.skip(1), b.skip(1), c.skip(1));
    }
}

/// Of two different texts one stands before the other.
pub proof fn lemma_before_total(a: Seq<char>, b: Seq<char>)
    ensures
        before(a, b) || before(b, a) || a == b,
        !(before(a, b) && before(b, a)),
    decreases a.len(),
{
    if a.len() > 0 && b.len() > 0 && a[0] == b[0] {
        lemma_before_total(a.skip(1), b.skip(1));
        if a.skip(1) == b.skip(1) {
            assert(a =~= seq![a[0]] + a.skip(1));
            assert(b =~= seq![b[0]] + b.skip(1));
        }
    } else if a.len() == 0 && b.len() == 0 {
        assert(a =~= b);
    }
}

/// `s` in lower case, as Unicode defines it.
pub uninterp spec fn lowercase(s: Seq<char>) -> Seq<char>;

/// `str::to_lowercase`: the text in lower case by Unicode's derived core properties.
#[verifier::external_body]
pub(crate) fn to_lowercase(s: &str) -> (r: String)
    ensures
        r@ == lowercase(s@),
{
    s.to_lowercase()
}

/// Why bytes are no UTF-8, in words.
pub uninterp spec fn utf8_refusal(bytes: Seq<u8>) -> Seq<char>;

/// `str::from_utf8`: the text that some bytes encode; a reason where they are not valid UTF-8.
#[verifier::external_body]
pub(crate) fn text_from_utf8(bytes: &[u8]) -> (r: Result<String, String>)
    ensures
        match r {
            Ok(s) => valid_utf8(bytes@) && s@ == decode_utf8(bytes@),
            Err(e) => !valid_utf8(bytes@) && e@ == utf8_refusal(bytes@),
        },
{
    match std::str::from_utf8(bytes) {
        Ok(s) => Ok(s.to_string()),
        Err(e) => Err(e.to_string()),
    }
}

proof fn lemma_trimmed_start(s: Seq<char>)
    ensures
        trimmed_start(s).len() <= s.len(),
        trimmed_start(s) == s.skip(s.len() - trimmed_start(s).len()),
        trimmed_start(s).len() > 0 ==> !is_white_space(trimmed_start(s)[0]),
    decreases s.len(),
{
    if s.len() > 0 && is_white_space(s[0]) {
        lemma_trimmed_start(s.skip(1));
        let t = trimmed_start(s.skip(1));
        assert(s.skip(1).skip(s.len() - 1 - t.len()) =~= s.skip(s.len() - t.len()));
    } else {
        assert(s.skip(0) =~= s);
    }
}

proof fn lemma_trimmed_end(s: Seq<char>)
    ensures
        trimmed_end(s).len() <= s.len(),
        trimmed_end(s) == s.take(trimmed_end(s).len() as int),
        trimmed_end(s).len() > 0 ==> !is_white_space(trimmed_end(s).last()),
    decreases s.len(),
{
    if s.len() > 0 && is_white_space(s.last()) {
        lemma_trimmed_end(s.drop_last());
        let t = trimmed_end(s.drop_last());
        assert(s.drop_last().take(t.len() as int) =~= s.take(t.len() as int));
    } else {
        assert(s.take(s.len() as int) =~= s);
    }
}

/// Trimming again changes nothing.
pub proof fn law_trimmed_twice(s: Seq<char>)
    ensures
        trimmed(trimmed(s)) == trimmed(s),
{
    let a = trimmed_start(s);
    let b = trimmed_end(a);
    lemma_trimmed_start(s);
    lemma_trimmed_end(a);
    if b.len() > 0 {
        assert(b[0] == a[0]);
    }
    assert(trimmed_start(b) == b);
    assert(trimmed_end(b) == b);
}

/// The number of 64 bits that a text stands for; a plus sign may stand before it.
pub open spec fn u64_value(s: Seq<char>) -> Option<u64> {
    let t = if s.len() > 0 && s[0] == '+' {
        s.skip(1)
    } else {
        s
    };
    if is_digits(t) && digits_value(t) <= u64::MAX {
        Some(digits_value(t) as u64)
    } else {
        None
    }
}

/// The number of 64 bits that a text stands for; a plus sign may stand before it.
pub fn parse_u64(s: &str) -> (r: Option<u64>)
    ensures
        r == u64_value(s@),
{
    let chars = chars_of(s);
    let from: usize = if chars.len() > 0 && chars[0] == '+' {
        1
    } else {
        0
    };
    let ghost t = chars@.skip(from as int);
    assert(s@.skip(0) =~= s@);
    if from >= chars.len() {
        return None;
    }
    let mut value: u128 = 0;
    let mut i: usize = from;
    while i < chars.len()
        invariant
            from <= i <= chars@.len(),
            t == chars@.skip(from as int),
            t == (if s@.len() > 0 && s@[0] == '+' {
                s@.skip(1)
            } else {
                s@
            }),
            value == digits_value(t.take(i - from)),
            value <= u64::MAX,
            forall|j: int| 0 <= j < i - from ==> is_digit(#[trigger] t[j]),
        decreases chars@.len() - i,
    {
        let c: char = chars[i];
        assert(t[i - from] == c);
        if c < '0' || c > '9' {
            assert(!is_digit(t[i - from]));
            return None;
        }
        proof {
            assert(t.take(i - from + 1).drop_last() =~= t.take(i - from));
            lemma_digits_value_grows(t, i - from + 1);
        }
        value = value * 10 + (c as u128 - 48);
        if value > u64::MAX as u128 {
            return None;
        }
        i += 1;
    }
    assert(t.take(i - from) =~= t);
    Some(value as u64)
}

/// The first place of a character from `i` on, or the length of the text.
pub open spec fn place_of(s: Seq<char>, c: char, i: int) -> int
    decreases s.len() - i,
{
    if i >= s.len() || s[i] == c {
        i
    } else {
        place_of(s, c, i + 1)
    }
}

fn find_char(chars: &Vec<char>, c: char, from: usize) -> (r: usize)
    requires
        from <= chars@.len(),
    ensures
        r == place_of(chars@, c, from as int),
        from <= r <= chars@.len(),
        r < chars@.len() ==> chars@[r as int] == c,
        forall|j: int| from <= j < r ==> chars@[j] != c,
{
    let mut i: usize = from;
    while i < chars.len() && chars[i] != c
        invariant
            from <= i <= chars@.len(),
            place_of(chars@, c, from as int) == place_of(chars@, c, i as int),
            forall|j: int| from <= j < i ==> chars@[j] != c,
        decreases chars@.len() - i,
    {
        i += 1;
    }
    i
}

pub proof fn lemma_place_of(s: Seq<char>, c: char, i: int)
    requires
        0 <= i <= s.len(),
    ensures
        i <= place_of(s, c, i) <= s.len(),
        place_of(s, c, i) < s.len() ==> s[place_of(s, c, i)] == c,
        forall|j: int| i <= j < place_of(s, c, i) ==> s[j] != c,
    decreases s.len() - i,
{
    if i < s.len() && s[i] != c {
        lemma_place_of(s, c, i + 1);
    }
}

/// Where a character comes first.
pub proof fn lemma_place_of_is(s: Seq<char>, c: char, i: int, at: int)
    requires
        0 <= i <= at <= s.len(),
        at < s.len() ==> s[at] == c,
        forall|j: int| i <= j < at ==> s[j] != c,
    ensures
        place_of(s, c, i) == at,
    decreases at - i,
{
    if i < at {
        lemma_place_of_is(s, c, i + 1, at);
    }
}

/// What stands before and behind the first `c`.
pub open spec fn split_at_first(s: Seq<char>, c: char) -> Option<(Seq<char>, Seq<char>)> {
    let at = place_of(s, c, 0);
    if at < s.len() {
        Some((s.take(at), s.skip(at + 1)))
    } else {
        None
    }
}

/// What stands before and behind the first `c`.
pub fn split_first(s: &str, c: char) -> (r: Option<(String, String)>)
    ensures
        match split_at_first(s@, c) {
            Some(parts) => r is Some && (r->0).0@ == parts.0 && (r->0).1@ == parts.1,
            None => r is None,
        },
{
    let chars = chars_of(s);
    let at: usize = find_char(&chars, c, 0);
    if at >= chars.len() {
        return None;
    }
    let a = string_between(&chars, 0, at);
    let b = string_between(&chars, at + 1, chars.len());
    assert(a@ =~= s@.take(at as int));
    assert(b@ =~= s@.skip(at + 1));
    Some((a, b))
}

/// The pieces of a text between line breaks.
pub open spec fn pieces(s: Seq<char>) -> Seq<Seq<char>>
    decreases s.len(),
    via pieces_decreases
{
    let at = place_of(s, '\n', 0);
    if at < s.len() {
        seq![s.take(at)] + pieces(s.skip(at + 1))
    } else {
        seq![s]
    }
}

#[via_fn]
proof fn pieces_decreases(s: Seq<char>) {
    lemma_place_of(s, '\n', 0);
}

/// The pieces of a text between line breaks.
pub fn split_lines(s: &str) -> (v: Vec<String>)
    ensures
        texts(v@) == pieces(s@),
{
    let chars = chars_of(s);
    let mut v: Vec<String> = Vec::new();
    let mut from: usize = 0;
    assert(s@.skip(0) =~= s@);
    assert(texts(v@) + pieces(s@) =~= pieces(s@));
    loop
        invariant_except_break
            from <= chars@.len(),
            chars@ == s@,
            texts(v@) + pieces(s@.skip(from as int)) == pieces(s@),
        ensures
            texts(v@) == pieces(s@),
        decreases chars@.len() - from,
    {
        let at: usize = find_char(&chars, '\n', from);
        let piece = string_between(&chars, from, at);
        let ghost before = texts(v@);
        let ghost rest = s@.skip(from as int);
        proof {
            assert forall|j: int| 0 <= j < at - from implies rest[j] != '\n' by {
                assert(rest[j] == s@[from + j]);
            }
            if at < s@.len() {
                assert(rest[at - from] == s@[at as int]);
            }
            lemma_place_of_is(rest, '\n', 0, at - from);
            assert(piece@ =~= rest.take(at - from));
        }
        v.push(piece);
        assert(texts(v@) =~= before.push(piece@));
        if at >= chars.len() {
            proof {
                assert(rest.take(at - from) =~= rest);
                assert(before + seq![rest] =~= texts(v@));
            }
            break;
        }
        proof {
            assert(rest.skip(at - from + 1) =~= s@.skip(at + 1));
            assert(before + (seq![piece@] + pieces(s@.skip(at + 1))) =~= texts(v@) + pieces(
                s@.skip(at + 1),
            ));
        }
        from = at + 1;
    }
    v
}

/// A number is recovered from its decimal digits.
pub proof fn law_digits_value_of_decimal(n: nat)
    ensures
        digits_value(decimal(n)) == n,
        is_digits(decimal(n)),
    decreases n,
{
    if n < 10 {
        assert(decimal(n).drop_last() =~= seq![]);
        assert(digits_value(seq![]) == 0);
        assert(is_digit(digit(n)));
    } else {
        law_digits_value_of_decimal(n / 10);
        let d = decimal(n);
        assert(d.drop_last() =~= decimal(n / 10));
        assert(is_digit(digit(n % 10)));
        assert forall|i: int| 0 <= i < d.len() implies is_digit(#[trigger] d[i]) by {
            if i < d.len() - 1 {
                assert(d[i] == decimal(n / 10)[i]);
            }
        }
    }
}

/// A number of 64 bits is read back from its decimal digits.
pub proof fn law_u64_value_of_decimal(n: u64)
    ensures
        u64_value(decimal(n as nat)) == Some(n),
{
    law_digits_value_of_decimal(n as nat);
    assert(is_digit(decimal(n as nat)[0]));
}

/// Behind a text, only its last piece grows.
pub proof fn lemma_pieces_append(a: Seq<char>, t: Seq<char>)
    ensures
        pieces(a).len() > 0,
        pieces(a + t) == pieces(a).drop_last() + pieces(pieces(a).last() + t),
    decreases a.len(),
{
    let at = place_of(a, '\n', 0);
    lemma_place_of(a, '\n', 0);
    if at < a.len() {
        let rest = a.skip(at + 1);
        assert forall|j: int| 0 <= j < at implies (a + t)[j] != '\n' by {
            assert((a + t)[j] == a[j]);
        }
        lemma_place_of_is(a + t, '\n', 0, at);
        assert((a + t).take(at) =~= a.take(at));
        assert((a + t).skip(at + 1) =~= rest + t);
        lemma_pieces_append(rest, t);
        assert(pieces(a).last() == pieces(rest).last());
        assert(pieces(a).drop_last() =~= seq![a.take(at)] + pieces(rest).drop_last());
        assert(pieces(a + t) =~= pieces(a).drop_last() + pieces(pieces(a).last() + t));
    } else {
        assert(pieces(a).drop_last() =~= seq![]);
        assert(seq![] + pieces(a + t) =~= pieces(a + t));
    }
}

/// A line with a line break behind it is a piece of its own, with an empty piece behind it.
pub proof fn lemma_pieces_of_line(line: Seq<char>)
    requires
        !line.contains('\n'),
    ensures
        pieces(line + "\n"@) == seq![line, Seq::<char>::empty()],
{
    reveal_strlit("\n");
    let s = line + "\n"@;
    let n = line.len() as int;
    assert forall|j: int| 0 <= j < n implies s[j] != '\n' by {
        assert(s[j] == line[j]);
        assert(line.contains(line[j]));
    }
    lemma_place_of_is(s, '\n', 0, n);
    assert(s.take(n) =~= line);
    assert(s.skip(n + 1) =~= seq![]);
    assert(pieces(seq![]) =~= seq![Seq::<char>::empty()]);
    assert(seq![line] + seq![Seq::<char>::empty()] =~= seq![line, Seq::<char>::empty()]);
}

/// Whether a text is white space only.
pub open spec fn is_blank(s: Seq<char>) -> bool {
    forall|i: int| 0 <= i < s.len() ==> is_white_space(#[trigger] s[i])
}

proof fn lemma_trimmed_start_drops_blank(s: Seq<char>)
    ensures
        is_blank(s.take(s.len() - trimmed_start(s).len())),
    decreases s.len(),
{
    lemma_trimmed_start(s);
    if s.len() > 0 && is_white_space(s[0]) {
        let rest = s.skip(1);
        lemma_trimmed_start(rest);
        lemma_trimmed_start_drops_blank(rest);
        let gone = s.take(s.len() - trimmed_start(s).len());
        let before = rest.take(rest.len() - trimmed_start(rest).len());
        assert forall|i: int| 0 <= i < gone.len() implies is_white_space(#[trigger] gone[i]) by {
            if i > 0 {
                assert(gone[i] == before[i - 1]);
            }
        }
    }
}

proof fn lemma_trimmed_end_drops_blank(s: Seq<char>)
    ensures
        is_blank(s.skip(trimmed_end(s).len() as int)),
    decreases s.len(),
{
    lemma_trimmed_end(s);
    if s.len() > 0 && is_white_space(s.last()) {
        let front = s.drop_last();
        lemma_trimmed_end(front);
        lemma_trimmed_end_drops_blank(front);
        let n = trimmed_end(s).len();
        let gone = s.skip(n as int);
        let before = front.skip(n as int);
        assert forall|i: int| 0 <= i < gone.len() implies is_white_space(#[trigger] gone[i]) by {
            if i < before.len() {
                assert(gone[i] == before[i]);
            }
        }
    }
}

/// Trimming takes away white space at both ends and nothing else: what is left neither starts nor
/// ends with white space, and what is gone is white space.
pub proof fn law_trimmed_is_the_middle(s: Seq<char>)
    ensures
        exists|a: Seq<char>, b: Seq<char>|
            s == #[trigger] (a + trimmed(s) + b) && is_blank(a) && is_blank(b),
        trimmed(s).len() > 0 ==> !is_white_space(trimmed(s)[0]) && !is_white_space(
            trimmed(s).last(),
        ),
{
    let t = trimmed_start(s);
    let u = trimmed(s);
    lemma_trimmed_start(s);
    lemma_trimmed_end(t);
    lemma_trimmed_start_drops_blank(s);
    lemma_trimmed_end_drops_blank(t);
    let a = s.take(s.len() - t.len());
    let b = t.skip(u.len() as int);
    assert(t =~= u + b);
    assert(s =~= a + t);
    assert(s =~= a + u + b);
    if u.len() > 0 {
        assert(u[0] == t[0]);
    }
}

/// Among the characters of ASCII, white space is the blank, the tabulators and what ends a line or a
/// page.
pub proof fn law_ascii_white_space(c: char)
    requires
        (c as u32) < 128,
    ensures
        is_white_space(c) <==> c == ' ' || c == '\t' || c == '\n' || c as u32 == 11 || c as u32
            == 12 || c == '\r',
{
}

/// Pieces with a line break between each two.
pub open spec fn with_breaks(s: Seq<Seq<char>>) -> Seq<char>
    decreases s.len(),
{
    if s.len() == 0 {
        seq![]
    } else if s.len() == 1 {
        s[0]
    } else {
        s[0] + seq!['\n'] + with_breaks(s.skip(1))
    }
}

/// A text is cut at its line breaks and nowhere else: with line breaks between them, its pieces make
/// it up again, and none of them has one.
pub proof fn law_pieces_make_up_the_text(s: Seq<char>)
    ensures
        pieces(s).len() > 0,
        with_breaks(pieces(s)) == s,
        forall|i: int| 0 <= i < pieces(s).len() ==> !(#[trigger] pieces(s)[i]).contains('\n'),
    decreases s.len(),
{
    let at = place_of(s, '\n', 0);
    lemma_place_of(s, '\n', 0);
    let all = pieces(s);
    if at < s.len() {
        let rest = s.skip(at + 1);
        law_pieces_make_up_the_text(rest);
        assert(all.skip(1) =~= pieces(rest));
        assert(s =~= s.take(at) + seq!['\n'] + rest);
        assert forall|i: int| 0 <= i < all.len() implies !(#[trigger] all[i]).contains('\n') by {
            if i > 0 {
                assert(all[i] == pieces(rest)[i - 1]);
            } else if all[0].contains('\n') {
                let k = choose|k: int| 0 <= k < all[0].len() && all[0][k] == '\n';
                assert(s[k] == '\n');
            }
        }
    } else if s.contains('\n') {
        let k = choose|k: int| 0 <= k < s.len() && s[k] == '\n';
        assert(s[k] != '\n');
    }
}

/// A text with two backslashes for each one.
pub open spec fn double_backslashes(s: Seq<char>) -> Seq<char>
    decreases s.len(),
{
    if s.len() == 0 {
        seq![]
    } else if s[0] == '\\' {
        seq!['\\', '\\'] + double_backslashes(s.skip(1))
    } else {
        seq![s[0]] + double_backslashes(s.skip(1))
    }
}

/// Making one backslash of two undoes making two of one; a text without two of them in a row is
/// left as it is.
pub proof fn law_backslashes_are_collapsed(s: Seq<char>)
    ensures
        single_backslashes(double_backslashes(s)) == s,
        (forall|i: int| 0 <= i < s.len() - 1 ==> !(#[trigger] s[i] == '\\' && s[i + 1] == '\\'))
            ==> single_backslashes(s) == s,
    decreases s.len(),
{
    if s.len() > 0 {
        let rest = s.skip(1);
        law_backslashes_are_collapsed(rest);
        let d = double_backslashes(s);
        if s[0] == '\\' {
            assert(d.skip(2) =~= double_backslashes(rest));
            assert(single_backslashes(d) =~= s);
        } else {
            assert(d.skip(1) =~= double_backslashes(rest));
            assert(single_backslashes(d) =~= s);
        }
        if forall|i: int| 0 <= i < s.len() - 1 ==> !(#[trigger] s[i] == '\\' && s[i + 1] == '\\') {
            assert forall|i: int| 0 <= i < rest.len() - 1 implies !(#[trigger] rest[i] == '\\'
                && rest[i + 1] == '\\') by {
                assert(s[i + 1] == rest[i]);
                assert(s[i + 2] == rest[i + 1]);
            }
            if s.len() >= 2 {
                assert(!(s[0] == '\\' && s[1] == '\\'));
            }
            assert(single_backslashes(s) =~= s);
        }
    }
}

/// Replacing a character changes every place where it stands and no other.
pub proof fn law_every_place_is_replaced(s: Seq<char>, from: char, to: char, i: int)
    requires
        0 <= i < s.len(),
    ensures
        replaced(s, from, to).len() == s.len(),
        s[i] == from ==> replaced(s, from, to)[i] == to,
        s[i] != from ==> replaced(s, from, to)[i] == s[i],
{
}

/// Of two texts the one stands first that has the lower character where they first differ, or that
/// ends where the other goes on.
pub proof fn law_order_of_texts(a: Seq<char>, b: Seq<char>)
    ensures
        before(a, b) <==> exists|k: int|
            #![trigger a.take(k)]
            0 <= k <= a.len() && k < b.len() && a.take(k) == b.take(k) && (k == a.len() || a[k]
                < b[k]),
    decreases a.len(),
{
    if b.len() > 0 {
        if a.len() == 0 {
            assert(a.take(0) =~= b.take(0));
        } else if a[0] == b[0] {
            let x = a.skip(1);
            let y = b.skip(1);
            law_order_of_texts(x, y);
            if before(x, y) {
                let k = choose|k: int|
                    #![trigger x.take(k)]
                    0 <= k <= x.len() && k < y.len() && x.take(k) == y.take(k) && (k == x.len()
                        || x[k] < y[k]);
                assert(a.take(k + 1) =~= seq![a[0]] + x.take(k));
                assert(b.take(k + 1) =~= seq![b[0]] + y.take(k));
            }
            if exists|k: int|
                #![trigger a.take(k)]
                0 <= k <= a.len() && k < b.len() && a.take(k) == b.take(k) && (k == a.len() || a[k]
                    < b[k]) {
                let k = choose|k: int|
                    #![trigger a.take(k)]
                    0 <= k <= a.len() && k < b.len() && a.take(k) == b.take(k) && (k == a.len()
                        || a[k] < b[k]);
                assert(x.take(k - 1) =~= a.take(k).skip(1));
                assert(y.take(k - 1) =~= b.take(k).skip(1));
            }
        } else {
            if a[0] < b[0] {
                assert(a.take(0) =~= b.take(0));
            }
            if exists|k: int|
                #![trigger a.take(k)]
                0 <= k <= a.len() && k < b.len() && a.take(k) == b.take(k) && (k == a.len() || a[k]
                    < b[k]) {
                let k = choose|k: int|
                    #![trigger a.take(k)]
                    0 <= k <= a.len() && k < b.len() && a.take(k) == b.take(k) && (k == a.len()
                        || a[k] < b[k]);
                if k > 0 {
                    assert(a.take(k)[0] == a[0]);
                    assert(b.take(k)[0] == b[0]);
                }
            }
        }
    }
}

/// A port is a number of 32 bits: the decimal digits of one are accepted as long as it fits, with a
/// minus sign for one more; a text with no digits is none.
pub proof fn law_numbers_of_32_bits(n: nat)
    ensures
        is_i32(decimal(n)) <==> n <= 0x7fff_ffff,
        is_i32(seq!['+'] + decimal(n)) <==> n <= 0x7fff_ffff,
        is_i32(seq!['-'] + decimal(n)) <==> n <= 0x8000_0000,
        !is_i32(seq![]),
        !is_i32(seq!['+']) && !is_i32(seq!['-']),
{
    law_digits_value_of_decimal(n);
    let d = decimal(n);
    assert(is_digit(d[0]));
    assert((seq!['+'] + d).skip(1) =~= d);
    assert((seq!['-'] + d).skip(1) =~= d);
    assert(seq!['+'].skip(1) =~= seq![]);
    assert(seq!['-'].skip(1) =~= seq![]);
}

/// Only digits make a number, with a plus sign before them or none.
pub proof fn law_numbers_of_64_bits(s: Seq<char>)
    ensures
        u64_value(s) is Some ==> s.len() > 0 && forall|i: int|
            0 < i < s.len() ==> is_digit(#[trigger] s[i]),
        u64_value(s) is Some ==> is_digit(s[0]) || s[0] == '+' && s.len() > 1,
{
    if u64_value(s) is Some {
        if s[0] == '+' {
            let t = s.skip(1);
            assert forall|i: int| 0 < i < s.len() implies is_digit(#[trigger] s[i]) by {
                assert(is_digit(t[i - 1]));
            }
        } else {
            assert(is_digit(s[0]));
        }
    }
}

/// A text is found in every text that it is a part of, at its start where it stands there.
pub proof fn law_parts_are_found(a: Seq<char>, b: Seq<char>, c: Seq<char>)
    ensures
        has_part(a + b + c, b),
        has_prefix(a + b, a),
        has_prefix(a, b) ==> has_part(a, b),
{
    let s = a + b + c;
    let n = a.len() as int;
    assert(s.subrange(n, n + b.len()) =~= b);
    assert(occurs_at(s, b, n));
    assert((a + b).take(n) =~= a);
    if has_prefix(a, b) {
        assert(a.subrange(0, b.len() as int) =~= a.take(b.len() as int));
        assert(occurs_at(a, b, 0));
    }
}

/// A number has no noughts before it, and two numbers never have the same digits.
pub proof fn law_decimal_is_shortest(n: nat, m: nat)
    ensures
        decimal(n).len() > 0,
        decimal(n)[0] == '0' <==> n == 0,
        decimal(n) == decimal(m) ==> n == m,
    decreases n,
{
    law_digits_value_of_decimal(n);
    law_digits_value_of_decimal(m);
    if n >= 10 {
        law_decimal_is_shortest(n / 10, 0);
        assert(decimal(n)[0] == decimal(n / 10)[0]);
    }
}

/// A byte in hexadecimal is its value in base 16, with small letters and no nought before it.
pub proof fn law_hexadecimal(b: u8)
    ensures
        ({
            let t = hex_byte(b);
            let v = |c: char|
                if '0' <= c <= '9' {
                    c as int - '0' as int
                } else {
                    c as int - 'a' as int + 10
                };
            &&& t.len() == if b < 16 {
                3nat
            } else {
                4nat
            }
            &&& t[0] == '0' && t[1] == 'x'
            &&& b < 16 ==> v(t[2]) == b
            &&& b >= 16 ==> v(t[2]) * 16 + v(t[3]) == b && t[2] != '0'
            &&& forall|i: int|
                2 <= i < t.len() ==> '0' <= #[trigger] t[i] <= '9' || 'a' <= t[i] <= 'f'
        }),
{
}

} // verus!
