//! Reading what the version comparison printed.
//!
//! The comparison of two artifacts is made outside, by a utility that prints
//! one integer: positive if the first artifact is newer than the second,
//! zero if the two are equal, negative if it is older. What it printed is
//! read here: the bytes must be UTF-8 and hold, between optional white
//! space, an optional sign and at least one decimal digit, and the number
//! must fit the machine's signed word.

use vstd::prelude::*;
use vstd::utf8::{decode_utf8, valid_utf8};
use crate::error::SyncError;
use crate::text::chars_of;

verus! {

/// The characters with the Unicode property `White_Space`.
pub open spec fn is_white_space(c: char) -> bool {
    let u = c as u32;
    ||| 0x09 <= u <= 0x0D
    ||| u == 0x20
    ||| u == 0x85
    ||| u == 0xA0
    ||| u == 0x1680
    ||| 0x2000 <= u <= 0x200A
    ||| u == 0x2028
    ||| u == 0x2029
    ||| u == 0x202F
    ||| u == 0x205F
    ||| u == 0x3000
}

/// `s` without the white space at its start.
pub open spec fn trim_start(s: Seq<char>) -> Seq<char>
    decreases s.len(),
{
    if s.len() > 0 && is_white_space(s.first()) {
        trim_start(s.drop_first())
    } else {
        s
    }
}

/// `s` without the white space at its end.
pub open spec fn trim_end(s: Seq<char>) -> Seq<char>
    decreases s.len(),
{
    if s.len() > 0 && is_white_space(s.last()) {
        trim_end(s.drop_last())
    } else {
        s
    }
}

/// `s` without the white space at its start and at its end.
pub open spec fn trimmed(s: Seq<char>) -> Seq<char> {
    trim_end(trim_start(s))
}

/// `c` is one of the digits `0` to `9`.
pub open spec fn is_digit(c: char) -> bool {
    '0' <= c <= '9'
}

/// Every character of `s` is a digit.
pub open spec fn all_digits(s: Seq<char>) -> bool {
    forall|i: int| 0 <= i < s.len() ==> is_digit(#[trigger] s[i])
}

/// The number that the digits of `s` write in base ten.
pub open spec fn digits_value(s: Seq<char>) -> int
    decreases s.len(),
{
    if s.len() == 0 {
        0
    } else {
        10 * digits_value(s.drop_last()) + (s.last() as u32 - '0' as u32)
    }
}

/// The number that `s` writes: an optional sign and at least one digit.
pub open spec fn signed_decimal(s: Seq<char>) -> Option<int> {
    let negative = s.len() > 0 && s[0] == '-';
    let digits = if s.len() > 0 && (s[0] == '-' || s[0] == '+') {
        s.drop_first()
    } else {
        s
    };
    if digits.len() > 0 && all_digits(digits) {
        Some(if negative { -digits_value(digits) } else { digits_value(digits) })
    } else {
        None
    }
}

/// The sign that the output of the comparison stands for, where it
/// stands for one.
pub open spec fn comparison_sign(output: Seq<u8>) -> Option<int> {
    if valid_utf8(output) {
        match signed_decimal(trimmed(decode_utf8(output))) {
            Some(v) => if isize::MIN <= v <= isize::MAX {
                Some(v)
            } else {
                None
            },
            None => None,
        }
    } else {
        None
    }
}

/// An error of `std::str::from_utf8`.
#[verifier::external_type_specification]
#[verifier::external_body]
pub struct ExUtf8Error(core::str::Utf8Error);

/// `std::str::from_utf8`: the bytes as text. It succeeds exactly on bytes
/// that are valid UTF-8, and the text then holds the characters that the
/// bytes encode.
#[verifier::external_body]
fn text_of(bytes: &[u8]) -> (text: Result<&str, core::str::Utf8Error>)
    ensures
        text is Ok <==> valid_utf8(bytes@),
        text is Ok ==> text->Ok_0@ == decode_utf8(bytes@),
{
    core::str::from_utf8(bytes)
}

/// Whether `c` is white space.
pub fn white_space(c: char) -> (white: bool)
    ensures
        white == is_white_space(c),
{
    let u: u32 = c as u32;
    (0x09 <= u && u <= 0x0D) || u == 0x20 || u == 0x85 || u == 0xA0 || u == 0x1680 || (0x2000 <= u
        && u <= 0x200A) || u == 0x2028 || u == 0x2029 || u == 0x202F || u == 0x205F || u == 0x3000
}

/// Trimming at the start skips white space and stops at anything else.
proof fn lemma_trim_start_step(s: Seq<char>, i: int)
    requires
        0 <= i <= s.len(),
        forall|k: int| 0 <= k < i ==> is_white_space(#[trigger] s[k]),
    ensures
        trim_start(s) == trim_start(s.subrange(i, s.len() as int)),
    decreases i,
{
    if i == 0 {
        assert(s.subrange(0, s.len() as int) =~= s);
    } else {
        assert(is_white_space(s[0]));
        let rest = s.drop_first();
        assert forall|k: int| 0 <= k < i - 1 implies is_white_space(#[trigger] rest[k]) by {
            assert(rest[k] == s[k + 1]);
        }
        lemma_trim_start_step(rest, i - 1);
        assert(rest.subrange(i - 1, rest.len() as int) =~= s.subrange(i, s.len() as int));
    }
}

/// Trimming at the end skips white space and stops at anything else.
proof fn lemma_trim_end_step(s: Seq<char>, j: int)
    requires
        0 <= j <= s.len(),
        forall|k: int| j <= k < s.len() ==> is_white_space(#[trigger] s[k]),
    ensures
        trim_end(s) == trim_end(s.take(j)),
    decreases s.len() - j,
{
    if j == s.len() {
        assert(s.take(j) =~= s);
    } else {
        assert(is_white_space(s[s.len() - 1]));
        let front = s.drop_last();
        assert forall|k: int| j <= k < front.len() implies is_white_space(#[trigger] front[k]) by {
            assert(front[k] == s[k]);
        }
        lemma_trim_end_step(front, j);
        assert(front.take(j) =~= s.take(j));
    }
}

/// More digits never write a smaller number.
proof fn lemma_digits_grow(s: Seq<char>, k: int)
    requires
        all_digits(s),
        0 <= k <= s.len(),
    ensures
        0 <= digits_value(s.take(k)) <= digits_value(s),
    decreases s.len() - k,
{
    if k == s.len() {
        assert(s.take(k) =~= s);
        lemma_digits_bounds(s);
    } else {
        let front = s.drop_last();
        assert(all_digits(front)) by {
            assert forall|i: int| 0 <= i < front.len() implies is_digit(#[trigger] front[i]) by {
                assert(front[i] == s[i]);
            }
        }
        lemma_digits_grow(front, k);
        assert(front.take(k) =~= s.take(k));
        assert(is_digit(s[s.len() - 1]));
    }
}

/// Digits write a number that is not negative.
proof fn lemma_digits_bounds(s: Seq<char>)
    requires
        all_digits(s),
    ensures
        0 <= digits_value(s),
    decreases s.len(),
{
    if s.len() > 0 {
        let front = s.drop_last();
        assert forall|i: int| 0 <= i < front.len() implies is_digit(#[trigger] front[i]) by {
            assert(front[i] == s[i]);
        }
        lemma_digits_bounds(front);
        assert(is_digit(s[s.len() - 1]));
    }
}

/// Reads the number that `chars` writes between `from` and `to`.
#[verifier::loop_isolation(false)]
fn read_signed(chars: &Vec<char>, from: usize, to: usize) -> (number: Option<isize>)
    requires
        from <= to <= chars.len(),
    ensures
        number == match signed_decimal(chars@.subrange(from as int, to as int)) {
            Some(v) => if isize::MIN <= v <= isize::MAX {
                Some(v as isize)
            } else {
                None
            },
            None => None,
        },
{
    let ghost core = chars@.subrange(from as int, to as int);
    if from == to {
        return None;
    }
    assert(core[0] == chars[from as int]);
    let negative = chars[from] == '-';
    let signed = negative || chars[from] == '+';
    let first: usize = if signed { from + 1 } else { from };
    let ghost digits = chars@.subrange(first as int, to as int);
    proof {
        if signed {
            assert(digits =~= core.drop_first());
        } else {
            assert(digits =~= core);
        }
    }
    if first == to {
        return None;
    }
    let mut value: i128 = 0;
    let mut i: usize = first;
    while i < to
        invariant
            first <= i <= to <= chars.len(),
            digits == chars@.subrange(first as int, to as int),
            all_digits(digits.take(i - first)),
            value == digits_value(digits.take(i - first)),
            0 <= value <= 0x8000_0000_0000_0000,
        decreases to - i,
    {
        let c = chars[i];
        let ghost before = digits.take(i - first);
        let ghost after = digits.take(i - first + 1);
        proof {
            assert(after.drop_last() =~= before);
            assert(after.last() == c);
        }
        if !('0' <= c && c <= '9') {
            proof {
                if all_digits(digits) {
                    assert(is_digit(digits[i - first]));
                }
            }
            return None;
        }
        assert(all_digits(after)) by {
            assert forall|k: int| 0 <= k < after.len() implies is_digit(#[trigger] after[k]) by {
                if k < before.len() {
                    assert(after[k] == before[k]);
                }
            }
        }
        let d: u32 = c as u32 - '0' as u32;
        value = 10 * value + d as i128;
        if value > 0x8000_0000_0000_0000 {
            proof {
                if all_digits(digits) {
                    lemma_digits_grow(digits, i - first + 1);
                }
            }
            return None;
        }
        i = i + 1;
    }
    proof {
        assert(digits.take(to - first) =~= digits);
    }
    let number: i128 = if negative { -value } else { value };
    if isize::MIN as i128 <= number && number <= isize::MAX as i128 {
        Some(number as isize)
    } else {
        None
    }
}

/// Reads the sign that the comparison printed.
pub fn parse_sign(output: &[u8]) -> (sign: Result<isize, SyncError>)
    ensures
        sign == match comparison_sign(output@) {
            Some(v) => Ok::<isize, SyncError>(v as isize),
            None => Err(SyncError::Comparator),
        },
{
    let text = match text_of(output) {
        Ok(text) => text,
        Err(_) => {
            return Err(SyncError::Comparator);
        },
    };
    let chars = chars_of(text);
    let mut start: usize = 0;
    while start < chars.len() && white_space(chars[start])
        invariant
            start <= chars.len(),
            forall|k: int| 0 <= k < start ==> is_white_space(#[trigger] chars@[k]),
        decreases chars.len() - start,
    {
        start = start + 1;
    }
    let ghost tail = chars@.subrange(start as int, chars.len() as int);
    proof {
        lemma_trim_start_step(chars@, start as int);
        if start < chars.len() {
            assert(tail.first() == chars@[start as int]);
        }
        assert(trim_start(chars@) == tail);
    }
    let mut end: usize = chars.len();
    while end > start && white_space(chars[end - 1])
        invariant
            start <= end <= chars.len(),
            tail == chars@.subrange(start as int, chars.len() as int),
            forall|k: int| end - start <= k < tail.len() ==> is_white_space(#[trigger] tail[k]),
        decreases end,
    {
        end = end - 1;
    }
    proof {
        lemma_trim_end_step(tail, end - start);
        let core = tail.take(end - start);
        if end > start {
            assert(core.last() == chars@[end - 1]);
        }
        assert(trim_end(core) == core);
        assert(core =~= chars@.subrange(start as int, end as int));
    }
    match read_signed(&chars, start, end) {
        Some(v) => Ok(v),
        None => Err(SyncError::Comparator),
    }
}

} // verus!
