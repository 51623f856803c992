//! The two header lines of a unified diff: the file header that names the
//! path, and the hunk header that names the line ranges.

use crate::diff::FileStatus;
use crate::text::{
    bytes_of, find_byte, has_prefix, is_cut, lemma_cut_after_char, lemma_cut_around_ascii,
    lemma_position_bounds, position_of, same_text, slice, starts_with, strip_prefix,
    without_prefix,
};
use vstd::prelude::*;
use vstd::slice::slice_subrange;
use vstd::string::*;
use vstd::utf8::*;

verus! {

/// The plus sign that may lead a number.
pub const PLUS: u8 = 0x2b;

/// The comma between the start and the count of a range.
pub const COMMA: u8 = 0x2c;

/// The space between the fields of a file header.
pub const SPACE: u8 = 0x20;

/// Whether a byte is a decimal digit.
pub open spec fn is_digit(byte: u8) -> bool {
    0x30 <= byte <= 0x39
}

/// Whether every byte of a text is a decimal digit.
pub open spec fn all_digits(text: Seq<u8>) -> bool {
    forall|i: int| 0 <= i < text.len() ==> is_digit(#[trigger] text[i])
}

/// The number that a sequence of decimal digits denotes.
pub open spec fn digits_value(digits: Seq<u8>) -> nat
    decreases digits.len(),
{
    if digits.len() == 0 {
        0
    } else {
        digits_value(digits.drop_last()) * 10 + (digits.last() - 0x30) as nat
    }
}

/// A number's digits: the text without the plus sign that may lead it.
pub open spec fn unsigned_part(text: Seq<u8>) -> Seq<u8> {
    if text.len() > 0 && text[0] == PLUS {
        text.skip(1)
    } else {
        text
    }
}

/// The number that a text denotes: an optional plus sign, then one or more
/// decimal digits and nothing else, with a value that fits 32 bits.
pub open spec fn number_of(text: Seq<u8>) -> Option<u32> {
    let digits = unsigned_part(text);
    if digits.len() > 0 && all_digits(digits) && digits_value(digits) <= u32::MAX {
        Some(digits_value(digits) as u32)
    } else {
        None
    }
}

/// The number that a text denotes, or 0 where it denotes none.
pub open spec fn number_or_zero(text: Seq<u8>) -> u32 {
    match number_of(text) {
        Some(n) => n,
        None => 0,
    }
}

/// The value of the first digits of a number is no larger than the number.
pub proof fn lemma_digits_value_grows(digits: Seq<u8>, len: int)
    requires
        0 <= len <= digits.len(),
    ensures
        digits_value(digits.take(len)) <= digits_value(digits),
    decreases digits.len() - len,
{
    if len < digits.len() {
        lemma_digits_value_grows(digits, len + 1);
        assert(digits.take(len + 1).drop_last() =~= digits.take(len));
    } else {
        assert(digits.take(len) =~= digits);
    }
}

/// Reads a number; `None` where the text is not one or the number is too large.
pub fn parse_number(text: &[u8]) -> (number: Option<u32>)
    ensures
        number == number_of(text@),
{
    let n = text.len();
    let start: usize = if n > 0 && text[0] == PLUS {
        1
    } else {
        0
    };
    if start == n {
        return None;
    }
    let ghost digits = unsigned_part(text@);
    assert(digits =~= text@.skip(start as int));
    let mut value: u32 = 0;
    let mut at: usize = start;
    assert(digits.take(0) =~= Seq::<u8>::empty());
    while at < n
        invariant
            n == text@.len(),
            start <= at <= n,
            digits == text@.skip(start as int),
            digits == unsigned_part(text@),
            all_digits(digits.take(at - start)),
            value == digits_value(digits.take(at - start)),
        decreases n - at,
    {
        let byte = text[at];
        if byte < 0x30 || byte > 0x39 {
            assert(!is_digit(digits[at - start]));
            return None;
        }
        let digit: u32 = (byte - 0x30) as u32;
        proof {
            assert(digits.take(at - start + 1).drop_last() =~= digits.take(at - start));
            assert(digits.take(at - start + 1).last() == byte);
            lemma_digits_value_grows(digits, at - start + 1);
        }
        let scaled = match value.checked_mul(10) {
            Some(scaled) => scaled,
            None => {
                return None;
            },
        };
        value = match scaled.checked_add(digit) {
            Some(sum) => sum,
            None => {
                return None;
            },
        };
        at = at + 1;
    }
    assert(digits.take(at - start) =~= digits);
    Some(value)
}

/// The start and the count of a range `start[,count]`: the start is what
/// stands before the first comma, the count what follows it. A missing
/// count is 1, and a number that cannot be read is 0.
pub open spec fn range_of(text: Seq<u8>) -> (u32, u32) {
    let comma = position_of(text, COMMA, 0);
    let start = number_or_zero(text.subrange(0, comma));
    if comma >= text.len() {
        (start, 1)
    } else {
        (start, number_or_zero(text.skip(comma + 1)))
    }
}

/// Reads a range `start[,count]`.
pub fn parse_range(range: &str) -> (r: (u32, u32))
    ensures
        r == range_of(range.spec_bytes()),
{
    let bytes = range.as_bytes();
    let comma = find_byte(bytes, COMMA, 0);
    let start = match parse_number(slice_subrange(bytes, 0, comma)) {
        Some(n) => n,
        None => 0,
    };
    if comma >= bytes.len() {
        (start, 1)
    } else {
        let behind = slice_subrange(bytes, comma + 1, bytes.len());
        assert(behind@ =~= bytes@.skip(comma + 1));
        let count = match parse_number(behind) {
            Some(n) => n,
            None => 0,
        };
        (start, count)
    }
}

/// Whether three bytes encode one of the white-space characters that take
/// three bytes: U+1680, U+2000 to U+200A, U+2028, U+2029, U+202F, U+205F, U+3000.
pub open spec fn is_wide_space(first: u8, second: u8, third: u8) -> bool {
    ||| first == 0xe1 && second == 0x9a && third == 0x80
    ||| first == 0xe2 && second == 0x80 && (0x80 <= third <= 0x8a || third == 0xa8 || third
        == 0xa9 || third == 0xaf)
    ||| first == 0xe2 && second == 0x81 && third == 0x9f
    ||| first == 0xe3 && second == 0x80 && third == 0x80
}

/// The length in bytes of the white-space character whose encoding begins at
/// `at`, or 0 where none begins there. White space is what Unicode calls so:
/// U+0009 to U+000D, U+0020, U+0085, U+00A0 and the three-byte ones.
pub open spec fn white_space_at(text: Seq<u8>, at: int) -> int {
    if at < 0 || at >= text.len() {
        0
    } else if 0x09 <= text[at] <= 0x0d || text[at] == SPACE {
        1
    } else if at + 1 < text.len() && text[at] == 0xc2 && (text[at + 1] == 0x85 || text[at + 1]
        == 0xa0) {
        2
    } else if at + 2 < text.len() && is_wide_space(text[at], text[at + 1], text[at + 2]) {
        3
    } else {
        0
    }
}

/// Where the first word at or after `from` begins: behind the white space
/// that stands at `from`.
pub open spec fn word_start(text: Seq<u8>, from: int) -> int
    decreases text.len() - from,
{
    let width = white_space_at(text, from);
    if width > 0 {
        word_start(text, from + width)
    } else {
        from
    }
}

/// Where the word that begins at `from` ends: at the next white space, or at
/// the end of the text.
pub open spec fn word_end(text: Seq<u8>, from: int) -> int
    decreases text.len() - from,
{
    if from < 0 || from >= text.len() || white_space_at(text, from) > 0 {
        from
    } else {
        word_end(text, from + 1)
    }
}

/// The word with the given index among the words from `from` on, where words
/// are what white space separates.
pub open spec fn word_of(text: Seq<u8>, from: int, index: nat) -> Option<Seq<u8>>
    decreases index,
{
    let start = word_start(text, from);
    if start < 0 || start >= text.len() {
        None
    } else if index == 0 {
        Some(text.subrange(start, word_end(text, start)))
    } else {
        word_of(text, word_end(text, start), (index - 1) as nat)
    }
}

/// The length of the white-space character that begins at `at`, or 0.
pub fn white_space_len(bytes: &[u8], at: usize) -> (width: usize)
    ensures
        width == white_space_at(bytes@, at as int),
{
    let n = bytes.len();
    if at >= n {
        return 0;
    }
    let first = bytes[at];
    if (0x09 <= first && first <= 0x0d) || first == SPACE {
        1
    } else if n - at > 1 && first == 0xc2 && (bytes[at + 1] == 0x85 || bytes[at + 1] == 0xa0) {
        2
    } else if n - at > 2 {
        let second = bytes[at + 1];
        let third = bytes[at + 2];
        if (first == 0xe1 && second == 0x9a && third == 0x80) || (first == 0xe2 && second == 0x80
            && ((0x80 <= third && third <= 0x8a) || third == 0xa8 || third == 0xa9 || third
            == 0xaf)) || (first == 0xe2 && second == 0x81 && third == 0x9f) || (first == 0xe3
            && second == 0x80 && third == 0x80) {
            3
        } else {
            0
        }
    } else {
        0
    }
}

/// The next word at or after `from`, with the position behind it; `None`
/// where only white space follows.
fn next_word<'a>(text: &'a str, from: usize) -> (found: Option<(&'a str, usize)>)
    requires
        is_cut(text.spec_bytes(), from as int),
    ensures
        match found {
            Some((word, end)) => {
                let start = word_start(text.spec_bytes(), from as int);
                &&& start < text.spec_bytes().len()
                &&& end == word_end(text.spec_bytes(), start)
                &&& word.spec_bytes() == text.spec_bytes().subrange(start, end as int)
                &&& is_cut(text.spec_bytes(), end as int)
            },
            None => word_start(text.spec_bytes(), from as int) >= text.spec_bytes().len(),
        },
{
    let bytes = text.as_bytes();
    let n = bytes.len();
    let ghost all = text.spec_bytes();
    proof {
        encode_utf8_valid_utf8(text@);
        is_char_boundary_start_end_of_seq(all);
    }
    let mut start = from;
    let mut width = white_space_len(bytes, start);
    while width > 0
        invariant
            bytes@ == all,
            all == text.spec_bytes(),
            n == all.len(),
            valid_utf8(all),
            from <= start <= n,
            is_cut(all, start as int),
            width == white_space_at(all, start as int),
            word_start(all, start as int) == word_start(all, from as int),
        decreases n - start,
    {
        proof {
            lemma_cut_after_char(all, start as int);
            assert(all.subrange(start as int, n as int)[0] == all[start as int]);
        }
        start = start + width;
        width = white_space_len(bytes, start);
    }
    if start >= n {
        return None;
    }
    let mut end = start;
    while end < n && white_space_len(bytes, end) == 0
        invariant
            bytes@ == all,
            n == all.len(),
            start <= end <= n,
            word_end(all, end as int) == word_end(all, start as int),
        decreases n - end,
    {
        end = end + 1;
    }
    proof {
        if end < n {
            is_char_boundary_iff_not_is_continuation_byte(all, end as int);
        }
    }
    Some((slice(text, start, end), end))
}

/// The four numbers of a hunk header `@@ -old_start[,old_count] +new_start[,new_count] @@`:
/// the second word without its minus sign and the third without its plus
/// sign, each read as a range. With fewer than three words all four are 0.
pub open spec fn hunk_ranges(header: Seq<u8>) -> (u32, u32, u32, u32) {
    match (word_of(header, 0, 1), word_of(header, 0, 2)) {
        (Some(old), Some(new)) => {
            let old_range = range_of(unsigned_field(old, bytes_of("-"@)));
            let new_range = range_of(unsigned_field(new, bytes_of("+"@)));
            (old_range.0, old_range.1, new_range.0, new_range.1)
        },
        _ => (0, 0, 0, 0),
    }
}

/// A field without the sign that may lead it.
pub open spec fn unsigned_field(field: Seq<u8>, sign: Seq<u8>) -> Seq<u8> {
    match without_prefix(field, sign) {
        Some(rest) => rest,
        None => field,
    }
}

/// Reads the line ranges of a hunk header.
pub fn parse_hunk_header(header: &str) -> (r: (u32, u32, u32, u32))
    ensures
        r == hunk_ranges(header.spec_bytes()),
{
    proof {
        encode_utf8_valid_utf8(header@);
        is_char_boundary_start_end_of_seq(header.spec_bytes());
        reveal_with_fuel(word_of, 3);
    }
    let first_end = match next_word(header, 0) {
        Some((_, end)) => end,
        None => {
            return (0, 0, 0, 0);
        },
    };
    let (old, old_end) = match next_word(header, first_end) {
        Some(found) => found,
        None => {
            return (0, 0, 0, 0);
        },
    };
    let new = match next_word(header, old_end) {
        Some((new, _)) => new,
        None => {
            return (0, 0, 0, 0);
        },
    };
    let old = match strip_prefix(old, "-") {
        Some(rest) => rest,
        None => old,
    };
    let new = match strip_prefix(new, "+") {
        Some(rest) => rest,
        None => new,
    };
    let (old_start, old_count) = parse_range(old);
    let (new_start, new_count) = parse_range(new);
    (old_start, old_count, new_start, new_count)
}

/// The two names of a file header `diff --git a/old b/new`: what follows
/// the second space of the line, if it has two.
pub open spec fn header_names(line: Seq<u8>) -> Option<Seq<u8>> {
    let first = position_of(line, SPACE, 0);
    let second = position_of(line, SPACE, first + 1);
    if second >= line.len() {
        None
    } else {
        Some(line.skip(second + 1))
    }
}

/// The name that stands on both sides of the names of a file header, if
/// the two sides are the same: the names fall into two halves about a space
/// in the middle, and the first half without its `a/` is the second
/// without its `b/`.
pub open spec fn name_of_both_sides(names: Seq<u8>) -> Option<Seq<u8>> {
    let middle = names.len() as int / 2;
    if names.len() % 2 == 1 && names[middle] == SPACE {
        let old = unsigned_field(names.take(middle), bytes_of("a/"@));
        let new = unsigned_field(names.skip(middle + 1), bytes_of("b/"@));
        if old == new {
            Some(new)
        } else {
            None
        }
    } else {
        None
    }
}

/// Whether a space stands at `at` that may part the two names: with
/// `marked` set, only a space that `b/` follows.
pub open spec fn parts_names(names: Seq<u8>, at: int, marked: bool) -> bool {
    &&& 0 <= at < names.len()
    &&& names[at] == SPACE
    &&& !marked || has_prefix(names.skip(at + 1), bytes_of("b/"@))
}

/// The last place before `upto` where a space may part the two names, or
/// -1 where there is none.
pub open spec fn last_parting(names: Seq<u8>, upto: int, marked: bool) -> int
    decreases upto,
{
    if upto <= 0 {
        -1
    } else if parts_names(names, upto - 1, marked) {
        upto - 1
    } else {
        last_parting(names, upto - 1, marked)
    }
}

/// Where the second of the two names begins when the two differ: behind
/// the last space that `b/` follows, or else behind the last space; -1
/// where the names hold no space.
pub open spec fn new_name_start(names: Seq<u8>) -> int {
    let marked = last_parting(names, names.len() as int, true);
    let parting = if marked >= 0 {
        marked
    } else {
        last_parting(names, names.len() as int, false)
    };
    if parting >= 0 {
        parting + 1
    } else {
        -1
    }
}

/// The path that a file header `diff --git a/old b/new` names: the name on
/// the side of `b/`, without the `b/`.
///
/// Where the two sides are the same, as they are unless the file was
/// renamed, the path is that name, whatever spaces it holds. Where they
/// differ, the second name begins behind the last space that `b/` follows,
/// or, without any `b/`, behind the last space. A header without two names
/// gives `unknown`.
pub open spec fn header_path(line: Seq<u8>) -> Seq<u8> {
    match header_names(line) {
        Some(names) => match name_of_both_sides(names) {
            Some(name) => name,
            None => {
                let start = new_name_start(names);
                if start >= 0 {
                    unsigned_field(names.skip(start), bytes_of("b/"@))
                } else {
                    bytes_of("unknown"@)
                }
            },
        },
        None => bytes_of("unknown"@),
    }
}

/// A place is the last one before `upto` where a space may part the names
/// if a space may part them there and none may behind it; there is none
/// where none may part them anywhere.
pub proof fn lemma_last_parting_is(names: Seq<u8>, upto: int, marked: bool, at: int)
    requires
        -1 <= at < upto <= names.len(),
        at >= 0 ==> parts_names(names, at, marked),
        forall|k: int| at < k < upto ==> !parts_names(names, k, marked),
    ensures
        last_parting(names, upto, marked) == at,
    decreases upto,
{
    if upto > 0 && at < upto - 1 {
        lemma_last_parting_is(names, upto - 1, marked, at);
    }
}

/// Finds the last space that may part the two names.
fn find_parting(names: &str, marked: bool) -> (found: Option<usize>)
    ensures
        match found {
            Some(at) => last_parting(names.spec_bytes(), names.spec_bytes().len() as int, marked)
                == at,
            None => last_parting(names.spec_bytes(), names.spec_bytes().len() as int, marked)
                == -1,
        },
{
    let bytes = names.as_bytes();
    let n = bytes.len();
    let ghost all = names.spec_bytes();
    proof {
        encode_utf8_valid_utf8(names@);
        is_char_boundary_start_end_of_seq(all);
    }
    let mut at = n;
    while at > 0
        invariant
            bytes@ == all,
            all == names.spec_bytes(),
            n == all.len(),
            valid_utf8(all),
            is_cut(all, n as int),
            at <= n,
            forall|k: int| at <= k < n ==> !parts_names(all, k, marked),
        decreases at,
    {
        at = at - 1;
        if bytes[at] == SPACE {
            proof {
                lemma_cut_around_ascii(all, at as int);
            }
            let rest = slice(names, at + 1, n);
            assert(rest.spec_bytes() =~= all.skip(at + 1));
            if !marked || starts_with(rest, "b/") {
                proof {
                    lemma_last_parting_is(all, n as int, marked, at as int);
                }
                return Some(at);
            }
        }
    }
    proof {
        lemma_last_parting_is(all, n as int, marked, -1);
    }
    None
}

/// The name on both sides of the names of a file header, if the two sides
/// are the same.
fn same_on_both_sides<'a>(names: &'a str) -> (name: Option<&'a str>)
    ensures
        match name {
            Some(found) => name_of_both_sides(names.spec_bytes()) == Some(found.spec_bytes()),
            None => name_of_both_sides(names.spec_bytes()) is None,
        },
{
    let bytes = names.as_bytes();
    let n = bytes.len();
    let ghost all = names.spec_bytes();
    if n % 2 == 0 {
        return None;
    }
    let middle = n / 2;
    if bytes[middle] != SPACE {
        return None;
    }
    proof {
        encode_utf8_valid_utf8(names@);
        is_char_boundary_start_end_of_seq(all);
        lemma_cut_around_ascii(all, middle as int);
    }
    let first = slice(names, 0, middle);
    let second = slice(names, middle + 1, n);
    assert(first.spec_bytes() =~= all.take(middle as int));
    assert(second.spec_bytes() =~= all.skip(middle + 1));
    let old = match strip_prefix(first, "a/") {
        Some(rest) => rest,
        None => first,
    };
    let new = match strip_prefix(second, "b/") {
        Some(rest) => rest,
        None => second,
    };
    if same_text(old, new) {
        Some(new)
    } else {
        None
    }
}

/// Reads the path of a file header; the status it starts from is `Modified`.
pub fn parse_diff_header(line: &str) -> (r: (String, FileStatus))
    ensures
        bytes_of(r.0@) == header_path(line.spec_bytes()),
        r.1 == FileStatus::Modified,
{
    let bytes = line.as_bytes();
    let n = bytes.len();
    let ghost all = line.spec_bytes();
    proof {
        encode_utf8_valid_utf8(line@);
        is_char_boundary_start_end_of_seq(all);
    }
    let first = find_byte(bytes, SPACE, 0);
    if first >= n {
        return ("unknown".to_owned(), FileStatus::Modified);
    }
    let second = find_byte(bytes, SPACE, first + 1);
    if second >= n {
        return ("unknown".to_owned(), FileStatus::Modified);
    }
    proof {
        lemma_position_bounds(all, SPACE, first + 1);
        lemma_cut_around_ascii(all, second as int);
    }
    let names = slice(line, second + 1, n);
    assert(names.spec_bytes() =~= all.skip(second + 1));
    if let Some(name) = same_on_both_sides(names) {
        return (name.to_owned(), FileStatus::Modified);
    }
    let parting = match find_parting(names, true) {
        Some(at) => Some(at),
        None => find_parting(names, false),
    };
    match parting {
        Some(at) => {
            proof {
                encode_utf8_valid_utf8(names@);
                is_char_boundary_start_end_of_seq(names.spec_bytes());
                let both = names.spec_bytes();
                lemma_last_parting_is_space(both, both.len() as int, true);
                lemma_last_parting_is_space(both, both.len() as int, false);
                lemma_cut_around_ascii(both, at as int);
            }
            let new = slice(names, at + 1, names.as_bytes().len());
            assert(new.spec_bytes() =~= names.spec_bytes().skip(at + 1));
            let path = match strip_prefix(new, "b/") {
                Some(rest) => rest,
                None => new,
            };
            (path.to_owned(), FileStatus::Modified)
        },
        None => ("unknown".to_owned(), FileStatus::Modified),
    }
}

/// At the last place where a space may part the names, a space may part
/// them.
pub proof fn lemma_last_parting_is_space(names: Seq<u8>, upto: int, marked: bool)
    ensures
        last_parting(names, upto, marked) >= 0 ==> parts_names(
            names,
            last_parting(names, upto, marked),
            marked,
        ),
    decreases upto,
{
    if upto > 0 && !parts_names(names, upto - 1, marked) {
        lemma_last_parting_is_space(names, upto - 1, marked);
    }
}

} // verus!
