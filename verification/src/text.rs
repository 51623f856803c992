//! Text as UTF-8 bytes: the model every parser in this crate works on.

use vstd::prelude::*;
use vstd::string::*;
use vstd::utf8::*;

verus! {

/// The UTF-8 bytes of a string, given its characters.
pub open spec fn bytes_of(chars: Seq<char>) -> Seq<u8> {
    encode_utf8(chars)
}

/// The characters of a string that may be missing.
pub open spec fn optional_text(text: Option<String>) -> Option<Seq<char>> {
    match text {
        Some(t) => Some(t@),
        None => None,
    }
}

/// Whether `text` begins with `prefix`.
pub open spec fn has_prefix(text: Seq<u8>, prefix: Seq<u8>) -> bool {
    prefix.len() <= text.len() && text.subrange(0, prefix.len() as int) == prefix
}

/// Tells whether `text` begins with `prefix`, byte for byte.
pub fn starts_with(text: &str, prefix: &str) -> (found: bool)
    ensures
        found == has_prefix(text.spec_bytes(), prefix.spec_bytes()),
{
    let t = text.as_bytes();
    let p = prefix.as_bytes();
    if p.len() > t.len() {
        return false;
    }
    let mut i: usize = 0;
    while i < p.len()
        invariant
            t@ == text.spec_bytes(),
            p@ == prefix.spec_bytes(),
            i <= p@.len() <= t@.len(),
            t@.subrange(0, i as int) == p@.subrange(0, i as int),
        decreases p@.len() - i,
    {
        if t[i] != p[i] {
            assert(t@.subrange(0, p@.len() as int)[i as int] != p@[i as int]);
            return false;
        }
        assert(t@.subrange(0, i + 1) =~= t@.subrange(0, i as int).push(t@[i as int]));
        assert(p@.subrange(0, i + 1) =~= p@.subrange(0, i as int).push(p@[i as int]));
        i += 1;
    }
    assert(p@.subrange(0, p@.len() as int) =~= p@);
    true
}

/// Tells whether two texts are the same, byte for byte.
pub fn same_text(a: &str, b: &str) -> (same: bool)
    ensures
        same == (a.spec_bytes() == b.spec_bytes()),
{
    if a.as_bytes().len() != b.as_bytes().len() {
        return false;
    }
    let same = starts_with(a, b);
    assert(a.spec_bytes().subrange(0, a.spec_bytes().len() as int) =~= a.spec_bytes());
    same
}

/// Whether `at` is a place where `text` may be cut: within it, and not inside
/// the encoding of a character.
pub open spec fn is_cut(text: Seq<u8>, at: int) -> bool {
    0 <= at <= text.len() && is_char_boundary(text, at)
}

/// A text may be cut behind the character that begins at a cut.
pub proof fn lemma_cut_after_char(text: Seq<u8>, at: int)
    requires
        valid_utf8(text),
        is_cut(text, at),
        at < text.len(),
    ensures
        valid_first_scalar(text.subrange(at, text.len() as int)),
        is_cut(text, at + length_of_first_scalar(text.subrange(at, text.len() as int))),
{
    let tail = text.subrange(at, text.len() as int);
    valid_utf8_split(text, at);
    assert(valid_first_scalar(tail));
    let width = length_of_first_scalar(tail);
    let rest = pop_first_scalar(tail);
    assert(valid_utf8(rest));
    assert(rest =~= text.subrange(at + width, text.len() as int));
    if at + width == text.len() {
        is_char_boundary_start_end_of_seq(text);
    } else {
        assert(valid_first_scalar(rest));
        assert(rest[0] == text[at + width]);
        is_char_boundary_iff_not_is_continuation_byte(text, at + width);
    }
}

/// A text may be cut immediately before and immediately after any ASCII byte.
pub proof fn lemma_cut_around_ascii(text: Seq<u8>, at: int)
    requires
        valid_utf8(text),
        0 <= at < text.len(),
        text[at] < 0x80,
    ensures
        is_cut(text, at),
        is_cut(text, at + 1),
{
    is_char_boundary_iff_not_is_continuation_byte(text, at);
    lemma_cut_after_char(text, at);
    assert(text.subrange(at, text.len() as int)[0] == text[at]);
}

/// A cut of a text is also a cut of every prefix that ends at a later cut.
pub proof fn lemma_cut_of_prefix(text: Seq<u8>, from: int, to: int)
    requires
        valid_utf8(text),
        is_cut(text, from),
        is_cut(text, to),
        from <= to,
    ensures
        valid_utf8(text.subrange(0, to)),
        is_cut(text.subrange(0, to), from),
{
    let head = text.subrange(0, to);
    valid_utf8_split(text, to);
    if from == to {
        is_char_boundary_start_end_of_seq(head);
    } else {
        is_char_boundary_iff_not_is_continuation_byte(text, from);
        assert(head[from] == text[from]);
        is_char_boundary_iff_not_is_continuation_byte(head, from);
    }
}

/// The part of `text` between two cuts.
pub fn slice<'a>(text: &'a str, from: usize, to: usize) -> (part: &'a str)
    requires
        from <= to,
        is_cut(text.spec_bytes(), from as int),
        is_cut(text.spec_bytes(), to as int),
    ensures
        part.spec_bytes() == text.spec_bytes().subrange(from as int, to as int),
{
    proof {
        encode_utf8_valid_utf8(text@);
        lemma_cut_of_prefix(text.spec_bytes(), from as int, to as int);
    }
    let (head, _) = text.split_at(to);
    let (_, part) = head.split_at(from);
    assert(head.spec_bytes().subrange(from as int, head.spec_bytes().len() as int)
        =~= text.spec_bytes().subrange(from as int, to as int));
    part
}

/// Where a prefix of a text is itself well-formed UTF-8, the text may be
/// cut at its end.
pub proof fn lemma_cut_after_prefix(text: Seq<u8>, len: int)
    requires
        valid_utf8(text),
        0 <= len <= text.len(),
        valid_utf8(text.subrange(0, len)),
    ensures
        is_cut(text, len),
    decreases len,
{
    if len > 0 {
        let head = text.subrange(0, len);
        let width = length_of_first_scalar(head);
        assert(valid_first_scalar(head));
        assert(head[0] == text[0]);
        assert(width == length_of_first_scalar(text));
        assert(width <= len);
        assert(pop_first_scalar(head) =~= pop_first_scalar(text).subrange(0, len - width));
        lemma_cut_after_prefix(pop_first_scalar(text), len - width);
    }
}

/// What follows `prefix` in `text`, if `text` begins with it.
pub open spec fn without_prefix(text: Seq<u8>, prefix: Seq<u8>) -> Option<Seq<u8>> {
    if has_prefix(text, prefix) {
        Some(text.skip(prefix.len() as int))
    } else {
        None
    }
}

/// Takes `prefix` off the front of `text`, if `text` begins with it.
pub fn strip_prefix<'a>(text: &'a str, prefix: &str) -> (rest: Option<&'a str>)
    ensures
        match rest {
            Some(r) => without_prefix(text.spec_bytes(), prefix.spec_bytes()) == Some(
                r.spec_bytes(),
            ),
            None => without_prefix(text.spec_bytes(), prefix.spec_bytes()) is None,
        },
{
    if starts_with(text, prefix) {
        proof {
            encode_utf8_valid_utf8(text@);
            encode_utf8_valid_utf8(prefix@);
            lemma_cut_after_prefix(text.spec_bytes(), prefix.spec_bytes().len() as int);
            is_char_boundary_start_end_of_seq(text.spec_bytes());
        }
        let rest = slice(text, prefix.as_bytes().len(), text.as_bytes().len());
        assert(rest.spec_bytes() =~= text.spec_bytes().skip(prefix.spec_bytes().len() as int));
        Some(rest)
    } else {
        None
    }
}

/// The line feed that ends a line.
pub const LINE_FEED: u8 = 0x0a;

/// The carriage return that may stand before a line feed.
pub const CARRIAGE_RETURN: u8 = 0x0d;

/// The position of the first `byte` in `text` at or after `from`, or the
/// length of the text if there is none.
pub open spec fn position_of(text: Seq<u8>, byte: u8, from: int) -> int
    decreases text.len() - from,
{
    if from < 0 || from >= text.len() {
        text.len() as int
    } else if text[from] == byte {
        from
    } else {
        position_of(text, byte, from + 1)
    }
}

/// Where the line that starts at `from` ends: at the next line feed, or at
/// the end of the text.
pub open spec fn line_end(text: Seq<u8>, from: int) -> int {
    position_of(text, LINE_FEED, from)
}

/// A line without the carriage return that a `\r\n` ending leaves behind.
pub open spec fn without_carriage_return(line: Seq<u8>) -> Seq<u8> {
    if line.len() > 0 && line.last() == CARRIAGE_RETURN {
        line.drop_last()
    } else {
        line
    }
}

/// The lines of `text` from position `from` on.
///
/// A line ends at a line feed, which is not part of it, and neither is a
/// carriage return directly before that line feed. What follows the last line
/// feed is a line too, unless it is empty; it is kept as it stands.
pub open spec fn lines_from(text: Seq<u8>, from: int) -> Seq<Seq<u8>>
    decreases text.len() - from,
{
    if from < 0 || from >= text.len() {
        seq![]
    } else {
        let end = line_end(text, from);
        if end >= text.len() {
            seq![text.subrange(from, text.len() as int)]
        } else {
            proof {
                lemma_line_end_bounds(text, from);
            }
            seq![without_carriage_return(text.subrange(from, end))] + lines_from(text, end + 1)
        }
    }
}

/// The lines of a text.
pub open spec fn lines_of(text: Seq<u8>) -> Seq<Seq<u8>> {
    lines_from(text, 0)
}

/// The texts of a list of string slices.
pub open spec fn texts_of(parts: Seq<&str>) -> Seq<Seq<u8>> {
    Seq::new(parts.len(), |i: int| parts[i].spec_bytes())
}

/// The first `byte` from `from` on stands at or after `from`, within the
/// text; if it is found, the text holds `byte` there, and nowhere between.
pub proof fn lemma_position_bounds(text: Seq<u8>, byte: u8, from: int)
    requires
        0 <= from <= text.len(),
    ensures
        from <= position_of(text, byte, from) <= text.len(),
        position_of(text, byte, from) < text.len() ==> text[position_of(text, byte, from)] == byte,
        forall|k: int| from <= k < position_of(text, byte, from) ==> text[k] != byte,
    decreases text.len() - from,
{
    if from < text.len() && text[from] != byte {
        lemma_position_bounds(text, byte, from + 1);
    }
}

/// A position is that of the first `byte` from `from` on if none stands
/// before it and it holds one, or is the end of the text.
pub proof fn lemma_position_is(text: Seq<u8>, byte: u8, from: int, at: int)
    requires
        0 <= from <= at <= text.len(),
        forall|k: int| from <= k < at ==> text[k] != byte,
        at < text.len() ==> text[at] == byte,
    ensures
        position_of(text, byte, from) == at,
    decreases at - from,
{
    if from < at {
        lemma_position_is(text, byte, from + 1, at);
    }
}

/// A line ends at or after its start, within the text.
pub proof fn lemma_line_end_bounds(text: Seq<u8>, from: int)
    requires
        0 <= from <= text.len(),
    ensures
        from <= line_end(text, from) <= text.len(),
{
    lemma_position_bounds(text, LINE_FEED, from);
}

/// Finds the first `byte` at or after `from`.
pub fn find_byte(bytes: &[u8], byte: u8, from: usize) -> (at: usize)
    requires
        from <= bytes@.len(),
    ensures
        at == position_of(bytes@, byte, from as int),
        from <= at <= bytes@.len(),
{
    let mut at = from;
    while at < bytes.len() && bytes[at] != byte
        invariant
            from <= at <= bytes@.len(),
            forall|k: int| from <= k < at ==> bytes@[k] != byte,
        decreases bytes@.len() - at,
    {
        at = at + 1;
    }
    proof {
        lemma_position_is(bytes@, byte, from as int, at as int);
    }
    at
}

/// Splits a text into its lines.
pub fn split_lines<'a>(input: &'a str) -> (lines: Vec<&'a str>)
    ensures
        texts_of(lines@) == lines_of(input.spec_bytes()),
{
    let bytes = input.as_bytes();
    let n = bytes.len();
    let ghost text = input.spec_bytes();
    let mut lines: Vec<&'a str> = Vec::new();
    let mut start: usize = 0;
    let mut at: usize = 0;
    proof {
        encode_utf8_valid_utf8(input@);
        is_char_boundary_start_end_of_seq(text);
        assert(texts_of(lines@) =~= Seq::<Seq<u8>>::empty());
    }
    while at < n
        invariant
            text == input.spec_bytes(),
            bytes@ == text,
            n == text.len(),
            valid_utf8(text),
            start <= at <= n,
            is_cut(text, start as int),
            forall|k: int| start <= k < at ==> text[k] != LINE_FEED,
            texts_of(lines@) + lines_from(text, start as int) == lines_of(text),
        decreases n - at,
    {
        if bytes[at] == LINE_FEED {
            let mut end = at;
            proof {
                lemma_cut_around_ascii(text, at as int);
                lemma_position_is(text, LINE_FEED, start as int, at as int);
            }
            if end > start && bytes[end - 1] == CARRIAGE_RETURN {
                end = end - 1;
                proof {
                    lemma_cut_around_ascii(text, end as int);
                }
            }
            let line = slice(input, start, end);
            let ghost before = lines@;
            lines.push(line);
            proof {
                assert(line.spec_bytes() =~= without_carriage_return(
                    text.subrange(start as int, at as int),
                ));
                assert(texts_of(lines@) =~= texts_of(before) + seq![line.spec_bytes()]);
                assert(lines_from(text, start as int) == seq![line.spec_bytes()] + lines_from(
                    text,
                    at + 1,
                ));
                assert(texts_of(lines@) + lines_from(text, at + 1) =~= texts_of(before)
                    + lines_from(text, start as int));
            }
            start = at + 1;
        }
        at = at + 1;
    }
    if start < n {
        proof {
            lemma_position_is(text, LINE_FEED, start as int, n as int);
        }
        let line = slice(input, start, n);
        let ghost before = lines@;
        lines.push(line);
        proof {
            assert(texts_of(lines@) =~= texts_of(before) + seq![line.spec_bytes()]);
        }
    } else {
        proof {
            assert(texts_of(lines@) + Seq::<Seq<u8>>::empty() =~= texts_of(lines@));
        }
    }
    lines
}

/// The lines written one after the other, each with a line feed behind it.
pub open spec fn joined(lines: Seq<Seq<u8>>) -> Seq<u8>
    decreases lines.len(),
{
    if lines.len() == 0 {
        seq![]
    } else {
        (lines[0] + seq![LINE_FEED]) + joined(lines.drop_first())
    }
}

/// Whether a text can be a line of a text: it holds no line feed and does
/// not end in a carriage return, which would be taken for a part of the
/// line's ending.
pub open spec fn is_line(line: Seq<u8>) -> bool {
    &&& forall|i: int| 0 <= i < line.len() ==> line[i] != LINE_FEED
    &&& line.len() > 0 ==> line.last() != CARRIAGE_RETURN
}

/// A byte stands in a text behind a head where it stands in the text, and
/// is found there where it is found in the text.
proof fn lemma_position_behind(head: Seq<u8>, text: Seq<u8>, byte: u8, from: int)
    requires
        0 <= from <= text.len(),
    ensures
        position_of(head + text, byte, head.len() + from) == head.len() + position_of(
            text,
            byte,
            from,
        ),
    decreases text.len() - from,
{
    let all = head + text;
    if from < text.len() {
        assert(all[head.len() + from] == text[from]);
        if text[from] != byte {
            lemma_position_behind(head, text, byte, from + 1);
        }
    }
}

/// The lines of a text behind a head are the lines of the text.
proof fn lemma_lines_behind(head: Seq<u8>, text: Seq<u8>, from: int)
    requires
        0 <= from <= text.len(),
    ensures
        lines_from(head + text, head.len() + from) == lines_from(text, from),
    decreases text.len() - from,
{
    let all = head + text;
    if from < text.len() {
        lemma_position_behind(head, text, LINE_FEED, from);
        lemma_position_bounds(text, LINE_FEED, from);
        let end = line_end(text, from);
        if end >= text.len() {
            assert(all.subrange(head.len() + from, all.len() as int) =~= text.subrange(
                from,
                text.len() as int,
            ));
        } else {
            assert(all.subrange(head.len() + from, head.len() + end) =~= text.subrange(from, end));
            lemma_lines_behind(head, text, end + 1);
        }
    }
}

/// Written one after the other and split again, lines come back as they
/// were.
pub proof fn lemma_lines_of_joined(lines: Seq<Seq<u8>>)
    requires
        forall|k: int| 0 <= k < lines.len() ==> is_line(#[trigger] lines[k]),
    ensures
        lines_of(joined(lines)) == lines,
    decreases lines.len(),
{
    if lines.len() > 0 {
        let first = lines[0];
        let rest = lines.drop_first();
        let head = first + seq![LINE_FEED];
        let text = joined(lines);
        assert(text == head + joined(rest));
        assert forall|k: int| 0 <= k < rest.len() implies is_line(#[trigger] rest[k]) by {
            assert(rest[k] == lines[k + 1]);
        }
        lemma_lines_of_joined(rest);
        assert(is_line(first));
        assert forall|k: int| 0 <= k < first.len() implies text[k] != LINE_FEED by {
            assert(text[k] == first[k]);
        }
        assert(text[first.len() as int] == LINE_FEED);
        lemma_position_is(text, LINE_FEED, 0, first.len() as int);
        assert(text.subrange(0, first.len() as int) =~= first);
        lemma_lines_behind(head, joined(rest), 0);
        assert(lines =~= seq![first] + rest);
        if joined(rest).len() == 0 {
            assert(rest.len() == 0) by {
                if rest.len() > 0 {
                    assert(joined(rest).len() >= 1);
                }
            }
        }
    }
}

} // verus!
