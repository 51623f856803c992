//! The inline engine: inside a deletion and the addition that replaces it,
//! the words that changed.
//!
//! The words come from a word diff of the two lines. Each change of that
//! diff is placed by the bytes that the changes before it cover, never by a
//! search for its text: a line may hold the same word twice.

use crate::diff::{
    all_unmarked, all_well_formed, models, unmarked, DiffLine, Hunk, HunkModel, InlineSpan,
    LineModel, LineOrigin,
};
use crate::text::{bytes_of, is_cut};
use vstd::prelude::*;
use vstd::string::*;

verus! {

/// What a change of a word diff does to its text.
#[derive(Debug, Clone, Copy, PartialEq, Eq, Structural)]
pub enum ChangeTag {
    /// The text stands in both lines.
    Equal,
    /// The text stands in the old line only.
    Delete,
    /// The text stands in the new line only.
    Insert,
}

/// One change of a word diff: a run of text and what became of it.
#[derive(Debug)]
pub struct WordChange {
    pub tag: ChangeTag,
    pub text: String,
}

/// The model of a [`WordChange`]: its text as UTF-8 bytes.
pub struct WordChangeModel {
    pub tag: ChangeTag,
    pub text: Seq<u8>,
}

impl View for WordChange {
    type V = WordChangeModel;

    open spec fn view(&self) -> WordChangeModel {
        WordChangeModel { tag: self.tag, text: bytes_of(self.text@) }
    }
}

/// The changes that lead from the words of `old` to the words of `new`, by
/// the patience algorithm, in the order of the text.
pub uninterp spec fn word_changes(old: Seq<u8>, new: Seq<u8>) -> Seq<WordChangeModel>;

/// The word diff of two lines, by `similar`: `TextDiff::configure()`, with
/// `algorithm(Algorithm::Patience)`, then `diff_words` and
/// `iter_all_changes`. The changes are handed over as they come, each with
/// its tag and its text. No deadline is set, so the result depends on the
/// two texts alone; nothing else is claimed of it.
#[verifier::external_body]
fn diff_words(old: &str, new: &str) -> (changes: Vec<WordChange>)
    ensures
        models(changes@) == word_changes(old.spec_bytes(), new.spec_bytes()),
{
    let diff = similar::TextDiff::configure().algorithm(similar::Algorithm::Patience).diff_words(
        old,
        new,
    );
    let mut changes = Vec::new();
    for change in diff.iter_all_changes() {
        let tag = match change.tag() {
            similar::ChangeTag::Equal => ChangeTag::Equal,
            similar::ChangeTag::Delete => ChangeTag::Delete,
            similar::ChangeTag::Insert => ChangeTag::Insert,
        };
        changes.push(WordChange { tag, text: change.value().to_owned() });
    }
    changes
}

/// The byte range of `len` bytes at `offset` in `content`, if it is the
/// range of a part of the text: inside it, with both ends between characters.
pub open spec fn range_in(content: Seq<u8>, offset: nat, len: nat) -> Option<(usize, usize)> {
    if offset + len <= usize::MAX && is_cut(content, offset as int) && is_cut(
        content,
        (offset + len) as int,
    ) {
        Some((offset as usize, (offset + len) as usize))
    } else {
        None
    }
}

/// The byte range in `source` of the `len` bytes that begin at `offset`;
/// `None` if they are not a part of `source`.
pub fn byte_range_in(source: &str, offset: usize, len: usize) -> (range: Option<(usize, usize)>)
    ensures
        range == range_in(source.spec_bytes(), offset as nat, len as nat),
{
    match offset.checked_add(len) {
        Some(end) => {
            if end <= source.as_bytes().len() && source.is_char_boundary(offset)
                && source.is_char_boundary(end) {
                Some((offset, end))
            } else {
                None
            }
        },
        None => None,
    }
}

/// Whether a change's text stands in the line of the given side, where
/// `Delete` names the old line and `Insert` the new one.
pub open spec fn covers(tag: ChangeTag, side: ChangeTag) -> bool {
    tag == ChangeTag::Equal || tag == side
}

/// The number of bytes that the changes cover in the line of the given side.
pub open spec fn offset_on(changes: Seq<WordChangeModel>, side: ChangeTag) -> nat
    decreases changes.len(),
{
    if changes.len() == 0 {
        0
    } else if covers(changes.last().tag, side) {
        offset_on(changes.drop_last(), side) + changes.last().text.len()
    } else {
        offset_on(changes.drop_last(), side)
    }
}

/// The spans in the line of the given side, with the given content: one for
/// each change of that side, in order, at the byte offset that the changes
/// before it cover. A change whose range is no part of the content gives no
/// span.
pub open spec fn spans_on(changes: Seq<WordChangeModel>, side: ChangeTag, content: Seq<u8>) -> Seq<
    InlineSpan,
>
    decreases changes.len(),
{
    if changes.len() == 0 {
        seq![]
    } else {
        let before = changes.drop_last();
        let earlier = spans_on(before, side, content);
        if changes.last().tag == side {
            match range_in(content, offset_on(before, side), changes.last().text.len()) {
                Some(range) => earlier.push(InlineSpan { start: range.0, end: range.1 }),
                None => earlier,
            }
        } else {
            earlier
        }
    }
}

/// Whether `at` is the offset `offset`, or stands for one beyond `usize`.
pub open spec fn tracks(at: Option<usize>, offset: nat) -> bool {
    match at {
        Some(a) => a == offset,
        None => offset > usize::MAX,
    }
}

/// Every span on a side fits the content of that side's line.
pub proof fn lemma_spans_fit(changes: Seq<WordChangeModel>, side: ChangeTag, content: Seq<u8>)
    ensures
        forall|k: int|
            0 <= k < spans_on(changes, side, content).len() ==> (#[trigger] spans_on(
                changes,
                side,
                content,
            )[k]).fits(content),
    decreases changes.len(),
{
    if changes.len() > 0 {
        let before = changes.drop_last();
        lemma_spans_fit(before, side, content);
        let earlier = spans_on(before, side, content);
        let spans = spans_on(changes, side, content);
        assert forall|k: int| 0 <= k < spans.len() implies (#[trigger] spans[k]).fits(content) by {
            if k < earlier.len() {
                assert(spans[k] == earlier[k]);
            }
        }
    }
}

/// The offset behind `len` more bytes.
fn advance(at: Option<usize>, len: usize) -> (next: Option<usize>)
    ensures
        forall|offset: nat| tracks(at, offset) ==> tracks(next, offset + len as nat),
{
    match at {
        Some(a) => a.checked_add(len),
        None => None,
    }
}

/// The span of `len` bytes at `at` in `source`, if they are a part of it.
fn span_at(source: &str, at: Option<usize>, len: usize) -> (span: Option<InlineSpan>)
    ensures
        forall|offset: nat|
            tracks(at, offset) ==> match range_in(source.spec_bytes(), offset, len as nat) {
                Some(range) => span == Some(InlineSpan { start: range.0, end: range.1 }),
                None => span is None,
            },
{
    match at {
        Some(offset) => match byte_range_in(source, offset, len) {
            Some(range) => Some(InlineSpan { start: range.0, end: range.1 }),
            None => None,
        },
        None => None,
    }
}

/// The spans that the changes of a word diff leave in the old line and in
/// the new line: those of the deletions in `old`, those of the insertions
/// in `new`.
pub fn spans_from_changes(old: &str, new: &str, changes: &Vec<WordChange>) -> (spans: (
    Vec<InlineSpan>,
    Vec<InlineSpan>,
))
    ensures
        spans.0@ == spans_on(models(changes@), ChangeTag::Delete, old.spec_bytes()),
        spans.1@ == spans_on(models(changes@), ChangeTag::Insert, new.spec_bytes()),
{
    let ghost all = models(changes@);
    let count = changes.len();
    let mut old_spans: Vec<InlineSpan> = Vec::new();
    let mut new_spans: Vec<InlineSpan> = Vec::new();
    let mut old_at: Option<usize> = Some(0);
    let mut new_at: Option<usize> = Some(0);
    let mut i: usize = 0;
    assert(all.take(0) =~= Seq::<WordChangeModel>::empty());
    while i < count
        invariant
            all == models(changes@),
            count == changes@.len(),
            i <= count,
            old_spans@ == spans_on(all.take(i as int), ChangeTag::Delete, old.spec_bytes()),
            new_spans@ == spans_on(all.take(i as int), ChangeTag::Insert, new.spec_bytes()),
            tracks(old_at, offset_on(all.take(i as int), ChangeTag::Delete)),
            tracks(new_at, offset_on(all.take(i as int), ChangeTag::Insert)),
        decreases count - i,
    {
        let change = &changes[i];
        let len = change.text.as_str().as_bytes().len();
        proof {
            assert(all.take(i + 1).drop_last() =~= all.take(i as int));
            assert(all.take(i + 1).last() == change@);
        }
        match change.tag {
            ChangeTag::Delete => {
                if let Some(span) = span_at(old, old_at, len) {
                    old_spans.push(span);
                }
                old_at = advance(old_at, len);
            },
            ChangeTag::Insert => {
                if let Some(span) = span_at(new, new_at, len) {
                    new_spans.push(span);
                }
                new_at = advance(new_at, len);
            },
            ChangeTag::Equal => {
                old_at = advance(old_at, len);
                new_at = advance(new_at, len);
            },
        }
        i = i + 1;
    }
    assert(all.take(count as int) =~= all);
    (old_spans, new_spans)
}

/// The spans of a word diff of `old` and `new`: those in `old`, then those
/// in `new`.
pub open spec fn word_spans(old: Seq<u8>, new: Seq<u8>) -> (Seq<InlineSpan>, Seq<InlineSpan>) {
    let changes = word_changes(old, new);
    (spans_on(changes, ChangeTag::Delete, old), spans_on(changes, ChangeTag::Insert, new))
}

/// Compares two lines word by word, and returns the byte spans of what
/// changed: in `old` what was removed, in `new` what was inserted.
pub fn word_diff(old: &str, new: &str) -> (spans: (Vec<InlineSpan>, Vec<InlineSpan>))
    ensures
        (spans.0@, spans.1@) == word_spans(old.spec_bytes(), new.spec_bytes()),
        forall|k: int| 0 <= k < spans.0@.len() ==> (#[trigger] spans.0@[k]).fits(old.spec_bytes()),
        forall|k: int| 0 <= k < spans.1@.len() ==> (#[trigger] spans.1@[k]).fits(new.spec_bytes()),
{
    let changes = diff_words(old, new);
    proof {
        lemma_spans_fit(models(changes@), ChangeTag::Delete, old.spec_bytes());
        lemma_spans_fit(models(changes@), ChangeTag::Insert, new.spec_bytes());
    }
    spans_from_changes(old, new, &changes)
}

/// Where the run of lines of one origin ends that begins at line `from`: at
/// the first line of another origin, or behind the last line. The run is
/// empty where line `from` is of another origin.
pub open spec fn run_end(lines: Seq<LineModel>, from: int, origin: LineOrigin) -> int
    decreases lines.len() - from,
{
    if 0 <= from < lines.len() && lines[from].origin == origin {
        run_end(lines, from + 1, origin)
    } else {
        from
    }
}

/// A line with the given spans in place of its own.
pub open spec fn with_spans(line: LineModel, spans: Seq<InlineSpan>) -> LineModel {
    LineModel { change_spans: spans, ..line }
}

/// The smaller of two numbers.
pub open spec fn smaller(a: int, b: int) -> int {
    if a <= b {
        a
    } else {
        b
    }
}

/// Line `at` of a block of deletions from line `from` up to line `adds`,
/// followed by additions up to line `end`, after the engine has run.
///
/// The deletions and the additions are paired in order, as far as both
/// reach. A paired line gets the spans of the word diff of the pair: the
/// deletion those in the old text, the addition those in the new text. A
/// line without a partner stays as it is.
pub open spec fn marked_line(lines: Seq<LineModel>, from: int, adds: int, end: int, at: int)
    -> LineModel {
    let pairs = smaller(adds - from, end - adds);
    if from <= at < from + pairs {
        with_spans(
            lines[at],
            word_spans(lines[at].content, lines[at + (adds - from)].content).0,
        )
    } else if adds <= at < adds + pairs {
        with_spans(
            lines[at],
            word_spans(lines[at - (adds - from)].content, lines[at].content).1,
        )
    } else {
        lines[at]
    }
}

/// The lines from `from` on, after the engine has run.
///
/// The lines are taken in blocks: a run of deletions and the run of
/// additions that follows it directly. Either run may be empty; where both
/// are, the line at `from` is passed over as it is.
pub open spec fn marked_from(lines: Seq<LineModel>, from: int) -> Seq<LineModel>
    decreases lines.len() - from,
{
    if from < 0 || from >= lines.len() {
        seq![]
    } else {
        let adds = run_end(lines, from, LineOrigin::Deletion);
        let end = run_end(lines, adds, LineOrigin::Addition);
        if end == from {
            seq![lines[from]] + marked_from(lines, from + 1)
        } else {
            proof {
                lemma_run_end_bounds(lines, from, LineOrigin::Deletion);
                lemma_run_end_bounds(lines, adds, LineOrigin::Addition);
            }
            Seq::new((end - from) as nat, |k: int| marked_line(lines, from, adds, end, from + k))
                + marked_from(lines, end)
        }
    }
}

/// The lines of a hunk after the engine has run.
pub open spec fn marked_lines(lines: Seq<LineModel>) -> Seq<LineModel> {
    marked_from(lines, 0)
}

/// A hunk after the engine has run: only its lines' spans differ.
pub open spec fn marked_hunk(hunk: HunkModel) -> HunkModel {
    HunkModel { lines: marked_lines(hunk.lines), ..hunk }
}

/// A run ends at or after its start, within the lines.
pub proof fn lemma_run_end_bounds(lines: Seq<LineModel>, from: int, origin: LineOrigin)
    requires
        0 <= from <= lines.len(),
    ensures
        from <= run_end(lines, from, origin) <= lines.len(),
    decreases lines.len() - from,
{
    if from < lines.len() && lines[from].origin == origin {
        lemma_run_end_bounds(lines, from + 1, origin);
    }
}

/// Every line of a run is of the run's origin.
pub proof fn lemma_run_origin(lines: Seq<LineModel>, from: int, origin: LineOrigin)
    requires
        0 <= from <= lines.len(),
    ensures
        forall|k: int| from <= k < run_end(lines, from, origin) ==>
            (#[trigger] lines[k]).origin == origin,
    decreases lines.len() - from,
{
    if from < lines.len() && lines[from].origin == origin {
        lemma_run_origin(lines, from + 1, origin);
    }
}

/// Finds the end of the run of lines of one origin that begins at `from`.
pub fn find_run_end(lines: &[DiffLine], from: usize, origin: LineOrigin) -> (end: usize)
    requires
        from <= lines@.len(),
    ensures
        end == run_end(models(lines@), from as int, origin),
        from <= end <= lines@.len(),
{
    let count = lines.len();
    let mut end = from;
    while end < count && lines[end].origin == origin
        invariant
            count == lines@.len(),
            from <= end <= count,
            run_end(models(lines@), end as int, origin) == run_end(
                models(lines@),
                from as int,
                origin,
            ),
        decreases count - end,
    {
        end = end + 1;
    }
    end
}

/// Runs the engine on the lines of one hunk.
fn mark_lines(lines: &mut Vec<DiffLine>)
    ensures
        models(final(lines)@) == marked_lines(models(old(lines)@)),
{
    let ghost given = models(lines@);
    let count = lines.len();
    let mut from: usize = 0;
    assert(models(lines@).take(0) =~= Seq::<LineModel>::empty());
    while from < count
        invariant
            given.len() == count,
            lines@.len() == count,
            from <= count,
            forall|j: int| from <= j < count ==> (#[trigger] lines@[j])@ == given[j],
            models(lines@).take(from as int) + marked_from(given, from as int) == marked_lines(
                given,
            ),
        decreases count - from,
    {
        let ghost entry = lines@;
        assert(models(lines@).skip(from as int) =~= given.skip(from as int));
        let adds = find_run_end(lines.as_slice(), from, LineOrigin::Deletion);
        let end = find_run_end(lines.as_slice(), adds, LineOrigin::Addition);
        proof {
            let now = models(lines@);
            lemma_run_end_from(now, given, from as int, from as int, LineOrigin::Deletion);
            lemma_run_end_from(now, given, from as int, adds as int, LineOrigin::Addition);
        }
        if end == from {
            proof {
                assert(models(lines@).take(from + 1) =~= models(lines@).take(from as int)
                    + seq![given[from as int]]);
                assert(models(lines@).take(from as int) + (seq![given[from as int]] + marked_from(
                    given,
                    from + 1,
                )) =~= (models(lines@).take(from as int) + seq![given[from as int]]) + marked_from(
                    given,
                    from + 1,
                ));
            }
            from = from + 1;
        } else {
            let shift = adds - from;
            let pairs = if shift <= end - adds {
                shift
            } else {
                end - adds
            };
            let mut p: usize = 0;
            while p < pairs
                invariant
                    given.len() == count,
                    lines@.len() == count,
                    from <= adds <= end <= count,
                    shift == adds - from,
                    pairs == smaller(adds - from, end - adds),
                    p <= pairs,
                    forall|j: int| 0 <= j < from ==> lines@[j] == entry[j],
                    forall|j: int|
                        from <= j < count ==> (#[trigger] lines@[j])@ == (if j < from + p || (adds
                            <= j < adds + p) {
                            marked_line(given, from as int, adds as int, end as int, j)
                        } else {
                            given[j]
                        }),
                decreases pairs - p,
            {
                let (old_spans, new_spans) = word_diff(
                    lines[from + p].content.as_str(),
                    lines[adds + p].content.as_str(),
                );
                lines[from + p].change_spans = old_spans;
                lines[adds + p].change_spans = new_spans;
                p = p + 1;
            }
            proof {
                let block = Seq::new(
                    (end - from) as nat,
                    |k: int| marked_line(given, from as int, adds as int, end as int, from + k),
                );
                assert(models(entry).take(from as int) =~= models(lines@).take(from as int));
                assert(models(lines@).take(end as int) =~= models(lines@).take(from as int)
                    + block);
                assert(models(entry).take(from as int) + (block + marked_from(given, end as int))
                    =~= (models(lines@).take(from as int) + block) + marked_from(
                    given,
                    end as int,
                ));
            }
            from = end;
        }
    }
    proof {
        assert(models(lines@).take(count as int) =~= models(lines@));
        assert(models(lines@) + Seq::<LineModel>::empty() =~= models(lines@));
    }
}

/// A run ends where it does in any lines that are the same from `base` on.
proof fn lemma_run_end_from(
    lines: Seq<LineModel>,
    given: Seq<LineModel>,
    base: int,
    from: int,
    origin: LineOrigin,
)
    requires
        lines.len() == given.len(),
        0 <= base <= from <= lines.len(),
        forall|j: int| base <= j < lines.len() ==> lines[j] == given[j],
    ensures
        run_end(lines, from, origin) == run_end(given, from, origin),
    decreases lines.len() - from,
{
    if from < lines.len() && lines[from].origin == origin {
        lemma_run_end_from(lines, given, base, from + 1, origin);
    }
}

/// Marks what changed inside the lines of each hunk: for each run of
/// deletions that a run of additions follows directly, the lines of the two
/// runs are paired in order, and each line of a pair gets the spans of the
/// words in which it differs from its partner. Lines without a partner get
/// no span.
///
/// The engine is to run once on hunks as the parser leaves them: lines that
/// already carry spans are to be cleared first.
pub fn compute_inline_changes(hunks: &mut [Hunk])
    requires
        all_unmarked(old(hunks)@),
    ensures
        final(hunks)@.len() == old(hunks)@.len(),
        forall|h: int|
            0 <= h < old(hunks)@.len() ==> (#[trigger] final(hunks)@[h])@ == marked_hunk(
                old(hunks)@[h]@,
            ),
        all_well_formed(old(hunks)@) ==> all_well_formed(final(hunks)@),
{
    let count = hunks.len();
    let ghost given = hunks@;
    let mut h: usize = 0;
    while h < count
        invariant
            hunks@.len() == count,
            given.len() == count,
            h <= count,
            forall|k: int| 0 <= k < h ==> (#[trigger] hunks@[k])@ == marked_hunk(given[k]@),
            forall|k: int| h <= k < count ==> hunks@[k] == given[k],
        decreases count - h,
    {
        mark_lines(&mut hunks[h].lines);
        h = h + 1;
    }
    proof {
        if all_well_formed(given) {
            assert forall|h: int| 0 <= h < count implies (#[trigger] hunks@[h])@.well_formed() by {
                lemma_marked_hunk_well_formed(given[h]@);
            }
        }
    }
}

/// The lines without their spans.
pub open spec fn cleared_lines(lines: Seq<LineModel>) -> Seq<LineModel> {
    lines.map_values(|line: LineModel| line.cleared())
}

/// A hunk without the spans of its lines.
pub open spec fn cleared_hunk(hunk: HunkModel) -> HunkModel {
    HunkModel { lines: cleared_lines(hunk.lines), ..hunk }
}

/// The engine changes spans only: it keeps the number of lines, and each
/// line's origin, content and numbers. The spans it leaves fit the line
/// where the line's own spans did.
pub proof fn lemma_marked_keeps_lines(lines: Seq<LineModel>, from: int)
    requires
        0 <= from <= lines.len(),
    ensures
        marked_from(lines, from).len() == lines.len() - from,
        forall|k: int|
            0 <= k < lines.len() - from ==> (#[trigger] marked_from(lines, from)[k]).cleared()
                == lines[from + k].cleared(),
        forall|k: int|
            0 <= k < lines.len() - from && lines[from + k].spans_fit() ==> (#[trigger] marked_from(
                lines,
                from,
            )[k]).spans_fit(),
    decreases lines.len() - from,
{
    let marked = marked_from(lines, from);
    if from < lines.len() {
        let adds = run_end(lines, from, LineOrigin::Deletion);
        let end = run_end(lines, adds, LineOrigin::Addition);
        lemma_run_end_bounds(lines, from, LineOrigin::Deletion);
        lemma_run_end_bounds(lines, adds, LineOrigin::Addition);
        if end == from {
            let rest = marked_from(lines, from + 1);
            lemma_marked_keeps_lines(lines, from + 1);
            assert forall|k: int| 0 <= k < lines.len() - from implies
            (#[trigger] marked[k]).cleared()
                == lines[from + k].cleared() && (lines[from + k].spans_fit()
                ==> marked[k].spans_fit()) by {
                if k > 0 {
                    assert(marked[k] == rest[k - 1]);
                }
            }
        } else {
            let rest = marked_from(lines, end);
            lemma_marked_keeps_lines(lines, end);
            assert forall|k: int| 0 <= k < lines.len() - from implies
            (#[trigger] marked[k]).cleared()
                == lines[from + k].cleared() && (lines[from + k].spans_fit()
                ==> marked[k].spans_fit()) by {
                if k < end - from {
                    let at = from + k;
                    let shift = adds - from;
                    assert(marked[k] == marked_line(lines, from, adds, end, at));
                    if from <= at < from + smaller(adds - from, end - adds) {
                        lemma_spans_fit(
                            word_changes(lines[at].content, lines[at + shift].content),
                            ChangeTag::Delete,
                            lines[at].content,
                        );
                    } else if adds <= at < adds + smaller(adds - from, end - adds) {
                        lemma_spans_fit(
                            word_changes(lines[at - shift].content, lines[at].content),
                            ChangeTag::Insert,
                            lines[at].content,
                        );
                    }
                } else {
                    assert(marked[k] == rest[k - (end - from)]);
                }
            }
        }
    }
}

/// Lines that hold no deletion, or no addition, have no pairs: the engine
/// leaves them as they are.
pub proof fn lemma_one_sided_lines_stay(lines: Seq<LineModel>, missing: LineOrigin)
    requires
        missing != LineOrigin::Context,
        forall|k: int| 0 <= k < lines.len() ==> (#[trigger] lines[k]).origin != missing,
    ensures
        marked_lines(lines) == lines,
{
    lemma_one_sided_lines_stay_from(lines, missing, 0);
    assert(lines.skip(0) =~= lines);
}

/// The lines from `from` on stay as they are where one side is missing.
proof fn lemma_one_sided_lines_stay_from(lines: Seq<LineModel>, missing: LineOrigin, from: int)
    requires
        0 <= from <= lines.len(),
        missing != LineOrigin::Context,
        forall|k: int| 0 <= k < lines.len() ==> (#[trigger] lines[k]).origin != missing,
    ensures
        marked_from(lines, from) == lines.skip(from),
    decreases lines.len() - from,
{
    if from >= lines.len() {
        assert(lines.skip(from) =~= Seq::<LineModel>::empty());
    } else {
        let adds = run_end(lines, from, LineOrigin::Deletion);
        let end = run_end(lines, adds, LineOrigin::Addition);
        lemma_run_end_bounds(lines, from, LineOrigin::Deletion);
        lemma_run_end_bounds(lines, adds, LineOrigin::Addition);
        if end == from {
            lemma_one_sided_lines_stay_from(lines, missing, from + 1);
            assert(lines.skip(from) =~= seq![lines[from]] + lines.skip(from + 1));
        } else {
            lemma_one_sided_lines_stay_from(lines, missing, end);
            if missing == LineOrigin::Deletion {
                assert(adds == from);
            } else {
                assert(end == adds);
            }
            let block = Seq::new(
                (end - from) as nat,
                |k: int| marked_line(lines, from, adds, end, from + k),
            );
            assert(block =~= lines.subrange(from, end));
            assert(lines.skip(from) =~= lines.subrange(from, end) + lines.skip(end));
        }
    }
}

/// The steps to a line are those of the lines without their spans.
pub proof fn lemma_steps_of_cleared(a: Seq<LineModel>, b: Seq<LineModel>, upto: int)
    requires
        a.len() == b.len(),
        0 <= upto <= a.len(),
        forall|k: int| 0 <= k < a.len() ==> (#[trigger] a[k]).cleared() == b[k].cleared(),
    ensures
        crate::diff::old_steps(a, upto) == crate::diff::old_steps(b, upto),
        crate::diff::new_steps(a, upto) == crate::diff::new_steps(b, upto),
    decreases upto,
{
    if upto > 0 {
        lemma_steps_of_cleared(a, b, upto - 1);
        assert(a[upto - 1].cleared() == b[upto - 1].cleared());
    }
}

/// The engine keeps a hunk well formed.
pub proof fn lemma_marked_hunk_well_formed(hunk: HunkModel)
    requires
        hunk.well_formed(),
    ensures
        marked_hunk(hunk).well_formed(),
{
    let marked = marked_hunk(hunk);
    lemma_marked_keeps_lines(hunk.lines, 0);
    assert forall|at: int| 0 <= at < marked.lines.len() implies marked.numbered_at(at) && (
    #[trigger] marked.lines[at]).spans_fit() by {
        assert(hunk.numbered_at(at));
        assert(hunk.lines[at].spans_fit());
        assert(marked.lines[at].cleared() == hunk.lines[at].cleared());
        lemma_steps_of_cleared(marked.lines, hunk.lines, at);
    }
}

/// Idempotence: on lines without spans, the engine gives the same lines
/// again when it runs a second time after the spans of the first run were
/// cleared.
pub proof fn lemma_same_spans_after_reset(lines: Seq<LineModel>)
    requires
        unmarked(lines),
    ensures
        unmarked(cleared_lines(marked_lines(lines))),
        marked_lines(cleared_lines(marked_lines(lines))) == marked_lines(lines),
{
    lemma_marked_keeps_lines(lines, 0);
    let again = cleared_lines(marked_lines(lines));
    assert forall|k: int| 0 <= k < lines.len() implies again[k] == lines[k] by {
        assert(marked_lines(lines)[k].cleared() == lines[k].cleared());
        assert(lines[k].change_spans =~= Seq::<InlineSpan>::empty());
    }
    assert(again =~= lines);
}

/// Takes the spans off the lines of one hunk.
fn clear_lines(lines: &mut Vec<DiffLine>)
    ensures
        models(final(lines)@) == cleared_lines(models(old(lines)@)),
{
    let count = lines.len();
    let ghost given = models(lines@);
    let mut at: usize = 0;
    while at < count
        invariant
            lines@.len() == count,
            given.len() == count,
            at <= count,
            forall|k: int| 0 <= k < at ==> (#[trigger] lines@[k])@ == given[k].cleared(),
            forall|k: int| at <= k < count ==> (#[trigger] lines@[k])@ == given[k],
        decreases count - at,
    {
        lines[at].change_spans = Vec::new();
        at = at + 1;
    }
    assert(models(lines@) =~= cleared_lines(given));
}

/// Takes the spans off every line, so that the engine may run again.
pub fn clear_inline_changes(hunks: &mut [Hunk])
    ensures
        final(hunks)@.len() == old(hunks)@.len(),
        forall|h: int|
            0 <= h < old(hunks)@.len() ==> (#[trigger] final(hunks)@[h])@ == cleared_hunk(
                old(hunks)@[h]@,
            ),
        all_unmarked(final(hunks)@),
        all_well_formed(old(hunks)@) ==> all_well_formed(final(hunks)@),
{
    let count = hunks.len();
    let ghost given = hunks@;
    let mut h: usize = 0;
    while h < count
        invariant
            hunks@.len() == count,
            given.len() == count,
            h <= count,
            forall|k: int| 0 <= k < h ==> (#[trigger] hunks@[k])@ == cleared_hunk(given[k]@),
            forall|k: int| h <= k < count ==> hunks@[k] == given[k],
        decreases count - h,
    {
        clear_lines(&mut hunks[h].lines);
        h = h + 1;
    }
    proof {
        assert forall|h: int| 0 <= h < count implies (#[trigger] hunks@[h])@.unmarked() by {
            assert(hunks@[h]@ == cleared_hunk(given[h]@));
        }
        if all_well_formed(given) {
            assert forall|h: int| 0 <= h < count implies (#[trigger] hunks@[h])@.well_formed() by {
                lemma_cleared_hunk_well_formed(given[h]@);
            }
        }
    }
}

/// A hunk stays well formed when the spans of its lines are taken off.
pub proof fn lemma_cleared_hunk_well_formed(hunk: HunkModel)
    requires
        hunk.well_formed(),
    ensures
        cleared_hunk(hunk).well_formed(),
        cleared_hunk(hunk).unmarked(),
{
    let cleared = cleared_hunk(hunk);
    assert forall|at: int| 0 <= at < cleared.lines.len() implies cleared.numbered_at(at) && (
    #[trigger] cleared.lines[at]).spans_fit() by {
        assert(hunk.numbered_at(at));
        assert(cleared.lines[at].cleared() == hunk.lines[at].cleared());
        lemma_steps_of_cleared(cleared.lines, hunk.lines, at);
    }
}

} // verus!
