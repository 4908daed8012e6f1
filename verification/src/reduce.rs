//! Condensing a text of any size into one that fits the threshold: the lines
//! are packed into chunks, the caller has each chunk summarised, and the
//! summaries are put together and, where they are still too long, condensed
//! again.

use crate::lines::{dedup, distinct, lines, split_lines};
use crate::text::{
    byte_len, lemma_byte_len_concat, lemma_newline_size, lemma_stack_push, newline, stack, texts,
};
use vstd::prelude::*;

verus! {

/// The greatest number of bytes that a chunk, or the final text, may hold.
pub const THRESHOLD: usize = 8000;

/// Why a reduction was given up.
#[derive(Clone, Copy, Debug, PartialEq, Eq, Structural)]
pub enum ReduceError {
    /// A round of summaries came out no shorter than what went in.
    ConvergenceRisk,
}

/// Whether a chunk made of `group` has room for one more line.
pub open spec fn fits(group: Seq<Seq<char>>, line: Seq<char>) -> bool {
    byte_len(stack(group)) + byte_len(line) + 1 <= THRESHOLD
}

/// The lines packed into groups, in their order: a line joins the group
/// before it as long as the chunk stays within the threshold, and opens a new
/// group otherwise.
pub open spec fn bundle(lines: Seq<Seq<char>>) -> Seq<Seq<Seq<char>>>
    decreases lines.len(),
{
    if lines.len() == 0 {
        Seq::empty()
    } else {
        let groups = bundle(lines.drop_last());
        let line = lines.last();
        if groups.len() > 0 && fits(groups.last(), line) {
            groups.drop_last().push(groups.last().push(line))
        } else {
            groups.push(seq![line])
        }
    }
}

/// The text of each group: its lines, each closed by a line feed.
pub open spec fn chunk_texts(groups: Seq<Seq<Seq<char>>>) -> Seq<Seq<char>> {
    Seq::new(groups.len(), |i: int| stack(groups[i]))
}

/// The lines of the groups, group after group.
pub open spec fn unbundle(groups: Seq<Seq<Seq<char>>>) -> Seq<Seq<char>>
    decreases groups.len(),
{
    if groups.len() == 0 {
        Seq::empty()
    } else {
        unbundle(groups.drop_last()) + groups.last()
    }
}

/// Every chunk is within the threshold, but for one that a single line
/// overfills by itself; and no chunk is empty.
pub proof fn lemma_chunk_bound(lines: Seq<Seq<char>>, i: int)
    requires
        0 <= i < bundle(lines).len(),
    ensures
        bundle(lines)[i].len() >= 1,
        byte_len(stack(bundle(lines)[i])) <= THRESHOLD || bundle(lines)[i].len() == 1,
    decreases lines.len(),
{
    if lines.len() > 0 {
        let groups = bundle(lines.drop_last());
        let line = lines.last();
        if groups.len() > 0 && fits(groups.last(), line) {
            if i < groups.len() - 1 {
                lemma_chunk_bound(lines.drop_last(), i);
            } else {
                lemma_stack_push(groups.last(), line);
                lemma_byte_len_concat(stack(groups.last()) + line, newline());
                lemma_byte_len_concat(stack(groups.last()), line);
                lemma_newline_size();
            }
        } else {
            if i < groups.len() {
                lemma_chunk_bound(lines.drop_last(), i);
            }
        }
    }
}

/// Packing loses no line and keeps the order.
pub proof fn lemma_bundle_keeps_lines(lines: Seq<Seq<char>>)
    ensures
        unbundle(bundle(lines)) == lines,
    decreases lines.len(),
{
    if lines.len() > 0 {
        let front = lines.drop_last();
        let groups = bundle(front);
        let line = lines.last();
        lemma_bundle_keeps_lines(front);
        if groups.len() > 0 && fits(groups.last(), line) {
            let packed = groups.drop_last().push(groups.last().push(line));
            assert(packed.drop_last() =~= groups.drop_last());
            assert(unbundle(packed) =~= unbundle(groups.drop_last()) + groups.last().push(line));
            assert(unbundle(groups) =~= unbundle(groups.drop_last()) + groups.last());
            assert(unbundle(packed) =~= front.push(line));
        } else {
            let packed = groups.push(seq![line]);
            assert(packed.drop_last() =~= groups);
            assert(unbundle(packed) =~= front + seq![line]);
        }
        assert(front.push(line) =~= lines);
    } else {
        assert(unbundle(bundle(lines)) =~= lines);
    }
}

/// The number of bytes of a text.
pub fn size(text: &str) -> (n: usize)
    ensures
        n == byte_len(text@),
{
    text.as_bytes().len()
}

/// The chunks that the lines are packed into, each the text of its lines
/// with a line feed after every one.
pub fn partition(lines: &Vec<String>) -> (chunks: Vec<String>)
    ensures
        texts(chunks@) == chunk_texts(bundle(texts(lines@))),
        forall|i: int|
            0 <= i < chunks.len() ==> byte_len(#[trigger] chunks@[i]@) <= THRESHOLD || bundle(
                texts(lines@),
            )[i].len() == 1,
{
    let mut chunks: Vec<String> = Vec::new();
    let ghost all = texts(lines@);
    let mut i: usize = 0;
    proof {
        assert(all.take(0) =~= Seq::<Seq<char>>::empty());
        assert(texts(chunks@) =~= chunk_texts(bundle(all.take(0))));
    }
    while i < lines.len()
        invariant
            i <= lines.len(),
            all == texts(lines@),
            texts(chunks@) == chunk_texts(bundle(all.take(i as int))),
        decreases lines.len() - i,
    {
        let line = &lines[i];
        let ghost groups = bundle(all.take(i as int));
        let ghost before = texts(chunks@);
        proof {
            assert(all.take(i + 1).drop_last() =~= all.take(i as int));
            assert(all.take(i + 1).last() == line@);
            lemma_newline_size();
            reveal_strlit("\n");
            assert("\n"@ =~= newline());
        }
        let count = chunks.len();
        let length = size(line.as_str());
        let mut joins = false;
        proof {
            assert(before.len() == count);
            assert(chunk_texts(groups).len() == groups.len());
            assert(groups.len() == count);
        }
        if count > 0 {
            assert(before[count - 1] == chunk_texts(groups)[count - 1]);
            assert(before[count - 1] == stack(groups.last()));
            let filled = size(chunks[count - 1].as_str());
            if length < THRESHOLD && filled <= THRESHOLD - 1 - length {
                joins = true;
            }
        }
        if joins {
            chunks[count - 1].append(line.as_str());
            chunks[count - 1].append("\n");
            proof {
                lemma_stack_push(groups.last(), line@);
                let after = bundle(all.take(i + 1));
                assert(after == groups.drop_last().push(groups.last().push(line@)));
                assert(texts(chunks@).len() == count);
                assert forall|j: int| 0 <= j < count implies texts(chunks@)[j] == chunk_texts(
                    after,
                )[j] by {
                    if j < count - 1 {
                        assert(texts(chunks@)[j] == before[j]);
                        assert(before[j] == chunk_texts(groups)[j]);
                    }
                }
                assert(texts(chunks@) =~= chunk_texts(after));
            }
        } else {
            let mut chunk = String::new();
            chunk.append(line.as_str());
            chunk.append("\n");
            chunks.push(chunk);
            proof {
                lemma_stack_push(Seq::empty(), line@);
                assert(Seq::<Seq<char>>::empty().push(line@) =~= seq![line@]);
                assert(stack(Seq::<Seq<char>>::empty()) =~= Seq::<char>::empty());
                assert(chunk@ =~= stack(seq![line@]));
                let after = bundle(all.take(i + 1));
                assert(after == groups.push(seq![line@]));
                assert(texts(chunks@).len() == count + 1);
                assert forall|j: int| 0 <= j < count + 1 implies texts(chunks@)[j] == chunk_texts(
                    after,
                )[j] by {
                    if j < count {
                        assert(texts(chunks@)[j] == before[j]);
                        assert(before[j] == chunk_texts(groups)[j]);
                    }
                }
                assert(texts(chunks@) =~= chunk_texts(after));
            }
        }
        i += 1;
    }
    proof {
        assert(all.take(i as int) =~= all);
        assert(texts(chunks@).len() == chunks.len());
        assert(chunk_texts(bundle(all)).len() == bundle(all).len());
        assert forall|j: int| 0 <= j < chunks.len() implies byte_len(#[trigger] chunks@[j]@)
            <= THRESHOLD || bundle(all)[j].len() == 1 by {
            assert(texts(chunks@)[j] == chunk_texts(bundle(all))[j]);
            assert(texts(chunks@)[j] == stack(bundle(all)[j]));
            lemma_chunk_bound(all, j);
        }
    }
    chunks
}

/// The texts of the summaries that came back, `None` for a chunk whose
/// request failed.
pub open spec fn summary_texts(summaries: Seq<Option<String>>) -> Seq<Option<Seq<char>>> {
    Seq::new(
        summaries.len(),
        |i: int|
            match summaries[i] {
                Some(text) => Some(text@),
                None => None,
            },
    )
}

/// The summaries that came back, in the order of their chunks.
pub open spec fn kept(summaries: Seq<Option<Seq<char>>>) -> Seq<Seq<char>>
    decreases summaries.len(),
{
    if summaries.len() == 0 {
        Seq::empty()
    } else {
        match summaries.last() {
            Some(text) => kept(summaries.drop_last()).push(text),
            None => kept(summaries.drop_last()),
        }
    }
}

/// The parts with a line feed between each two.
pub open spec fn joined(parts: Seq<Seq<char>>) -> Seq<char>
    decreases parts.len(),
{
    if parts.len() == 0 {
        Seq::empty()
    } else if parts.len() == 1 {
        parts[0]
    } else {
        joined(parts.drop_last()) + newline() + parts.last()
    }
}

/// The surviving summaries put together, a line feed between each two.
pub fn merge(summaries: &Vec<Option<String>>) -> (out: String)
    ensures
        out@ == joined(kept(summary_texts(summaries@))),
{
    let ghost all = summary_texts(summaries@);
    let mut out = String::new();
    let mut any = false;
    let mut i: usize = 0;
    proof {
        assert(all.take(0) =~= Seq::<Option<Seq<char>>>::empty());
        reveal_strlit("\n");
        assert("\n"@ =~= newline());
    }
    while i < summaries.len()
        invariant
            i <= summaries.len(),
            all == summary_texts(summaries@),
            "\n"@ == newline(),
            out@ == joined(kept(all.take(i as int))),
            any == (kept(all.take(i as int)).len() > 0),
        decreases summaries.len() - i,
    {
        let ghost parts = kept(all.take(i as int));
        proof {
            assert(all.take(i + 1).drop_last() =~= all.take(i as int));
            assert(all.take(i + 1).last() == all[i as int]);
        }
        match &summaries[i] {
            Some(text) => {
                if any {
                    out.append("\n");
                }
                out.append(text.as_str());
                proof {
                    assert(parts.push(text@).drop_last() =~= parts);
                    assert(parts.push(text@).last() == text@);
                    if !any {
                        assert(parts.push(text@)[0] == text@);
                        assert(out@ =~= text@);
                    }
                }
                any = true;
            },
            None => {},
        }
        i += 1;
    }
    assert(all.take(i as int) =~= all);
    out
}

/// What a round of summaries leads to.
pub enum Round {
    /// The summaries fit the threshold: this is the condensed text.
    Done(String),
    /// The summaries are still too long: their lines are the next input.
    Again,
}

/// Model of a [`Round`].
pub enum RoundView {
    Done(Seq<char>),
    Again,
}

impl View for Round {
    type V = RoundView;

    open spec fn view(&self) -> RoundView {
        match self {
            Round::Done(text) => RoundView::Done(text@),
            Round::Again => RoundView::Again,
        }
    }
}

/// Model of a [`Reducer`]: the distinct lines that the next round works on,
/// and the size of the text that they came from.
pub struct ReducerView {
    pub lines: Seq<Seq<char>>,
    pub size: nat,
}

/// The reduction of one text. The caller has every chunk of
/// [`Reducer::chunks`] summarised, hands the summaries to
/// [`Reducer::absorb`], and goes on as long as that answers `Again`.
pub struct Reducer {
    lines: Vec<String>,
    size: usize,
}

impl View for Reducer {
    type V = ReducerView;

    closed spec fn view(&self) -> ReducerView {
        ReducerView { lines: texts(self.lines@), size: self.size as nat }
    }
}

/// The state in which the reduction of a text begins, and in which every
/// further round begins with the text that the round before put together.
pub open spec fn reduction_of(text: Seq<char>) -> ReducerView {
    ReducerView { lines: distinct(lines(text)), size: byte_len(text) }
}

impl Reducer {
    /// The reduction of a text: its lines, without repetitions.
    pub fn new(text: &str) -> (reducer: Reducer)
        ensures
            reducer@ == reduction_of(text@),
    {
        let all = split_lines(text);
        Reducer { lines: dedup(&all), size: size(text) }
    }

    /// The chunks of this round, in their order. Each is within the
    /// threshold, unless a single line overfills it.
    pub fn chunks(&self) -> (chunks: Vec<String>)
        ensures
            texts(chunks@) == chunk_texts(bundle(self@.lines)),
            forall|i: int|
                0 <= i < chunks.len() ==> byte_len(#[trigger] chunks@[i]@) <= THRESHOLD || bundle(
                    self@.lines,
                )[i].len() == 1,
    {
        partition(&self.lines)
    }

    /// Takes in the summaries of this round's chunks, `None` standing for a
    /// chunk whose request failed. Summaries that fit the threshold together
    /// end the reduction. Longer ones become the next round's input, provided
    /// that they are shorter than this round's; if not, the reduction is given
    /// up and the state stays as it was.
    pub fn absorb(&mut self, summaries: &Vec<Option<String>>) -> (out: Result<Round, ReduceError>)
        ensures
            ({
                let merged = joined(kept(summary_texts(summaries@)));
                if byte_len(merged) <= THRESHOLD {
                    out matches Ok(round) && round@ == RoundView::Done(merged) && final(self)@
                        == old(self)@
                } else if byte_len(merged) >= old(self)@.size {
                    out == Err::<Round, ReduceError>(ReduceError::ConvergenceRisk) && final(self)@
                        == old(self)@
                } else {
                    out matches Ok(round) && round@ == RoundView::Again && final(self)@
                        == reduction_of(merged)
                }
            }),
    {
        let merged = merge(summaries);
        let length = size(merged.as_str());
        if length <= THRESHOLD {
            Ok(Round::Done(merged))
        } else if length >= self.size {
            Err(ReduceError::ConvergenceRisk)
        } else {
            let all = split_lines(merged.as_str());
            self.lines = dedup(&all);
            self.size = length;
            Ok(Round::Again)
        }
    }
}

/// A text without lines needs no service: it has no chunk, and the summaries
/// of no chunks put together are the text itself.
pub proof fn lemma_nothing_to_reduce(text: Seq<char>)
    requires
        lines(text).len() == 0,
    ensures
        chunk_texts(bundle(reduction_of(text).lines)).len() == 0,
        joined(kept(Seq::empty())) == text,
        byte_len(text) <= THRESHOLD,
{
    if text.len() > 0 {
        let n = crate::lines::first_break(text);
        if n < 0 || n >= text.len() {
            assert(lines(text) =~= seq![text]);
        } else {
            assert(lines(text).len() >= 1);
        }
    }
    assert(text =~= Seq::<char>::empty());
}

/// The report that the last request yields: its answer, or nothing where the
/// request failed.
pub fn report_from(reply: Option<String>) -> (report: String)
    ensures
        report@ == match reply {
            Some(text) => text@,
            None => Seq::<char>::empty(),
        },
{
    match reply {
        Some(text) => text,
        None => String::new(),
    }
}

} // verus!
