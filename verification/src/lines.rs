//! Cutting a text into its lines.

use crate::text::{
    byte_len, lemma_byte_len_concat, lemma_encode_concat, lemma_encode_single, lemma_stack_concat,
    lemma_stack_single, newline, stack, texts,
};
use vstd::prelude::*;
use vstd::std_specs::iter::IteratorSpec;
use vstd::utf8::{
    encode_scalar, encode_utf8, encode_utf8_decode_utf8, encode_utf8_first_scalar,
    encode_utf8_valid_utf8, is_char_boundary, pop_first_scalar,
};

verus! {

/// The number of characters before the first line feed, or the length of the
/// text where it holds none.
pub open spec fn first_break(text: Seq<char>) -> int
    decreases text.len(),
{
    if text.len() == 0 || text[0] == '\n' {
        0
    } else {
        1 + first_break(text.drop_first())
    }
}

/// A line without the carriage return that it may end with.
pub open spec fn trim_return(line: Seq<char>) -> Seq<char> {
    if line.len() > 0 && line.last() == '\r' {
        line.drop_last()
    } else {
        line
    }
}

/// The lines of a text. A line ends with a line feed, which is left out
/// together with a carriage return before it; what follows the last line feed
/// is a line too, unless it is empty.
pub open spec fn lines(text: Seq<char>) -> Seq<Seq<char>>
    decreases text.len(),
{
    if text.len() == 0 {
        Seq::empty()
    } else {
        let n = first_break(text);
        if n < 0 || n >= text.len() {
            seq![text]
        } else {
            seq![trim_return(text.take(n))] + lines(text.skip(n + 1))
        }
    }
}

/// A position is the first break where no line feed stands before it, and
/// the text ends or holds a line feed there.
pub proof fn lemma_first_break_at(text: Seq<char>, n: int)
    requires
        0 <= n <= text.len(),
        forall|j: int| 0 <= j < n ==> text[j] != '\n',
        n == text.len() || text[n] == '\n',
    ensures
        first_break(text) == n,
    decreases text.len(),
{
    if n > 0 {
        let rest = text.drop_first();
        assert forall|j: int| 0 <= j < n - 1 implies rest[j] != '\n' by {
            assert(rest[j] == text[j + 1]);
        }
        lemma_first_break_at(rest, n - 1);
    }
}

/// A line that neither holds a line feed nor ends with a carriage return comes
/// back as it is when it is written out and read again.
pub open spec fn plain_line(line: Seq<char>) -> bool {
    &&& forall|j: int| 0 <= j < line.len() ==> line[j] != '\n'
    &&& line.len() > 0 ==> line.last() != '\r'
}

/// Writing lines out, each with its line feed, and cutting the text into
/// lines again gives the same lines.
pub proof fn lemma_lines_of_stack(items: Seq<Seq<char>>)
    requires
        forall|i: int| 0 <= i < items.len() ==> plain_line(#[trigger] items[i]),
    ensures
        lines(stack(items)) == items,
    decreases items.len(),
{
    if items.len() == 0 {
        assert(stack(items) =~= Seq::<char>::empty());
        assert(lines(stack(items)) =~= items);
    } else {
        let head = items[0];
        let rest = items.drop_first();
        assert(items =~= seq![head] + rest);
        lemma_stack_concat(seq![head], rest);
        lemma_stack_single(head);
        let text = stack(items);
        assert(text =~= head + newline() + stack(rest));
        assert(plain_line(head));
        assert forall|j: int| 0 <= j < head.len() implies text[j] != '\n' by {
            assert(text[j] == head[j]);
        }
        assert(text[head.len() as int] == '\n');
        lemma_first_break_at(text, head.len() as int);
        assert(text.take(head.len() as int) =~= head);
        assert(text.skip(head.len() as int + 1) =~= stack(rest));
        assert forall|i: int| 0 <= i < rest.len() implies plain_line(#[trigger] rest[i]) by {
            assert(rest[i] == items[i + 1]);
        }
        lemma_lines_of_stack(rest);
        assert(lines(text) =~= seq![head] + rest);
    }
}

/// Where one text ends and the next begins, a character begins in their
/// UTF-8 form.
pub proof fn lemma_boundary(a: Seq<char>, b: Seq<char>)
    ensures
        is_char_boundary(encode_utf8(a + b), encode_utf8(a).len() as int),
    decreases a.len(),
{
    let bytes = encode_utf8(a + b);
    encode_utf8_valid_utf8(a + b);
    if a.len() == 0 {
    } else {
        let rest = a.drop_first();
        assert((a + b).drop_first() =~= rest + b);
        assert((a + b)[0] == a[0]);
        encode_utf8_first_scalar(a + b);
        assert(pop_first_scalar(bytes) =~= encode_utf8(rest + b));
        lemma_boundary(rest, b);
        lemma_encode_concat(a, b);
        assert(encode_scalar(a[0] as u32).len() >= 1);
        assert(encode_utf8(a).len() == encode_scalar(a[0] as u32).len() + encode_utf8(rest).len());
    }
}

/// The part of a text between two characters, given the bytes that stand
/// before each of them.
fn slice<'a>(text: &'a str, Ghost(i): Ghost<int>, from: usize, Ghost(j): Ghost<int>, to: usize) -> (out:
    &'a str)
    requires
        0 <= i <= j <= text@.len(),
        from == byte_len(text@.take(i)),
        to == byte_len(text@.take(j)),
    ensures
        out@ == text@.subrange(i, j),
{
    let ghost a = text@.take(i);
    let ghost b = text@.subrange(i, j);
    let ghost c = text@.skip(j);
    proof {
        assert(text@ =~= (a + b) + c);
        assert(text@.take(j) =~= a + b);
        lemma_boundary(a + b, c);
        lemma_encode_concat(a + b, c);
        lemma_encode_concat(a, b);
        assert(encode_utf8(text@).subrange(0, to as int) =~= encode_utf8(a + b));
    }
    let (head, _) = text.split_at(to);
    proof {
        encode_utf8_decode_utf8(head@);
        encode_utf8_decode_utf8(a + b);
        assert(head@ == a + b);
        lemma_boundary(a, b);
        assert(encode_utf8(a + b).subrange(from as int, encode_utf8(a + b).len() as int)
            =~= encode_utf8(b));
    }
    let (_, out) = head.split_at(from);
    proof {
        encode_utf8_decode_utf8(out@);
        encode_utf8_decode_utf8(b);
    }
    out
}

/// The number of bytes that a character takes in UTF-8.
fn width(c: char) -> (n: usize)
    ensures
        n == byte_len(seq![c]),
        1 <= n <= 4,
{
    proof {
        vstd::utf8::char_is_scalar(c);
        lemma_encode_single(c);
    }
    let code = c as u32;
    if code < 0x80 {
        1
    } else if code < 0x800 {
        2
    } else if code < 0x10000 {
        3
    } else {
        4
    }
}

/// The bytes before a character and the character itself are the bytes
/// before the next one, and no more than the whole text holds.
proof fn lemma_step(text: Seq<char>, k: int)
    requires
        0 <= k < text.len(),
    ensures
        byte_len(text.take(k + 1)) == byte_len(text.take(k)) + byte_len(seq![text[k]]),
        byte_len(text.take(k + 1)) <= byte_len(text),
{
    assert(text.take(k + 1) =~= text.take(k) + seq![text[k]]);
    lemma_byte_len_concat(text.take(k), seq![text[k]]);
    assert(text =~= text.take(k + 1) + text.skip(k + 1));
    lemma_byte_len_concat(text.take(k + 1), text.skip(k + 1));
}

/// The lines of a text, in their order.
pub fn split_lines(text: &str) -> (out: Vec<String>)
    ensures
        texts(out@) == lines(text@),
{
    broadcast use vstd::string::group_string_axioms;

    let total = text.as_bytes().len();
    let mut out: Vec<String> = Vec::new();
    let mut it = text.chars();
    let ghost mut k: int = 0;
    let ghost mut ks: int = 0;
    let mut at: usize = 0;
    let mut start: usize = 0;
    let mut returned: bool = false;
    let mut prev: usize = 0;
    proof {
        assert(text@.skip(0) =~= text@);
        assert(text@.take(0) =~= Seq::<char>::empty());
        assert(texts(out@) =~= Seq::<Seq<char>>::empty());
        assert(texts(out@) + lines(text@.skip(0)) =~= lines(text@));
    }
    loop
        invariant
            it.obeys_prophetic_iter_laws(),
            it.remaining() == text@.skip(k),
            0 <= ks <= k <= text@.len(),
            total == byte_len(text@),
            at == byte_len(text@.take(k)),
            start == byte_len(text@.take(ks)),
            at <= total,
            lines(text@) == texts(out@) + lines(text@.skip(ks)),
            forall|j: int| ks <= j < k ==> text@[j] != '\n',
            returned == (k > ks && text@[k - 1] == '\r'),
            returned ==> prev == byte_len(text@.take(k - 1)),
        ensures
            k == text@.len(),
        decreases text@.len() - k,
    {
        match it.next() {
            None => {
                break ;
            },
            Some(c) => {
                proof {
                    assert(text@.skip(k).len() > 0);
                    assert(c == text@[k]);
                    assert(text@.skip(k).drop_first() =~= text@.skip(k + 1));
                    lemma_step(text@, k);
                }
                let w = width(c);
                if c == '\n' {
                    let ghost ke = if returned {
                        k - 1
                    } else {
                        k
                    };
                    let end = if returned {
                        prev
                    } else {
                        at
                    };
                    let line = slice(text, Ghost(ks), start, Ghost(ke), end);
                    let ghost so_far = texts(out@);
                    out.push(line.to_owned());
                    proof {
                        let piece = text@.skip(ks);
                        assert forall|j: int| 0 <= j < k - ks implies piece[j] != '\n' by {
                            assert(piece[j] == text@[ks + j]);
                        }
                        lemma_first_break_at(piece, k - ks);
                        assert(piece.take(k - ks) =~= text@.subrange(ks, k));
                        assert(trim_return(text@.subrange(ks, k)) =~= text@.subrange(ks, ke));
                        assert(piece.skip(k - ks + 1) =~= text@.skip(k + 1));
                        assert(texts(out@) =~= so_far.push(text@.subrange(ks, ke)));
                        assert(lines(text@) =~= texts(out@) + lines(text@.skip(k + 1)));
                    }
                    at = at + w;
                    start = at;
                    returned = false;
                    proof {
                        ks = k + 1;
                    }
                } else {
                    returned = c == '\r';
                    prev = at;
                    at = at + w;
                }
                proof {
                    k = k + 1;
                }
            },
        }
    }
    if start < at {
        let line = slice(text, Ghost(ks), start, Ghost(k), at);
        let ghost so_far = texts(out@);
        out.push(line.to_owned());
        proof {
            let piece = text@.skip(ks);
            assert(text@.take(k) =~= text@);
            assert(piece.len() > 0) by {
                if ks == k {
                }
            }
            assert forall|j: int| 0 <= j < piece.len() implies piece[j] != '\n' by {
                assert(piece[j] == text@[ks + j]);
            }
            lemma_first_break_at(piece, piece.len() as int);
            assert(piece =~= text@.subrange(ks, k));
            assert(texts(out@) =~= so_far.push(piece));
            assert(lines(piece) =~= seq![piece]);
        }
    } else {
        proof {
            assert(text@.take(k) =~= text@);
            let piece = text@.skip(ks);
            if ks < k {
                assert(text@.take(k) =~= text@.take(ks) + text@.subrange(ks, k));
                lemma_byte_len_concat(text@.take(ks), text@.subrange(ks, k));
                assert(text@.subrange(ks, k).drop_first() =~= text@.subrange(ks + 1, k));
                assert(byte_len(text@.subrange(ks, k)) > 0) by {
                    vstd::utf8::char_is_scalar(text@[ks]);
                    assert(text@.subrange(ks, k)[0] == text@[ks]);
                }
            }
            assert(piece.len() == 0);
            assert(texts(out@) + lines(piece) =~= texts(out@));
        }
    }
    out
}

/// The lines without repetitions: of equal lines the first one stays, and
/// the order of those that stay is kept.
pub open spec fn distinct(lines: Seq<Seq<char>>) -> Seq<Seq<char>>
    decreases lines.len(),
{
    if lines.len() == 0 {
        Seq::empty()
    } else {
        let front = distinct(lines.drop_last());
        if front.contains(lines.last()) {
            front
        } else {
            front.push(lines.last())
        }
    }
}

/// A line is among the distinct ones exactly if it is among the lines.
pub proof fn lemma_distinct_members(lines: Seq<Seq<char>>, line: Seq<char>)
    ensures
        distinct(lines).contains(line) <==> lines.contains(line),
    decreases lines.len(),
{
    if lines.len() > 0 {
        let front = lines.drop_last();
        lemma_distinct_members(front, line);
        lemma_distinct_members(front, lines.last());
        if lines.contains(line) {
            let i = choose|i: int| 0 <= i < lines.len() && lines[i] == line;
            if i < lines.len() - 1 {
                assert(front[i] == line);
            }
        }
        if front.contains(line) {
            let i = choose|i: int| 0 <= i < front.len() && front[i] == line;
            assert(lines[i] == line);
        }
        if distinct(lines).contains(line) && !distinct(front).contains(line) {
            let i = choose|i: int| 0 <= i < distinct(lines).len() && distinct(lines)[i] == line;
            assert(line == lines.last());
            assert(lines[lines.len() - 1] == line);
        }
        if !distinct(front).contains(lines.last()) {
            assert(distinct(front).push(lines.last())[distinct(front).len() as int] == lines.last());
            if distinct(front).contains(line) {
                let i = choose|i: int| 0 <= i < distinct(front).len() && distinct(front)[i] == line;
                assert(distinct(front).push(lines.last())[i] == line);
            }
        }
    }
}

/// No line occurs twice among the distinct ones.
pub proof fn lemma_distinct_no_duplicates(lines: Seq<Seq<char>>)
    ensures
        distinct(lines).no_duplicates(),
    decreases lines.len(),
{
    if lines.len() > 0 {
        lemma_distinct_no_duplicates(lines.drop_last());
    }
}

/// Lines among which none occurs twice are their own distinct lines.
pub proof fn lemma_distinct_fixed(lines: Seq<Seq<char>>)
    requires
        lines.no_duplicates(),
    ensures
        distinct(lines) == lines,
    decreases lines.len(),
{
    if lines.len() > 0 {
        let front = lines.drop_last();
        lemma_distinct_fixed(front);
        if front.contains(lines.last()) {
            let i = choose|i: int| 0 <= i < front.len() && front[i] == lines.last();
            assert(lines[i] == lines[lines.len() - 1]);
        }
        assert(front.push(lines.last()) =~= lines);
    } else {
        assert(distinct(lines) =~= lines);
    }
}

/// Removing repetitions a second time changes nothing.
pub proof fn lemma_distinct_idempotent(lines: Seq<Seq<char>>)
    ensures
        distinct(distinct(lines)) == distinct(lines),
{
    lemma_distinct_no_duplicates(lines);
    lemma_distinct_fixed(distinct(lines));
}

/// Whether a string with the same content is in the list.
pub fn holds(list: &Vec<String>, item: &String) -> (found: bool)
    ensures
        found == texts(list@).contains(item@),
{
    let mut i: usize = 0;
    while i < list.len()
        invariant
            i <= list.len(),
            forall|j: int| 0 <= j < i ==> texts(list@)[j] != item@,
        decreases list.len() - i,
    {
        if list[i] == *item {
            assert(texts(list@)[i as int] == item@);
            return true;
        }
        i += 1;
    }
    false
}

/// The strings without repetitions, the first of equal ones staying in place.
pub fn dedup(lines: &Vec<String>) -> (out: Vec<String>)
    ensures
        texts(out@) == distinct(texts(lines@)),
{
    let mut out: Vec<String> = Vec::new();
    let mut i: usize = 0;
    proof {
        assert(texts(lines@).take(0) =~= Seq::<Seq<char>>::empty());
        assert(texts(out@) =~= Seq::<Seq<char>>::empty());
    }
    while i < lines.len()
        invariant
            i <= lines.len(),
            texts(out@) == distinct(texts(lines@).take(i as int)),
        decreases lines.len() - i,
    {
        let ghost so_far = texts(out@);
        proof {
            let next = texts(lines@).take(i + 1);
            assert(next.drop_last() =~= texts(lines@).take(i as int));
            assert(next.last() == lines@[i as int]@);
        }
        if !holds(&out, &lines[i]) {
            out.push(lines[i].clone());
            assert(texts(out@) =~= so_far.push(lines@[i as int]@));
        }
        i += 1;
    }
    assert(texts(lines@).take(i as int) =~= texts(lines@));
    out
}

} // verus!
