//! Sequences of lines, the text they stack up to, and its size in bytes.

use vstd::prelude::*;
use vstd::utf8::{encode_scalar, encode_utf8};

verus! {

/// The line feed as a text of one character.
pub open spec fn newline() -> Seq<char> {
    seq!['\n']
}

/// The lines one after another, each closed by a line feed.
pub open spec fn stack(lines: Seq<Seq<char>>) -> Seq<char>
    decreases lines.len(),
{
    if lines.len() == 0 {
        Seq::empty()
    } else {
        stack(lines.drop_last()) + lines.last() + newline()
    }
}

/// The number of bytes that a text takes in UTF-8.
pub open spec fn byte_len(text: Seq<char>) -> nat {
    encode_utf8(text).len()
}

/// The contents of the strings of a vector.
pub open spec fn texts(items: Seq<String>) -> Seq<Seq<char>> {
    Seq::new(items.len(), |i: int| items[i]@)
}

/// A copy of the strings, in their order.
pub fn copy_lines(lines: &Vec<String>) -> (out: Vec<String>)
    ensures
        texts(out@) == texts(lines@),
{
    let mut out: Vec<String> = Vec::new();
    let mut i: usize = 0;
    while i < lines.len()
        invariant
            i <= lines.len(),
            out.len() == i,
            forall|j: int| 0 <= j < i ==> out@[j]@ == lines@[j]@,
        decreases lines.len() - i,
    {
        out.push(lines[i].clone());
        i += 1;
    }
    assert(texts(out@) =~= texts(lines@));
    out
}

/// Stacking distributes over concatenation.
pub proof fn lemma_stack_concat(a: Seq<Seq<char>>, b: Seq<Seq<char>>)
    ensures
        stack(a + b) == stack(a) + stack(b),
    decreases b.len(),
{
    if b.len() == 0 {
        assert(a + b =~= a);
        assert(stack(a) + stack(b) =~= stack(a));
    } else {
        assert((a + b).drop_last() =~= a + b.drop_last());
        assert((a + b).last() == b.last());
        lemma_stack_concat(a, b.drop_last());
        assert(stack(a + b) =~= stack(a) + stack(b));
    }
}

/// Stacking one more line appends it with its line feed.
pub proof fn lemma_stack_push(lines: Seq<Seq<char>>, line: Seq<char>)
    ensures
        stack(lines.push(line)) == stack(lines) + line + newline(),
{
    assert(lines.push(line).drop_last() =~= lines);
}

/// A single line stacks up to itself and its line feed.
pub proof fn lemma_stack_single(line: Seq<char>)
    ensures
        stack(seq![line]) == line + newline(),
{
    assert(seq![line].drop_last() =~= Seq::<Seq<char>>::empty());
    assert(stack(seq![line].drop_last()) =~= Seq::<char>::empty());
    assert(stack(seq![line]) =~= line + newline());
}

/// The bytes of a text's UTF-8 form are those of its first part followed by
/// those of the rest.
pub proof fn lemma_encode_concat(a: Seq<char>, b: Seq<char>)
    ensures
        encode_utf8(a + b) == encode_utf8(a) + encode_utf8(b),
    decreases a.len(),
{
    if a.len() == 0 {
        assert(a + b =~= b);
        assert(encode_utf8(a) + encode_utf8(b) =~= encode_utf8(b));
    } else {
        assert((a + b).drop_first() =~= a.drop_first() + b);
        assert((a + b)[0] == a[0]);
        lemma_encode_concat(a.drop_first(), b);
        assert(encode_utf8(a + b) =~= encode_utf8(a) + encode_utf8(b));
    }
}

/// The byte length of a concatenation is the sum of the byte lengths.
pub proof fn lemma_byte_len_concat(a: Seq<char>, b: Seq<char>)
    ensures
        byte_len(a + b) == byte_len(a) + byte_len(b),
{
    lemma_encode_concat(a, b);
}

/// A text of one character takes the bytes of that character.
pub proof fn lemma_encode_single(c: char)
    ensures
        encode_utf8(seq![c]) == encode_scalar(c as u32),
{
    assert(seq![c].drop_first() =~= Seq::<char>::empty());
    assert(encode_utf8(seq![c].drop_first()) =~= Seq::<u8>::empty());
    assert(seq![c][0] == c);
    assert(encode_utf8(seq![c]) =~= encode_scalar(c as u32));
}

/// The line feed takes one byte.
pub proof fn lemma_newline_size()
    ensures
        byte_len(newline()) == 1,
{
    lemma_encode_single('\n');
}

} // verus!
