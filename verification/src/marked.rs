//! Text with highlighted spans: where each marked byte range of a text has
//! its character boundaries, for the tint painted behind it.

use std::ops::Range;

use vstd::prelude::*;
use vstd::string::StringSliceAdditionalSpecFns;
use vstd::utf8::is_char_boundary;

verus! {

/// The character boundaries of `bytes` from `from` through `to`, in order.
pub open spec fn boundaries_upto(bytes: Seq<u8>, from: int, to: int) -> Seq<usize>
    decreases to - from + 1,
{
    if to < from {
        Seq::empty()
    } else {
        let before = boundaries_upto(bytes, from, to - 1);
        if is_char_boundary(bytes, to) {
            before.push(to as usize)
        } else {
            before
        }
    }
}

/// `start..end` is a range of whole characters of `bytes`, as `str::get`
/// accepts it.
pub open spec fn whole_chars(bytes: Seq<u8>, start: int, end: int) -> bool {
    start <= end && is_char_boundary(bytes, start) && is_char_boundary(bytes, end)
}

/// Byte offsets of every character boundary in `range`, both ends included;
/// nothing where the range does not cover whole characters of `text`.
pub fn boundaries(text: &str, range: Range<usize>) -> (offsets: Vec<usize>)
    ensures
        whole_chars(text.spec_bytes(), range.start as int, range.end as int) ==> offsets@ == boundaries_upto(
            text.spec_bytes(),
            range.start as int,
            range.end as int,
        ),
        !whole_chars(text.spec_bytes(), range.start as int, range.end as int) ==> offsets@.len() == 0,
{
    let start = range.start;
    let end = range.end;
    let ghost bytes = text.spec_bytes();
    let mut offsets: Vec<usize> = Vec::new();
    if start > end || !text.is_char_boundary(start) || !text.is_char_boundary(end) {
        return offsets;
    }
    let mut p = start;
    while p < end
        invariant
            start <= p <= end,
            bytes == text.spec_bytes(),
            offsets@ == boundaries_upto(bytes, start as int, p - 1),
        decreases end - p,
    {
        if text.is_char_boundary(p) {
            offsets.push(p);
        }
        p += 1;
    }
    offsets.push(end);
    offsets
}

/// What `boundaries_upto` lists: the character boundaries between its
/// ends, each once and rising.
proof fn lemma_upto(bytes: Seq<u8>, from: int, to: int)
    requires
        0 <= from,
        to <= usize::MAX,
    ensures
        forall|i: int|
            0 <= i < boundaries_upto(bytes, from, to).len() ==> from <= #[trigger] boundaries_upto(
                bytes,
                from,
                to,
            )[i] <= to && is_char_boundary(bytes, boundaries_upto(bytes, from, to)[i] as int),
        forall|i: int, j: int|
            0 <= i < j < boundaries_upto(bytes, from, to).len() ==> #[trigger] boundaries_upto(
                bytes,
                from,
                to,
            )[i] < #[trigger] boundaries_upto(bytes, from, to)[j],
        forall|p: int|
            from <= p <= to && is_char_boundary(bytes, p) ==> #[trigger] boundaries_upto(
                bytes,
                from,
                to,
            ).contains(p as usize),
        from <= to && is_char_boundary(bytes, from) ==> boundaries_upto(bytes, from, to).len() > 0
            && boundaries_upto(bytes, from, to)[0] == from,
    decreases to - from + 1,
{
    if to >= from {
        lemma_upto(bytes, from, to - 1);
        let before = boundaries_upto(bytes, from, to - 1);
        let b = boundaries_upto(bytes, from, to);
        if is_char_boundary(bytes, to) {
            assert(b == before.push(to as usize));
            assert forall|p: int| from <= p <= to && is_char_boundary(bytes, p) implies b.contains(p as usize) by {
                if p == to {
                    assert(b[b.len() - 1] == to as usize);
                } else {
                    assert(before.contains(p as usize));
                    let k = choose|k: int| 0 <= k < before.len() && before[k] == p as usize;
                    assert(b[k] == p as usize);
                }
            }
        }
    }
}

/// The offsets of a range of whole characters start at its start and end
/// at its end; they rise, each is a character boundary, and every
/// character boundary between the two ends is among them.
pub proof fn boundaries_law(bytes: Seq<u8>, start: usize, end: usize)
    requires
        whole_chars(bytes, start as int, end as int),
    ensures
        ({
            let b = boundaries_upto(bytes, start as int, end as int);
            &&& b.len() > 0
            &&& b[0] == start
            &&& b.last() == end
            &&& forall|i: int, j: int| 0 <= i < j < b.len() ==> b[i] < b[j]
            &&& forall|i: int| 0 <= i < b.len() ==> is_char_boundary(bytes, #[trigger] b[i] as int)
            &&& forall|p: int| start <= p <= end && is_char_boundary(bytes, p) ==> b.contains(p as usize)
        }),
{
    lemma_upto(bytes, start as int, end as int);
    if end > start {
        lemma_upto(bytes, start as int, end - 1);
    }
}

} // verus!
