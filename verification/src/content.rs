//! File content: reading a byte range and writing bytes at an offset.

use vstd::prelude::*;
use vstd::slice::slice_subrange;

verus! {

/// The part of `content` that the range of `size` bytes from `offset` covers.
/// A range that starts before the content or at or after its end covers
/// nothing.
pub open spec fn read_range(content: Seq<u8>, offset: int, size: int) -> Seq<u8> {
    if 0 <= offset < content.len() && 0 <= size {
        content.subrange(
            offset,
            if offset + size < content.len() {
                offset + size
            } else {
                content.len() as int
            },
        )
    } else {
        Seq::empty()
    }
}

/// Whether `count` bytes can be written at `offset`: the write may replace
/// bytes and lengthen the content, but it may not leave a gap.
pub open spec fn write_fits(content: Seq<u8>, offset: int, count: nat) -> bool {
    count == 0 || 0 <= offset <= content.len()
}

/// The content after `data` was written at `offset`: bytes that lie under
/// `data` are replaced, and `data` goes on past the old end where it is longer.
pub open spec fn overlay(content: Seq<u8>, offset: int, data: Seq<u8>) -> Seq<u8> {
    if data.len() == 0 {
        content
    } else {
        content.subrange(0, offset) + data + if offset + data.len() < content.len() {
            content.subrange(offset + data.len(), content.len() as int)
        } else {
            Seq::empty()
        }
    }
}

/// Reads up to `size` bytes of `content` from `offset`.
pub fn read_at<'a>(content: &'a [u8], offset: i64, size: u32) -> (out: &'a [u8])
    ensures
        out@ == read_range(content@, offset as int, size as int),
{
    let len = content.len();
    if offset < 0 || offset as u64 >= len as u64 {
        return slice_subrange(content, len, len);
    }
    let start = offset as usize;
    let rest = len - start;
    let end = if (size as u64) < rest as u64 {
        start + size as usize
    } else {
        len
    };
    slice_subrange(content, start, end)
}

/// Writes `data` into `content` at `offset`, byte by byte: a byte at the
/// end of the content is appended, a byte before the end replaces the one there.
pub fn write_at(content: &mut Vec<u8>, offset: i64, data: &[u8])
    requires
        write_fits(old(content)@, offset as int, data@.len()),
    ensures
        final(content)@ == overlay(old(content)@, offset as int, data@),
{
    let mut i: usize = 0;
    assert(data@.take(0) =~= Seq::<u8>::empty());
    while i < data.len()
        invariant
            0 <= i <= data@.len(),
            data@.len() > 0 ==> 0 <= offset <= old(content)@.len(),
            content@ == overlay(old(content)@, offset as int, data@.take(i as int)),
            data@.len() > 0 ==> offset + i <= content@.len(),
        decreases data@.len() - i,
    {
        let len = content.len();
        let position = offset as usize + i;
        if position == len {
            content.push(data[i]);
        } else {
            content[position] = data[i];
        }
        assert(content@ =~= overlay(old(content)@, offset as int, data@.take(i + 1))) by {
            assert(data@.take(i + 1) =~= data@.take(i as int).push(data@[i as int]));
        }
        i += 1;
    }
    assert(data@.take(i as int) =~= data@);
}

} // verus!
