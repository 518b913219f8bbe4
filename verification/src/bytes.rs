//! Byte strings: equality, order, membership, and the length-prefixed frame
//! in which one byte string is written among others.

use vstd::prelude::*;
use vstd::bytes::*;
use vstd::slice::slice_subrange;

verus! {

/// A byte string preceded by its length as eight little-endian bytes.
pub open spec fn frame(b: Seq<u8>) -> Seq<u8> {
    spec_u64_to_le_bytes(b.len() as u64) + b
}

/// Reads one frame from the front of `s`: the byte string it holds and what
/// follows it.  `None` where `s` is too short for the length or for the bytes
/// that the length announces.
pub open spec fn unframe(s: Seq<u8>) -> Option<(Seq<u8>, Seq<u8>)> {
    if s.len() < 8 {
        None
    } else {
        let n = spec_u64_from_le_bytes(s.subrange(0, 8)) as int;
        if s.len() - 8 < n {
            None
        } else {
            Some((s.subrange(8, 8 + n), s.subrange(8 + n, s.len() as int)))
        }
    }
}

/// A frame that was written can be read back, whatever follows it.
pub proof fn lemma_unframe_frame(b: Seq<u8>, rest: Seq<u8>)
    requires
        b.len() <= u64::MAX,
    ensures
        unframe(frame(b) + rest) == Some((b, rest)),
{
    lemma_auto_spec_u64_to_from_le_bytes();
    let s = frame(b) + rest;
    let head = spec_u64_to_le_bytes(b.len() as u64);
    assert(s.subrange(0, 8) =~= head);
    assert(s.subrange(8, 8 + b.len() as int) =~= b);
    assert(s.subrange(8 + b.len() as int, s.len() as int) =~= rest);
}

/// What was read as a frame is what writing it gives.
pub proof fn lemma_frame_unframe(s: Seq<u8>)
    requires
        unframe(s).is_some(),
    ensures
        s == frame(unframe(s).unwrap().0) + unframe(s).unwrap().1,
        unframe(s).unwrap().0.len() <= u64::MAX,
        unframe(s).unwrap().1.len() < s.len(),
{
    lemma_auto_spec_u64_to_from_le_bytes();
    let n = spec_u64_from_le_bytes(s.subrange(0, 8));
    let b = s.subrange(8, 8 + n);
    let rest = s.subrange(8 + n, s.len() as int);
    assert(spec_u64_to_le_bytes(n) == s.subrange(0, 8));
    assert(b.len() as u64 == n);
    assert(s =~= frame(b) + rest);
}

/// Whether two byte strings hold the same bytes.
pub fn bytes_eq(a: &Vec<u8>, b: &Vec<u8>) -> (same: bool)
    ensures
        same == (a@ == b@),
{
    if a.len() != b.len() {
        return false;
    }
    let mut i: usize = 0;
    while i < a.len()
        invariant
            i <= a.len(),
            a.len() == b.len(),
            forall|j: int| 0 <= j < i ==> a@[j] == b@[j],
        decreases a.len() - i,
    {
        if a[i] != b[i] {
            return false;
        }
        i += 1;
    }
    assert(a@ =~= b@);
    true
}

/// A copy of a byte string.
pub fn bytes_copy(a: &Vec<u8>) -> (copy: Vec<u8>)
    ensures
        copy@ == a@,
{
    let mut copy: Vec<u8> = Vec::new();
    let mut i: usize = 0;
    while i < a.len()
        invariant
            i <= a.len(),
            copy@ == a@.subrange(0, i as int),
        decreases a.len() - i,
    {
        copy.push(a[i]);
        assert(copy@ =~= a@.subrange(0, i + 1));
        i += 1;
    }
    assert(a@.subrange(0, a.len() as int) =~= a@);
    copy
}

/// Whether `list` holds a byte string equal to `item`.
pub fn bytes_in(list: &Vec<Vec<u8>>, item: &Vec<u8>) -> (found: bool)
    ensures
        found == (exists|i: int| 0 <= i < list.len() && list@[i]@ == item@),
{
    let mut i: usize = 0;
    while i < list.len()
        invariant
            i <= list.len(),
            forall|j: int| 0 <= j < i ==> list@[j]@ != item@,
        decreases list.len() - i,
    {
        if bytes_eq(&list[i], item) {
            return true;
        }
        i += 1;
    }
    false
}

/// Appends every byte of `b` to `out`.
pub fn put_bytes(out: &mut Vec<u8>, b: &Vec<u8>)
    ensures
        final(out)@ == old(out)@ + b@,
{
    let mut i: usize = 0;
    while i < b.len()
        invariant
            i <= b.len(),
            out@ == old(out)@ + b@.subrange(0, i as int),
        decreases b.len() - i,
    {
        out.push(b[i]);
        assert(out@ =~= old(out)@ + b@.subrange(0, i + 1));
        i += 1;
    }
    assert(b@.subrange(0, b.len() as int) =~= b@);
}

/// Appends the frame of `b` to `out`.
pub fn put_frame(out: &mut Vec<u8>, b: &Vec<u8>)
    ensures
        final(out)@ == old(out)@ + frame(b@),
{
    let head = u64_to_le_bytes(b.len() as u64);
    put_bytes(out, &head);
    put_bytes(out, b);
    assert(out@ =~= old(out)@ + frame(b@));
}

/// Reads the frame that starts at `pos`: the byte string it holds and the
/// position after it.
pub fn take_frame(bytes: &Vec<u8>, pos: usize) -> (taken: Option<(Vec<u8>, usize)>)
    requires
        pos <= bytes.len(),
    ensures
        match taken {
            Some((b, next)) => {
                &&& pos < next <= bytes.len()
                &&& unframe(bytes@.subrange(pos as int, bytes.len() as int)) == Some(
                    (b@, bytes@.subrange(next as int, bytes.len() as int)),
                )
            },
            None => unframe(bytes@.subrange(pos as int, bytes.len() as int)).is_none(),
        },
{
    let ghost tail = bytes@.subrange(pos as int, bytes.len() as int);
    if bytes.len() - pos < 8 {
        return None;
    }
    let head = slice_subrange(bytes.as_slice(), pos, pos + 8);
    assert(head@ =~= tail.subrange(0, 8));
    let n = u64_from_le_bytes(head);
    if n > (bytes.len() - pos - 8) as u64 {
        return None;
    }
    let start: usize = pos + 8;
    let end: usize = start + n as usize;
    let mut b: Vec<u8> = Vec::new();
    let mut i: usize = start;
    while i < end
        invariant
            start <= i <= end <= bytes.len(),
            b@ == bytes@.subrange(start as int, i as int),
        decreases end - i,
    {
        b.push(bytes[i]);
        assert(b@ =~= bytes@.subrange(start as int, i + 1));
        i += 1;
    }
    assert(b@ =~= tail.subrange(8, 8 + n));
    assert(bytes@.subrange(end as int, bytes.len() as int) =~= tail.subrange(
        8 + n,
        tail.len() as int,
    ));
    Some((b, end))
}

} // verus!
