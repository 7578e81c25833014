//! The wire formats: a list is its length as four little-endian bytes and then its items,
//! a 32-byte string stands for itself, and the fields of a record follow one another.
use vstd::prelude::*;
use crate::bytes;
use crate::bytes::{append, append_flat, array_32};

verus! {

/// The byte strings of a list.
pub open spec fn strings(v: Seq<[u8; 32]>) -> Seq<Seq<u8>> {
    Seq::new(v.len(), |i: int| v[i]@)
}

/// The wire format of a length.
pub open spec fn length_wire(n: nat) -> Seq<u8> {
    vstd::bytes::spec_u32_to_le_bytes(n as u32)
}

/// The wire format of a list of 32-byte strings.
pub open spec fn list_wire(v: Seq<[u8; 32]>) -> Seq<u8> {
    length_wire(v.len()) + bytes::flat(v)
}

/// Reads a list of 32-byte strings off the front: the strings, and what is left.
pub open spec fn parse_list(b: Seq<u8>) -> Option<(Seq<Seq<u8>>, Seq<u8>)> {
    if b.len() < 4 {
        None
    } else {
        let n = vstd::bytes::spec_u32_from_le_bytes(b.take(4)) as int;
        if b.len() < 4 + 32 * n {
            None
        } else {
            Some(
                (
                    Seq::new(n as nat, |i: int| b.subrange(4 + 32 * i, 36 + 32 * i)),
                    b.skip(4 + 32 * n),
                ),
            )
        }
    }
}

/// Reads several lists of 32-byte strings off the front, one after the other.
pub open spec fn parse_lists(b: Seq<u8>, count: nat) -> Option<(Seq<Seq<Seq<u8>>>, Seq<u8>)>
    decreases count,
{
    if count == 0 {
        Some((Seq::empty(), b))
    } else {
        match parse_list(b) {
            None => None,
            Some((list, rest)) => match parse_lists(rest, (count - 1) as nat) {
                None => None,
                Some((lists, end)) => Some((seq![list] + lists, end)),
            },
        }
    }
}

/// Appends a list of 32-byte strings.
pub(crate) fn append_list(v: &mut Vec<u8>, list: &Vec<[u8; 32]>)
    requires
        list@.len() <= u32::MAX,
    ensures
        final(v)@ == old(v)@ + list_wire(list@),
{
    append(v, vstd::bytes::u32_to_le_bytes(list.len() as u32).as_slice());
    append_flat(v, list);
    assert(v@ =~= old(v)@ + list_wire(list@));
}

/// Reads a list of 32-byte strings off the front.
pub(crate) fn read_list<'a>(b: &'a [u8]) -> (r: Option<(Vec<[u8; 32]>, &'a [u8])>)
    ensures
        match parse_list(b@) {
            Some((list, rest)) => r matches Some((v, s)) && strings(v@) == list && s@ == rest,
            None => r is None,
        },
{
    let total: usize = b.len();
    if total < 4 {
        return None;
    }
    let head = vstd::slice::slice_subrange(b, 0, 4);
    assert(head@ =~= b@.take(4));
    let n: u32 = vstd::bytes::u32_from_le_bytes(head);
    let room: u64 = (total as u64 - 4) / 32;
    if (n as u64) > room {
        return None;
    }
    let mut out: Vec<[u8; 32]> = Vec::new();
    let mut at: usize = 4;
    let mut i: u32 = 0;
    while i < n
        invariant
            i <= n,
            total == b@.len(),
            4 + 32 * n <= total,
            at == 4 + 32 * i,
            out@.len() == i,
            forall|j: int|
                0 <= j < i ==> (#[trigger] out@[j])@ == b@.subrange(4 + 32 * j, 36 + 32 * j),
        decreases n - i,
    {
        out.push(array_32(b, at));
        at = at + 32;
        i = i + 1;
    }
    let rest = vstd::slice::slice_subrange(b, at, total);
    assert(rest@ =~= b@.skip(4 + 32 * (n as int)));
    assert(strings(out@) =~= Seq::new(
        n as nat,
        |i: int| b@.subrange(4 + 32 * i, 36 + 32 * i),
    ));
    Some((out, rest))
}

/// The wire format of a byte string.
pub open spec fn bytes_wire(v: Seq<u8>) -> Seq<u8> {
    length_wire(v.len()) + v
}

/// Reads a byte string off the front: the string, and what is left.
pub open spec fn parse_bytes(b: Seq<u8>) -> Option<(Seq<u8>, Seq<u8>)> {
    if b.len() < 4 {
        None
    } else {
        let n = vstd::bytes::spec_u32_from_le_bytes(b.take(4)) as int;
        if b.len() < 4 + n {
            None
        } else {
            Some((b.subrange(4, 4 + n), b.skip(4 + n)))
        }
    }
}

/// Appends a byte string.
pub(crate) fn append_bytes(v: &mut Vec<u8>, s: &[u8])
    requires
        s@.len() <= u32::MAX,
    ensures
        final(v)@ == old(v)@ + bytes_wire(s@),
{
    append(v, vstd::bytes::u32_to_le_bytes(s.len() as u32).as_slice());
    append(v, s);
    assert(v@ =~= old(v)@ + bytes_wire(s@));
}

/// Reads a byte string off the front.
pub(crate) fn read_bytes<'a>(b: &'a [u8]) -> (r: Option<(&'a [u8], &'a [u8])>)
    ensures
        match parse_bytes(b@) {
            Some((item, rest)) => r matches Some((v, s)) && v@ == item && s@ == rest,
            None => r is None,
        },
{
    let total: usize = b.len();
    if total < 4 {
        return None;
    }
    let head = vstd::slice::slice_subrange(b, 0, 4);
    assert(head@ =~= b@.take(4));
    let n: u32 = vstd::bytes::u32_from_le_bytes(head);
    if (n as u64) > (total as u64) - 4 {
        return None;
    }
    let end: usize = 4 + n as usize;
    let item = vstd::slice::slice_subrange(b, 4, end);
    let rest = vstd::slice::slice_subrange(b, end, total);
    assert(rest@ =~= b@.skip(4 + n as int));
    Some((item, rest))
}

/// A byte string that was written is read back, and what follows it is left.
pub proof fn law_bytes_round_trip(v: Seq<u8>, rest: Seq<u8>)
    requires
        v.len() <= u32::MAX,
    ensures
        parse_bytes(bytes_wire(v) + rest) == Some((v, rest)),
{
    vstd::bytes::lemma_auto_spec_u32_to_from_le_bytes();
    let head = length_wire(v.len());
    let b = bytes_wire(v) + rest;
    assert(head.len() == 4);
    assert(b.take(4) =~= head);
    let n = v.len() as int;
    assert(b.subrange(4, 4 + n) =~= v);
    assert(b.skip(4 + n) =~= rest);
}

proof fn lemma_flat_item(v: Seq<[u8; 32]>, i: int)
    requires
        0 <= i < v.len(),
    ensures
        bytes::flat(v).len() == 32 * v.len(),
        bytes::flat(v).subrange(32 * i, 32 * i + 32) == v[i]@,
    decreases v.len(),
{
    lemma_flat_len(v);
    lemma_flat_len(v.drop_last());
    let f = bytes::flat(v);
    let g = bytes::flat(v.drop_last());
    assert(f == g + v.last()@);
    if i == v.len() - 1 {
        assert(f.subrange(32 * i, 32 * i + 32) =~= v[i]@);
    } else {
        lemma_flat_item(v.drop_last(), i);
        assert(f.subrange(32 * i, 32 * i + 32) =~= g.subrange(32 * i, 32 * i + 32));
    }
}

pub proof fn lemma_flat_len(v: Seq<[u8; 32]>)
    ensures
        bytes::flat(v).len() == 32 * v.len(),
    decreases v.len(),
{
    if v.len() > 0 {
        lemma_flat_len(v.drop_last());
    }
}

/// A list that was written is read back, and what follows it is left.
pub proof fn law_list_round_trip(v: Seq<[u8; 32]>, rest: Seq<u8>)
    requires
        v.len() <= u32::MAX,
    ensures
        parse_list(list_wire(v) + rest) == Some((strings(v), rest)),
{
    vstd::bytes::lemma_auto_spec_u32_to_from_le_bytes();
    lemma_flat_len(v);
    let head = length_wire(v.len());
    let f = bytes::flat(v);
    let b = list_wire(v) + rest;
    assert(head.len() == 4);
    assert(b.take(4) =~= head);
    let n = v.len() as int;
    assert(vstd::bytes::spec_u32_from_le_bytes(b.take(4)) as int == n);
    assert(b.skip(4 + 32 * n) =~= rest);
    let read = Seq::new(n as nat, |i: int| b.subrange(4 + 32 * i, 36 + 32 * i));
    assert forall|i: int| 0 <= i < n implies #[trigger] read[i] == strings(v)[i] by {
        lemma_flat_item(v, i);
        assert(b.subrange(4 + 32 * i, 36 + 32 * i) =~= f.subrange(32 * i, 32 * i + 32));
    }
    assert(read =~= strings(v));
}

} // verus!
