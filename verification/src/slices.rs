//! Small operations on byte slices.

use vstd::prelude::*;

use crate::protocol;
use crate::transport;

verus! {

/// Whether `a` and `b` hold the same bytes.
pub fn same_bytes(a: &[u8], b: &[u8]) -> (same: bool)
    ensures
        same == (a@ == b@),
{
    if a.len() != b.len() {
        return false;
    }
    let mut i: usize = 0;
    while i < a.len()
        invariant
            i <= a@.len() == b@.len(),
            forall|j: int| 0 <= j < i ==> a@[j] == b@[j],
        decreases a@.len() - i,
    {
        if a[i] != b[i] {
            return false;
        }
        i = i + 1;
    }
    assert(a@ =~= b@);
    true
}

/// Overwrites `data` with the bytes of `source` from `from` on.
pub fn copy_from(data: &mut [u8], source: &[u8], from: usize)
    requires
        from + old(data)@.len() <= source@.len(),
    ensures
        final(data)@ == source@.subrange(from as int, from + old(data)@.len()),
{
    let len: usize = data.len();
    let part = source.split_at(from).1;
    let mut i: usize = 0;
    while i < len
        invariant
            i <= len == data@.len(),
            len == old(data)@.len(),
            len <= part@.len(),
            part@ == source@.skip(from as int),
            from <= source@.len(),
            forall|j: int| 0 <= j < i ==> data@[j] == part@[j],
        decreases len - i,
    {
        data[i] = part[i];
        i = i + 1;
    }
    assert(data@ =~= source@.subrange(from as int, from + len));
}

/// Whether some byte of `data` is not in the erased state.
pub fn any_programmed(data: &[u8]) -> (any: bool)
    ensures
        any == !protocol::is_blank(data@),
{
    let mut i: usize = 0;
    while i < data.len()
        invariant
            i <= data@.len(),
            forall|j: int| 0 <= j < i ==> data@[j] == 0xff,
        decreases data@.len() - i,
    {
        if data[i] != 0xff {
            return true;
        }
        i = i + 1;
    }
    false
}

/// Where the first `mark` stands in `chunk`; its length if there is none.
pub fn position_of(chunk: &[u8], mark: u8) -> (at: usize)
    ensures
        at <= chunk@.len(),
        chunk@.skip(at as int) == transport::from_first(chunk@, mark),
{
    let mut at: usize = 0;
    while at < chunk.len() && chunk[at] != mark
        invariant
            at <= chunk@.len(),
            forall|i: int| 0 <= i < at ==> chunk@[i] != mark,
        decreases chunk@.len() - at,
    {
        at = at + 1;
    }
    proof {
        transport::lemma_from_first_skip(chunk@, mark, at as int);
    }
    at
}

} // verus!
