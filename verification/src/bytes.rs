//! Bulk copies between byte buffers.

use vstd::prelude::*;

use crate::frame::{delivered_len, filled};

verus! {

/// `copy_from_slice` of std: copies every element of `src` over those of `dst`, which must be
/// as many, since std panics otherwise.
pub assume_specification<Elem: Copy>[ <[Elem]>::copy_from_slice ](dst: &mut [Elem], src: &[Elem])
    requires
        old(dst)@.len() == src@.len(),
    ensures
        final(dst)@ == src@,
;

/// A memory after `data` was written over the bytes from `at` on.
pub open spec fn overwritten(mem: Seq<u8>, at: int, data: Seq<u8>) -> Seq<u8> {
    mem.take(at) + data + mem.skip(at + data.len())
}

/// Writes `data` over the bytes of `mem` from `at` on.
pub fn overwrite(mem: &mut [u8], at: usize, data: &[u8])
    requires
        at + data@.len() <= old(mem)@.len(),
    ensures
        final(mem)@ == overwritten(old(mem)@, at as int, data@),
{
    let (_, tail) = mem.split_at_mut(at);
    let (hole, _) = tail.split_at_mut(data.len());
    hole.copy_from_slice(data);
}

/// Copies as much of `data` as fits to the front of `buf` and leaves the rest of `buf` alone.
/// Returns the number of bytes copied.
pub fn deliver(data: &[u8], buf: &mut [u8]) -> (n: usize)
    ensures
        n == delivered_len(data@.len(), old(buf)@.len()),
        final(buf)@ == filled(old(buf)@, data@, n as nat),
{
    let n: usize = if data.len() <= buf.len() {
        data.len()
    } else {
        buf.len()
    };
    overwrite(buf, 0, &data[0..n]);
    proof {
        assert(data@.subrange(0, n as int) =~= data@.take(n as int));
        assert(final(buf)@ =~= filled(old(buf)@, data@, n as nat));
    }
    n
}

/// Overwriting puts each byte of the data in its place and leaves every other place alone.
pub proof fn law_overwrite(mem: &mut [u8], at: usize, data: &[u8])
    requires
        at + data@.len() <= mem@.len(),
        call_ensures(overwrite, (mem, at, data), ()),
    ensures
        final(mem)@.len() == old(mem)@.len(),
        forall|i: int| 0 <= i < data@.len() ==> final(mem)@[at + i] == #[trigger] data@[i],
        forall|p: int|
            0 <= p < old(mem)@.len() && !(at <= p < at + data@.len()) ==> #[trigger] final(mem)@[p]
                == old(mem)@[p],
{
}

/// As many bytes are delivered as there are and as there is room for. They stand at the front
/// of the buffer, and the bytes behind them stay.
pub proof fn law_deliver(data: &[u8], buf: &mut [u8], n: usize)
    requires
        call_ensures(deliver, (data, buf), n),
    ensures
        n <= data@.len(),
        n <= old(buf)@.len(),
        n == data@.len() || n == old(buf)@.len(),
        final(buf)@.len() == old(buf)@.len(),
        forall|i: int| 0 <= i < n ==> #[trigger] final(buf)@[i] == data@[i],
        forall|i: int| n <= i < old(buf)@.len() ==> #[trigger] final(buf)@[i] == old(buf)@[i],
{
}

} // verus!
