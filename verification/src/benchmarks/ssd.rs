//! The random SSD read benchmark's offsets: every page of the file from
//! which a whole read buffer still fits, the last one stopping one buffer
//! short of the end.
use vstd::prelude::*;

verus! {

/// The number of pages at which a read may start.
pub open spec fn readable_pages(file_size: nat, page_size: nat, buf_size: nat) -> nat {
    (file_size / page_size - buf_size / page_size) as nat
}

/// The page-aligned offsets at which a read of `buf_size` bytes stays inside a
/// file of `file_size` bytes, in order.
pub fn page_offsets(file_size: usize, page_size: usize, buf_size: usize) -> (offsets: Vec<u64>)
    requires
        page_size > 0,
        buf_size / page_size <= file_size / page_size,
        file_size <= u64::MAX,
    ensures
        offsets@.len() == readable_pages(file_size as nat, page_size as nat, buf_size as nat),
        forall|i: int| 0 <= i < offsets@.len() ==> #[trigger] offsets@[i] == i * page_size,
        forall|i: int| 0 <= i < offsets@.len() ==> #[trigger] offsets@[i] + buf_size < file_size,
{
    let pages = file_size / page_size - buf_size / page_size;
    let mut offsets: Vec<u64> = Vec::new();
    let mut i: usize = 0;
    while i < pages
        invariant
            i <= pages,
            page_size > 0,
            pages == file_size / page_size - buf_size / page_size,
            file_size <= u64::MAX,
            offsets@.len() == i,
            forall|k: int| 0 <= k < i ==> #[trigger] offsets@[k] == k * page_size,
            forall|k: int| 0 <= k < i ==> #[trigger] offsets@[k] + buf_size < file_size,
        decreases pages - i,
    {
        assert(i * page_size + buf_size < file_size) by (nonlinear_arith)
            requires
                page_size > 0,
                i < file_size / page_size - buf_size / page_size,
        {
            let f = file_size / page_size;
            let b = buf_size / page_size;
            assert(buf_size < (b + 1) * page_size);
            assert(f * page_size <= file_size);
            assert(i + b + 1 <= f);
            assert(i * page_size + (b + 1) * page_size <= f * page_size);
        }
        let off = i * page_size;
        offsets.push(off as u64);
        i = i + 1;
    }
    offsets
}

} // verus!
