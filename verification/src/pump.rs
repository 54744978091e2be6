//! The bounded byte pump: the copy primitive shared by the splitter and the
//! merger. It moves bytes from a source position onto the end of a sink in
//! steps of at most `BUFFER_SIZE` bytes, and stops at the byte budget or at
//! the end of the source, whichever comes first.

use vstd::prelude::*;

verus! {

/// Bytes moved per step of the copy loop.
pub const BUFFER_SIZE: usize = 4096;

/// Copy up to `budget` bytes of `src`, starting at position `from`, onto the
/// end of `out`. Returns the number of bytes copied: the whole budget, or
/// everything that was left of `src` when the source ran out first. A copy
/// that returns less than `budget` therefore means the source is exhausted.
pub fn copy_bounded(src: &Vec<u8>, from: usize, budget: u64, out: &mut Vec<u8>) -> (copied: usize)
    requires
        from <= src@.len(),
    ensures
        copied as int == vstd::math::min(budget as int, src@.len() - from as int),
        final(out)@ == old(out)@ + src@.subrange(from as int, from as int + copied as int),
{
    let src_len: usize = src.len();
    let mut copied: usize = 0;
    loop
        invariant_except_break
            from <= src_len,
            src_len == src@.len(),
            from + copied <= src_len,
            copied as int <= budget as int,
            out@ == old(out)@ + src@.subrange(from as int, from as int + copied as int),
        ensures
            from + copied <= src_len,
            copied as int == vstd::math::min(budget as int, src_len - from as int),
            out@ == old(out)@ + src@.subrange(from as int, from as int + copied as int),
        decreases src_len - from - copied, budget - copied,
    {
        let remain: u64 = budget - copied as u64;
        let step: usize = if remain < BUFFER_SIZE as u64 {
            remain as usize
        } else {
            BUFFER_SIZE
        };
        let avail: usize = src_len - (from + copied);
        let n: usize = if avail < step {
            avail
        } else {
            step
        };
        if n == 0 {
            break;
        }
        let ghost done: int = copied as int;
        let mut j: usize = 0;
        while j < n
            invariant
                j <= n,
                from <= src_len,
                src_len == src@.len(),
                done == copied as int,
                from + copied + n <= src_len,
                out@ == old(out)@ + src@.subrange(from as int, from as int + done + j as int),
            decreases n - j,
        {
            out.push(src[from + copied + j]);
            proof {
                assert(out@ == old(out)@ + src@.subrange(
                    from as int,
                    from as int + done + j as int + 1,
                )) by {
                    assert(src@.subrange(from as int, from as int + done + j + 1)
                        =~= src@.subrange(from as int, from as int + done + j).push(
                        src@[from as int + done + j],
                    ));
                }
            }
            j += 1;
        }
        copied = copied + n;
        if copied as u64 >= budget {
            break;
        }
    }
    copied
}

/// Copy the whole of `src` onto the end of `out`: the unbounded form of the
/// pump that the merger drives once per part.
pub fn append_all(src: &Vec<u8>, out: &mut Vec<u8>)
    ensures
        final(out)@ == old(out)@ + src@,
{
    let copied = copy_bounded(src, 0, src.len() as u64, out);
    proof {
        assert(src@.subrange(0, copied as int) =~= src@);
    }
}

} // verus!
