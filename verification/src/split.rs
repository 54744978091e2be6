//! The splitter: the byte side of the chunked writer. It cuts the source
//! bytes into a run of full parts of exactly `part_size` bytes followed by a
//! short, never empty, final part. The caller writes each part to its file,
//! named by the shared convention; the engine itself never persists an empty
//! part, so an empty source yields no parts at all.

use vstd::arithmetic::div_mod::lemma_basic_div;
use vstd::arithmetic::div_mod::lemma_div_by_self;
use vstd::arithmetic::div_mod::lemma_div_minus_one;
use vstd::arithmetic::div_mod::lemma_fundamental_div_mod;
use vstd::arithmetic::div_mod::lemma_mod_add_multiples_vanish;
use vstd::arithmetic::div_mod::lemma_mod_self_0;
use vstd::arithmetic::div_mod::lemma_mod_sub_multiples_vanish;
use vstd::arithmetic::div_mod::lemma_small_mod;
use vstd::arithmetic::mul::lemma_mul_inequality;
use vstd::prelude::*;

use crate::pump;

verus! {

/// The views of a sequence of byte vectors.
pub open spec fn views_of(parts: Seq<Vec<u8>>) -> Seq<Seq<u8>> {
    parts.map_values(|v: Vec<u8>| v@)
}

/// The parts of `data` cut at `part_size`: full slices of exactly
/// `part_size` bytes, then the non-empty remainder, if any. Zero-length data
/// has no parts.
pub open spec fn chunks_of(data: Seq<u8>, part_size: int) -> Seq<Seq<u8>>
    recommends
        part_size >= 1,
    decreases data.len(),
{
    if part_size < 1 {
        Seq::empty()
    } else if data.len() == 0 {
        Seq::empty()
    } else if data.len() <= part_size {
        seq![data]
    } else {
        seq![data.take(part_size)] + chunks_of(data.skip(part_size), part_size)
    }
}

/// Every part holds between 1 and `part_size` bytes, and every part before
/// the last holds exactly `part_size` bytes.
pub proof fn lemma_chunks_shape(data: Seq<u8>, part_size: int)
    requires
        part_size >= 1,
    ensures
        forall|i: int|
            0 <= i < chunks_of(data, part_size).len() ==> 1 <= (#[trigger] chunks_of(
                data,
                part_size,
            )[i]).len() <= part_size,
        forall|i: int|
            0 <= i < chunks_of(data, part_size).len() - 1 ==> (#[trigger] chunks_of(
                data,
                part_size,
            )[i]).len() == part_size,
    decreases data.len(),
{
    let c = chunks_of(data, part_size);
    if data.len() > part_size {
        lemma_chunks_shape(data.skip(part_size), part_size);
        let rest = chunks_of(data.skip(part_size), part_size);
        assert forall|i: int| 0 <= i < c.len() implies 1 <= (#[trigger] c[i]).len()
            <= part_size by {
            if i > 0 {
                assert(c[i] == rest[i - 1]);
            }
        }
        assert forall|i: int| 0 <= i < c.len() - 1 implies (#[trigger] c[i]).len()
            == part_size by {
            if i > 0 {
                assert(c[i] == rest[i - 1]);
            }
        }
    }
}

/// Byte accounting across part boundaries: the parts before any given part
/// hold exactly one full `part_size` each, so the bytes written before part
/// `k` always amount to `k * part_size`.
pub proof fn lemma_chunks_prefix_bytes(data: Seq<u8>, part_size: int, k: int)
    requires
        part_size >= 1,
        0 <= k < chunks_of(data, part_size).len(),
    ensures
        chunks_of(data, part_size).take(k).flatten().len() == k * part_size,
    decreases k,
{
    let c = chunks_of(data, part_size);
    if k == 0 {
        assert(c.take(0).flatten() =~= Seq::<u8>::empty());
    } else {
        lemma_chunks_prefix_bytes(data, part_size, k - 1);
        lemma_chunks_shape(data, part_size);
        assert(c.take(k) =~= c.take(k - 1).push(c[k - 1]));
        c.take(k - 1).lemma_flatten_push(c[k - 1]);
        assert(k * part_size == (k - 1) * part_size + part_size) by (nonlinear_arith);
    }
}

/// The number of parts is the length divided by `part_size`, rounded up: on
/// an exact multiple there is no extra part, empty data has none at all.
pub proof fn lemma_chunks_count(data: Seq<u8>, part_size: int)
    requires
        part_size >= 1,
    ensures
        chunks_of(data, part_size).len() == (if data.len() as int % part_size == 0 {
            data.len() as int / part_size
        } else {
            data.len() as int / part_size + 1
        }),
    decreases data.len(),
{
    let n = data.len() as int;
    let p = part_size;
    if n == 0 {
        lemma_small_mod(0, p as nat);
        lemma_basic_div(0, p);
    } else if n <= p {
        if n == p {
            lemma_div_by_self(p);
            lemma_mod_self_0(p);
        } else {
            lemma_basic_div(n, p);
            lemma_small_mod(n as nat, p as nat);
        }
    } else {
        lemma_chunks_count(data.skip(p), p);
        lemma_mod_sub_multiples_vanish(n, p);
        lemma_div_minus_one(n, p);
    }
}

/// Concatenating the parts in order restores the data.
pub proof fn lemma_chunks_concat(data: Seq<u8>, part_size: int)
    requires
        part_size >= 1,
    ensures
        chunks_of(data, part_size).flatten() == data,
    decreases data.len(),
{
    if data.len() == 0 {
        assert(chunks_of(data, part_size).flatten() =~= data);
    } else if data.len() <= part_size {
        seq![data].lemma_flatten_one_element();
    } else {
        lemma_chunks_concat(data.skip(part_size), part_size);
        vstd::seq_lib::lemma_flatten_concat(
            seq![data.take(part_size)],
            chunks_of(data.skip(part_size), part_size),
        );
        seq![data.take(part_size)].lemma_flatten_one_element();
        assert(data.take(part_size) + data.skip(part_size) =~= data);
    }
}

/// Cutting data whose length is a whole number of parts plus a tail splits
/// cleanly: the parts of the whole are the parts of the aligned front
/// followed by the parts of the rest.
pub proof fn lemma_chunks_split_at(data: Seq<u8>, part_size: int, pos: int)
    requires
        part_size >= 1,
        0 <= pos <= data.len(),
        pos % part_size == 0,
    ensures
        chunks_of(data, part_size) == chunks_of(data.take(pos), part_size) + chunks_of(
            data.skip(pos),
            part_size,
        ),
    decreases pos,
{
    let p = part_size;
    if pos == 0 {
        assert(data.take(0) =~= Seq::<u8>::empty());
        assert(data.skip(0) =~= data);
        assert(chunks_of(data.take(0), p) + chunks_of(data, p) =~= chunks_of(data, p));
    } else {
        assert(pos >= p) by {
            lemma_fundamental_div_mod(pos, p);
            let q = pos / p;
            if q >= 1 {
                lemma_mul_inequality(1, q, p);
            } else {
                lemma_mul_inequality(q, 0, p);
            }
        }
        if data.len() <= p {
            // Here the aligned front is the whole of the data.
            assert(pos == data.len());
            assert(data.take(pos) =~= data);
            assert(data.skip(pos) =~= Seq::<u8>::empty());
            assert(chunks_of(data, p) + chunks_of(data.skip(pos), p) =~= chunks_of(data, p));
        } else {
            lemma_mod_sub_multiples_vanish(pos, p);
            lemma_chunks_split_at(data.skip(p), p, pos - p);
            assert(data.skip(p).take(pos - p) =~= data.take(pos).skip(p));
            assert(data.skip(p).skip(pos - p) =~= data.skip(pos));
            assert(data.take(pos).take(p) =~= data.take(p));
            if pos == p {
                assert(data.skip(p).take(0) =~= Seq::<u8>::empty());
                assert(chunks_of(data.take(pos).skip(p), p) + chunks_of(data.skip(pos), p)
                    =~= chunks_of(data.skip(p), p));
            }
        }
    }
}

/// Why a split request is refused before any part is produced.
#[derive(Clone, Copy, Debug, PartialEq, Eq, Structural)]
pub enum SplitError {
    /// A part size of zero bytes would emit empty parts forever.
    ZeroPartSize,
}

/// Split `data` into parts of at most `part_size` bytes each. A part size
/// of zero is refused before anything is produced; otherwise the parts are
/// exactly the chunks of the data: full parts, then a short non-empty last
/// part, and no part at all for empty data.
pub fn split_into_parts(data: &Vec<u8>, part_size: u64) -> (r: Result<Vec<Vec<u8>>, SplitError>)
    ensures
        part_size == 0 ==> (r matches Err(SplitError::ZeroPartSize)),
        part_size >= 1 ==> (r matches Ok(parts) && views_of(parts@) == chunks_of(
            data@,
            part_size as int,
        )),
{
    if part_size == 0 {
        return Err(SplitError::ZeroPartSize);
    }
    let ghost p: int = part_size as int;
    let data_len: usize = data.len();
    let mut parts: Vec<Vec<u8>> = Vec::new();
    let mut pos: usize = 0;
    loop
        invariant_except_break
            part_size >= 1,
            p == part_size as int,
            data_len == data@.len(),
            pos <= data_len,
            pos as int % p == 0,
            views_of(parts@) == chunks_of(data@.take(pos as int), p),
        ensures
            views_of(parts@) == chunks_of(data@, p),
        decreases data@.len() - pos,
    {
        let mut part: Vec<u8> = Vec::new();
        let copied = pump::copy_bounded(data, pos, part_size, &mut part);
        if copied == 0 {
            // The source ended exactly at a part boundary (or was empty):
            // the empty part is spurious and is not kept.
            proof {
                assert(data@.take(pos as int) =~= data@);
            }
            break;
        }
        proof {
            let pos0 = pos as int;
            let c = copied as int;
            let pre = data@.take(pos0 + c);
            lemma_chunks_split_at(pre, p, pos0);
            assert(pre.take(pos0) =~= data@.take(pos0));
            assert(pre.skip(pos0) =~= part@);
            assert(chunks_of(part@, p) =~= seq![part@]);
            assert(views_of(parts@.push(part)) =~= views_of(parts@).push(part@));
            assert(views_of(parts@.push(part)) == chunks_of(data@.take(pos0 + c), p));
        }
        parts.push(part);
        pos += copied;
        if (copied as u64) < part_size {
            // A short part means the source is exhausted: this was the last.
            proof {
                assert(data@.take(pos as int) =~= data@);
            }
            break;
        }
        proof {
            lemma_mod_add_multiples_vanish(pos as int - p, p);
        }
    }
    Ok(parts)
}

} // verus!
