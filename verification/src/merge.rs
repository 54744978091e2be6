//! The merger: the byte side of the chunked reader. It concatenates a run
//! of parts, in index order, back into one byte vector. The part sequence
//! must be contiguous from the first index: the merger walks parts until the
//! first absent one and stops there, deliberately never looking further —
//! parts beyond a gap are left unread. That lenient stopping rule is the
//! designed end-of-sequence signal, not an error.

use vstd::prelude::*;

use crate::pump;
use crate::split::chunks_of;
use crate::split::lemma_chunks_concat;
use crate::split::lemma_chunks_count;
use crate::split::views_of;

verus! {

/// The bytes a part contributes: its contents when present, nothing when
/// absent.
pub open spec fn part_bytes(part: Option<Vec<u8>>) -> Seq<u8> {
    match part {
        Option::Some(v) => v@,
        Option::None => Seq::empty(),
    }
}

/// How many parts a merge of `parts` consumes: the length of the contiguous
/// run of present parts before the first absent one.
pub open spec fn present_count(parts: Seq<Option<Vec<u8>>>) -> int
    decreases parts.len(),
{
    if parts.len() == 0 {
        0
    } else {
        match parts[0] {
            Option::None => 0,
            Option::Some(_) => 1 + present_count(parts.drop_first()),
        }
    }
}

/// The bytes a merge of `parts` produces: the contents of the contiguous
/// run of present parts, in order, and nothing from the first absent part
/// on.
pub open spec fn merged_bytes(parts: Seq<Option<Vec<u8>>>) -> Seq<u8>
    decreases parts.len(),
{
    if parts.len() == 0 {
        Seq::empty()
    } else {
        match parts[0] {
            Option::None => Seq::empty(),
            Option::Some(v) => v@ + merged_bytes(parts.drop_first()),
        }
    }
}

/// A merge stops at the first absent part: when the parts before `i` are
/// all present and part `i` is absent (or the sequence ends there), the
/// merge consumes exactly `i` parts and reads nothing beyond them.
pub proof fn lemma_merge_stops(parts: Seq<Option<Vec<u8>>>, i: int)
    requires
        0 <= i <= parts.len(),
        forall|j: int| 0 <= j < i ==> (#[trigger] parts[j]) is Some,
        i < parts.len() ==> parts[i] is None,
    ensures
        present_count(parts) == i,
        merged_bytes(parts) == merged_bytes(parts.take(i)),
    decreases parts.len(),
{
    if parts.len() == 0 || i == 0 {
        assert(merged_bytes(parts.take(0)) == Seq::<u8>::empty());
    } else {
        lemma_merge_stops(parts.drop_first(), i - 1);
        assert(parts.take(i).drop_first() =~= parts.drop_first().take(i - 1));
    }
}

/// Taking one more present part appends exactly that part's bytes.
proof fn lemma_merged_bytes_step(parts: Seq<Option<Vec<u8>>>, i: int)
    requires
        0 <= i < parts.len(),
        forall|j: int| 0 <= j <= i ==> (#[trigger] parts[j]) is Some,
    ensures
        merged_bytes(parts.take(i + 1)) == merged_bytes(parts.take(i)) + part_bytes(parts[i]),
    decreases i,
{
    if i == 0 {
        assert(parts.take(1).drop_first() =~= Seq::<Option<Vec<u8>>>::empty());
        assert(merged_bytes(parts.take(0)) == Seq::<u8>::empty());
        assert(part_bytes(parts[0]) + Seq::<u8>::empty() =~= part_bytes(parts[0]));
        assert(Seq::<u8>::empty() + part_bytes(parts[0]) =~= part_bytes(parts[0]));
        assert(merged_bytes(parts.take(1)) == part_bytes(parts.take(1)[0]) + merged_bytes(
            parts.take(1).drop_first(),
        ));
    } else {
        lemma_merged_bytes_step(parts.drop_first(), i - 1);
        assert(parts.take(i + 1).drop_first() =~= parts.drop_first().take(i));
        assert(parts.take(i).drop_first() =~= parts.drop_first().take(i - 1));
    }
}

/// Merge a directory of parts: entry `i` of `parts` stands for the part
/// with index `i + 1`, present or absent. The merge walks the entries in
/// order, appends the contents of each present part to the output, and
/// stops at the first absent entry, returning the output bytes and how many
/// parts went into them. With no first part at all the output is empty and
/// zero parts are consumed.
pub fn merge_parts(parts: &Vec<Option<Vec<u8>>>) -> (r: (Vec<u8>, u32))
    requires
        parts@.len() <= u32::MAX,
    ensures
        r.1 as int == present_count(parts@),
        r.0@ == merged_bytes(parts@),
{
    let mut out: Vec<u8> = Vec::new();
    let mut i: usize = 0;
    loop
        invariant_except_break
            i <= parts@.len() <= u32::MAX,
            forall|j: int| 0 <= j < i ==> (#[trigger] parts@[j]) is Some,
            out@ == merged_bytes(parts@.take(i as int)),
        ensures
            i <= parts@.len() <= u32::MAX,
            present_count(parts@) == i as int,
            out@ == merged_bytes(parts@),
        decreases parts@.len() - i,
    {
        if i >= parts.len() {
            proof {
                lemma_merge_stops(parts@, i as int);
            }
            break;
        }
        match &parts[i] {
            Option::Some(v) => {
                proof {
                    lemma_merged_bytes_step(parts@, i as int);
                }
                pump::append_all(v, &mut out);
                i += 1;
            },
            Option::None => {
                proof {
                    lemma_merge_stops(parts@, i as int);
                }
                break;
            },
        }
    }
    (out, i as u32)
}

/// Concatenate a run of parts that are all in hand, in order: the merge of
/// a gap-free part list.
pub fn concat_parts(parts: &Vec<Vec<u8>>) -> (out: Vec<u8>)
    ensures
        out@ == views_of(parts@).flatten(),
{
    let mut out: Vec<u8> = Vec::new();
    let mut i: usize = 0;
    while i < parts.len()
        invariant
            i <= parts@.len(),
            out@ == views_of(parts@.take(i as int)).flatten(),
        decreases parts@.len() - i,
    {
        pump::append_all(&parts[i], &mut out);
        proof {
            assert(views_of(parts@.take(i as int + 1)) =~= views_of(parts@.take(i as int)).push(
                parts@[i as int]@,
            ));
            views_of(parts@.take(i as int)).lemma_flatten_push(parts@[i as int]@);
        }
        i += 1;
    }
    proof {
        assert(parts@.take(parts@.len() as int) =~= parts@);
    }
    out
}

/// A directory holding every part of a gap-free list, and nothing missing,
/// merges to the concatenation of the whole list: the merge consumes every
/// part and its output is the flattened contents.
pub proof fn lemma_merge_all_present(parts: Seq<Vec<u8>>)
    ensures
        present_count(parts.map_values(|v: Vec<u8>| Option::Some(v))) == parts.len(),
        merged_bytes(parts.map_values(|v: Vec<u8>| Option::Some(v))) == views_of(parts).flatten(),
    decreases parts.len(),
{
    let m = parts.map_values(|v: Vec<u8>| Option::Some(v));
    if parts.len() == 0 {
        assert(views_of(parts) =~= Seq::<Seq<u8>>::empty());
    } else {
        lemma_merge_all_present(parts.drop_first());
        assert(m.drop_first() =~= parts.drop_first().map_values(|v: Vec<u8>| Option::Some(v)));
        assert(views_of(parts).drop_first() =~= views_of(parts.drop_first()));
        assert(views_of(parts).first() == parts[0]@);
    }
}

/// Round trip: splitting any data at any part size of at least one byte and
/// merging the parts in order restores the data byte for byte, and the
/// number of parts is the length divided by the part size, rounded up —
/// exactly the quotient when the length is a multiple of the part size, so
/// no trailing empty part ever persists.
pub proof fn lemma_split_merge_round_trip(data: Seq<u8>, part_size: int)
    requires
        part_size >= 1,
    ensures
        chunks_of(data, part_size).flatten() == data,
        chunks_of(data, part_size).len() == (if data.len() as int % part_size == 0 {
            data.len() as int / part_size
        } else {
            data.len() as int / part_size + 1
        }),
{
    lemma_chunks_concat(data, part_size);
    lemma_chunks_count(data, part_size);
}

} // verus!
