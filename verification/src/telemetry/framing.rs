//! Where one frame ends in the bytes a serial line or a network stream has
//! delivered so far.
//!
//! A line break ends a text frame. Failing that, a binary frame starts with
//! a sync pattern followed by a little-endian length, and ends that many
//! bytes after the length.

use vstd::prelude::*;

verus! {

/// The first line feed at or after `k`.
pub open spec fn newline_from(data: Seq<u8>, k: int) -> Option<int>
    decreases data.len() - k,
{
    if k < 0 || k >= data.len() {
        None
    } else if data[k] == 10 {
        Some(k)
    } else {
        newline_from(data, k + 1)
    }
}

/// The length field of a binary frame whose sync pattern is at `i`.
pub open spec fn length_at(data: Seq<u8>, i: int) -> int {
    data[i + 2] + 256 * data[i + 3]
}

/// Where a binary frame with its sync pattern at `i` ends, if it is all
/// there. `either_order` also takes the pattern with its bytes swapped and
/// refuses a zero length, as the serial reader does.
pub open spec fn frame_end_at(data: Seq<u8>, i: int, either_order: bool) -> Option<int> {
    let sync = (data[i] == 0xAA && data[i + 1] == 0x55) || (either_order && data[i] == 0x55
        && data[i + 1] == 0xAA);
    if sync && i + 4 < data.len() && (!either_order || length_at(data, i) > 0) && i + 4 + length_at(
        data,
        i,
    ) <= data.len() {
        Some(i + 4 + length_at(data, i))
    } else {
        None
    }
}

/// The end of the first complete binary frame whose sync pattern is at or
/// after `i` and more than three bytes before the end.
pub open spec fn binary_end_from(data: Seq<u8>, i: int, either_order: bool) -> Option<int>
    decreases data.len() - i,
{
    if i < 0 || i + 3 >= data.len() {
        None
    } else {
        match frame_end_at(data, i, either_order) {
            Some(e) => Some(e),
            None => binary_end_from(data, i + 1, either_order),
        }
    }
}

/// Where the first frame in `data` ends: just past the first line feed, or
/// else at the end of the first complete binary frame.
pub open spec fn boundary(data: Seq<u8>, either_order: bool) -> Option<int> {
    match newline_from(data, 0) {
        Some(p) => Some(p + 1),
        None => binary_end_from(data, 0, either_order),
    }
}

proof fn lemma_binary_end_from(data: Seq<u8>, i: int, either_order: bool)
    requires
        0 <= i,
    ensures
        binary_end_from(data, i, either_order) matches Some(e) ==> i + 4 <= e <= data.len(),
    decreases data.len() - i,
{
    if i + 3 < data.len() && frame_end_at(data, i, either_order) is None {
        lemma_binary_end_from(data, i + 1, either_order);
    }
}

/// A frame ends inside what was delivered, and holds at least one byte:
/// splitting the buffer there always succeeds and always makes progress.
pub proof fn lemma_boundary_within(data: Seq<u8>, either_order: bool)
    ensures
        boundary(data, either_order) matches Some(e) ==> 0 < e <= data.len(),
{
    lemma_newline_from(data, 0);
    lemma_binary_end_from(data, 0, either_order);
}

proof fn lemma_newline_from(data: Seq<u8>, k: int)
    requires
        0 <= k <= data.len(),
    ensures
        newline_from(data, k) matches Some(p) ==> k <= p < data.len() && data[p] == 10,
        newline_from(data, k) is None ==> forall|j: int| k <= j < data.len() ==> data[j] != 10,
    decreases data.len() - k,
{
    if k < data.len() && data[k] != 10 {
        lemma_newline_from(data, k + 1);
    }
}

fn first_newline(data: &[u8]) -> (r: Option<usize>)
    ensures
        match r {
            Some(p) => newline_from(data@, 0) == Some(p as int) && p < data@.len(),
            None => newline_from(data@, 0) is None,
        },
{
    let mut k: usize = 0;
    while k < data.len()
        invariant
            k <= data@.len(),
            newline_from(data@, 0) == newline_from(data@, k as int),
        decreases data@.len() - k,
    {
        if data[k] == 10 {
            return Some(k);
        }
        k = k + 1;
    }
    None
}

fn binary_end(data: &[u8], either_order: bool) -> (r: Option<usize>)
    ensures
        match r {
            Some(e) => binary_end_from(data@, 0, either_order) == Some(e as int),
            None => binary_end_from(data@, 0, either_order) is None,
        },
{
    let n = data.len();
    if n < 4 {
        return None;
    }
    let mut i: usize = 0;
    while i < n - 3
        invariant
            n == data@.len(),
            n >= 4,
            i <= n - 3,
            binary_end_from(data@, 0, either_order) == binary_end_from(data@, i as int, either_order),
        decreases n - i,
    {
        let sync = (data[i] == 0xAA && data[i + 1] == 0x55) || (either_order && data[i] == 0x55
            && data[i + 1] == 0xAA);
        if sync && i + 4 < n {
            let length = data[i + 2] as usize + 256 * (data[i + 3] as usize);
            if (!either_order || length > 0) && length <= n - (i + 4) {
                return Some(i + 4 + length);
            }
        }
        i = i + 1;
    }
    None
}

/// Where the first frame a serial line delivered ends: past the first line
/// feed, past the first carriage return and line feed, or at the end of
/// the first complete binary frame, whose sync pattern may come in either
/// byte order and whose length must not be zero.
pub fn find_serial_frame_boundary(data: &[u8]) -> (r: Option<usize>)
    ensures
        match r {
            Some(e) => boundary(data@, true) == Some(e as int) && 0 < e <= data@.len(),
            None => boundary(data@, true) is None,
        },
{
    proof {
        lemma_boundary_within(data@, true);
    }
    let n = data.len();
    if let Some(pos) = first_newline(data) {
        assert(pos < n);
        return Some(pos + 1);
    }
    proof {
        lemma_newline_from(data@, 0);
    }
    if data.len() >= 2 {
        let mut i: usize = 0;
        while i < data.len() - 1
            invariant
                data@.len() >= 2,
                i <= data@.len() - 1,
                forall|j: int| 0 <= j < data@.len() ==> data@[j] != 10,
            decreases data@.len() - 1 - i,
        {
            if data[i] == 13 && data[i + 1] == 10 {
                return Some(i + 2);
            }
            i = i + 1;
        }
    }
    binary_end(data, true)
}

/// Where the first frame a network stream delivered ends: past the first
/// line feed, or at the end of the first complete binary frame.
pub fn find_frame_boundary(data: &[u8]) -> (r: Option<usize>)
    ensures
        match r {
            Some(e) => boundary(data@, false) == Some(e as int) && 0 < e <= data@.len(),
            None => boundary(data@, false) is None,
        },
{
    proof {
        lemma_boundary_within(data@, false);
    }
    let n = data.len();
    if let Some(pos) = first_newline(data) {
        assert(pos < n);
        return Some(pos + 1);
    }
    binary_end(data, false)
}

} // verus!
