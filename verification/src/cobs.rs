//! Byte stuffing that makes the frame start byte recognizable.
//!
//! Every payload byte equal to the start byte is rewritten before
//! transmission: each one holds the distance to the next such byte to its
//! right, and the rightmost one holds 0. A separate overhead byte carries the
//! index of the leftmost such byte, or 0xFF when the payload holds none.

use vstd::prelude::*;

verus! {

/// The constant byte that opens every frame.
pub const START_BYTE: u8 = 126;

/// Overhead value meaning that the payload holds no start byte.
pub const COBS_NONE: u8 = 255;

/// Index of the first occurrence of the start byte in `s` at or after `i`,
/// or `s.len()` when there is none.
pub open spec fn first_start(s: Seq<u8>, i: int) -> int
    decreases s.len() - i,
{
    if i < 0 || i >= s.len() {
        s.len() as int
    } else if s[i] == START_BYTE {
        i
    } else {
        first_start(s, i + 1)
    }
}

/// `first_start(s, j)` lies between `j` and `s.len()`; it lands on a start
/// byte when it is below `s.len()`, and no start byte lies before it.
pub proof fn lemma_first_start(s: Seq<u8>, j: int)
    requires
        0 <= j <= s.len(),
    ensures
        j <= first_start(s, j) <= s.len(),
        first_start(s, j) < s.len() ==> s[first_start(s, j)] == START_BYTE,
        forall|k: int| j <= k < first_start(s, j) ==> s[k] != START_BYTE,
    decreases s.len() - j,
{
    if j < s.len() && s[j] != START_BYTE {
        lemma_first_start(s, j + 1);
    }
}

/// The stuffed form of payload `s`: each start byte becomes the distance to
/// the next start byte to its right, and the rightmost start byte becomes 0;
/// all other bytes are unchanged.
pub open spec fn packed(s: Seq<u8>) -> Seq<u8> {
    Seq::new(
        s.len(),
        |i: int|
            if s[i] == START_BYTE {
                if first_start(s, i + 1) < s.len() {
                    (first_start(s, i + 1) - i) as u8
                } else {
                    0u8
                }
            } else {
                s[i]
            },
    )
}

/// The overhead byte for payload `s`: the index of its leftmost start byte,
/// or 0xFF when it holds none.
pub open spec fn overhead(s: Seq<u8>) -> u8 {
    if first_start(s, 0) < s.len() {
        first_start(s, 0) as u8
    } else {
        COBS_NONE
    }
}

/// Copies `data` and rewrites its start bytes into the stuffed form, handing
/// back the stuffed payload together with the overhead byte.
pub fn pack_payload(data: &[u8]) -> (r: (Vec<u8>, u8))
    requires
        data@.len() <= 254,
    ensures
        r.0@ == packed(data@),
        r.1 == overhead(data@),
{
    let n = data.len();
    let mut buf: Vec<u8> = Vec::new();
    let mut j: usize = 0;
    while j < n
        invariant
            n == data@.len(),
            j <= n,
            buf@ == data@.take(j as int),
        decreases n - j,
    {
        buf.push(data[j]);
        j = j + 1;
        proof {
            assert(buf@ =~= data@.take(j as int));
        }
    }
    proof {
        assert(buf@ =~= data@);
    }
    // Walk right to left; `next` is the index of the nearest start byte to the
    // right of the current position, or `n` when there is none.
    let mut next: usize = n;
    let mut i: usize = n;
    while i > 0
        invariant
            n == data@.len() <= 254,
            i <= n,
            next == first_start(data@, i as int),
            buf@.len() == n,
            forall|k: int| 0 <= k < i ==> buf@[k] == data@[k],
            forall|k: int| i <= k < n ==> buf@[k] == packed(data@)[k],
        decreases i,
    {
        i = i - 1;
        proof {
            lemma_first_start(data@, i as int + 1);
        }
        if buf[i] == START_BYTE {
            if next == n {
                buf[i] = 0;
            } else {
                buf[i] = (next - i) as u8;
            }
            next = i;
        }
    }
    proof {
        assert(buf@ =~= packed(data@));
        lemma_first_start(data@, 0);
    }
    let over: u8 = if next == n {
        COBS_NONE
    } else {
        next as u8
    };
    (buf, over)
}

} // verus!
