//! The laws of the codec: how decoder runs compose, and that decoding
//! inverts encoding — a whole frame, a frame split at any point, and a
//! frame followed by further stream bytes.

use vstd::prelude::*;

use crate::cobs::first_start;
use crate::cobs::lemma_first_start;
use crate::cobs::overhead;
use crate::cobs::packed;
use crate::cobs::COBS_NONE;
use crate::cobs::START_BYTE;
use crate::codec::frame_spec;
use crate::codec::spec_run;
use crate::codec::spec_step;
use crate::codec::unpack;
use crate::codec::unpack_chain;
use crate::codec::DecoderView;
use crate::codec::ParseState;
use crate::codec::STOP_BYTE;
use crate::crc::crc_spec;

verus! {

/// A run consumes between 0 and all of its input, and reports `Continue`
/// only once the input is exhausted.
pub proof fn lemma_run_consumed(s: DecoderView, input: Seq<u8>)
    ensures
        0 <= spec_run(s, input).2 <= input.len(),
        input.len() > 0 ==> spec_run(s, input).2 >= 1,
        spec_run(s, input).1 is Continue ==> spec_run(s, input).2 == input.len(),
    decreases input.len(),
{
    if input.len() > 0 {
        let st = spec_step(s, input[0]);
        if st.1 is Continue {
            lemma_run_consumed(st.0, input.drop_first());
        }
    }
}

/// A run that ends in `Continue` composes: appending more input carries the
/// run on from the state it reached, with the consumed counts adding up.
pub proof fn lemma_run_continue_prefix(s: DecoderView, a: Seq<u8>, b: Seq<u8>)
    requires
        spec_run(s, a).1 is Continue,
    ensures
        ({
            let ra = spec_run(s, a);
            let rb = spec_run(ra.0, b);
            spec_run(s, a + b) == (rb.0, rb.1, a.len() + rb.2)
        }),
    decreases a.len(),
{
    if a.len() == 0 {
        assert(a + b =~= b);
    } else {
        let st = spec_step(s, a[0]);
        assert((a + b)[0] == a[0]);
        assert((a + b).drop_first() =~= a.drop_first() + b);
        lemma_run_continue_prefix(st.0, a.drop_first(), b);
    }
}

/// A run that has already stopped ignores any further input.
pub proof fn lemma_run_stops(s: DecoderView, a: Seq<u8>, b: Seq<u8>)
    requires
        !(spec_run(s, a).1 is Continue),
    ensures
        spec_run(s, a + b) == spec_run(s, a),
    decreases a.len(),
{
    let st = spec_step(s, a[0]);
    assert((a + b)[0] == a[0]);
    assert((a + b).drop_first() =~= a.drop_first() + b);
    if st.1 is Continue {
        lemma_run_stops(st.0, a.drop_first(), b);
    }
}

/// One consumed byte of a run, seen from position `k` of the input.
proof fn lemma_run_skip_step(s: DecoderView, f: Seq<u8>, k: int)
    requires
        0 <= k < f.len(),
        spec_step(s, f[k]).1 is Continue,
    ensures
        ({
            let rr = spec_run(spec_step(s, f[k]).0, f.skip(k + 1));
            spec_run(s, f.skip(k)) == (rr.0, rr.1, 1 + rr.2)
        }),
{
    assert(f.skip(k)[0] == f[k]);
    assert(f.skip(k).drop_first() =~= f.skip(k + 1));
}

/// A payload with no start byte in it is left untouched by the stuffing.
proof fn lemma_packed_no_start(data: Seq<u8>)
    requires
        first_start(data, 0) == data.len(),
    ensures
        packed(data) == data,
{
    lemma_first_start(data, 0);
    assert(packed(data) =~= data);
}

/// Walking the stuffing chain of a stuffed payload succeeds and restores
/// the original payload. `d` holds the stuffed bytes from the cursor on,
/// with everything to the left of the cursor already restored.
#[verifier::rlimit(60)]
proof fn lemma_unpack_chain_restores(data: Seq<u8>, d: Seq<u8>, c: int)
    requires
        1 <= data.len() <= 254,
        d.len() == 254,
        0 <= c < data.len(),
        data[c] == START_BYTE,
        forall|k: int| 0 <= k < c ==> d[k] == data[k],
        forall|k: int| c <= k < data.len() ==> d[k] == packed(data)[k],
    ensures
        ({
            let r = unpack_chain(d, c as u8, data.len() as u8);
            &&& r.2 == true
            &&& r.0.len() == 254
            &&& forall|k: int| 0 <= k < data.len() ==> r.0[k] == data[k]
        }),
    decreases data.len() - c,
{
    let n = data.len() as int;
    let fs = first_start(data, c + 1);
    lemma_first_start(data, c + 1);
    assert(d[c] == packed(data)[c]);
    if fs == n {
        assert(packed(data)[c] == 0);
        let r = unpack_chain(d, c as u8, data.len() as u8);
        assert(r.0 == d.update(c, START_BYTE));
        assert(forall|k: int| 0 <= k < n ==> r.0[k] == data[k]);
    } else {
        let delta = (fs - c) as u8;
        assert(packed(data)[c] == delta);
        assert(delta > 0);
        assert(c + delta == fs < n);
        let d2 = d.update(c, START_BYTE);
        assert(data[fs] == START_BYTE);
        assert(forall|k: int| 0 <= k < fs ==> d2[k] == data[k]);
        assert(forall|k: int| fs <= k < n ==> d2[k] == packed(data)[k]);
        lemma_unpack_chain_restores(data, d2, fs);
        assert(unpack_chain(d, c as u8, data.len() as u8) == unpack_chain(
            d2,
            fs as u8,
            data.len() as u8,
        ));
    }
}

/// Unstuffing a buffer whose first bytes hold the stuffed payload succeeds,
/// under the matching overhead byte, and restores the payload.
pub proof fn lemma_unpack_packed(data: Seq<u8>, d: Seq<u8>)
    requires
        d.len() == 254,
        data.len() <= 254,
        d.take(data.len() as int) == packed(data),
    ensures
        ({
            let r = unpack(d, overhead(data), data.len() as u8);
            &&& r.2 == true
            &&& r.0.len() == 254
            &&& r.0.take(data.len() as int) == data
        }),
{
    let n = data.len() as int;
    let fs = first_start(data, 0);
    lemma_first_start(data, 0);
    assert(forall|k: int| 0 <= k < n ==> d[k] == #[trigger] packed(data)[k]) by {
        assert(forall|k: int| 0 <= k < n ==> d.take(n)[k] == d[k]);
    }
    if fs == n {
        lemma_packed_no_start(data);
        let r = unpack(d, overhead(data), data.len() as u8);
        assert(overhead(data) == COBS_NONE);
        assert(r.0 == d);
        assert(r.0.take(n) =~= data);
    } else {
        assert(overhead(data) == fs as u8);
        assert(!(fs as u8 > 254) && !(fs as u8 >= data.len() as u8));
        assert forall|k: int| 0 <= k < fs implies d[k] == data[k] by {
            assert(data[k] != START_BYTE);
            assert(packed(data)[k] == data[k]);
            assert(d[k] == packed(data)[k]);
        }
        lemma_unpack_chain_restores(data, d, fs);
        let r = unpack(d, overhead(data), data.len() as u8);
        assert(r.0.take(n) =~= data);
    }
}

/// Feeding exactly the missing payload bytes keeps the decoder in
/// `Continue`, writes them into the staging buffer in order, and leaves it
/// expecting the CRC.
proof fn lemma_run_payload_fill(s: DecoderView, bytes: Seq<u8>)
    requires
        s.phase is Payload,
        s.data.len() == 254,
        0 <= s.count,
        s.count + bytes.len() == s.payload_len as int,
        bytes.len() >= 1,
        s.payload_len <= 254,
    ensures
        ({
            let r = spec_run(s, bytes);
            &&& r.1 is Continue
            &&& r.2 == bytes.len()
            &&& r.0.phase is Crc
            &&& r.0.count == s.payload_len as int
            &&& r.0.payload_len == s.payload_len
            &&& r.0.cobs_byte == s.cobs_byte
            &&& r.0.msg_id == s.msg_id
            &&& r.0.data.len() == 254
            &&& forall|k: int|
                0 <= k < 254 ==> r.0.data[k] == (if s.count <= k < s.payload_len as int {
                    bytes[k - s.count]
                } else {
                    s.data[k]
                })
        }),
    decreases bytes.len(),
{
    let st = spec_step(s, bytes[0]);
    if bytes.len() == 1 {
        assert(bytes.drop_first() =~= Seq::<u8>::empty());
        assert(spec_run(st.0, bytes.drop_first()) == (st.0, ParseState::Continue, 0int));
    } else {
        lemma_run_payload_fill(st.0, bytes.drop_first());
    }
}

/// Round trip: from any state that is hunting for a start byte, feeding one
/// whole encoded frame yields `DataReady`, consumes exactly the frame,
/// recovers the payload and the id, and leaves the decoder hunting again.
pub proof fn lemma_frame_ready(s: DecoderView, data: Seq<u8>, id: u8)
    requires
        s.phase is Start,
        data.len() <= 254,
    ensures
        ({
            let r = spec_run(s, frame_spec(data, id));
            &&& r.1 is DataReady
            &&& r.2 == data.len() + 6
            &&& r.0.phase is Start
            &&& r.0.count == data.len()
            &&& r.0.data.take(data.len() as int) == data
            &&& r.0.msg_id == id
            &&& r.0.payload_len == data.len() as u8
        }),
{
    let f = frame_spec(data, id);
    let n = data.len() as int;
    let pk = packed(data);
    let over = overhead(data);
    let crcv = crc_spec(pk);
    let n8 = data.len() as u8;
    assert(f.len() == n + 6);
    assert(f[0] == START_BYTE && f[1] == id && f[2] == over && f[3] == n8);
    assert(f.skip(0) =~= f);
    let s1 = spec_step(s, f[0]).0;
    lemma_run_skip_step(s, f, 0);
    let s2 = spec_step(s1, f[1]).0;
    lemma_run_skip_step(s1, f, 1);
    let s3 = spec_step(s2, f[2]).0;
    lemma_run_skip_step(s2, f, 2);
    let s4 = spec_step(s3, f[3]).0;
    lemma_run_skip_step(s3, f, 3);
    assert(s4.count == 0 && s4.msg_id == id && s4.cobs_byte == over && s4.payload_len == n8);
    assert(s4.data == Seq::new(254, |i: int| 0u8));
    let tail = seq![crcv, STOP_BYTE];
    if n == 0 {
        assert(s4.phase is Crc);
        assert(f[4] == crcv && f[5] == STOP_BYTE);
        assert(s4.data.take(0) =~= Seq::<u8>::empty());
        assert(crc_spec(pk) == 0);
        let s5 = spec_step(s4, f[4]).0;
        lemma_run_skip_step(s4, f, 4);
        assert(s5.phase is End);
        assert(overhead(data) == COBS_NONE) by {
            lemma_first_start(data, 0);
        }
        let r6 = spec_step(s5, f[5]);
        assert(r6.1 is DataReady);
        assert(f.skip(5) =~= seq![STOP_BYTE]);
        assert(f.skip(5)[0] == f[5]);
        assert(spec_run(s5, f.skip(5)) == (r6.0, r6.1, 1int));
        assert(r6.0.data.take(0) =~= data);
    } else {
        assert(s4.phase is Payload);
        assert(f.skip(4) =~= pk + tail);
        lemma_run_payload_fill(s4, pk);
        let s5 = spec_run(s4, pk).0;
        lemma_run_continue_prefix(s4, pk, tail);
        assert(s5.data.take(n) =~= pk);
        assert(crc_spec(s5.data.take(s5.count)) == crcv);
        let s6 = spec_step(s5, crcv).0;
        assert(s6.phase is End);
        assert(tail[0] == crcv && tail[1] == STOP_BYTE);
        lemma_run_skip_step(s5, tail, 0);
        lemma_unpack_packed(data, s6.data);
        let r7 = spec_step(s6, STOP_BYTE);
        assert(r7.1 is DataReady);
        assert(tail.skip(1) =~= seq![STOP_BYTE]);
        assert(tail.skip(1)[0] == STOP_BYTE);
        assert(spec_run(s6, tail.skip(1)) == (r7.0, r7.1, 1int));
        assert(spec_run(s5, tail) == (r7.0, r7.1, 2int));
        assert(spec_run(s4, f.skip(4)) == (r7.0, r7.1, n + 2));
        assert(r7.0.count == n);
        assert(r7.0.data.take(n) == data);
    }
}

/// Resumability: splitting an encoded frame at any point before its last
/// byte, the first part parses to `Continue` consuming everything, and the
/// second part then parses to `DataReady` with the original payload and id.
pub proof fn lemma_resume(s: DecoderView, data: Seq<u8>, id: u8, k: int)
    requires
        s.phase is Start,
        data.len() <= 254,
        0 <= k < data.len() + 6,
    ensures
        ({
            let f = frame_spec(data, id);
            let r1 = spec_run(s, f.take(k));
            let r2 = spec_run(r1.0, f.skip(k));
            &&& r1.1 is Continue
            &&& r1.2 == k
            &&& r2.1 is DataReady
            &&& r2.2 == f.len() - k
            &&& r2.0.count == data.len()
            &&& r2.0.data.take(data.len() as int) == data
            &&& r2.0.msg_id == id
        }),
{
    let f = frame_spec(data, id);
    lemma_frame_ready(s, data, id);
    let r1 = spec_run(s, f.take(k));
    assert(f.take(k) + f.skip(k) =~= f);
    lemma_run_consumed(s, f.take(k));
    if !(r1.1 is Continue) {
        lemma_run_stops(s, f.take(k), f.skip(k));
        assert(spec_run(s, f).2 <= k);
        assert(false);
    }
    lemma_run_continue_prefix(s, f.take(k), f.skip(k));
}

/// Stream framing: from any state hunting for a start byte, an encoded
/// frame followed by arbitrary further stream bytes parses to `DataReady`,
/// consumes exactly the frame, hands back its payload and id, and leaves
/// the decoder hunting for the next frame with exactly the further bytes
/// still to read. Peeling frames one by one with this law, a concatenation
/// of frames yields one `DataReady` per frame, in order.
pub proof fn lemma_stream_frame(s: DecoderView, data: Seq<u8>, id: u8, rest: Seq<u8>)
    requires
        s.phase is Start,
        data.len() <= 254,
    ensures
        ({
            let f = frame_spec(data, id);
            let r = spec_run(s, f + rest);
            &&& r.1 is DataReady
            &&& r.2 == data.len() + 6
            &&& r.0.phase is Start
            &&& r.0.count == data.len()
            &&& r.0.data.take(data.len() as int) == data
            &&& r.0.msg_id == id
            &&& (f + rest).skip(r.2) == rest
        }),
{
    let f = frame_spec(data, id);
    lemma_frame_ready(s, data, id);
    lemma_run_stops(s, f, rest);
    assert((f + rest).skip(f.len() as int) =~= rest);
}

/// The bytes of a sequence of messages — payload and id pairs — each
/// encoded as a frame, laid out back to back.
pub open spec fn concat_frames(msgs: Seq<(Seq<u8>, u8)>) -> Seq<u8>
    decreases msgs.len(),
{
    if msgs.len() == 0 {
        Seq::empty()
    } else {
        frame_spec(msgs[0].0, msgs[0].1) + concat_frames(msgs.drop_first())
    }
}

/// The messages a decoder delivers from `input` when driven as intended:
/// parse, and as long as the status is `DataReady`, record the payload and
/// the id and resume with the unconsumed suffix.
pub open spec fn decoded_msgs(s: DecoderView, input: Seq<u8>) -> Seq<(Seq<u8>, u8)>
    decreases input.len(),
    via decoded_msgs_dec
{
    let r = spec_run(s, input);
    if r.1 is DataReady {
        seq![(r.0.data.take(r.0.count), r.0.msg_id)] + decoded_msgs(r.0, input.skip(r.2))
    } else {
        seq![]
    }
}

#[via_fn]
proof fn decoded_msgs_dec(s: DecoderView, input: Seq<u8>) {
    lemma_run_consumed(s, input);
}

/// Stream framing: from any state hunting for a start byte, the
/// concatenation of any number of encoded frames decodes to exactly those
/// messages, in order.
pub proof fn lemma_stream(s: DecoderView, msgs: Seq<(Seq<u8>, u8)>)
    requires
        s.phase is Start,
        forall|j: int| 0 <= j < msgs.len() ==> (#[trigger] msgs[j]).0.len() <= 254,
    ensures
        decoded_msgs(s, concat_frames(msgs)) == msgs,
    decreases msgs.len(),
{
    if msgs.len() == 0 {
        assert(spec_run(s, concat_frames(msgs)).1 is Continue);
    } else {
        let data = msgs[0].0;
        let id = msgs[0].1;
        let rest = concat_frames(msgs.drop_first());
        lemma_stream_frame(s, data, id, rest);
        let r = spec_run(s, concat_frames(msgs));
        assert((r.0.data.take(r.0.count), r.0.msg_id) == msgs[0]);
        lemma_stream(r.0, msgs.drop_first());
        assert(decoded_msgs(s, concat_frames(msgs)) =~= msgs);
    }
}

} // verus!
