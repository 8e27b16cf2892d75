//! The frame encoder and the byte-wise stream decoder.
//!
//! A frame is: start byte, id, overhead byte, payload length, the stuffed
//! payload, a CRC-8 over the stuffed payload, and a stop byte. The decoder
//! is a state machine fed one byte at a time; its whole behaviour is given
//! by the spec transition function [`spec_step`].

use vstd::prelude::*;
use vstd::slice::slice_subrange;

use crate::cobs;
use crate::cobs::START_BYTE;
use crate::crc;

verus! {

/// The constant byte that closes every frame.
pub const STOP_BYTE: u8 = 129;

/// Largest payload length a frame can carry.
pub const MAX_PAYLOAD: u8 = 254;

/// Outcome of feeding bytes to the decoder.
#[derive(Debug, PartialEq, Eq, Structural)]
pub enum ParseState {
    /// The bytes were handled, but no complete message is ready yet.
    Continue,
    /// A complete message was parsed and its payload is ready.
    DataReady,
    /// The received CRC does not match the received payload.
    CrcError,
    /// The length field exceeded the maximum of 254.
    HighPayloadError,
    /// The byte after a valid CRC was not the stop byte.
    StopByteError,
    /// The stop byte was right but the stuffing chain overran the payload.
    COBSError,
}

/// Which frame byte the decoder expects next.
pub enum FindByte {
    Start,
    Id,
    Overhead,
    PayloadLen,
    Payload,
    Crc,
    End,
}

/// Mathematical model of the decoder: the phase, the header fields as
/// received, the 254-byte staging buffer and the number of payload bytes
/// written to it.
#[verifier::ext_equal]
pub ghost struct DecoderView {
    pub phase: FindByte,
    pub payload_len: u8,
    pub cobs_byte: u8,
    pub msg_id: u8,
    pub data: Seq<u8>,
    pub count: int,
}

/// Stream decoder: holds the partial frame between calls.
pub struct SerMsg {
    msg_state: FindByte,
    payload_len: u8,
    cobs_byte: u8,
    rcvd_id: u8,
    rcvd_data: [u8; 254],
    rcvd_ind: usize,
}

/// Result of unstuffing the staging buffer in place: the buffer and cursor
/// after the walk, and whether the chain stayed inside the payload.
/// The walk starts at `cobs`; a value above 254 means no stuffing was done.
/// Each visited byte is the distance to the next byte to restore; a zero
/// ends the walk. A link that would land at or past `plen` is a failure.
pub open spec fn unpack_chain(data: Seq<u8>, cursor: u8, plen: u8) -> (Seq<u8>, u8, bool)
    recommends
        cursor < plen <= 254,
        data.len() == 254,
    decreases plen - cursor,
{
    let delta = data[cursor as int];
    if delta == 0 {
        (data.update(cursor as int, START_BYTE), cursor, true)
    } else if cursor + delta >= plen {
        (data, cursor, false)
    } else {
        unpack_chain(data.update(cursor as int, START_BYTE), (cursor + delta) as u8, plen)
    }
}

/// Unstuffing of the whole staging buffer, as the decoder performs it when a
/// frame ends: nothing to do above 254, an overhead byte pointing at or past
/// the payload is a failure, anything else walks the chain.
pub open spec fn unpack(data: Seq<u8>, cobs: u8, plen: u8) -> (Seq<u8>, u8, bool) {
    if cobs > MAX_PAYLOAD {
        (data, cobs, true)
    } else if cobs >= plen {
        (data, cobs, false)
    } else {
        unpack_chain(data, cobs, plen)
    }
}

/// One transition of the decoder: from state `s`, absorbing the byte `val`,
/// to the next state and the reported status.
pub open spec fn spec_step(s: DecoderView, val: u8) -> (DecoderView, ParseState) {
    match s.phase {
        FindByte::Start => {
            if val == START_BYTE {
                (
                    DecoderView {
                        phase: FindByte::Id,
                        data: Seq::new(254, |i: int| 0u8),
                        count: 0,
                        ..s
                    },
                    ParseState::Continue,
                )
            } else {
                (s, ParseState::Continue)
            }
        },
        FindByte::Id => (
            DecoderView { phase: FindByte::Overhead, msg_id: val, ..s },
            ParseState::Continue,
        ),
        FindByte::Overhead => (
            DecoderView { phase: FindByte::PayloadLen, cobs_byte: val, ..s },
            ParseState::Continue,
        ),
        FindByte::PayloadLen => {
            let s2 = DecoderView { payload_len: val, ..s };
            if val > MAX_PAYLOAD {
                (DecoderView { phase: FindByte::Start, ..s2 }, ParseState::HighPayloadError)
            } else if val == 0 {
                (DecoderView { phase: FindByte::Crc, ..s2 }, ParseState::Continue)
            } else {
                (DecoderView { phase: FindByte::Payload, ..s2 }, ParseState::Continue)
            }
        },
        FindByte::Payload => {
            let s2 = DecoderView { data: s.data.update(s.count, val), count: s.count + 1, ..s };
            if s.payload_len as int == s.count + 1 {
                (DecoderView { phase: FindByte::Crc, ..s2 }, ParseState::Continue)
            } else {
                (s2, ParseState::Continue)
            }
        },
        FindByte::Crc => {
            if val == crc::crc_spec(s.data.take(s.count)) {
                (DecoderView { phase: FindByte::End, ..s }, ParseState::Continue)
            } else {
                (DecoderView { phase: FindByte::Start, ..s }, ParseState::CrcError)
            }
        },
        FindByte::End => {
            let s2 = DecoderView { phase: FindByte::Start, ..s };
            if val == STOP_BYTE {
                let r = unpack(s.data, s.cobs_byte, s.payload_len);
                let s3 = DecoderView { data: r.0, cobs_byte: r.1, ..s2 };
                if r.2 {
                    (s3, ParseState::DataReady)
                } else {
                    (s3, ParseState::COBSError)
                }
            } else {
                (s2, ParseState::StopByteError)
            }
        },
    }
}

/// The decoder's run over a whole input: steps byte by byte and stops at the
/// first status other than `Continue`. Yields the final state, the status,
/// and how many input bytes were consumed.
pub open spec fn spec_run(s: DecoderView, input: Seq<u8>) -> (DecoderView, ParseState, int)
    decreases input.len(),
{
    if input.len() == 0 {
        (s, ParseState::Continue, 0)
    } else {
        let r = spec_step(s, input[0]);
        if r.1 is Continue {
            let rr = spec_run(r.0, input.drop_first());
            (rr.0, rr.1, 1 + rr.2)
        } else {
            (r.0, r.1, 1)
        }
    }
}

/// The state of a freshly created decoder.
pub open spec fn init_view() -> DecoderView {
    DecoderView {
        phase: FindByte::Start,
        payload_len: 0,
        cobs_byte: 0,
        msg_id: 0,
        data: Seq::new(254, |i: int| 0u8),
        count: 0,
    }
}

/// The bytes of the frame that carries payload `data` under id `id`: start
/// byte, id, overhead byte, payload length, the stuffed payload, the CRC-8
/// of the stuffed payload, and the stop byte.
pub open spec fn frame_spec(data: Seq<u8>, id: u8) -> Seq<u8> {
    seq![START_BYTE, id, cobs::overhead(data), data.len() as u8] + cobs::packed(data) + seq![
        crc::crc_spec(cobs::packed(data)),
        STOP_BYTE,
    ]
}

impl View for SerMsg {
    type V = DecoderView;

    closed spec fn view(&self) -> DecoderView {
        DecoderView {
            phase: self.msg_state,
            payload_len: self.payload_len,
            cobs_byte: self.cobs_byte,
            msg_id: self.rcvd_id,
            data: self.rcvd_data@,
            count: self.rcvd_ind as int,
        }
    }
}

impl SerMsg {
    #[verifier::type_invariant]
    spec fn inv(self) -> bool {
        &&& self.rcvd_ind <= 254
        &&& (self.msg_state is Id || self.msg_state is Overhead || self.msg_state is PayloadLen
            ==> self.rcvd_ind == 0)
        &&& (self.msg_state is Payload ==> self.payload_len <= 254 && self.rcvd_ind < (
        self.payload_len as usize))
        &&& (self.msg_state is Crc || self.msg_state is End ==> self.payload_len <= 254)
    }

    /// Returns a fresh decoder, hunting for a start byte.
    pub fn new() -> (r: SerMsg)
        ensures
            r@ == init_view(),
    {
        let r = SerMsg {
            msg_state: FindByte::Start,
            payload_len: 0,
            cobs_byte: 0,
            rcvd_id: 0,
            rcvd_data: [0u8; 254],
            rcvd_ind: 0,
        };
        proof {
            assert(r@.data =~= init_view().data);
            assert(r@ =~= init_view());
        }
        r
    }

    /// The payload of the last parsed message; meaningful only right after a
    /// parse reported `DataReady`.
    pub fn return_read_data(&self) -> (r: &[u8])
        ensures
            r@ == self@.data.take(self@.count),
    {
        proof {
            use_type_invariant(&*self);
        }
        slice_subrange(self.rcvd_data.as_slice(), 0, self.rcvd_ind)
    }

    /// The id of the last parsed message; meaningful only right after a
    /// parse reported `DataReady`.
    pub fn return_msg_id(&self) -> (r: u8)
        ensures
            r == self@.msg_id,
    {
        self.rcvd_id
    }

    /// Parses the bytes of `arr` in order. Stops early at the first status
    /// other than `Continue`; reports that status and how many bytes of
    /// `arr` were consumed, so the caller can resume with the rest.
    pub fn parse_read_bytes(&mut self, arr: &[u8]) -> (r: (ParseState, usize))
        ensures
            final(self)@ == spec_run(old(self)@, arr@).0,
            r.0 == spec_run(old(self)@, arr@).1,
            r.1 as int == spec_run(old(self)@, arr@).2,
    {
        let ghost full = spec_run(old(self)@, arr@);
        proof {
            assert(arr@.skip(0) =~= arr@);
        }
        let mut i: usize = 0;
        while i < arr.len()
            invariant
                i <= arr@.len(),
                full == spec_run(old(self)@, arr@),
                ({
                    let part = spec_run(self@, arr@.skip(i as int));
                    full.0 == part.0 && full.1 == part.1 && full.2 == part.2 + i
                }),
            decreases arr@.len() - i,
        {
            let st = self.parse_byte(arr[i]);
            proof {
                assert(arr@.skip(i as int)[0] == arr@[i as int]);
                assert(arr@.skip(i as int).drop_first() =~= arr@.skip(i as int + 1));
            }
            match st {
                ParseState::Continue => (),
                _ => {
                    return (st, i + 1);
                },
            }
            i = i + 1;
        }
        proof {
            assert(arr@.skip(arr@.len() as int) =~= Seq::<u8>::empty());
        }
        (ParseState::Continue, arr.len())
    }

    /// One byte of the state machine; the exact transition is `spec_step`.
    fn parse_byte(&mut self, val: u8) -> (st: ParseState)
        ensures
            final(self)@ == spec_step(old(self)@, val).0,
            st == spec_step(old(self)@, val).1,
    {
        proof {
            use_type_invariant(&*self);
        }
        match self.msg_state {
            FindByte::Start => {
                if val == START_BYTE {
                    self.rcvd_data = [0u8; 254];
                    self.rcvd_ind = 0;
                    self.msg_state = FindByte::Id;
                    proof {
                        assert(self@.data =~= spec_step(old(self)@, val).0.data);
                        assert(self@ =~= spec_step(old(self)@, val).0);
                    }
                }
                ParseState::Continue
            },
            FindByte::Id => {
                self.rcvd_id = val;
                self.msg_state = FindByte::Overhead;
                ParseState::Continue
            },
            FindByte::Overhead => {
                self.cobs_byte = val;
                self.msg_state = FindByte::PayloadLen;
                ParseState::Continue
            },
            FindByte::PayloadLen => {
                self.payload_len = val;
                if val > MAX_PAYLOAD {
                    self.msg_state = FindByte::Start;
                    ParseState::HighPayloadError
                } else if val == 0 {
                    self.msg_state = FindByte::Crc;
                    ParseState::Continue
                } else {
                    self.msg_state = FindByte::Payload;
                    ParseState::Continue
                }
            },
            FindByte::Payload => {
                let ind = self.rcvd_ind;
                self.rcvd_data[ind] = val;
                if self.payload_len as usize == ind + 1 {
                    self.msg_state = FindByte::Crc;
                    self.rcvd_ind = ind + 1;
                } else {
                    self.rcvd_ind = ind + 1;
                }
                ParseState::Continue
            },
            FindByte::Crc => {
                let calc = crc::crc_of_slice(
                    slice_subrange(self.rcvd_data.as_slice(), 0, self.rcvd_ind),
                );
                if val == calc {
                    self.msg_state = FindByte::End;
                    ParseState::Continue
                } else {
                    self.msg_state = FindByte::Start;
                    ParseState::CrcError
                }
            },
            FindByte::End => {
                self.msg_state = FindByte::Start;
                if val == STOP_BYTE {
                    if self.unpack_cobs() {
                        ParseState::DataReady
                    } else {
                        ParseState::COBSError
                    }
                } else {
                    ParseState::StopByteError
                }
            },
        }
    }

    /// Rewrites the staging buffer in place along the stuffing chain; the
    /// exact effect is `unpack`.
    fn unpack_cobs(&mut self) -> (ok: bool)
        requires
            old(self).payload_len <= 254,
        ensures
            ({
                let r = unpack(old(self)@.data, old(self)@.cobs_byte, old(self)@.payload_len);
                &&& final(self)@.data == r.0
                &&& final(self)@.cobs_byte == r.1
                &&& ok == r.2
                &&& final(self)@.phase == old(self)@.phase
                &&& final(self)@.payload_len == old(self)@.payload_len
                &&& final(self)@.msg_id == old(self)@.msg_id
                &&& final(self)@.count == old(self)@.count
            }),
    {
        proof {
            use_type_invariant(&*self);
        }
        let plen = self.payload_len;
        if self.cobs_byte > MAX_PAYLOAD {
            return true;
        }
        if self.cobs_byte as usize >= plen as usize {
            return false;
        }
        let ghost d0 = self@.data;
        let ghost c0 = self.cobs_byte;
        while self.rcvd_data[self.cobs_byte as usize] > 0
            invariant
                self.inv(),
                self.payload_len == plen,
                plen <= 254,
                self.cobs_byte < plen,
                self.msg_state == old(self).msg_state,
                self.rcvd_id == old(self).rcvd_id,
                self.rcvd_ind == old(self).rcvd_ind,
                old(self).payload_len == plen,
                old(self).cobs_byte == c0,
                old(self)@.data == d0,
                c0 <= MAX_PAYLOAD,
                c0 < plen,
                unpack_chain(self@.data, self.cobs_byte, plen) == unpack_chain(d0, c0, plen),
            decreases plen - self.cobs_byte,
        {
            let delta = self.rcvd_data[self.cobs_byte as usize];
            if delta as usize + self.cobs_byte as usize >= plen as usize {
                proof {
                    assert(unpack_chain(self@.data, self.cobs_byte, plen) == (
                    self@.data,
                    self.cobs_byte,
                    false,
                    ));
                }
                return false;
            }
            self.rcvd_data[self.cobs_byte as usize] = START_BYTE;
            self.cobs_byte = self.cobs_byte + delta;
        }
        proof {
            assert(unpack_chain(self@.data, self.cobs_byte, plen) == (
            self@.data.update(self.cobs_byte as int, START_BYTE),
            self.cobs_byte,
            true,
            ));
        }
        self.rcvd_data[self.cobs_byte as usize] = START_BYTE;
        true
    }

    /// Packs `data` into a frame held in a vector, or nothing when `data` is
    /// longer than 254 bytes.
    pub fn create_msg_vec(data: &[u8], id: u8) -> (r: Option<Vec<u8>>)
        ensures
            r is None <==> data@.len() > 254,
            r matches Some(v) ==> v@ == frame_spec(data@, id),
    {
        if data.len() > MAX_PAYLOAD as usize {
            return None;
        }
        Some(Self::build_frame(data, id))
    }

    /// Packs `data` into a frame written at the front of a fixed array of
    /// the largest frame size, or nothing when `data` is longer than 254
    /// bytes. The rest of the array stays zero; the returned count says how
    /// many leading bytes the frame takes.
    pub fn create_msg_arr(data: &[u8], id: u8) -> (r: Option<([u8; 260], usize)>)
        ensures
            r is None <==> data@.len() > 254,
            r matches Some(p) ==> {
                &&& p.1 == data@.len() + 6
                &&& p.0@.subrange(0, p.1 as int) == frame_spec(data@, id)
                &&& forall|k: int| p.1 <= k < 260 ==> p.0@[k] == 0
            },
    {
        if data.len() > MAX_PAYLOAD as usize {
            return None;
        }
        let v = Self::build_frame(data, id);
        let mut msg: [u8; 260] = [0u8; 260];
        let n = v.len();
        let mut i: usize = 0;
        while i < n
            invariant
                n == v@.len() <= 260,
                i <= n,
                msg@.len() == 260,
                forall|k: int| 0 <= k < i ==> msg@[k] == v@[k],
                forall|k: int| i <= k < 260 ==> msg@[k] == 0,
            decreases n - i,
        {
            msg[i] = v[i];
            i = i + 1;
        }
        proof {
            assert(msg@.subrange(0, n as int) =~= v@);
        }
        Some((msg, data.len() + 6))
    }

    /// Builds the frame bytes for a payload that fits.
    fn build_frame(data: &[u8], id: u8) -> (v: Vec<u8>)
        requires
            data@.len() <= 254,
        ensures
            v@ == frame_spec(data@, id),
    {
        let (packed_buf, over) = cobs::pack_payload(data);
        let crc_val = crc::crc_of_slice(packed_buf.as_slice());
        let mut v: Vec<u8> = Vec::new();
        v.push(START_BYTE);
        v.push(id);
        v.push(over);
        v.push(data.len() as u8);
        let n = packed_buf.len();
        let mut i: usize = 0;
        while i < n
            invariant
                n == packed_buf@.len(),
                i <= n,
                v@ == seq![START_BYTE, id, over, n as u8] + packed_buf@.take(i as int),
            decreases n - i,
        {
            v.push(packed_buf[i]);
            i = i + 1;
            proof {
                assert(v@ =~= seq![START_BYTE, id, over, n as u8] + packed_buf@.take(i as int));
            }
        }
        v.push(crc_val);
        v.push(STOP_BYTE);
        proof {
            assert(packed_buf@.take(n as int) =~= packed_buf@);
            assert(v@ =~= frame_spec(data@, id));
        }
        v
    }
}

impl Default for SerMsg {
    /// Same as [`SerMsg::new`].
    fn default() -> (r: Self)
        ensures
            r@ == init_view(),
    {
        SerMsg::new()
    }
}

} // verus!
