//! Engine.IO layer: packet text framing (one type digit plus data), polling
//! frame bodies (binary data travels as `b` + base64 inside a text batch),
//! and long-poll batches (frames joined by the record separator `0x1E`).
//!
//! The batch law proved here backs the per-socket ordering guarantee: the
//! n-th frame put into a batch is the n-th frame read back out of it.
use vstd::prelude::*;

use crate::Error;
use crate::b64::{b64_of, b64_encode, b64_decode, is_b64_byte};
use crate::util::{is_digit, free_of, join_with, split_on, lemma_join_with_push,
    lemma_split_join_on, split_on_exec, copy_range};

verus! {

/// Record separator between frames of one long-poll batch.
pub const RECORD_SEPARATOR: u8 = 0x1e;

/// Prefix marking a base64-encoded binary frame inside a text batch.
pub const BINARY_PREFIX: u8 = 0x62;

#[derive(Clone, Copy, Debug, PartialEq, Eq, Structural)]
pub enum EnginePacketType {
    Open,
    Close,
    Ping,
    Pong,
    Message,
    Upgrade,
    Noop,
}

/// The single decimal digit that carries the packet type on the wire.
pub open spec fn engine_digit(t: EnginePacketType) -> u8 {
    match t {
        EnginePacketType::Open => 0x30,
        EnginePacketType::Close => 0x31,
        EnginePacketType::Ping => 0x32,
        EnginePacketType::Pong => 0x33,
        EnginePacketType::Message => 0x34,
        EnginePacketType::Upgrade => 0x35,
        EnginePacketType::Noop => 0x36,
    }
}

pub open spec fn engine_type_of_digit(c: u8) -> Option<EnginePacketType> {
    if c == 0x30 {
        Some(EnginePacketType::Open)
    } else if c == 0x31 {
        Some(EnginePacketType::Close)
    } else if c == 0x32 {
        Some(EnginePacketType::Ping)
    } else if c == 0x33 {
        Some(EnginePacketType::Pong)
    } else if c == 0x34 {
        Some(EnginePacketType::Message)
    } else if c == 0x35 {
        Some(EnginePacketType::Upgrade)
    } else if c == 0x36 {
        Some(EnginePacketType::Noop)
    } else {
        None
    }
}

/// One Engine.IO packet: a type and optional UTF-8 data (empty when absent).
#[derive(Debug, Clone, PartialEq, Eq)]
pub struct EnginePacket {
    pub ptype: EnginePacketType,
    pub data: Vec<u8>,
}

/// Mathematical model of an Engine.IO packet.
pub struct EnginePacketModel {
    pub ptype: EnginePacketType,
    pub data: Seq<u8>,
}

impl View for EnginePacket {
    type V = EnginePacketModel;

    open spec fn view(&self) -> EnginePacketModel {
        EnginePacketModel { ptype: self.ptype, data: self.data@ }
    }
}

/// Text encoding of one Engine.IO packet: the type digit, then the data.
pub open spec fn spec_engine_encode(m: EnginePacketModel) -> Seq<u8> {
    seq![engine_digit(m.ptype)] + m.data
}

pub open spec fn spec_engine_decode(s: Seq<u8>) -> Option<EnginePacketModel> {
    if s.len() == 0 {
        None
    } else {
        match engine_type_of_digit(s[0]) {
            Some(t) => Some(EnginePacketModel { ptype: t, data: s.drop_first() }),
            None => None,
        }
    }
}

/// Decoding inverts encoding on every Engine.IO packet.
pub proof fn lemma_engine_round_trip(m: EnginePacketModel)
    ensures
        spec_engine_decode(spec_engine_encode(m)) == Some(m),
{
    let s = spec_engine_encode(m);
    assert(s[0] == engine_digit(m.ptype));
    assert(engine_type_of_digit(engine_digit(m.ptype)) == Some(m.ptype));
    assert(s.drop_first() =~= m.data);
}

impl EnginePacket {
    pub fn encode(&self) -> (r: Vec<u8>)
        ensures
            r@ == spec_engine_encode(self@),
    {
        let mut r: Vec<u8> = Vec::new();
        let d: u8 = match self.ptype {
            EnginePacketType::Open => 0x30,
            EnginePacketType::Close => 0x31,
            EnginePacketType::Ping => 0x32,
            EnginePacketType::Pong => 0x33,
            EnginePacketType::Message => 0x34,
            EnginePacketType::Upgrade => 0x35,
            EnginePacketType::Noop => 0x36,
        };
        r.push(d);
        let mut i: usize = 0;
        while i < self.data.len()
            invariant
                0 <= i <= self.data@.len(),
                r@ == seq![engine_digit(self.ptype)] + self.data@.subrange(0, i as int),
            decreases self.data@.len() - i,
        {
            r.push(self.data[i]);
            proof {
                assert(self.data@.subrange(0, i + 1) =~= self.data@.subrange(0, i as int).push(
                    self.data@[i as int],
                ));
                assert(r@ =~= seq![engine_digit(self.ptype)] + self.data@.subrange(0, i + 1));
            }
            i = i + 1;
        }
        proof {
            assert(self.data@.subrange(0, self.data@.len() as int) =~= self.data@);
        }
        r
    }

    pub fn decode(s: &Vec<u8>) -> (r: Result<EnginePacket, Error>)
        ensures
            match r {
                Ok(p) => spec_engine_decode(s@) == Some(p@),
                Err(e) => spec_engine_decode(s@) is None && e == Error::InvalidPacket,
            },
    {
        if s.len() == 0 {
            return Err(Error::InvalidPacket);
        }
        let c = s[0];
        let t = if c == 0x30 {
            EnginePacketType::Open
        } else if c == 0x31 {
            EnginePacketType::Close
        } else if c == 0x32 {
            EnginePacketType::Ping
        } else if c == 0x33 {
            EnginePacketType::Pong
        } else if c == 0x34 {
            EnginePacketType::Message
        } else if c == 0x35 {
            EnginePacketType::Upgrade
        } else if c == 0x36 {
            EnginePacketType::Noop
        } else {
            return Err(Error::InvalidPacket);
        };
        let data = copy_range(s, 1, s.len());
        proof {
            assert(s@.subrange(1, s@.len() as int) =~= s@.drop_first());
        }
        Ok(EnginePacket { ptype: t, data })
    }
}

/// One frame of the polling transport: either already-text Engine.IO bytes or
/// a raw binary blob.
#[derive(Debug, Clone, PartialEq, Eq)]
pub enum Payload {
    Text(Vec<u8>),
    Binary(Vec<u8>),
}

pub enum PayloadModel {
    Text(Seq<u8>),
    Binary(Seq<u8>),
}

impl View for Payload {
    type V = PayloadModel;

    open spec fn view(&self) -> PayloadModel {
        match self {
            Payload::Text(d) => PayloadModel::Text(d@),
            Payload::Binary(d) => PayloadModel::Binary(d@),
        }
    }
}

pub open spec fn sep_free(s: Seq<u8>) -> bool {
    free_of(s, RECORD_SEPARATOR)
}

/// A frame that may enter a text batch: text frames carry one encoded
/// Engine.IO packet (so they start with a type digit) and stay clear of the
/// record separator; binary frames may hold any bytes.
pub open spec fn frame_wf(p: PayloadModel) -> bool {
    match p {
        PayloadModel::Text(d) => d.len() >= 1 && is_digit(d[0]) && sep_free(d),
        PayloadModel::Binary(_) => true,
    }
}

/// Body of one frame on the polling wire: text passes through, binary gets
/// the `b` prefix and base64.
pub open spec fn spec_frame_encode(p: PayloadModel) -> Seq<u8> {
    match p {
        PayloadModel::Text(d) => d,
        PayloadModel::Binary(d) => seq![BINARY_PREFIX] + b64_of(d),
    }
}

/// What decoding one frame body yields, stated as a relation: the decoder
/// maps every valid frame encoding back to the frame it encodes.
pub open spec fn frame_decode_rel(s: Seq<u8>, p: PayloadModel) -> bool {
    &&& forall|d: Seq<u8>| s == seq![BINARY_PREFIX] + #[trigger] b64_of(d) ==> p
        == PayloadModel::Binary(d)
    &&& (s.len() > 0 && s[0] != BINARY_PREFIX ==> p == PayloadModel::Text(s))
}

/// When frame decoding fails: the empty frame, or a `b`-prefixed frame whose
/// remainder is no base64 output.
pub open spec fn frame_decode_err(s: Seq<u8>) -> bool {
    s.len() == 0 || (s[0] == BINARY_PREFIX && forall|d: Seq<u8>|
        s != seq![BINARY_PREFIX] + #[trigger] b64_of(d))
}

/// Frames one payload for the polling wire. This is the body computation of
/// the polling transports' `emit`.
pub fn encode_frame(p: &Payload) -> (r: Vec<u8>)
    ensures
        r@ == spec_frame_encode(p@),
        frame_wf(p@) ==> sep_free(r@),
        frame_wf(p@) ==> r@.len() >= 1,
{
    match p {
        Payload::Text(d) => {
            let r = copy_range(d, 0, d.len());
            proof {
                assert(d@.subrange(0, d@.len() as int) =~= d@);
            }
            r
        },
        Payload::Binary(d) => {
            let mut r: Vec<u8> = Vec::new();
            r.push(BINARY_PREFIX);
            let mut enc = b64_encode(d);
            proof {
                assert(forall|i: int| 0 <= i < enc@.len() ==> is_b64_byte(#[trigger] enc@[i]));
            }
            r.append(&mut enc);
            proof {
                assert(r@ =~= seq![BINARY_PREFIX] + b64_of(d@));
                assert forall|i: int| 0 <= i < r@.len() implies #[trigger] r@[i]
                    != RECORD_SEPARATOR by {
                    if i > 0 {
                        assert(is_b64_byte(b64_of(d@)[i - 1]));
                    }
                }
            }
            r
        },
    }
}

/// Reads one frame body back from the polling wire.
pub fn decode_frame(s: &Vec<u8>) -> (r: Result<Payload, Error>)
    ensures
        match r {
            Ok(p) => frame_decode_rel(s@, p@),
            Err(e) => frame_decode_err(s@) && e == Error::InvalidPacket,
        },
{
    if s.len() == 0 {
        return Err(Error::InvalidPacket);
    }
    if s[0] == BINARY_PREFIX {
        let rest = copy_range(s, 1, s.len());
        match b64_decode(&rest) {
            Some(v) => {
                proof {
                    assert forall|d: Seq<u8>| s@ == seq![BINARY_PREFIX] + #[trigger] b64_of(d)
                        implies PayloadModel::Binary(v@) == PayloadModel::Binary(d) by {
                        assert(rest@ =~= b64_of(d));
                    }
                }
                Ok(Payload::Binary(v))
            },
            None => {
                proof {
                    assert forall|d: Seq<u8>| s@ != seq![BINARY_PREFIX] + #[trigger] b64_of(
                        d,
                    ) by {
                        if s@ == seq![BINARY_PREFIX] + b64_of(d) {
                            assert(rest@ =~= b64_of(d));
                        }
                    }
                }
                Err(Error::InvalidPacket)
            },
        }
    } else {
        proof {
            assert forall|d: Seq<u8>| s@ == seq![BINARY_PREFIX] + #[trigger] b64_of(d)
                implies PayloadModel::Text(s@) == PayloadModel::Binary(d) by {
                assert(s@[0] == BINARY_PREFIX);
            }
        }
        Ok(Payload::Text(copy_range_full(s)))
    }
}

fn copy_range_full(s: &Vec<u8>) -> (r: Vec<u8>)
    ensures
        r@ == s@,
{
    let r = copy_range(s, 0, s.len());
    proof {
        assert(s@.subrange(0, s@.len() as int) =~= s@);
    }
    r
}

/// Concatenation of frame bodies with the record separator between them.
pub open spec fn spec_join(frames: Seq<Seq<u8>>) -> Seq<u8> {
    join_with(frames, RECORD_SEPARATOR)
}

/// Splitting a batch at each record separator.
pub open spec fn spec_split(s: Seq<u8>) -> Seq<Seq<u8>> {
    split_on(s, RECORD_SEPARATOR)
}

/// The whole wire body of one batch of frames.
pub open spec fn spec_encode_batch(ps: Seq<PayloadModel>) -> Seq<u8> {
    spec_join(ps.map_values(|p: PayloadModel| spec_frame_encode(p)))
}

pub proof fn lemma_join_push(a: Seq<Seq<u8>>, x: Seq<u8>)
    ensures
        spec_join(a.push(x)) == if a.len() == 0 {
            x
        } else {
            spec_join(a) + seq![RECORD_SEPARATOR] + x
        },
{
    lemma_join_with_push(a, x, RECORD_SEPARATOR);
}

/// Splitting inverts joining, as long as no frame holds the separator: the
/// n-th frame joined into a batch comes back as the n-th element of the
/// split. This is the wire half of the per-socket ordering guarantee.
pub proof fn lemma_split_join(frames: Seq<Seq<u8>>)
    requires
        frames.len() >= 1,
        forall|i: int| 0 <= i < frames.len() ==> sep_free(#[trigger] frames[i]),
    ensures
        spec_split(spec_join(frames)) == frames,
{
    lemma_split_join_on(frames, RECORD_SEPARATOR);
}

/// Builds the wire body of one batch. This is the send half of a long poll.
pub fn encode_batch(frames: &Vec<Payload>) -> (r: Vec<u8>)
    requires
        frames@.len() >= 1,
        forall|i: int| 0 <= i < frames@.len() ==> frame_wf(#[trigger] frames@[i]@),
    ensures
        r@ == spec_encode_batch(frames@.map_values(|p: Payload| p@)),
        forall|i: int| 0 <= i < frames@.len() ==> sep_free(
            spec_frame_encode(#[trigger] frames@[i]@),
        ),
{
    let ghost views = frames@.map_values(|p: Payload| p@);
    let ghost encs = views.map_values(|p: PayloadModel| spec_frame_encode(p));
    let mut r: Vec<u8> = Vec::new();
    let mut k: usize = 0;
    proof {
        assert(encs.subrange(0, 0) =~~= Seq::<Seq<u8>>::empty());
    }
    while k < frames.len()
        invariant
            0 <= k <= frames@.len(),
            frames@.len() >= 1,
            forall|i: int| 0 <= i < frames@.len() ==> frame_wf(#[trigger] frames@[i]@),
            views == frames@.map_values(|p: Payload| p@),
            encs == views.map_values(|p: PayloadModel| spec_frame_encode(p)),
            r@ == spec_join(encs.subrange(0, k as int)),
            forall|i: int| 0 <= i < k ==> sep_free(#[trigger] encs[i]),
        decreases frames@.len() - k,
    {
        if k > 0 {
            r.push(RECORD_SEPARATOR);
        }
        let mut enc = encode_frame(&frames[k]);
        proof {
            assert(frames@[k as int]@ == views[k as int]);
            assert(enc@ == encs[k as int]);
        }
        r.append(&mut enc);
        proof {
            lemma_join_push(encs.subrange(0, k as int), encs[k as int]);
            assert(encs.subrange(0, k + 1) =~~= encs.subrange(0, k as int).push(encs[k as int]));
            if k == 0 {
                assert(r@ =~= encs[0]);
            } else {
                assert(r@ =~= spec_join(encs.subrange(0, k as int)) + seq![RECORD_SEPARATOR]
                    + encs[k as int]);
            }
        }
        k = k + 1;
    }
    proof {
        assert(encs.subrange(0, encs.len() as int) =~~= encs);
        assert forall|i: int| 0 <= i < frames@.len() implies sep_free(
            spec_frame_encode(#[trigger] frames@[i]@),
        ) by {
            assert(views[i] == frames@[i]@);
            assert(encs[i] == spec_frame_encode(views[i]));
        }
    }
    r
}

/// Splits one received batch body at each record separator.
pub fn split_batch(s: &Vec<u8>) -> (r: Vec<Vec<u8>>)
    ensures
        r@.map_values(|v: Vec<u8>| v@) == spec_split(s@),
{
    split_on_exec(s, RECORD_SEPARATOR)
}

/// The inputs from which a batch body `s` is readable: a non-empty sequence
/// of well-formed frames whose bodies join to `s`.
pub open spec fn batch_encodes(ps: Seq<PayloadModel>, s: Seq<u8>) -> bool {
    &&& ps.len() >= 1
    &&& forall|i: int| 0 <= i < ps.len() ==> frame_wf(#[trigger] ps[i])
    &&& forall|i: int| 0 <= i < ps.len() ==> sep_free(spec_frame_encode(#[trigger] ps[i]))
    &&& s == spec_encode_batch(ps)
}

/// Reads one batch body back into frames. On any body produced by
/// `encode_batch` this returns exactly the frames that went in, in order.
pub fn decode_batch(s: &Vec<u8>) -> (r: Result<Vec<Payload>, Error>)
    ensures
        match r {
            Ok(out) => out@.len() == spec_split(s@).len() && forall|i: int|
                0 <= i < out@.len() ==> frame_decode_rel(spec_split(s@)[i], #[trigger] out@[i]@),
            Err(e) => e == Error::InvalidPacket,
        },
        forall|ps: Seq<PayloadModel>| batch_encodes(ps, s@) ==> r is Ok && r.unwrap()@.map_values(
            |p: Payload| p@,
        ) == ps,
{
    let chunks = split_batch(s);
    let ghost sp = spec_split(s@);
    let mut out: Vec<Payload> = Vec::new();
    let mut k: usize = 0;
    let mut failed = false;
    while k < chunks.len() && !failed
        invariant
            0 <= k <= chunks@.len(),
            chunks@.map_values(|v: Vec<u8>| v@) == sp,
            sp == spec_split(s@),
            !failed ==> out@.len() == k,
            !failed ==> forall|i: int| 0 <= i < k ==> frame_decode_rel(
                sp[i],
                #[trigger] out@[i]@,
            ),
            failed ==> exists|i: int| 0 <= i < sp.len() && frame_decode_err(#[trigger] sp[i]),
        decreases chunks@.len() - k,
    {
        proof {
            assert(chunks@[k as int]@ == sp[k as int]);
        }
        match decode_frame(&chunks[k]) {
            Ok(p) => {
                out.push(p);
            },
            Err(_) => {
                failed = true;
            },
        }
        k = k + 1;
    }
    if failed {
        proof {
            assert forall|ps: Seq<PayloadModel>| batch_encodes(ps, s@) implies false by {
                lemma_batch_chunks(ps, s@);
                let i = choose|i: int| 0 <= i < sp.len() && frame_decode_err(#[trigger] sp[i]);
                lemma_valid_chunk_not_err(ps[i]);
            }
        }
        Err(Error::InvalidPacket)
    } else {
        proof {
            assert forall|ps: Seq<PayloadModel>| batch_encodes(ps, s@) implies out@.map_values(
                |p: Payload| p@,
            ) == ps by {
                lemma_batch_chunks(ps, s@);
                assert forall|i: int| 0 <= i < ps.len() implies out@.map_values(|p: Payload| p@)[i]
                    == ps[i] by {
                    lemma_rel_determined(ps[i], out@[i]@);
                }
                assert(out@.map_values(|p: Payload| p@) =~~= ps);
            }
        }
        Ok(out)
    }
}

/// On a body that encodes `ps`, the split gives exactly the frame bodies.
proof fn lemma_batch_chunks(ps: Seq<PayloadModel>, s: Seq<u8>)
    requires
        batch_encodes(ps, s),
    ensures
        spec_split(s) == ps.map_values(|p: PayloadModel| spec_frame_encode(p)),
        spec_split(s).len() == ps.len(),
    decreases 0nat,
{
    let encs = ps.map_values(|p: PayloadModel| spec_frame_encode(p));
    assert forall|i: int| 0 <= i < encs.len() implies sep_free(#[trigger] encs[i]) by {
        assert(encs[i] == spec_frame_encode(ps[i]));
    }
    lemma_split_join(encs);
}

/// A well-formed frame's body never falls in the decoder's error set.
proof fn lemma_valid_chunk_not_err(p: PayloadModel)
    requires
        frame_wf(p),
    ensures
        !frame_decode_err(spec_frame_encode(p)),
{
    match p {
        PayloadModel::Text(d) => {
            assert(spec_frame_encode(p) == d);
            assert(d[0] != BINARY_PREFIX);
        },
        PayloadModel::Binary(d) => {
            let e = spec_frame_encode(p);
            assert(e == seq![BINARY_PREFIX] + b64_of(d));
            assert(e.len() >= 1 && e[0] == BINARY_PREFIX);
        },
    }
}

/// The decode relation pins the frame on every well-formed body.
proof fn lemma_rel_determined(p: PayloadModel, q: PayloadModel)
    requires
        frame_wf(p),
        frame_decode_rel(spec_frame_encode(p), q),
    ensures
        q == p,
{
    match p {
        PayloadModel::Text(d) => {
            assert(spec_frame_encode(p) == d);
            assert(d.len() > 0 && d[0] != BINARY_PREFIX);
        },
        PayloadModel::Binary(d) => {
            assert(spec_frame_encode(p) == seq![BINARY_PREFIX] + b64_of(d));
        },
    }
}

} // verus!
