//! Socket.IO packet codec. The serialized text form is
//! `<type><attachment_count>-<namespace>,<id><json>`, where the
//! `<attachment_count>-` part is present only for the binary types, the
//! `<namespace>,` part only when the namespace is not `/`, and `<id>` only
//! when the packet takes part in an acknowledgment exchange. Attachments
//! travel as separate binary frames and are reunited by [`Assembly`].
use vstd::prelude::*;

use crate::Error;
use crate::util::{is_digit, dec_seq, dec_val, all_digits, scan_digits, first_pos, u64_to_dec,
    scan_digits_exec, parse_dec_u64, find_byte, copy_range, lemma_dec_seq_digits,
    lemma_dec_val_of_dec_seq, lemma_scan_digits_props, lemma_scan_digits_determined,
    lemma_first_pos_props, lemma_first_pos_determined};

verus! {

/// ASCII '/', the namespace lead byte.
pub const NSP_SLASH: u8 = 0x2f;

/// ASCII ',', ends an explicit namespace.
pub const NSP_COMMA: u8 = 0x2c;

/// ASCII '-', ends the attachment count.
pub const COUNT_DASH: u8 = 0x2d;

#[derive(Clone, Copy, Debug, PartialEq, Eq, Structural)]
pub enum PacketType {
    Connect,
    Disconnect,
    Event,
    Ack,
    ConnectError,
    BinaryEvent,
    BinaryAck,
}

pub open spec fn is_binary_type(t: PacketType) -> bool {
    t == PacketType::BinaryEvent || t == PacketType::BinaryAck
}

pub open spec fn ptype_digit(t: PacketType) -> u8 {
    match t {
        PacketType::Connect => 0x30,
        PacketType::Disconnect => 0x31,
        PacketType::Event => 0x32,
        PacketType::Ack => 0x33,
        PacketType::ConnectError => 0x34,
        PacketType::BinaryEvent => 0x35,
        PacketType::BinaryAck => 0x36,
    }
}

pub open spec fn ptype_of_digit(c: u8) -> Option<PacketType> {
    if c == 0x30 {
        Some(PacketType::Connect)
    } else if c == 0x31 {
        Some(PacketType::Disconnect)
    } else if c == 0x32 {
        Some(PacketType::Event)
    } else if c == 0x33 {
        Some(PacketType::Ack)
    } else if c == 0x34 {
        Some(PacketType::ConnectError)
    } else if c == 0x35 {
        Some(PacketType::BinaryEvent)
    } else if c == 0x36 {
        Some(PacketType::BinaryAck)
    } else {
        None
    }
}

/// One Socket.IO packet.
#[derive(Debug, Clone, PartialEq, Eq)]
pub struct Packet {
    pub ptype: PacketType,
    pub nsp: Vec<u8>,
    pub data: Option<Vec<u8>>,
    pub id: Option<u64>,
    pub attachment_count: u64,
    pub attachments: Vec<Vec<u8>>,
}

/// Mathematical model of a Socket.IO packet.
pub struct PacketModel {
    pub ptype: PacketType,
    pub nsp: Seq<u8>,
    pub data: Option<Seq<u8>>,
    pub id: Option<u64>,
    pub attachment_count: u64,
    pub attachments: Seq<Seq<u8>>,
}

impl View for Packet {
    type V = PacketModel;

    open spec fn view(&self) -> PacketModel {
        PacketModel {
            ptype: self.ptype,
            nsp: self.nsp@,
            data: match self.data {
                Some(d) => Some(d@),
                None => None,
            },
            id: self.id,
            attachment_count: self.attachment_count,
            attachments: self.attachments@.map_values(|v: Vec<u8>| v@),
        }
    }
}

pub open spec fn is_root_nsp(nsp: Seq<u8>) -> bool {
    nsp.len() == 1 && nsp[0] == NSP_SLASH
}

/// A well-formed packet: the namespace starts with `/` and holds no comma;
/// the data part, always a JSON value, is non-empty and starts with neither
/// a digit nor `/` (so the decoder can tell it from the id and namespace
/// parts); attachments match their count, and only the binary types carry
/// any.
pub open spec fn packet_wf(m: PacketModel) -> bool {
    &&& m.nsp.len() >= 1
    &&& m.nsp[0] == NSP_SLASH
    &&& forall|i: int| 0 <= i < m.nsp.len() ==> #[trigger] m.nsp[i] != NSP_COMMA
    &&& match m.data {
        Some(d) => d.len() >= 1 && !is_digit(d[0]) && d[0] != NSP_SLASH,
        None => true,
    }
    &&& m.attachments.len() == m.attachment_count
    &&& (!is_binary_type(m.ptype) ==> m.attachment_count == 0)
}

/// Serialized text form of a packet (the attachments travel separately).
pub open spec fn spec_packet_encode(m: PacketModel) -> Seq<u8> {
    seq![ptype_digit(m.ptype)] + (if is_binary_type(m.ptype) {
        dec_seq(m.attachment_count as nat) + seq![COUNT_DASH]
    } else {
        Seq::empty()
    }) + (if is_root_nsp(m.nsp) {
        Seq::empty()
    } else {
        m.nsp + seq![NSP_COMMA]
    }) + (match m.id {
        Some(i) => dec_seq(i as nat),
        None => Seq::empty(),
    }) + (match m.data {
        Some(d) => d,
        None => Seq::empty(),
    })
}

/// What parsing a text frame yields; `None` on every malformed frame. The
/// result carries the attachment count from the header and no attachments.
pub open spec fn spec_packet_decode(s: Seq<u8>) -> Option<PacketModel> {
    if s.len() == 0 {
        None
    } else {
        match ptype_of_digit(s[0]) {
            None => None,
            Some(t) => spec_decode_count(s, t),
        }
    }
}

pub open spec fn spec_decode_count(s: Seq<u8>, t: PacketType) -> Option<PacketModel> {
    if is_binary_type(t) {
        let ce = scan_digits(s, 1);
        if ce == 1 || ce >= s.len() || s[ce] != COUNT_DASH {
            None
        } else if dec_val(s.subrange(1, ce)) > u64::MAX {
            None
        } else {
            spec_decode_nsp(s, t, dec_val(s.subrange(1, ce)) as u64, ce + 1)
        }
    } else {
        spec_decode_nsp(s, t, 0, 1)
    }
}

pub open spec fn spec_decode_nsp(s: Seq<u8>, t: PacketType, cnt: u64, p: int) -> Option<
    PacketModel,
> {
    if p < s.len() && s[p] == NSP_SLASH {
        let j = first_pos(s, p as nat, NSP_COMMA);
        if j >= s.len() {
            None
        } else {
            spec_decode_id(s, t, cnt, s.subrange(p, j as int), j as int + 1)
        }
    } else {
        spec_decode_id(s, t, cnt, seq![NSP_SLASH], p)
    }
}

pub open spec fn spec_decode_id(s: Seq<u8>, t: PacketType, cnt: u64, nsp: Seq<u8>, p: int) -> Option<
    PacketModel,
> {
    let k = scan_digits(s, p);
    if k > p {
        if dec_val(s.subrange(p, k)) > u64::MAX {
            None
        } else {
            Some(spec_decode_data(s, t, cnt, nsp, Some(dec_val(s.subrange(p, k)) as u64), k))
        }
    } else {
        Some(spec_decode_data(s, t, cnt, nsp, None, p))
    }
}

pub open spec fn spec_decode_data(
    s: Seq<u8>,
    t: PacketType,
    cnt: u64,
    nsp: Seq<u8>,
    id: Option<u64>,
    p: int,
) -> PacketModel {
    PacketModel {
        ptype: t,
        nsp: nsp,
        data: if p < s.len() {
            Some(s.subrange(p, s.len() as int))
        } else {
            None
        },
        id: id,
        attachment_count: cnt,
        attachments: Seq::empty(),
    }
}

/// `m` with its attachments not yet collected: what the text frame alone
/// carries.
pub open spec fn header_model(m: PacketModel) -> PacketModel {
    PacketModel { attachments: Seq::empty(), ..m }
}

impl Packet {
    pub fn new(
        ptype: PacketType,
        nsp: Vec<u8>,
        data: Option<Vec<u8>>,
        id: Option<u64>,
        attachment_count: u64,
        attachments: Vec<Vec<u8>>,
    ) -> (r: Packet)
        ensures
            r@ == (PacketModel {
                ptype,
                nsp: nsp@,
                data: match data {
                    Some(d) => Some(d@),
                    None => None,
                },
                id,
                attachment_count,
                attachments: attachments@.map_values(|v: Vec<u8>| v@),
            }),
    {
        Packet { ptype, nsp, data, id, attachment_count, attachments }
    }

    /// Serializes the packet's text frame.
    pub fn encode(&self) -> (r: Vec<u8>)
        requires
            packet_wf(self@),
        ensures
            r@ == spec_packet_encode(self@),
    {
        let mut r: Vec<u8> = Vec::new();
        let digit: u8 = match self.ptype {
            PacketType::Connect => 0x30,
            PacketType::Disconnect => 0x31,
            PacketType::Event => 0x32,
            PacketType::Ack => 0x33,
            PacketType::ConnectError => 0x34,
            PacketType::BinaryEvent => 0x35,
            PacketType::BinaryAck => 0x36,
        };
        r.push(digit);
        let is_bin = match self.ptype {
            PacketType::BinaryEvent => true,
            PacketType::BinaryAck => true,
            _ => false,
        };
        if is_bin {
            let mut cnt = u64_to_dec(self.attachment_count);
            r.append(&mut cnt);
            r.push(COUNT_DASH);
        }
        let is_root = self.nsp.len() == 1 && self.nsp[0] == NSP_SLASH;
        if !is_root {
            let mut n = copy_range(&self.nsp, 0, self.nsp.len());
            proof {
                assert(self.nsp@.subrange(0, self.nsp@.len() as int) =~= self.nsp@);
            }
            r.append(&mut n);
            r.push(NSP_COMMA);
        }
        match &self.id {
            Some(i) => {
                let mut d = u64_to_dec(*i);
                r.append(&mut d);
            },
            None => {},
        }
        match &self.data {
            Some(d) => {
                let mut b = copy_range(d, 0, d.len());
                proof {
                    assert(d@.subrange(0, d@.len() as int) =~= d@);
                }
                r.append(&mut b);
            },
            None => {},
        }
        proof {
            assert(r@ =~= spec_packet_encode(self@));
        }
        r
    }

    /// Parses one text frame. Returns exactly what `spec_packet_decode`
    /// describes; every malformed frame is refused with `InvalidPacket`.
    pub fn decode(s: &Vec<u8>) -> (r: Result<Packet, Error>)
        ensures
            match r {
                Ok(p) => spec_packet_decode(s@) == Some(p@),
                Err(e) => spec_packet_decode(s@) is None && e == Error::InvalidPacket,
            },
    {
        if s.len() == 0 {
            return Err(Error::InvalidPacket);
        }
        let c = s[0];
        let t = if c == 0x30 {
            PacketType::Connect
        } else if c == 0x31 {
            PacketType::Disconnect
        } else if c == 0x32 {
            PacketType::Event
        } else if c == 0x33 {
            PacketType::Ack
        } else if c == 0x34 {
            PacketType::ConnectError
        } else if c == 0x35 {
            PacketType::BinaryEvent
        } else if c == 0x36 {
            PacketType::BinaryAck
        } else {
            return Err(Error::InvalidPacket);
        };
        let is_bin = c == 0x35 || c == 0x36;
        let mut cnt: u64 = 0;
        let mut p: usize = 1;
        if is_bin {
            let ce = scan_digits_exec(s, 1);
            if ce == 1 || ce >= s.len() || s[ce] != COUNT_DASH {
                return Err(Error::InvalidPacket);
            }
            proof {
                lemma_scan_digits_props(s@, 1);
            }
            match parse_dec_u64(s, 1, ce) {
                Some(v) => {
                    cnt = v;
                },
                None => {
                    return Err(Error::InvalidPacket);
                },
            }
            p = ce + 1;
        }
        let mut nsp: Vec<u8> = Vec::new();
        if p < s.len() && s[p] == NSP_SLASH {
            let j = find_byte(s, p, NSP_COMMA);
            if j >= s.len() {
                return Err(Error::InvalidPacket);
            }
            nsp = copy_range(s, p, j);
            p = j + 1;
        } else {
            nsp.push(NSP_SLASH);
            proof {
                assert(nsp@ =~= seq![NSP_SLASH]);
            }
        }
        let k = scan_digits_exec(s, p);
        let mut id: Option<u64> = None;
        if k > p {
            proof {
                lemma_scan_digits_props(s@, p as int);
            }
            match parse_dec_u64(s, p, k) {
                Some(v) => {
                    id = Some(v);
                },
                None => {
                    return Err(Error::InvalidPacket);
                },
            }
            p = k;
        }
        let data: Option<Vec<u8>> = if p < s.len() {
            Some(copy_range(s, p, s.len()))
        } else {
            None
        };
        let out = Packet { ptype: t, nsp, data, id, attachment_count: cnt, attachments: Vec::new() };
        proof {
            assert(out@.attachments =~~= Seq::<Seq<u8>>::empty());
        }
        Ok(out)
    }
}

/// Decoding the text frame of a well-formed packet gives the packet back,
/// less the attachments, which arrive separately.
#[verifier::spinoff_prover]
#[verifier::rlimit(100)]
pub proof fn lemma_packet_round_trip(m: PacketModel)
    requires
        packet_wf(m),
    ensures
        spec_packet_decode(spec_packet_encode(m)) == Some(header_model(m)),
{
    let s = spec_packet_encode(m);
    let a: Seq<u8> = seq![ptype_digit(m.ptype)];
    let b: Seq<u8> = if is_binary_type(m.ptype) {
        dec_seq(m.attachment_count as nat) + seq![COUNT_DASH]
    } else {
        Seq::empty()
    };
    let c: Seq<u8> = if is_root_nsp(m.nsp) {
        Seq::empty()
    } else {
        m.nsp + seq![NSP_COMMA]
    };
    let d: Seq<u8> = match m.id {
        Some(i) => dec_seq(i as nat),
        None => Seq::empty(),
    };
    let e: Seq<u8> = match m.data {
        Some(dd) => dd,
        None => Seq::empty(),
    };
    assert(s == a + b + c + d + e);
    let lb = b.len() as int;
    let lc = c.len() as int;
    let ld = d.len() as int;
    let le = e.len() as int;
    assert(s.len() == 1 + lb + lc + ld + le);
    assert(s[0] == ptype_digit(m.ptype));
    assert(ptype_of_digit(ptype_digit(m.ptype)) == Some(m.ptype)) by {
        match m.ptype {
            PacketType::Connect => {},
            PacketType::Disconnect => {},
            PacketType::Event => {},
            PacketType::Ack => {},
            PacketType::ConnectError => {},
            PacketType::BinaryEvent => {},
            PacketType::BinaryAck => {},
        }
    }
    // Positions of the namespace, id and data parts.
    let p1 = 1 + lb;
    let p2 = p1 + lc;
    let p3 = p2 + ld;
    assert forall|i: int| 0 <= i < lb implies s[1 + i] == b[i] by {}
    assert forall|i: int| 0 <= i < lc implies s[p1 + i] == c[i] by {}
    assert forall|i: int| 0 <= i < ld implies s[p2 + i] == d[i] by {}
    assert forall|i: int| 0 <= i < le implies s[p3 + i] == e[i] by {}
    // The attachment-count part.
    if is_binary_type(m.ptype) {
        let cd = dec_seq(m.attachment_count as nat);
        lemma_dec_seq_digits(m.attachment_count as nat);
        assert(b == cd + seq![COUNT_DASH]);
        assert forall|i: int| 1 <= i < 1 + cd.len() implies is_digit(#[trigger] s[i]) by {
            assert(s[i] == b[i - 1]);
            assert(b[i - 1] == cd[i - 1]);
        }
        assert(s[1 + cd.len() as int] == b[cd.len() as int]);
        assert(s[1 + cd.len() as int] == COUNT_DASH);
        assert(!is_digit(COUNT_DASH));
        lemma_scan_digits_determined(s, 1, 1 + cd.len() as int);
        let ce = scan_digits(s, 1);
        assert(ce == 1 + cd.len());
        assert(ce > 1);
        assert(ce < s.len());
        assert(s[ce] == COUNT_DASH);
        assert(s.subrange(1, ce) =~= cd);
        lemma_dec_val_of_dec_seq(m.attachment_count as nat);
        assert(dec_val(s.subrange(1, ce)) == m.attachment_count as int);
        assert(ce + 1 == p1);
    } else {
        assert(lb == 0);
        assert(p1 == 1);
    }
    // The namespace part.
    if is_root_nsp(m.nsp) {
        assert(lc == 0);
        if p1 < s.len() {
            // The byte at p1 opens the id or data part; neither starts
            // with a slash.
            if ld > 0 {
                let i = m.id.unwrap();
                lemma_dec_seq_digits(i as nat);
                assert(s[p1] == d[0]);
                assert(is_digit(d[0]));
                assert(s[p1] != NSP_SLASH);
            } else {
                assert(le > 0);
                assert(s[p1] == e[0]);
                assert(s[p1] != NSP_SLASH);
            }
        }
        assert(spec_decode_nsp(s, m.ptype, m.attachment_count, p1) == spec_decode_id(
            s,
            m.ptype,
            m.attachment_count,
            seq![NSP_SLASH],
            p1,
        ));
        assert(seq![NSP_SLASH] =~= m.nsp);
    } else {
        assert(c == m.nsp + seq![NSP_COMMA]);
        assert(s[p1] == c[0]);
        assert(s[p1] == m.nsp[0]);
        assert(s[p1] == NSP_SLASH);
        assert forall|k: int| p1 <= k < p1 + m.nsp.len() implies #[trigger] s[k] != NSP_COMMA by {
            assert(s[k] == c[k - p1]);
            assert(c[k - p1] == m.nsp[k - p1]);
        }
        assert(s[p1 + m.nsp.len() as int] == c[m.nsp.len() as int]);
        assert(s[p1 + m.nsp.len() as int] == NSP_COMMA);
        lemma_first_pos_determined(s, p1 as nat, NSP_COMMA, (p1 + m.nsp.len()) as nat);
        let j = first_pos(s, p1 as nat, NSP_COMMA);
        assert(j == p1 + m.nsp.len());
        assert(j < s.len());
        assert(s.subrange(p1, j as int) =~= m.nsp);
        assert(j + 1 == p2);
    }
    // The id part.
    if ld > 0 {
        let i = m.id.unwrap();
        lemma_dec_seq_digits(i as nat);
        assert(d == dec_seq(i as nat));
        assert forall|k: int| p2 <= k < p3 implies is_digit(#[trigger] s[k]) by {
            assert(s[k] == d[k - p2]);
        }
        if p3 < s.len() {
            assert(le > 0);
            assert(s[p3] == e[0]);
            assert(!is_digit(s[p3]));
            lemma_scan_digits_determined(s, p2, p3);
        } else {
            lemma_scan_digits_determined(s, p2, p3);
        }
        let k = scan_digits(s, p2);
        assert(k == p3);
        assert(k > p2);
        assert(s.subrange(p2, k) =~= d);
        lemma_dec_val_of_dec_seq(i as nat);
        assert(dec_val(s.subrange(p2, k)) == i as int);
    } else {
        if p2 < s.len() {
            assert(le > 0);
            assert(s[p2] == e[0]);
            assert(!is_digit(s[p2]));
        }
        lemma_scan_digits_determined(s, p2, p2);
        assert(scan_digits(s, p2) == p2);
    }
    // The data part.
    match m.data {
        Some(dd) => {
            assert(le > 0);
            assert(p3 < s.len());
            assert(s.subrange(p3, s.len() as int) =~= dd);
        },
        None => {
            assert(le == 0);
            assert(p3 == s.len());
        },
    }
}

/// Reunites a binary packet's header with the attachment frames that follow
/// it on the wire. While a header waits, every inbound binary frame is one
/// of its attachments.
pub struct Assembly {
    pub header: Option<Packet>,
}

impl Assembly {
    pub open spec fn pending(&self) -> bool {
        self.header is Some
    }

    pub fn new() -> (r: Assembly)
        ensures
            !r.pending(),
    {
        Assembly { header: None }
    }

    /// Takes one decoded text-frame packet. A packet that expects no
    /// attachments passes straight through; a binary header is held back
    /// until its attachments arrive.
    pub fn absorb_header(&mut self, p: Packet) -> (r: Option<Packet>)
        requires
            !old(self).pending(),
            p@.attachments.len() == 0,
        ensures
            p@.attachment_count == 0 ==> r == Some(p) && !final(self).pending(),
            p@.attachment_count > 0 ==> r is None && final(self).header == Some(p),
    {
        if p.attachment_count == 0 {
            Some(p)
        } else {
            self.header = Some(p);
            None
        }
    }

    /// Takes one binary frame. Returns the completed packet once the last
    /// expected attachment is in; a frame with no waiting header is dropped.
    pub fn absorb_binary(&mut self, frame: Vec<u8>) -> (r: Option<Packet>)
        ensures
            match old(self).header {
                None => r is None && !final(self).pending(),
                Some(h) => {
                    let filled = PacketModel {
                        attachments: h@.attachments.push(frame@),
                        ..h@
                    };
                    if h@.attachments.len() + 1 >= h@.attachment_count {
                        r is Some && r.unwrap()@ == filled && !final(self).pending()
                    } else {
                        r is None && final(self).pending() && final(self).header.unwrap()@
                            == filled
                    }
                },
            },
    {
        let mut taken: Option<Packet> = None;
        core::mem::swap(&mut taken, &mut self.header);
        match taken {
            None => None,
            Some(mut h) => {
                let ghost old_h = h@;
                h.attachments.push(frame);
                proof {
                    assert(h@.attachments =~~= old_h.attachments.push(frame@));
                }
                if h.attachments.len() as u64 >= h.attachment_count {
                    Some(h)
                } else {
                    self.header = Some(h);
                    None
                }
            },
        }
    }
}

} // verus!
