//! One namespaced Socket.IO socket: event emission, the acknowledgment
//! ledger, inbound dispatch and teardown.
//!
//! The ledger obeys an exactly-once law: an ack id is issued by
//! `emit_with_ack`, stays pending until resolved by exactly one of an
//! inbound ACK (`handle_packet`), the timeout sweep (`sweep_acks`) or
//! teardown (`disconnect` / inbound DISCONNECT), and can never be resolved
//! again afterwards: a late ACK is dropped. After teardown no inbound packet
//! yields a callback.
use vstd::prelude::*;

use crate::Error;
use crate::b64::is_b64_byte;
use crate::engine::{Payload, PayloadModel};
use crate::packet::{Packet, PacketModel, PacketType, packet_wf, is_binary_type};
use crate::util::{first_pos, copy_range, find_byte, lemma_first_pos_determined};

verus! {

/// A pending acknowledgment: the id handed to the peer and the time at
/// which the wait gives up.
#[derive(Clone, Copy, Debug, PartialEq, Eq, Structural)]
pub struct AckEntry {
    pub id: u64,
    pub deadline_ms: u64,
}

/// Some id is pending in the ledger.
pub open spec fn has_ack(acks: Seq<AckEntry>, id: u64) -> bool {
    exists|i: int| 0 <= i < acks.len() && #[trigger] acks[i].id == id
}

/// A namespace: starts with `/` and holds no comma.
pub open spec fn nsp_wf(nsp: Seq<u8>) -> bool {
    &&& nsp.len() >= 1
    &&& nsp[0] == 0x2f
    &&& forall|i: int| 0 <= i < nsp.len() ==> #[trigger] nsp[i] != 0x2c
}

/// An event name safe to embed in the JSON event array: non-empty, no
/// quote, no backslash. The name is carried verbatim between the quotes of
/// the array's first element, with no JSON escaping applied, so a name
/// holding either byte is excluded rather than escaped; callers must check
/// before emitting.
pub open spec fn event_wf(e: Seq<u8>) -> bool {
    &&& e.len() >= 1
    &&& forall|i: int| 0 <= i < e.len() ==> #[trigger] e[i] != 0x22 && e[i] != 0x5c
}

/// The JSON placeholder standing for attachment 0 inside a binary event's
/// data: `{"_placeholder":true,"num":0}`.
pub open spec fn placeholder0() -> Seq<u8> {
    seq![0x7bu8, 0x22, 0x5f, 0x70, 0x6c, 0x61, 0x63, 0x65, 0x68, 0x6f, 0x6c, 0x64, 0x65, 0x72,
        0x22, 0x3a, 0x74, 0x72, 0x75, 0x65, 0x2c, 0x22, 0x6e, 0x75, 0x6d, 0x22, 0x3a, 0x30, 0x7d]
}

/// The JSON event array `["<event>"(,<args>)?]`; a binary payload stands as
/// its placeholder.
pub open spec fn spec_event_data(event: Seq<u8>, payload: PayloadModel) -> Seq<u8> {
    match payload {
        PayloadModel::Text(d) => seq![0x5bu8, 0x22] + event + seq![0x22u8] + (if d.len() == 0 {
            Seq::empty()
        } else {
            seq![0x2cu8] + d
        }) + seq![0x5du8],
        PayloadModel::Binary(_) => seq![0x5bu8, 0x22] + event + seq![0x22u8, 0x2c]
            + placeholder0() + seq![0x5du8],
    }
}

/// The JSON data of an ACK reply: the arguments alone, `[<args>]`.
pub open spec fn spec_ack_data(payload: PayloadModel) -> Seq<u8> {
    match payload {
        PayloadModel::Text(d) => seq![0x5bu8] + d + seq![0x5du8],
        PayloadModel::Binary(_) => seq![0x5bu8] + placeholder0() + seq![0x5du8],
    }
}

/// The packet `emit` sends: EVENT or BINARY_EVENT, no id unless an ack is
/// expected.
pub open spec fn spec_event_packet(
    nsp: Seq<u8>,
    event: Seq<u8>,
    payload: PayloadModel,
    id: Option<u64>,
) -> PacketModel {
    PacketModel {
        ptype: match payload {
            PayloadModel::Text(_) => PacketType::Event,
            PayloadModel::Binary(_) => PacketType::BinaryEvent,
        },
        nsp: nsp,
        data: Some(spec_event_data(event, payload)),
        id: id,
        attachment_count: match payload {
            PayloadModel::Text(_) => 0,
            PayloadModel::Binary(_) => 1,
        },
        attachments: match payload {
            PayloadModel::Text(_) => Seq::empty(),
            PayloadModel::Binary(b) => seq![b],
        },
    }
}

/// The packet `ack` sends in reply to an inbound event that carried an id.
pub open spec fn spec_ack_packet(nsp: Seq<u8>, payload: PayloadModel, id: u64) -> PacketModel {
    PacketModel {
        ptype: match payload {
            PayloadModel::Text(_) => PacketType::Ack,
            PayloadModel::Binary(_) => PacketType::BinaryAck,
        },
        nsp: nsp,
        data: Some(spec_ack_data(payload)),
        id: Some(id),
        attachment_count: match payload {
            PayloadModel::Text(_) => 0,
            PayloadModel::Binary(_) => 1,
        },
        attachments: match payload {
            PayloadModel::Text(_) => Seq::empty(),
            PayloadModel::Binary(b) => seq![b],
        },
    }
}

/// What the dispatch of one inbound packet asks the embedding to do.
pub enum Action {
    /// Run the `connect` callback.
    ConnectCb,
    /// Run the `disconnect` callback; the socket is torn down.
    DisconnectCb { drained: Vec<u64> },
    /// Run the handler of the event named inside `data`, with `need_ack`
    /// when the peer expects a reply.
    EventCb { data: Vec<u8>, need_ack: Option<u64>, attachments: Vec<Vec<u8>> },
    /// Run the `error` callback.
    ErrorCb,
    /// Resolve the pending ack `id` with the payload inside `data`.
    AckCb { id: u64, data: Option<Vec<u8>>, attachments: Vec<Vec<u8>> },
    /// Nothing to run: the packet was dropped.
    Drop,
}

/// Resolving ack `id` removes exactly its entry from the ledger: afterwards
/// the id is gone for good and every other entry is untouched.
pub open spec fn ack_resolved(pre: Seq<AckEntry>, post: Seq<AckEntry>, id: u64) -> bool {
    &&& !has_ack(post, id)
    &&& forall|o: u64| o != id ==> has_ack(post, o) == has_ack(pre, o)
    &&& forall|e: AckEntry| post.contains(e) <==> (pre.contains(e) && e.id != id)
}

/// What dispatching packet `p` on a connected socket does: which callback
/// the action asks for and how the state moves. An ACK whose id is not
/// pending — already resolved, or never issued — is dropped.
pub open spec fn dispatch_post(pre: Socket, post: Socket, p: PacketModel, r: Action) -> bool {
    match p.ptype {
        PacketType::Connect => true,
        PacketType::Disconnect => {
            &&& r matches Action::DisconnectCb { drained } && drained@ == ids_of(pre.acks@)
            &&& !post.connected
            &&& post.acks@.len() == 0
        },
        PacketType::Event | PacketType::BinaryEvent => {
            &&& p.data is Some ==> (r matches Action::EventCb { data, need_ack, attachments }
                && Some(data@) == p.data && need_ack == p.id && attachments@.map_values(
                |v: Vec<u8>| v@,
            ) == p.attachments)
            &&& p.data is None ==> r is Drop
            &&& post == pre
        },
        PacketType::Ack | PacketType::BinaryAck => match p.id {
            Some(id) => {
                if has_ack(pre.acks@, id) {
                    &&& r matches Action::AckCb { id: rid, data, attachments } && rid == id && (
                    match (data, p.data) {
                        (Some(d), Some(pd)) => d@ == pd,
                        (None, None) => true,
                        _ => false,
                    }) && attachments@.map_values(|v: Vec<u8>| v@) == p.attachments
                    &&& ack_resolved(pre.acks@, post.acks@, id)
                    &&& post.connected
                } else {
                    r is Drop && post == pre
                }
            },
            None => r is Drop && post == pre,
        },
        PacketType::ConnectError => r is ErrorCb && post == pre,
    }
}

/// One namespaced socket's protocol state.
pub struct Socket {
    pub nsp: Vec<u8>,
    pub connected: bool,
    pub ack_counter: u64,
    pub acks: Vec<AckEntry>,
}

impl Socket {
    /// Well-formed ledger: ids are unique and below the counter, and the
    /// namespace is valid.
    pub open spec fn wf(&self) -> bool {
        &&& nsp_wf(self.nsp@)
        &&& forall|i: int| 0 <= i < self.acks@.len() ==> (#[trigger] self.acks@[i]).id
            < self.ack_counter
        &&& forall|i: int, j: int|
            0 <= i < j < self.acks@.len() ==> (#[trigger] self.acks@[i]).id != (
            #[trigger] self.acks@[j]).id
    }

    pub fn new(nsp: Vec<u8>, connected: bool) -> (r: Socket)
        requires
            nsp_wf(nsp@),
        ensures
            r.wf(),
            r.nsp@ == nsp@,
            r.connected == connected,
            r.ack_counter == 0,
            r.acks@.len() == 0,
    {
        Socket { nsp, connected, ack_counter: 0, acks: Vec::new() }
    }

    /// Builds the EVENT (or BINARY_EVENT) packet for one emission. Fails
    /// with `ConnectionClosed` after teardown; owes a packet otherwise,
    /// the empty payload included.
    pub fn emit(&self, event: &Vec<u8>, payload: &Payload) -> (r: Result<Packet, Error>)
        requires
            self.wf(),
            event_wf(event@),
        ensures
            match r {
                Ok(p) => self.connected && p@ == spec_event_packet(
                    self.nsp@,
                    event@,
                    payload@,
                    None,
                ) && packet_wf(p@),
                Err(e) => !self.connected && e == Error::ConnectionClosed,
            },
    {
        if !self.connected {
            return Err(Error::ConnectionClosed);
        }
        Ok(build_event_packet(&self.nsp, event, payload, None))
    }

    /// Registers a fresh ack id with its deadline and builds the event
    /// packet that carries it. The id is the counter's value, so each id is
    /// issued at most once per socket.
    pub fn emit_with_ack(
        &mut self,
        event: &Vec<u8>,
        payload: &Payload,
        timeout_ms: u64,
        now_ms: u64,
    ) -> (r: Result<(Packet, u64), Error>)
        requires
            old(self).wf(),
            event_wf(event@),
            old(self).ack_counter < u64::MAX,
        ensures
            final(self).wf(),
            match r {
                Ok((p, id)) => {
                    &&& old(self).connected
                    &&& id == old(self).ack_counter
                    &&& p@ == spec_event_packet(old(self).nsp@, event@, payload@, Some(id))
                    &&& packet_wf(p@)
                    &&& final(self).ack_counter == old(self).ack_counter + 1
                    &&& final(self).acks@ == old(self).acks@.push(
                        AckEntry { id, deadline_ms: sat_add_spec(now_ms, timeout_ms) },
                    )
                    &&& final(self).connected == old(self).connected
                    &&& final(self).nsp@ == old(self).nsp@
                },
                Err(e) => !old(self).connected && e == Error::ConnectionClosed && *final(self)
                    == *old(self),
            },
    {
        if !self.connected {
            return Err(Error::ConnectionClosed);
        }
        let id = self.ack_counter;
        let deadline = sat_add(now_ms, timeout_ms);
        self.acks.push(AckEntry { id, deadline_ms: deadline });
        self.ack_counter = self.ack_counter + 1;
        let p = build_event_packet(&self.nsp, event, payload, Some(id));
        Ok((p, id))
    }

    /// Builds the ACK (or BINARY_ACK) reply carrying the peer's id.
    pub fn ack(&self, id: u64, payload: &Payload) -> (r: Result<Packet, Error>)
        requires
            self.wf(),
        ensures
            match r {
                Ok(p) => self.connected && p@ == spec_ack_packet(self.nsp@, payload@, id)
                    && packet_wf(p@),
                Err(e) => !self.connected && e == Error::ConnectionClosed,
            },
    {
        if !self.connected {
            return Err(Error::ConnectionClosed);
        }
        let mut data: Vec<u8> = Vec::new();
        data.push(0x5b);
        match payload {
            Payload::Text(d) => {
                let mut body = copy_range(d, 0, d.len());
                proof {
                    assert(d@.subrange(0, d@.len() as int) =~= d@);
                }
                data.append(&mut body);
            },
            Payload::Binary(_) => {
                let mut ph = placeholder0_exec();
                data.append(&mut ph);
            },
        }
        data.push(0x5d);
        proof {
            assert(data@ =~= spec_ack_data(payload@));
        }
        let (ptype, count, atts) = match payload {
            Payload::Text(_) => (PacketType::Ack, 0u64, Vec::new()),
            Payload::Binary(b) => {
                let mut v: Vec<Vec<u8>> = Vec::new();
                v.push(copy_range(b, 0, b.len()));
                proof {
                    assert(b@.subrange(0, b@.len() as int) =~= b@);
                }
                (PacketType::BinaryAck, 1u64, v)
            },
        };
        let nsp = copy_range(&self.nsp, 0, self.nsp.len());
        proof {
            assert(self.nsp@.subrange(0, self.nsp@.len() as int) =~= self.nsp@);
        }
        let p = Packet { ptype, nsp, data: Some(data), id: Some(id), attachment_count: count,
            attachments: atts };
        proof {
            assert(p@.attachments =~~= spec_ack_packet(self.nsp@, payload@, id).attachments);
        }
        Ok(p)
    }

    /// Dispatches one inbound, fully assembled packet. After teardown every
    /// packet but CONNECT is dropped: no callback fires on a disconnected
    /// socket. An ACK resolves its pending entry and removes it, so a
    /// second ACK with the same id is dropped.
    pub fn handle_packet(&mut self, p: &Packet) -> (r: Action)
        requires
            old(self).wf(),
        ensures
            final(self).wf(),
            final(self).nsp@ == old(self).nsp@,
            final(self).ack_counter == old(self).ack_counter,
            !old(self).connected && p@.ptype != PacketType::Connect ==> r is Drop && *final(self)
                == *old(self),
            p@.ptype == PacketType::Connect ==> r is ConnectCb && final(self).connected
                && final(self).acks@ == old(self).acks@,
            old(self).connected ==> dispatch_post(*old(self), *final(self), p@, r),
    {
        let is_connect = match p.ptype {
            PacketType::Connect => true,
            _ => false,
        };
        if !self.connected && !is_connect {
            return Action::Drop;
        }
        match p.ptype {
            PacketType::Connect => {
                self.connected = true;
                Action::ConnectCb
            },
            PacketType::Disconnect => {
                self.connected = false;
                let drained = ids_of_exec(&self.acks);
                self.acks = Vec::new();
                Action::DisconnectCb { drained }
            },
            PacketType::Event | PacketType::BinaryEvent => {
                let data = match &p.data {
                    Some(d) => copy_range(d, 0, d.len()),
                    None => Vec::new(),
                };
                proof {
                    match &p.data {
                        Some(d) => {
                            assert(d@.subrange(0, d@.len() as int) =~= d@);
                        },
                        None => {},
                    }
                }
                if p.data.is_none() {
                    // An event with no body carries nothing to dispatch.
                    return Action::Drop;
                }
                Action::EventCb {
                    data,
                    need_ack: p.id,
                    attachments: copy_chunks(&p.attachments),
                }
            },
            PacketType::Ack | PacketType::BinaryAck => {
                match p.id {
                    None => Action::Drop,
                    Some(id) => {
                        match find_ack(&self.acks, id) {
                            None => Action::Drop,
                            Some(at) => {
                                proof {
                                    lemma_remove_keeps_others(self.acks@, at as int);
                                }
                                self.acks.remove(at);
                                let data = match &p.data {
                                    Some(d) => {
                                        let c = copy_range(d, 0, d.len());
                                        proof {
                                            assert(d@.subrange(0, d@.len() as int) =~= d@);
                                        }
                                        Some(c)
                                    },
                                    None => None,
                                };
                                Action::AckCb { id, data, attachments: copy_chunks(&p.attachments) }
                            },
                        }
                    },
                }
            },
            PacketType::ConnectError => Action::ErrorCb,
        }
    }

    /// Resolves every entry whose deadline has passed, exactly once each:
    /// the expired ids are handed back (their callbacks get the timeout
    /// payload) and leave the ledger for good.
    pub fn sweep_acks(&mut self, now_ms: u64) -> (r: Vec<u64>)
        requires
            old(self).wf(),
        ensures
            final(self).wf(),
            final(self).nsp@ == old(self).nsp@,
            final(self).ack_counter == old(self).ack_counter,
            final(self).connected == old(self).connected,
            r@ == expired_ids(old(self).acks@, now_ms),
            final(self).acks@ == live_entries(old(self).acks@, now_ms),
            forall|id: u64| has_ack(final(self).acks@, id) ==> has_ack(old(self).acks@, id),
    {
        let mut kept: Vec<AckEntry> = Vec::new();
        let mut fired: Vec<u64> = Vec::new();
        let mut i: usize = 0;
        proof {
            assert(self.acks@.subrange(0, 0) =~= Seq::<AckEntry>::empty());
        }
        while i < self.acks.len()
            invariant
                0 <= i <= self.acks@.len(),
                self.wf(),
                fired@ == expired_ids(self.acks@.subrange(0, i as int), now_ms),
                kept@ == live_entries(self.acks@.subrange(0, i as int), now_ms),
            decreases self.acks@.len() - i,
        {
            let e = self.acks[i];
            proof {
                let t = self.acks@.subrange(0, i as int);
                let u = self.acks@.subrange(0, i + 1);
                assert(u =~= t.push(self.acks@[i as int]));
                assert(u.drop_last() =~= t);
            }
            if e.deadline_ms <= now_ms {
                fired.push(e.id);
            } else {
                kept.push(e);
            }
            i = i + 1;
        }
        proof {
            assert(self.acks@.subrange(0, self.acks@.len() as int) =~= self.acks@);
            lemma_live_entries_sub(self.acks@, now_ms);
            assert forall|k: int| 0 <= k < kept@.len() implies (#[trigger] kept@[k]).id
                < self.ack_counter by {
                assert(kept@.contains(kept@[k]));
                let a = choose|a: int| 0 <= a < self.acks@.len() && self.acks@[a] == kept@[k];
                assert(self.acks@[a].id < self.ack_counter);
            }
            assert forall|id: u64| has_ack(kept@, id) implies has_ack(self.acks@, id) by {
                let k = choose|k: int| 0 <= k < kept@.len() && #[trigger] kept@[k].id == id;
                assert(kept@.contains(kept@[k]));
                let a = choose|a: int| 0 <= a < self.acks@.len() && self.acks@[a] == kept@[k];
                assert(self.acks@[a].id == id);
            }
        }
        self.acks = kept;
        fired
    }

    /// Tears the socket down: the DISCONNECT packet to send and the pending
    /// ids to resolve with a disconnect error. Idempotent: on a socket
    /// already torn down nothing is owed and nothing changes.
    pub fn disconnect(&mut self) -> (r: Option<(Packet, Vec<u64>)>)
        requires
            old(self).wf(),
        ensures
            final(self).wf(),
            !old(self).connected ==> r is None && *final(self) == *old(self),
            old(self).connected ==> match r {
                Some((p, drained)) => {
                    &&& p@ == (PacketModel {
                        ptype: PacketType::Disconnect,
                        nsp: old(self).nsp@,
                        data: None,
                        id: None,
                        attachment_count: 0,
                        attachments: Seq::empty(),
                    })
                    &&& packet_wf(p@)
                    &&& drained@ == ids_of(old(self).acks@)
                    &&& !final(self).connected
                    &&& final(self).acks@.len() == 0
                    &&& final(self).nsp@ == old(self).nsp@
                    &&& final(self).ack_counter == old(self).ack_counter
                },
                None => false,
            },
    {
        if !self.connected {
            return None;
        }
        self.connected = false;
        let drained = ids_of_exec(&self.acks);
        self.acks = Vec::new();
        let nsp = copy_range(&self.nsp, 0, self.nsp.len());
        proof {
            assert(self.nsp@.subrange(0, self.nsp@.len() as int) =~= self.nsp@);
        }
        let p = Packet {
            ptype: PacketType::Disconnect,
            nsp,
            data: None,
            id: None,
            attachment_count: 0,
            attachments: Vec::new(),
        };
        proof {
            assert(p@.attachments =~~= Seq::<Seq<u8>>::empty());
        }
        Some((p, drained))
    }

    /// The CONNECT handshake reply the server sends back: data
    /// `{"sid":"<sid>"}`.
    pub fn handshake_packet(&self, sid: &Vec<u8>) -> (r: Packet)
        requires
            self.wf(),
            forall|i: int| 0 <= i < sid@.len() ==> is_b64_byte(#[trigger] sid@[i]),
        ensures
            r@ == (PacketModel {
                ptype: PacketType::Connect,
                nsp: self.nsp@,
                data: Some(spec_handshake_data(sid@)),
                id: None,
                attachment_count: 0,
                attachments: Seq::empty(),
            }),
            packet_wf(r@),
    {
        let mut data: Vec<u8> = Vec::new();
        data.push(0x7b);
        data.push(0x22);
        data.push(0x73);
        data.push(0x69);
        data.push(0x64);
        data.push(0x22);
        data.push(0x3a);
        data.push(0x22);
        let mut s = copy_range(sid, 0, sid.len());
        proof {
            assert(sid@.subrange(0, sid@.len() as int) =~= sid@);
        }
        data.append(&mut s);
        data.push(0x22);
        data.push(0x7d);
        proof {
            assert(data@ =~= spec_handshake_data(sid@));
        }
        let nsp = copy_range(&self.nsp, 0, self.nsp.len());
        proof {
            assert(self.nsp@.subrange(0, self.nsp@.len() as int) =~= self.nsp@);
        }
        let p = Packet {
            ptype: PacketType::Connect,
            nsp,
            data: Some(data),
            id: None,
            attachment_count: 0,
            attachments: Vec::new(),
        };
        proof {
            assert(p@.attachments =~~= Seq::<Seq<u8>>::empty());
        }
        p
    }
}

/// The handshake data `{"sid":"<sid>"}`.
pub open spec fn spec_handshake_data(sid: Seq<u8>) -> Seq<u8> {
    seq![0x7bu8, 0x22, 0x73, 0x69, 0x64, 0x22, 0x3a, 0x22] + sid + seq![0x22u8, 0x7d]
}

/// Saturating deadline: `now + timeout`, stuck at the maximum.
pub open spec fn sat_add_spec(a: u64, b: u64) -> u64 {
    if a + b <= u64::MAX {
        (a + b) as u64
    } else {
        u64::MAX
    }
}

fn sat_add(a: u64, b: u64) -> (r: u64)
    ensures
        r == sat_add_spec(a, b),
{
    if b > u64::MAX - a {
        u64::MAX
    } else {
        a + b
    }
}

/// The ids of the ledger's entries, in ledger order.
pub open spec fn ids_of(acks: Seq<AckEntry>) -> Seq<u64> {
    acks.map_values(|e: AckEntry| e.id)
}

fn ids_of_exec(acks: &Vec<AckEntry>) -> (r: Vec<u64>)
    ensures
        r@ == ids_of(acks@),
{
    let mut r: Vec<u64> = Vec::new();
    let mut i: usize = 0;
    while i < acks.len()
        invariant
            0 <= i <= acks@.len(),
            r@ == ids_of(acks@.subrange(0, i as int)),
        decreases acks@.len() - i,
    {
        r.push(acks[i].id);
        proof {
            assert(acks@.subrange(0, i + 1) =~= acks@.subrange(0, i as int).push(
                acks@[i as int],
            ));
            assert(r@ =~= ids_of(acks@.subrange(0, i + 1)));
        }
        i = i + 1;
    }
    proof {
        assert(acks@.subrange(0, acks@.len() as int) =~= acks@);
    }
    r
}

/// Ids of entries whose deadline is at or before `now`, in ledger order.
pub open spec fn expired_ids(acks: Seq<AckEntry>, now_ms: u64) -> Seq<u64>
    decreases acks.len(),
{
    if acks.len() == 0 {
        Seq::empty()
    } else {
        expired_ids(acks.drop_last(), now_ms) + (if acks.last().deadline_ms <= now_ms {
            seq![acks.last().id]
        } else {
            Seq::empty()
        })
    }
}

/// Entries still waiting after the sweep at `now`, in ledger order.
pub open spec fn live_entries(acks: Seq<AckEntry>, now_ms: u64) -> Seq<AckEntry>
    decreases acks.len(),
{
    if acks.len() == 0 {
        Seq::empty()
    } else {
        live_entries(acks.drop_last(), now_ms) + (if acks.last().deadline_ms > now_ms {
            seq![acks.last()]
        } else {
            Seq::empty()
        })
    }
}

/// The survivors of a sweep were all pending before, and their ids stay
/// distinct.
proof fn lemma_live_entries_sub(acks: Seq<AckEntry>, now_ms: u64)
    requires
        forall|i: int, j: int|
            0 <= i < j < acks.len() ==> (#[trigger] acks[i]).id != (#[trigger] acks[j]).id,
    ensures
        forall|e: AckEntry| #[trigger] live_entries(acks, now_ms).contains(e) ==> acks.contains(e),
        forall|i: int, j: int|
            0 <= i < j < live_entries(acks, now_ms).len() ==> (#[trigger] live_entries(
                acks,
                now_ms,
            )[i]).id != (#[trigger] live_entries(acks, now_ms)[j]).id,
    decreases acks.len(),
{
    if acks.len() > 0 {
        let dl = acks.drop_last();
        assert forall|i: int, j: int| 0 <= i < j < dl.len() implies (#[trigger] dl[i]).id != (
        #[trigger] dl[j]).id by {
            assert(acks[i].id != acks[j].id);
        }
        lemma_live_entries_sub(dl, now_ms);
        let l = live_entries(acks, now_ms);
        let lp = live_entries(dl, now_ms);
        assert forall|e: AckEntry| #[trigger] l.contains(e) implies acks.contains(e) by {
            let i = choose|i: int| 0 <= i < l.len() && l[i] == e;
            if i < lp.len() {
                assert(lp[i] == e);
                assert(lp.contains(e));
                let a = choose|a: int| 0 <= a < dl.len() && dl[a] == e;
                assert(acks[a] == e);
            } else {
                assert(e == acks.last());
                assert(acks[acks.len() - 1] == e);
            }
        }
        assert forall|i: int, j: int| 0 <= i < j < l.len() implies (#[trigger] l[i]).id != (
        #[trigger] l[j]).id by {
            if j < lp.len() {
                assert(lp[i].id != lp[j].id);
            } else {
                // l[j] is the final entry of acks; l[i] survives from the
                // prefix, where every id differs from the final one.
                assert(l[j] == acks.last());
                assert(lp[i] == l[i]);
                assert(lp.contains(l[i]));
                let a = choose|a: int| 0 <= a < dl.len() && dl[a] == l[i];
                assert(acks[a] == l[i]);
                assert(acks[a].id != acks[acks.len() - 1].id);
            }
        }
    }
}

/// Removing index `at` keeps every other entry and loses that one.
proof fn lemma_remove_keeps_others(acks: Seq<AckEntry>, at: int)
    requires
        0 <= at < acks.len(),
        forall|i: int, j: int|
            0 <= i < j < acks.len() ==> (#[trigger] acks[i]).id != (#[trigger] acks[j]).id,
    ensures
        !has_ack(acks.remove(at), acks[at].id),
        forall|o: u64| o != acks[at].id ==> has_ack(acks.remove(at), o) == has_ack(acks, o),
        forall|e: AckEntry| acks.remove(at).contains(e) <==> (acks.contains(e) && e.id
            != acks[at].id),
{
    let rem = acks.remove(at);
    assert(rem.len() == acks.len() - 1);
    assert forall|k: int| 0 <= k < rem.len() implies #[trigger] rem[k] == (if k < at {
        acks[k]
    } else {
        acks[k + 1]
    }) by {}
    assert forall|k: int| 0 <= k < rem.len() implies (#[trigger] rem[k]).id != acks[at].id by {
        if k < at {
            assert(acks[k].id != acks[at].id);
        } else {
            assert(acks[at].id != acks[k + 1].id);
        }
    }
    assert forall|o: u64| o != acks[at].id && has_ack(acks, o) implies has_ack(rem, o) by {
        let i = choose|i: int| 0 <= i < acks.len() && #[trigger] acks[i].id == o;
        if i < at {
            assert(rem[i].id == o);
        } else if i > at {
            assert(rem[i - 1].id == o);
        }
    }
    assert forall|e: AckEntry| acks.contains(e) && e.id != acks[at].id implies rem.contains(
        e,
    ) by {
        let i = choose|i: int| 0 <= i < acks.len() && acks[i] == e;
        if i < at {
            assert(rem[i] == e);
        } else if i > at {
            assert(rem[i - 1] == e);
        }
    }
}

fn find_ack(acks: &Vec<AckEntry>, id: u64) -> (r: Option<usize>)
    ensures
        match r {
            Some(i) => i < acks@.len() && acks@[i as int].id == id,
            None => !has_ack(acks@, id),
        },
{
    let mut i: usize = 0;
    while i < acks.len()
        invariant
            0 <= i <= acks@.len(),
            forall|j: int| 0 <= j < i ==> (#[trigger] acks@[j]).id != id,
        decreases acks@.len() - i,
    {
        if acks[i].id == id {
            return Some(i);
        }
        i = i + 1;
    }
    None
}

fn copy_chunks(v: &Vec<Vec<u8>>) -> (r: Vec<Vec<u8>>)
    ensures
        r@.map_values(|c: Vec<u8>| c@) == v@.map_values(|c: Vec<u8>| c@),
{
    let mut r: Vec<Vec<u8>> = Vec::new();
    let mut i: usize = 0;
    while i < v.len()
        invariant
            0 <= i <= v@.len(),
            r@.len() == i,
            forall|j: int| 0 <= j < i ==> #[trigger] r@[j]@ == v@[j]@,
        decreases v@.len() - i,
    {
        let c = copy_range(&v[i], 0, v[i].len());
        proof {
            assert(v@[i as int]@.subrange(0, v@[i as int]@.len() as int) =~= v@[i as int]@);
        }
        r.push(c);
        i = i + 1;
    }
    proof {
        assert(r@.map_values(|c: Vec<u8>| c@) =~~= v@.map_values(|c: Vec<u8>| c@));
    }
    r
}

fn placeholder0_exec() -> (r: Vec<u8>)
    ensures
        r@ == placeholder0(),
{
    let mut r: Vec<u8> = Vec::new();
    r.push(0x7b);
    r.push(0x22);
    r.push(0x5f);
    r.push(0x70);
    r.push(0x6c);
    r.push(0x61);
    r.push(0x63);
    r.push(0x65);
    r.push(0x68);
    r.push(0x6f);
    r.push(0x6c);
    r.push(0x64);
    r.push(0x65);
    r.push(0x72);
    r.push(0x22);
    r.push(0x3a);
    r.push(0x74);
    r.push(0x72);
    r.push(0x75);
    r.push(0x65);
    r.push(0x2c);
    r.push(0x22);
    r.push(0x6e);
    r.push(0x75);
    r.push(0x6d);
    r.push(0x22);
    r.push(0x3a);
    r.push(0x30);
    r.push(0x7d);
    proof {
        assert(r@ =~= placeholder0());
    }
    r
}

/// Builds the event packet shared by `emit` and `emit_with_ack`.
pub(crate) fn build_event_packet(nsp: &Vec<u8>, event: &Vec<u8>, payload: &Payload, id: Option<
    u64,
>) -> (r: Packet)
    requires
        nsp_wf(nsp@),
        event_wf(event@),
    ensures
        r@ == spec_event_packet(nsp@, event@, payload@, id),
        packet_wf(r@),
{
    let mut data: Vec<u8> = Vec::new();
    data.push(0x5b);
    data.push(0x22);
    let mut ev = copy_range(event, 0, event.len());
    proof {
        assert(event@.subrange(0, event@.len() as int) =~= event@);
    }
    data.append(&mut ev);
    data.push(0x22);
    match payload {
        Payload::Text(d) => {
            if d.len() > 0 {
                data.push(0x2c);
                let mut body = copy_range(d, 0, d.len());
                proof {
                    assert(d@.subrange(0, d@.len() as int) =~= d@);
                }
                data.append(&mut body);
            }
        },
        Payload::Binary(_) => {
            data.push(0x2c);
            let mut ph = placeholder0_exec();
            data.append(&mut ph);
        },
    }
    data.push(0x5d);
    proof {
        assert(data@ =~= spec_event_data(event@, payload@));
    }
    let (ptype, count, atts) = match payload {
        Payload::Text(_) => (PacketType::Event, 0u64, Vec::new()),
        Payload::Binary(b) => {
            let mut v: Vec<Vec<u8>> = Vec::new();
            v.push(copy_range(b, 0, b.len()));
            proof {
                assert(b@.subrange(0, b@.len() as int) =~= b@);
            }
            (PacketType::BinaryEvent, 1u64, v)
        },
    };
    let n = copy_range(nsp, 0, nsp.len());
    proof {
        assert(nsp@.subrange(0, nsp@.len() as int) =~= nsp@);
    }
    let p = Packet { ptype, nsp: n, data: Some(data), id, attachment_count: count,
        attachments: atts };
    proof {
        assert(p@.attachments =~~= spec_event_packet(nsp@, event@, payload@, id).attachments);
    }
    p
}

/// Reads the event name and argument bytes out of an event array
/// `["<name>"(,<args>)?]`.
pub open spec fn spec_parse_event(data: Seq<u8>) -> Option<(Seq<u8>, Seq<u8>)> {
    if data.len() < 4 || data[0] != 0x5b || data[1] != 0x22 {
        None
    } else {
        let j = first_pos(data, 2, 0x22);
        if j + 1 >= data.len() || data[data.len() - 1] != 0x5d {
            None
        } else {
            let name = data.subrange(2, j as int);
            if data[j as int + 1] == 0x5d && j + 2 == data.len() {
                Some((name, Seq::empty()))
            } else if data[j as int + 1] == 0x2c {
                Some((name, data.subrange(j as int + 2, data.len() - 1)))
            } else {
                None
            }
        }
    }
}

/// Splits one event array into name and argument bytes, exactly as
/// `spec_parse_event` describes.
pub fn parse_event(data: &Vec<u8>) -> (r: Option<(Vec<u8>, Vec<u8>)>)
    ensures
        match r {
            Some((name, args)) => spec_parse_event(data@) == Some((name@, args@)),
            None => spec_parse_event(data@) is None,
        },
{
    if data.len() < 4 {
        return None;
    }
    if data[0] != 0x5b || data[1] != 0x22 {
        return None;
    }
    let j = find_byte(data, 2, 0x22);
    if j >= data.len() - 1 || data[data.len() - 1] != 0x5d {
        return None;
    }
    let name = copy_range(data, 2, j);
    if data[j + 1] == 0x5d && j + 2 == data.len() {
        let args: Vec<u8> = Vec::new();
        proof {
            assert(args@ =~= Seq::<u8>::empty());
        }
        Some((name, args))
    } else if data[j + 1] == 0x2c {
        proof {
            // The final byte is `]`, so the comma at j + 1 stands before it.
            assert(j + 1 < data@.len() - 1);
        }
        let args = copy_range(data, j + 2, data.len() - 1);
        Some((name, args))
    } else {
        None
    }
}

/// Parsing gives back the event name and arguments that built the array.
pub proof fn lemma_parse_event_round_trip(event: Seq<u8>, payload: PayloadModel)
    requires
        event_wf(event),
    ensures
        spec_parse_event(spec_event_data(event, payload)) == Some(
            (
                event,
                match payload {
                    PayloadModel::Text(d) => d,
                    PayloadModel::Binary(_) => placeholder0(),
                },
            ),
        ),
{
    let data = spec_event_data(event, payload);
    assert(data[0] == 0x5b);
    assert(data[1] == 0x22);
    assert forall|k: int| 2 <= k < 2 + event.len() implies #[trigger] data[k] != 0x22 by {
        assert(data[k] == event[k - 2]);
    }
    assert(data[2 + event.len() as int] == 0x22);
    lemma_first_pos_determined(data, 2, 0x22, (2 + event.len()) as nat);
    let j = first_pos(data, 2, 0x22);
    assert(j == 2 + event.len());
    assert(data.subrange(2, j as int) =~= event);
    match payload {
        PayloadModel::Text(d) => {
            if d.len() == 0 {
                assert(data.len() == j + 2);
                assert(data[j as int + 1] == 0x5d);
                assert(data[data.len() - 1] == 0x5d);
            } else {
                assert(data[j as int + 1] == 0x2c);
                assert(data[data.len() - 1] == 0x5d);
                assert(data.subrange(j as int + 2, data.len() - 1) =~= d);
            }
        },
        PayloadModel::Binary(_) => {
            assert(data[j as int + 1] == 0x2c);
            assert(data[data.len() - 1] == 0x5d);
            assert(data.subrange(j as int + 2, data.len() - 1) =~= placeholder0());
        },
    }
}

} // verus!
