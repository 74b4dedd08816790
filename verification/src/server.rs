//! Server state: the namespace registry, the clients table and the rooms
//! index, with connection acceptance, room membership and broadcast fan-out
//! selection.
//!
//! Invariant: every sid held by the rooms index belongs to a registered
//! client of that namespace — joining is only possible for registered
//! clients, and dropping a client sweeps it out of every room.
use vstd::prelude::*;

use crate::packet::{Packet, PacketModel, PacketType, packet_wf};
use crate::sid::{SidGenerator, esid_wf, spec_sid};
use crate::socket::{nsp_wf, event_wf, spec_event_packet, spec_handshake_data,
    build_event_packet};
use crate::engine::Payload;
use crate::util::{bytes_eq, copy_range};

verus! {

/// One registered client: its sid, the engine session it rides on, the
/// counter value that minted the sid, and its namespace.
pub struct ClientEntry {
    pub sid: Vec<u8>,
    pub esid: Vec<u8>,
    pub seq_no: u64,
    pub nsp: Vec<u8>,
}

/// One room of one namespace and the sids inside it.
pub struct RoomEntry {
    pub nsp: Vec<u8>,
    pub room: Vec<u8>,
    pub sids: Vec<Vec<u8>>,
}

pub struct Server {
    pub namespaces: Vec<Vec<u8>>,
    pub clients: Vec<ClientEntry>,
    pub rooms: Vec<RoomEntry>,
    pub sid_gen: SidGenerator,
}

/// The namespace has a registered event table.
pub open spec fn has_nsp(s: Server, nsp: Seq<u8>) -> bool {
    exists|i: int| 0 <= i < s.namespaces@.len() && #[trigger] s.namespaces@[i]@ == nsp
}

/// `sid` is registered as a client of `nsp`.
pub open spec fn client_at(s: Server, sid: Seq<u8>, nsp: Seq<u8>) -> bool {
    exists|i: int| 0 <= i < s.clients@.len() && (#[trigger] s.clients@[i]).sid@ == sid
        && s.clients@[i].nsp@ == nsp
}

/// The room exists in the index of `nsp`.
pub open spec fn room_at(s: Server, nsp: Seq<u8>, room: Seq<u8>) -> bool {
    exists|i: int| 0 <= i < s.rooms@.len() && (#[trigger] s.rooms@[i]).nsp@ == nsp
        && s.rooms@[i].room@ == room
}

/// `sid` stands in `room` of `nsp`.
pub open spec fn in_room(s: Server, nsp: Seq<u8>, room: Seq<u8>, sid: Seq<u8>) -> bool {
    exists|i: int, k: int|
        0 <= i < s.rooms@.len() && s.rooms@[i].nsp@ == nsp && s.rooms@[i].room@ == room && 0 <= k
            < s.rooms@[i].sids@.len() && (#[trigger] s.rooms@[i].sids@[k])@ == sid
}

/// A name listed in a broadcast resolves to `sid`: through the room of that
/// name when it exists, else taken as a sid itself (direct send).
pub open spec fn is_target(s: Server, nsp: Seq<u8>, names: Seq<Seq<u8>>, sid: Seq<u8>) -> bool {
    exists|i: int| 0 <= i < names.len() && #[trigger] resolves_to(s, nsp, names[i], sid)
}

pub open spec fn resolves_to(s: Server, nsp: Seq<u8>, name: Seq<u8>, sid: Seq<u8>) -> bool {
    if room_at(s, nsp, name) {
        in_room(s, nsp, name, sid)
    } else {
        sid == name
    }
}

pub open spec fn namespaces_wf(s: Server) -> bool {
    forall|i: int| 0 <= i < s.namespaces@.len() ==> nsp_wf((#[trigger] s.namespaces@[i])@)
}

pub open spec fn clients_wf(s: Server) -> bool {
    &&& forall|i: int| 0 <= i < s.clients@.len() ==> {
        let e = #[trigger] s.clients@[i];
        &&& e.sid@ == spec_sid(e.esid@, e.seq_no as nat)
        &&& esid_wf(e.esid@)
        &&& nsp_wf(e.nsp@)
        &&& e.seq_no < s.sid_gen.seq
    }
    &&& forall|i: int, j: int|
        0 <= i < j < s.clients@.len() ==> (#[trigger] s.clients@[i]).seq_no != (
        #[trigger] s.clients@[j]).seq_no
}

pub open spec fn rooms_structure_wf(s: Server) -> bool {
    &&& forall|i: int, j: int|
        0 <= i < j < s.rooms@.len() ==> !((#[trigger] s.rooms@[i]).nsp@ == (
        #[trigger] s.rooms@[j]).nsp@ && s.rooms@[i].room@ == s.rooms@[j].room@)
    &&& forall|i: int, k1: int, k2: int|
        0 <= i < s.rooms@.len() && 0 <= k1 < k2 < (#[trigger] s.rooms@[i]).sids@.len() ==> (
        #[trigger] s.rooms@[i].sids@[k1])@ != (#[trigger] s.rooms@[i].sids@[k2])@
}

/// The rooms index speaks only of registered clients.
pub open spec fn rooms_clients_wf(s: Server) -> bool {
    forall|i: int, k: int|
        0 <= i < s.rooms@.len() && 0 <= k < (#[trigger] s.rooms@[i]).sids@.len() ==> client_at(
            s,
            (#[trigger] s.rooms@[i].sids@[k])@,
            s.rooms@[i].nsp@,
        )
}

impl Server {
    /// The rooms index speaks only of registered clients, room keys are
    /// unique, a room holds each sid once, and every minted sid came from
    /// the counter.
    pub open spec fn wf(&self) -> bool {
        &&& namespaces_wf(*self)
        &&& clients_wf(*self)
        &&& rooms_structure_wf(*self)
        &&& rooms_clients_wf(*self)
    }

    pub fn new() -> (r: Server)
        ensures
            r.wf(),
            r.namespaces@.len() == 0,
            r.clients@.len() == 0,
            r.rooms@.len() == 0,
            r.sid_gen.seq == 0,
    {
        Server {
            namespaces: Vec::new(),
            clients: Vec::new(),
            rooms: Vec::new(),
            sid_gen: SidGenerator::new(),
        }
    }

    /// Registers a namespace's event table (the builder's `on`).
    pub fn register_namespace(&mut self, nsp: Vec<u8>) -> (r: bool)
        requires
            old(self).wf(),
        ensures
            final(self).wf(),
            r == nsp_wf(nsp@),
            r ==> final(self).namespaces@ == old(self).namespaces@.push(nsp),
            !r ==> *final(self) == *old(self),
            final(self).clients@ == old(self).clients@,
            final(self).rooms@ == old(self).rooms@,
            final(self).sid_gen == old(self).sid_gen,
            forall|n: Seq<u8>| has_nsp(*final(self), n) <==> (has_nsp(*old(self), n) || (nsp_wf(
                nsp@,
            ) && n == nsp@)),
    {
        if !nsp_wf_exec(&nsp) {
            return false;
        }
        let ghost pre = *self;
        self.namespaces.push(nsp);
        proof {
            assert forall|n: Seq<u8>| has_nsp(*self, n) implies (has_nsp(pre, n) || n
                == nsp@) by {
                let i = choose|i: int|
                    0 <= i < self.namespaces@.len() && #[trigger] self.namespaces@[i]@ == n;
                if i < pre.namespaces@.len() {
                    assert(pre.namespaces@[i]@ == n);
                }
            }
            assert forall|n: Seq<u8>| has_nsp(pre, n) || n == nsp@ implies has_nsp(
                *self,
                n,
            ) by {
                if has_nsp(pre, n) {
                    let i = choose|i: int|
                        0 <= i < pre.namespaces@.len() && #[trigger] pre.namespaces@[i]@ == n;
                    assert(self.namespaces@[i]@ == n);
                } else {
                    assert(self.namespaces@[self.namespaces@.len() - 1]@ == n);
                }
            }
            assert forall|sd: Seq<u8>, n: Seq<u8>| client_at(pre, sd, n) implies client_at(
                *self,
                sd,
                n,
            ) by {
                let i = choose|i: int|
                    0 <= i < pre.clients@.len() && (#[trigger] pre.clients@[i]).sid@ == sd
                        && pre.clients@[i].nsp@ == n;
                assert(self.clients@[i].sid@ == sd && self.clients@[i].nsp@ == n);
            }
        }
        true
    }

    /// Accepts (or refuses) the first CONNECT packet of an engine session.
    /// A CONNECT to a registered namespace mints a sid, registers the
    /// client and owes the handshake reply carrying `{"sid":"<sid>"}`; a
    /// CONNECT to any namespace without an event table — a malformed name
    /// included — owes CONNECT_ERROR; any other packet is ignored.
    pub fn handle_connect(&mut self, esid: &Vec<u8>, p: &Packet) -> (r: ConnectOutcome)
        requires
            old(self).wf(),
            esid_wf(esid@),
            old(self).sid_gen.seq < u64::MAX,
        ensures
            final(self).wf(),
            final(self).namespaces@ == old(self).namespaces@,
            final(self).rooms@ == old(self).rooms@,
            p@.ptype != PacketType::Connect ==> r is Ignored && *final(self) == *old(self),
            p@.ptype == PacketType::Connect && !(nsp_wf(p@.nsp) && has_nsp(*old(self), p@.nsp))
                ==> (*final(self) == *old(self) && (r matches ConnectOutcome::Refused { reply }
                && reply@ == refusal_model(p@.nsp))),
            p@.ptype == PacketType::Connect && nsp_wf(p@.nsp) && has_nsp(*old(self), p@.nsp) ==> (
            r matches ConnectOutcome::Accepted { sid, reply } && sid@ == spec_sid(
                esid@,
                old(self).sid_gen.seq as nat,
            ) && reply@ == handshake_model(p@.nsp, sid@) && final(self).sid_gen.seq == old(
                self,
            ).sid_gen.seq + 1 && exists|e: ClientEntry|
                final(self).clients@ == old(self).clients@.push(e) && e.sid@ == sid@ && e.esid@
                    == esid@ && e.nsp@ == p@.nsp),
    {
        let is_connect = match p.ptype {
            PacketType::Connect => true,
            _ => false,
        };
        if !is_connect {
            return ConnectOutcome::Ignored;
        }
        if !nsp_wf_exec(&p.nsp) || !self.has_nsp_exec(&p.nsp) {
            let reply = Packet {
                ptype: PacketType::ConnectError,
                nsp: copy_bytes(&p.nsp),
                data: None,
                id: None,
                attachment_count: 0,
                attachments: Vec::new(),
            };
            proof {
                assert(reply@.attachments =~~= Seq::<Seq<u8>>::empty());
            }
            return ConnectOutcome::Refused { reply };
        }
        let ghost pre = *self;
        let seq_before = self.sid_gen.seq;
        let sid = self.sid_gen.generate(esid);
        let entry = ClientEntry {
            sid: copy_bytes(&sid),
            esid: copy_bytes(esid),
            seq_no: seq_before,
            nsp: copy_bytes(&p.nsp),
        };
        self.clients.push(entry);
        let mut data: Vec<u8> = Vec::new();
        data.push(0x7b);
        data.push(0x22);
        data.push(0x73);
        data.push(0x69);
        data.push(0x64);
        data.push(0x22);
        data.push(0x3a);
        data.push(0x22);
        let mut s = copy_bytes(&sid);
        data.append(&mut s);
        data.push(0x22);
        data.push(0x7d);
        proof {
            assert(data@ =~= spec_handshake_data(spec_sid(esid@, pre.sid_gen.seq as nat)));
        }
        let reply = Packet {
            ptype: PacketType::Connect,
            nsp: copy_bytes(&p.nsp),
            data: Some(data),
            id: None,
            attachment_count: 0,
            attachments: Vec::new(),
        };
        proof {
            assert(reply@.attachments =~~= Seq::<Seq<u8>>::empty());
            let e = self.clients@.last();
            assert(self.clients@ == pre.clients@.push(e));
            assert forall|sd: Seq<u8>, n: Seq<u8>| client_at(pre, sd, n) implies client_at(
                *self,
                sd,
                n,
            ) by {
                let i = choose|i: int|
                    0 <= i < pre.clients@.len() && (#[trigger] pre.clients@[i]).sid@ == sd
                        && pre.clients@[i].nsp@ == n;
                assert(self.clients@[i].sid@ == sd && self.clients@[i].nsp@ == n);
            }
        }
        ConnectOutcome::Accepted { sid, reply }
    }

    fn has_nsp_exec(&self, nsp: &Vec<u8>) -> (r: bool)
        ensures
            r == has_nsp(*self, nsp@),
    {
        let mut i: usize = 0;
        while i < self.namespaces.len()
            invariant
                0 <= i <= self.namespaces@.len(),
                forall|j: int| 0 <= j < i ==> #[trigger] self.namespaces@[j]@ != nsp@,
            decreases self.namespaces@.len() - i,
        {
            if bytes_eq(&self.namespaces[i], nsp) {
                return true;
            }
            i = i + 1;
        }
        false
    }

    /// Is `sid` a registered client of `nsp`? The lookup behind fan-out and
    /// room membership.
    pub fn has_client(&self, sid: &Vec<u8>, nsp: &Vec<u8>) -> (r: bool)
        ensures
            r == client_at(*self, sid@, nsp@),
    {
        let mut i: usize = 0;
        while i < self.clients.len()
            invariant
                0 <= i <= self.clients@.len(),
                forall|j: int| 0 <= j < i ==> !((#[trigger] self.clients@[j]).sid@ == sid@
                    && self.clients@[j].nsp@ == nsp@),
            decreases self.clients@.len() - i,
        {
            if bytes_eq(&self.clients[i].sid, sid) && bytes_eq(&self.clients[i].nsp, nsp) {
                return true;
            }
            i = i + 1;
        }
        false
    }
}

impl Server {
    /// Puts `sid` into each listed room of `nsp`, creating rooms as needed.
    /// Only a registered client of the namespace can join: the call is a
    /// no-op (returning false) otherwise, which keeps every roomed sid a
    /// client.
    pub fn join(&mut self, nsp: &Vec<u8>, rooms_list: &Vec<Vec<u8>>, sid: &Vec<u8>) -> (r: bool)
        requires
            old(self).wf(),
        ensures
            final(self).wf(),
            final(self).clients@ == old(self).clients@,
            final(self).namespaces@ == old(self).namespaces@,
            final(self).sid_gen == old(self).sid_gen,
            r == client_at(*old(self), sid@, nsp@),
            !r ==> *final(self) == *old(self),
            r ==> forall|i: int| 0 <= i < rooms_list@.len() ==> in_room(
                *final(self),
                nsp@,
                (#[trigger] rooms_list@[i])@,
                sid@,
            ),
            forall|n: Seq<u8>, ro: Seq<u8>, sd: Seq<u8>| #[trigger] in_room(*old(self), n, ro, sd)
                ==> in_room(*final(self), n, ro, sd),
            forall|n: Seq<u8>, ro: Seq<u8>, sd: Seq<u8>| #[trigger] in_room(*final(self), n, ro, sd)
                ==> in_room(*old(self), n, ro, sd) || (n == nsp@ && sd == sid@ && exists|i: int|
                0 <= i < rooms_list@.len() && (#[trigger] rooms_list@[i])@ == ro),
    {
        if !self.has_client(sid, nsp) {
            return false;
        }
        let ghost pre = *self;
        let mut i: usize = 0;
        while i < rooms_list.len()
            invariant
                0 <= i <= rooms_list@.len(),
                self.wf(),
                client_at(*self, sid@, nsp@),
                self.clients@ == pre.clients@,
                self.namespaces@ == pre.namespaces@,
                self.sid_gen == pre.sid_gen,
                forall|j: int| 0 <= j < i ==> in_room(*self, nsp@, (#[trigger] rooms_list@[j])@,
                    sid@),
                forall|n: Seq<u8>, ro: Seq<u8>, sd: Seq<u8>| #[trigger] in_room(pre, n, ro, sd)
                    ==> in_room(*self, n, ro, sd),
                forall|n: Seq<u8>, ro: Seq<u8>, sd: Seq<u8>| #[trigger] in_room(*self, n, ro, sd)
                    ==> in_room(pre, n, ro, sd) || (n == nsp@ && sd == sid@ && exists|j: int|
                    0 <= j < i && (#[trigger] rooms_list@[j])@ == ro),
            decreases rooms_list@.len() - i,
        {
            let ghost mid = *self;
            self.join_one(nsp, &rooms_list[i], sid);
            proof {
                assert forall|j: int| 0 <= j <= i implies in_room(
                    *self,
                    nsp@,
                    (#[trigger] rooms_list@[j])@,
                    sid@,
                ) by {
                    if j < i {
                        assert(in_room(mid, nsp@, rooms_list@[j]@, sid@));
                    }
                }
            }
            i = i + 1;
        }
        true
    }

    /// Puts `sid` into one room, creating it when absent.
    fn join_one(&mut self, nsp: &Vec<u8>, room: &Vec<u8>, sid: &Vec<u8>)
        requires
            old(self).wf(),
            client_at(*old(self), sid@, nsp@),
        ensures
            final(self).wf(),
            final(self).clients@ == old(self).clients@,
            final(self).namespaces@ == old(self).namespaces@,
            final(self).sid_gen == old(self).sid_gen,
            in_room(*final(self), nsp@, room@, sid@),
            forall|n: Seq<u8>, ro: Seq<u8>, sd: Seq<u8>| #[trigger] in_room(*old(self), n, ro, sd)
                ==> in_room(*final(self), n, ro, sd),
            forall|n: Seq<u8>, ro: Seq<u8>, sd: Seq<u8>| #[trigger] in_room(*final(self), n, ro, sd)
                ==> in_room(*old(self), n, ro, sd) || (n == nsp@ && ro == room@ && sd == sid@),
    {
        let ghost pre = *self;
        match self.find_room(nsp, room) {
            None => {
                let mut sids: Vec<Vec<u8>> = Vec::new();
                sids.push(copy_bytes(sid));
                let entry = RoomEntry { nsp: copy_bytes(nsp), room: copy_bytes(room), sids };
                self.rooms.push(entry);
                proof {
                    let last = self.rooms@.len() - 1;
                    assert(self.rooms@[last].sids@[0]@ == sid@);
                    assert(in_room(*self, nsp@, room@, sid@));
                    lemma_same_clients(pre, *self);
                    assert forall|n: Seq<u8>, ro: Seq<u8>, sd: Seq<u8>| #[trigger] in_room(
                        pre,
                        n,
                        ro,
                        sd,
                    ) implies in_room(*self, n, ro, sd) by {
                        let (i, k) = choose|i: int, k: int|
                            0 <= i < pre.rooms@.len() && pre.rooms@[i].nsp@ == n
                                && pre.rooms@[i].room@ == ro && 0 <= k
                                < pre.rooms@[i].sids@.len() && (#[trigger] pre.rooms@[i].sids@[k])@
                                == sd;
                        assert(self.rooms@[i].sids@[k]@ == sd);
                    }
                    assert forall|n: Seq<u8>, ro: Seq<u8>, sd: Seq<u8>| #[trigger] in_room(
                        *self,
                        n,
                        ro,
                        sd,
                    ) implies in_room(pre, n, ro, sd) || (n == nsp@ && ro == room@ && sd
                        == sid@) by {
                        let (i, k) = choose|i: int, k: int|
                            0 <= i < self.rooms@.len() && self.rooms@[i].nsp@ == n
                                && self.rooms@[i].room@ == ro && 0 <= k
                                < self.rooms@[i].sids@.len() && (
                            #[trigger] self.rooms@[i].sids@[k])@ == sd;
                        if i < pre.rooms@.len() {
                            assert(pre.rooms@[i].sids@[k]@ == sd);
                        }
                    }
                }
            },
            Some(idx) => {
                if self.room_has_sid(idx, sid) {
                    return ;
                }
                let mut entry = self.rooms.swap_remove(idx);
                entry.sids.push(copy_bytes(sid));
                self.rooms.push(entry);
                proof {
                    let last = self.rooms@.len() - 1;
                    assert(self.rooms@[last].nsp@ == nsp@);
                    assert(self.rooms@[last].room@ == room@);
                    assert(self.rooms@[last].sids@[self.rooms@[last].sids@.len() - 1]@ == sid@);
                    assert(in_room(*self, nsp@, room@, sid@));
                    lemma_same_clients(pre, *self);
                    assert forall|n: Seq<u8>, ro: Seq<u8>, sd: Seq<u8>| #[trigger] in_room(
                        pre,
                        n,
                        ro,
                        sd,
                    ) implies in_room(*self, n, ro, sd) by {
                        let (i, k) = choose|i: int, k: int|
                            0 <= i < pre.rooms@.len() && pre.rooms@[i].nsp@ == n
                                && pre.rooms@[i].room@ == ro && 0 <= k
                                < pre.rooms@[i].sids@.len() && (#[trigger] pre.rooms@[i].sids@[k])@
                                == sd;
                        if i == idx {
                            assert(self.rooms@[last].sids@[k]@ == sd);
                        } else if i == pre.rooms@.len() - 1 {
                            assert(self.rooms@[idx as int].sids@[k]@ == sd);
                        } else {
                            assert(self.rooms@[i].sids@[k]@ == sd);
                        }
                    }
                    assert forall|n: Seq<u8>, ro: Seq<u8>, sd: Seq<u8>| #[trigger] in_room(
                        *self,
                        n,
                        ro,
                        sd,
                    ) implies in_room(pre, n, ro, sd) || (n == nsp@ && ro == room@ && sd
                        == sid@) by {
                        let (i, k) = choose|i: int, k: int|
                            0 <= i < self.rooms@.len() && self.rooms@[i].nsp@ == n
                                && self.rooms@[i].room@ == ro && 0 <= k
                                < self.rooms@[i].sids@.len() && (
                            #[trigger] self.rooms@[i].sids@[k])@ == sd;
                        if i == last {
                            if k < pre.rooms@[idx as int].sids@.len() {
                                assert(pre.rooms@[idx as int].sids@[k]@ == sd);
                            }
                        } else if i == idx && idx < last {
                            assert(pre.rooms@[pre.rooms@.len() - 1].sids@[k]@ == sd);
                        } else {
                            assert(pre.rooms@[i].sids@[k]@ == sd);
                        }
                    }
                }
            },
        }
    }

    /// Index of the room entry for `(nsp, room)`, if any.
    fn find_room(&self, nsp: &Vec<u8>, room: &Vec<u8>) -> (r: Option<usize>)
        ensures
            match r {
                Some(i) => i < self.rooms@.len() && self.rooms@[i as int].nsp@ == nsp@
                    && self.rooms@[i as int].room@ == room@,
                None => !room_at(*self, nsp@, room@),
            },
    {
        let mut i: usize = 0;
        while i < self.rooms.len()
            invariant
                0 <= i <= self.rooms@.len(),
                forall|j: int| 0 <= j < i ==> !((#[trigger] self.rooms@[j]).nsp@ == nsp@
                    && self.rooms@[j].room@ == room@),
            decreases self.rooms@.len() - i,
        {
            if bytes_eq(&self.rooms[i].nsp, nsp) && bytes_eq(&self.rooms[i].room, room) {
                return Some(i);
            }
            i = i + 1;
        }
        None
    }

    fn room_has_sid(&self, idx: usize, sid: &Vec<u8>) -> (r: bool)
        requires
            idx < self.rooms@.len(),
        ensures
            r == exists|k: int|
                0 <= k < self.rooms@[idx as int].sids@.len() && (
                #[trigger] self.rooms@[idx as int].sids@[k])@ == sid@,
    {
        let mut k: usize = 0;
        while k < self.rooms[idx].sids.len()
            invariant
                idx < self.rooms@.len(),
                0 <= k <= self.rooms@[idx as int].sids@.len(),
                forall|j: int| 0 <= j < k ==> (#[trigger] self.rooms@[idx as int].sids@[j])@
                    != sid@,
            decreases self.rooms@[idx as int].sids@.len() - k,
        {
            if bytes_eq(&self.rooms[idx].sids[k], sid) {
                return true;
            }
            k = k + 1;
        }
        false
    }

    /// Takes `sid` out of each listed room of `nsp`.
    pub fn leave(&mut self, nsp: &Vec<u8>, rooms_list: &Vec<Vec<u8>>, sid: &Vec<u8>)
        requires
            old(self).wf(),
        ensures
            final(self).wf(),
            final(self).clients@ == old(self).clients@,
            final(self).namespaces@ == old(self).namespaces@,
            final(self).sid_gen == old(self).sid_gen,
            forall|i: int| 0 <= i < rooms_list@.len() ==> !in_room(
                *final(self),
                nsp@,
                (#[trigger] rooms_list@[i])@,
                sid@,
            ),
            forall|n: Seq<u8>, ro: Seq<u8>, sd: Seq<u8>| #[trigger] in_room(*final(self), n, ro, sd)
                ==> in_room(*old(self), n, ro, sd),
            forall|n: Seq<u8>, ro: Seq<u8>, sd: Seq<u8>| #[trigger] in_room(*old(self), n, ro, sd)
                ==> in_room(*final(self), n, ro, sd) || (n == nsp@ && sd == sid@ && exists|i: int|
                0 <= i < rooms_list@.len() && (#[trigger] rooms_list@[i])@ == ro),
    {
        let ghost pre = *self;
        let mut i: usize = 0;
        while i < rooms_list.len()
            invariant
                0 <= i <= rooms_list@.len(),
                self.wf(),
                self.clients@ == pre.clients@,
                self.namespaces@ == pre.namespaces@,
                self.sid_gen == pre.sid_gen,
                forall|j: int| 0 <= j < i ==> !in_room(*self, nsp@, (#[trigger] rooms_list@[j])@,
                    sid@),
                forall|n: Seq<u8>, ro: Seq<u8>, sd: Seq<u8>| #[trigger] in_room(*self, n, ro, sd)
                    ==> in_room(pre, n, ro, sd),
                forall|n: Seq<u8>, ro: Seq<u8>, sd: Seq<u8>| #[trigger] in_room(pre, n, ro, sd)
                    ==> in_room(*self, n, ro, sd) || (n == nsp@ && sd == sid@ && exists|j: int|
                    0 <= j < i && (#[trigger] rooms_list@[j])@ == ro),
            decreases rooms_list@.len() - i,
        {
            let ghost mid = *self;
            self.leave_one(nsp, &rooms_list[i], sid);
            proof {
                assert forall|j: int| 0 <= j <= i implies !in_room(
                    *self,
                    nsp@,
                    (#[trigger] rooms_list@[j])@,
                    sid@,
                ) by {
                    if j < i {
                        if in_room(*self, nsp@, rooms_list@[j]@, sid@) {
                            assert(in_room(mid, nsp@, rooms_list@[j]@, sid@));
                        }
                    }
                }
            }
            i = i + 1;
        }
    }

    /// Takes `sid` out of one room; a room or sid not present is left alone.
    fn leave_one(&mut self, nsp: &Vec<u8>, room: &Vec<u8>, sid: &Vec<u8>)
        requires
            old(self).wf(),
        ensures
            final(self).wf(),
            final(self).clients@ == old(self).clients@,
            final(self).namespaces@ == old(self).namespaces@,
            final(self).sid_gen == old(self).sid_gen,
            !in_room(*final(self), nsp@, room@, sid@),
            forall|n: Seq<u8>, ro: Seq<u8>, sd: Seq<u8>| #[trigger] in_room(*final(self), n, ro, sd)
                ==> in_room(*old(self), n, ro, sd),
            forall|n: Seq<u8>, ro: Seq<u8>, sd: Seq<u8>| #[trigger] in_room(*old(self), n, ro, sd)
                ==> in_room(*final(self), n, ro, sd) || (n == nsp@ && ro == room@ && sd == sid@),
    {
        let ghost pre = *self;
        let idx = match self.find_room(nsp, room) {
            None => {
                proof {
                    if in_room(*self, nsp@, room@, sid@) {
                        let (i, k) = choose|i: int, k: int|
                            0 <= i < self.rooms@.len() && self.rooms@[i].nsp@ == nsp@
                                && self.rooms@[i].room@ == room@ && 0 <= k
                                < self.rooms@[i].sids@.len() && (
                            #[trigger] self.rooms@[i].sids@[k])@ == sid@;
                        assert(room_at(*self, nsp@, room@));
                    }
                }
                return ;
            },
            Some(idx) => idx,
        };
        let at = match self.room_sid_index(idx, sid) {
            None => {
                proof {
                    if in_room(*self, nsp@, room@, sid@) {
                        let (i, k) = choose|i: int, k: int|
                            0 <= i < self.rooms@.len() && self.rooms@[i].nsp@ == nsp@
                                && self.rooms@[i].room@ == room@ && 0 <= k
                                < self.rooms@[i].sids@.len() && (
                            #[trigger] self.rooms@[i].sids@[k])@ == sid@;
                        // Room keys are unique, so the witness entry is idx.
                        if i != idx {
                            assert(false);
                        }
                    }
                }
                return ;
            },
            Some(at) => at,
        };
        let mut entry = self.rooms.swap_remove(idx);
        entry.sids.remove(at);
        self.rooms.push(entry);
        proof {
            let last = self.rooms@.len() - 1;
            lemma_same_clients(pre, *self);
            let ghost oldsids = pre.rooms@[idx as int].sids@;
            assert(self.rooms@[last].sids@ == oldsids.remove(at as int));
            assert forall|n: Seq<u8>, ro: Seq<u8>, sd: Seq<u8>| #[trigger] in_room(
                *self,
                n,
                ro,
                sd,
            ) implies in_room(pre, n, ro, sd) by {
                let (i, k) = choose|i: int, k: int|
                    0 <= i < self.rooms@.len() && self.rooms@[i].nsp@ == n && self.rooms@[i].room@
                        == ro && 0 <= k < self.rooms@[i].sids@.len() && (
                    #[trigger] self.rooms@[i].sids@[k])@ == sd;
                if i == last {
                    if k < at {
                        assert(pre.rooms@[idx as int].sids@[k]@ == sd);
                    } else {
                        assert(pre.rooms@[idx as int].sids@[k + 1]@ == sd);
                    }
                } else if i == idx && idx < last {
                    assert(pre.rooms@[pre.rooms@.len() - 1].sids@[k]@ == sd);
                } else {
                    assert(pre.rooms@[i].sids@[k]@ == sd);
                }
            }
            assert forall|n: Seq<u8>, ro: Seq<u8>, sd: Seq<u8>| #[trigger] in_room(pre, n, ro, sd)
                implies in_room(*self, n, ro, sd) || (n == nsp@ && ro == room@ && sd
                == sid@) by {
                let (i, k) = choose|i: int, k: int|
                    0 <= i < pre.rooms@.len() && pre.rooms@[i].nsp@ == n && pre.rooms@[i].room@
                        == ro && 0 <= k < pre.rooms@[i].sids@.len() && (
                    #[trigger] pre.rooms@[i].sids@[k])@ == sd;
                if i == idx {
                    if k < at {
                        assert(self.rooms@[last].sids@[k]@ == sd);
                    } else if k > at {
                        assert(self.rooms@[last].sids@[k - 1]@ == sd);
                    } else {
                        assert(n == nsp@ && ro == room@ && sd == sid@);
                    }
                } else if i == pre.rooms@.len() - 1 {
                    assert(self.rooms@[idx as int].sids@[k]@ == sd);
                } else {
                    assert(self.rooms@[i].sids@[k]@ == sd);
                }
            }
            assert(!in_room(*self, nsp@, room@, sid@)) by {
                if in_room(*self, nsp@, room@, sid@) {
                    let (i, k) = choose|i: int, k: int|
                        0 <= i < self.rooms@.len() && self.rooms@[i].nsp@ == nsp@
                            && self.rooms@[i].room@ == room@ && 0 <= k
                            < self.rooms@[i].sids@.len() && (#[trigger] self.rooms@[i].sids@[k])@
                            == sid@;
                    // Room keys are unique, so the hit must be the rebuilt
                    // entry, whose sids no longer hold this one.
                    assert(i == last);
                    if k < at {
                        assert(oldsids[k]@ != oldsids[at as int]@);
                    } else {
                        assert(oldsids[k + 1]@ != oldsids[at as int]@);
                    }
                }
            }
        }
    }

    fn room_sid_index(&self, idx: usize, sid: &Vec<u8>) -> (r: Option<usize>)
        requires
            idx < self.rooms@.len(),
        ensures
            match r {
                Some(k) => k < self.rooms@[idx as int].sids@.len() && self.rooms@[
                    idx as int
                ].sids@[k as int]@ == sid@,
                None => forall|k: int|
                    0 <= k < self.rooms@[idx as int].sids@.len() ==> (
                    #[trigger] self.rooms@[idx as int].sids@[k])@ != sid@,
            },
    {
        let mut k: usize = 0;
        while k < self.rooms[idx].sids.len()
            invariant
                idx < self.rooms@.len(),
                0 <= k <= self.rooms@[idx as int].sids@.len(),
                forall|j: int| 0 <= j < k ==> (#[trigger] self.rooms@[idx as int].sids@[j])@
                    != sid@,
            decreases self.rooms@[idx as int].sids@.len() - k,
        {
            if bytes_eq(&self.rooms[idx].sids[k], sid) {
                return Some(k);
            }
            k = k + 1;
        }
        None
    }
}

/// A sid stands in the list (of sids or names).
pub open spec fn vec_has(v: Seq<Vec<u8>>, sd: Seq<u8>) -> bool {
    exists|i: int| 0 <= i < v.len() && (#[trigger] v[i])@ == sd
}

/// Appending one element extends list membership by exactly its view.
proof fn lemma_push_vec_has(pre: Seq<Vec<u8>>, post: Seq<Vec<u8>>)
    requires
        post.len() == pre.len() + 1,
        forall|j: int| 0 <= j < pre.len() ==> post[j] == #[trigger] pre[j],
    ensures
        forall|sd: Seq<u8>| #[trigger] vec_has(post, sd) <==> (vec_has(pre, sd) || sd == post[
            post.len() - 1
        ]@),
{
    assert forall|sd: Seq<u8>| #[trigger] vec_has(post, sd) implies (vec_has(pre, sd) || sd
        == post[post.len() - 1]@) by {
        let j = choose|j: int| 0 <= j < post.len() && (#[trigger] post[j])@ == sd;
        if j < pre.len() {
            assert(pre[j]@ == sd);
        }
    }
    assert forall|sd: Seq<u8>| vec_has(pre, sd) || sd == post[post.len() - 1]@ implies
        #[trigger] vec_has(post, sd) by {
        if vec_has(pre, sd) {
            let j = choose|j: int| 0 <= j < pre.len() && (#[trigger] pre[j])@ == sd;
            assert(post[j]@ == sd);
        }
    }
}

/// Appending an element not yet present keeps the list duplicate-free.
proof fn lemma_push_distinct(pre: Seq<Vec<u8>>, post: Seq<Vec<u8>>)
    requires
        post.len() == pre.len() + 1,
        forall|j: int| 0 <= j < pre.len() ==> post[j] == #[trigger] pre[j],
        forall|a: int, b: int| 0 <= a < b < pre.len() ==> (#[trigger] pre[a])@ != (
        #[trigger] pre[b])@,
        !vec_has(pre, post[post.len() - 1]@),
    ensures
        forall|a: int, b: int| 0 <= a < b < post.len() ==> (#[trigger] post[a])@ != (
        #[trigger] post[b])@,
{
    assert forall|a: int, b: int| 0 <= a < b < post.len() implies (#[trigger] post[a])@ != (
    #[trigger] post[b])@ by {
        if b < pre.len() {
            assert(pre[a]@ != pre[b]@);
        } else {
            assert(post[a] == pre[a]);
            if pre[a]@ == post[b]@ {
                assert(vec_has(pre, post[post.len() - 1]@));
            }
        }
    }
}

impl Server {
    /// The sids a broadcast to the listed names reaches, each once: the
    /// union of the named rooms, a name with no room standing for itself (a
    /// direct send).
    pub fn sids_to_emit(&self, nsp: &Vec<u8>, names: &Vec<Vec<u8>>) -> (r: Vec<Vec<u8>>)
        requires
            self.wf(),
        ensures
            forall|a: int, b: int| 0 <= a < b < r@.len() ==> (#[trigger] r@[a])@ != (
            #[trigger] r@[b])@,
            forall|sd: Seq<u8>| #[trigger] vec_has(r@, sd) <==> is_target(
                *self,
                nsp@,
                names@.map_values(|v: Vec<u8>| v@),
                sd,
            ),
    {
        let ghost nv = names@.map_values(|v: Vec<u8>| v@);
        let mut r: Vec<Vec<u8>> = Vec::new();
        let mut i: usize = 0;
        proof {
            assert forall|sd: Seq<u8>| #[trigger] vec_has(r@, sd) <==> is_target(
                *self,
                nsp@,
                nv.subrange(0, 0),
                sd,
            ) by {
                assert(nv.subrange(0, 0).len() == 0);
            }
        }
        while i < names.len()
            invariant
                0 <= i <= names@.len(),
                self.wf(),
                nv == names@.map_values(|v: Vec<u8>| v@),
                forall|a: int, b: int| 0 <= a < b < r@.len() ==> (#[trigger] r@[a])@ != (
                #[trigger] r@[b])@,
                forall|sd: Seq<u8>| #[trigger] vec_has(r@, sd) <==> is_target(
                    *self,
                    nsp@,
                    nv.subrange(0, i as int),
                    sd,
                ),
            decreases names@.len() - i,
        {
            let ghost r_before = r@;
            match self.find_room(nsp, &names[i]) {
                Some(idx) => {
                    let mut k: usize = 0;
                    while k < self.rooms[idx].sids.len()
                        invariant
                            idx < self.rooms@.len(),
                            self.rooms@[idx as int].nsp@ == nsp@,
                            self.rooms@[idx as int].room@ == nv[i as int],
                            i < names@.len(),
                            nv == names@.map_values(|v: Vec<u8>| v@),
                            0 <= k <= self.rooms@[idx as int].sids@.len(),
                            self.wf(),
                            forall|a: int, b: int| 0 <= a < b < r@.len() ==> (#[trigger] r@[a])@
                                != (#[trigger] r@[b])@,
                            forall|sd: Seq<u8>| #[trigger] vec_has(r@, sd) <==> (vec_has(
                                r_before,
                                sd,
                            ) || exists|kk: int|
                                0 <= kk < k && (
                                #[trigger] self.rooms@[idx as int].sids@[kk])@ == sd),
                            forall|sd: Seq<u8>| #[trigger] vec_has(r_before, sd) <==> is_target(
                                *self,
                                nsp@,
                                nv.subrange(0, i as int),
                                sd,
                            ),
                        decreases self.rooms@[idx as int].sids@.len() - k,
                    {
                        let candidate = copy_bytes(&self.rooms[idx].sids[k]);
                        let ghost r_pre = r@;
                        if !contains_sid(&r, &candidate) {
                            r.push(candidate);
                            proof {
                                lemma_push_vec_has(r_pre, r@);
                                lemma_push_distinct(r_pre, r@);
                                assert(r@[r@.len() - 1]@ == self.rooms@[idx as int].sids@[
                                    k as int
                                ]@);
                            }
                        }
                        proof {
                            assert forall|sd: Seq<u8>| #[trigger] vec_has(r@, sd) <==> (vec_has(
                                r_before,
                                sd,
                            ) || exists|kk: int|
                                0 <= kk < k + 1 && (#[trigger] self.rooms@[idx as int].sids@[kk])@
                                    == sd) by {
                                if vec_has(r@, sd) && !vec_has(r_before, sd) {
                                    if vec_has(r_pre, sd) {
                                        let kk = choose|kk: int|
                                            0 <= kk < k && (
                                            #[trigger] self.rooms@[idx as int].sids@[kk])@ == sd;
                                        assert(0 <= kk < k + 1);
                                    } else {
                                        assert(sd == self.rooms@[idx as int].sids@[k as int]@);
                                    }
                                }
                                if !vec_has(r@, sd) && exists|kk: int|
                                    0 <= kk < k + 1 && (#[trigger] self.rooms@[idx as int].sids@[
                                        kk
                                    ])@ == sd {
                                    let kk = choose|kk: int|
                                        0 <= kk < k + 1 && (#[trigger] self.rooms@[idx as int].sids@[
                                            kk
                                        ])@ == sd;
                                    if kk < k {
                                        assert(vec_has(r_pre, sd));
                                        assert(vec_has(r@, sd));
                                    } else {
                                        assert(vec_has(r_pre, sd) || r@[r@.len() - 1]@ == sd);
                                        assert(vec_has(r@, sd));
                                    }
                                }
                            }
                        }
                        k = k + 1;
                    }
                    proof {
                        assert(room_at(*self, nsp@, nv[i as int]));
                        assert forall|sd: Seq<u8>| #[trigger] vec_has(r@, sd) <==> is_target(
                            *self,
                            nsp@,
                            nv.subrange(0, i + 1),
                            sd,
                        ) by {
                            lemma_target_step(*self, nsp@, nv, i as int);
                            if vec_has(r@, sd) {
                                if !vec_has(r_before, sd) {
                                    let kk = choose|kk: int|
                                        0 <= kk < self.rooms@[idx as int].sids@.len() && (
                                        #[trigger] self.rooms@[idx as int].sids@[kk])@ == sd;
                                    assert(in_room(*self, nsp@, nv[i as int], sd));
                                }
                            }
                            if is_target(*self, nsp@, nv.subrange(0, i + 1), sd) && !is_target(
                                *self,
                                nsp@,
                                nv.subrange(0, i as int),
                                sd,
                            ) {
                                assert(resolves_to(*self, nsp@, nv[i as int], sd));
                                assert(in_room(*self, nsp@, nv[i as int], sd));
                                let (ii, kk) = choose|ii: int, kk: int|
                                    0 <= ii < self.rooms@.len() && self.rooms@[ii].nsp@ == nsp@
                                        && self.rooms@[ii].room@ == nv[i as int] && 0 <= kk
                                        < self.rooms@[ii].sids@.len() && (
                                    #[trigger] self.rooms@[ii].sids@[kk])@ == sd;
                                // Room keys are unique, so the witness is idx.
                                if ii != idx {
                                    assert(false);
                                }
                            }
                        }
                    }
                },
                None => {
                    let candidate = copy_bytes(&names[i]);
                    let ghost r_pre = r@;
                    if !contains_sid(&r, &candidate) {
                        r.push(candidate);
                        proof {
                            lemma_push_vec_has(r_pre, r@);
                            lemma_push_distinct(r_pre, r@);
                            assert(r@[r@.len() - 1]@ == nv[i as int]);
                        }
                    }
                    proof {
                        assert(!room_at(*self, nsp@, nv[i as int]));
                        assert forall|sd: Seq<u8>| #[trigger] vec_has(r@, sd) <==> is_target(
                            *self,
                            nsp@,
                            nv.subrange(0, i + 1),
                            sd,
                        ) by {
                            lemma_target_step(*self, nsp@, nv, i as int);
                            if vec_has(r@, sd) && !vec_has(r_before, sd) {
                                assert(sd == nv[i as int]);
                                assert(resolves_to(*self, nsp@, nv[i as int], sd));
                            }
                            if is_target(*self, nsp@, nv.subrange(0, i + 1), sd) && !is_target(
                                *self,
                                nsp@,
                                nv.subrange(0, i as int),
                                sd,
                            ) {
                                assert(resolves_to(*self, nsp@, nv[i as int], sd));
                                assert(sd == nv[i as int]);
                                assert(vec_has(r_pre, sd) || r@[r@.len() - 1]@ == sd);
                                assert(vec_has(r@, sd));
                            }
                        }
                    }
                },
            }
            i = i + 1;
            proof {
                assert(nv.subrange(0, i as int) == nv.subrange(0, i as int));
            }
        }
        proof {
            assert(nv.subrange(0, nv.len() as int) =~~= nv);
        }
        r
    }

    /// The recipients of one broadcast: the targeted sids that are
    /// registered clients of the namespace. A listed name that is neither a
    /// room nor a client sid reaches nobody.
    fn recipients(&self, nsp: &Vec<u8>, names: &Vec<Vec<u8>>) -> (r: Vec<Vec<u8>>)
        requires
            self.wf(),
        ensures
            forall|a: int, b: int| 0 <= a < b < r@.len() ==> (#[trigger] r@[a])@ != (
            #[trigger] r@[b])@,
            forall|sd: Seq<u8>| #[trigger] vec_has(r@, sd) <==> (is_target(
                *self,
                nsp@,
                names@.map_values(|v: Vec<u8>| v@),
                sd,
            ) && client_at(*self, sd, nsp@)),
    {
        let all = self.sids_to_emit(nsp, names);
        let mut out: Vec<Vec<u8>> = Vec::new();
        let mut k: usize = 0;
        while k < all.len()
            invariant
                0 <= k <= all@.len(),
                self.wf(),
                forall|a: int, b: int| 0 <= a < b < all@.len() ==> (#[trigger] all@[a])@ != (
                #[trigger] all@[b])@,
                forall|sd: Seq<u8>| #[trigger] vec_has(all@, sd) <==> (is_target(
                    *self,
                    nsp@,
                    names@.map_values(|v: Vec<u8>| v@),
                    sd,
                ) && true),
                forall|sd: Seq<u8>| #[trigger] vec_has(out@, sd) ==> exists|j: int|
                    0 <= j < k && (#[trigger] all@[j])@ == sd,
                forall|sd: Seq<u8>| #[trigger] vec_has(out@, sd) <==> (vec_has(
                    all@.subrange(0, k as int),
                    sd,
                ) && client_at(*self, sd, nsp@)),
                forall|a: int, b: int| 0 <= a < b < out@.len() ==> (#[trigger] out@[a])@ != (
                #[trigger] out@[b])@,
            decreases all@.len() - k,
        {
            let candidate = copy_bytes(&all[k]);
            let ghost out_pre = out@;
            if self.has_client(&candidate, nsp) {
                proof {
                    if vec_has(out@, all@[k as int]@) {
                        let j = choose|j: int|
                            0 <= j < k && (#[trigger] all@[j])@ == all@[k as int]@;
                        assert(false);
                    }
                }
                out.push(candidate);
                proof {
                    lemma_push_vec_has(out_pre, out@);
                    lemma_push_distinct(out_pre, out@);
                    assert(out@[out@.len() - 1]@ == all@[k as int]@);
                }
            }
            proof {
                assert forall|sd: Seq<u8>| #[trigger] vec_has(out@, sd) implies exists|j: int|
                    0 <= j < k + 1 && (#[trigger] all@[j])@ == sd by {
                    if vec_has(out_pre, sd) {
                        let j = choose|j: int| 0 <= j < k && (#[trigger] all@[j])@ == sd;
                        assert(0 <= j < k + 1);
                    } else {
                        assert(all@[k as int]@ == sd);
                    }
                }
                assert forall|sd: Seq<u8>| #[trigger] vec_has(out@, sd) implies (vec_has(
                    all@.subrange(0, k + 1),
                    sd,
                ) && client_at(*self, sd, nsp@)) by {
                    if vec_has(out_pre, sd) {
                        assert(vec_has(all@.subrange(0, k as int), sd));
                        let j = choose|j: int|
                            0 <= j < k && (#[trigger] all@.subrange(0, k as int)[j])@ == sd;
                        assert(all@.subrange(0, k + 1)[j]@ == sd);
                    } else {
                        assert(all@[k as int]@ == sd);
                        assert(all@.subrange(0, k + 1)[k as int]@ == sd);
                        assert(client_at(*self, sd, nsp@));
                    }
                }
                assert forall|sd: Seq<u8>|
                    vec_has(all@.subrange(0, k + 1), sd) && client_at(*self, sd, nsp@) implies
                    #[trigger] vec_has(out@, sd) by {
                    let j = choose|j: int|
                        0 <= j < k + 1 && (#[trigger] all@.subrange(0, k + 1)[j])@ == sd;
                    if j < k {
                        assert(all@.subrange(0, k as int)[j]@ == sd);
                        assert(vec_has(all@.subrange(0, k as int), sd));
                        assert(vec_has(out_pre, sd));
                        let jj = choose|jj: int|
                            0 <= jj < out_pre.len() && (#[trigger] out_pre[jj])@ == sd;
                        assert(out@[jj]@ == sd);
                    } else {
                        assert(all@[k as int]@ == sd);
                        assert(out@[out@.len() - 1]@ == sd);
                    }
                }
            }
            k = k + 1;
        }
        proof {
            assert(all@.subrange(0, all@.len() as int) =~~= all@);
        }
        out
    }

    /// Fans one event out to the listed rooms (or sids): the recipients and
    /// the one EVENT packet each of them is sent. Best-effort per
    /// recipient; a name reaching nobody reaches nobody silently.
    pub fn emit_to(&self, nsp: &Vec<u8>, names: &Vec<Vec<u8>>, event: &Vec<u8>, payload: &Payload)
        -> (r: (Vec<Vec<u8>>, Packet))
        requires
            self.wf(),
            nsp_wf(nsp@),
            event_wf(event@),
        ensures
            r.1@ == spec_event_packet(nsp@, event@, payload@, None),
            packet_wf(r.1@),
            forall|a: int, b: int| 0 <= a < b < r.0@.len() ==> (#[trigger] r.0@[a])@ != (
            #[trigger] r.0@[b])@,
            forall|sd: Seq<u8>| #[trigger] vec_has(r.0@, sd) <==> (is_target(
                *self,
                nsp@,
                names@.map_values(|v: Vec<u8>| v@),
                sd,
            ) && client_at(*self, sd, nsp@)),
    {
        let out = self.recipients(nsp, names);
        let p = build_event_packet(nsp, event, payload, None);
        (out, p)
    }

    /// The recipients of a broadcast that expects acknowledgments: the same
    /// fan-out as `emit_to`; each recipient's socket then registers its own
    /// ledger entry under the shared timeout.
    pub fn emit_to_with_ack(
        &self,
        nsp: &Vec<u8>,
        names: &Vec<Vec<u8>>,
        event: &Vec<u8>,
        payload: &Payload,
        timeout_ms: u64,
    ) -> (r: Vec<Vec<u8>>)
        requires
            self.wf(),
            nsp_wf(nsp@),
            event_wf(event@),
        ensures
            forall|a: int, b: int| 0 <= a < b < r@.len() ==> (#[trigger] r@[a])@ != (
            #[trigger] r@[b])@,
            forall|sd: Seq<u8>| #[trigger] vec_has(r@, sd) <==> (is_target(
                *self,
                nsp@,
                names@.map_values(|v: Vec<u8>| v@),
                sd,
            ) && client_at(*self, sd, nsp@)),
    {
        // The event, payload and timeout flow on to each recipient's own
        // `emit_with_ack`, which mints that socket's ledger entry; the
        // selection itself depends only on the rooms index.
        let _ = (event, payload, timeout_ms);
        self.recipients(nsp, names)
    }
}

/// An engine session owns the client registered under `sd`.
pub open spec fn dropped_sid(s: Server, esid: Seq<u8>, sd: Seq<u8>) -> bool {
    exists|i: int| 0 <= i < s.clients@.len() && (#[trigger] s.clients@[i]).esid@ == esid
        && s.clients@[i].sid@ == sd
}

/// The same client facts, stated of a bare entry list.
pub open spec fn centry_at(cs: Seq<ClientEntry>, sid: Seq<u8>, nsp: Seq<u8>) -> bool {
    exists|i: int| 0 <= i < cs.len() && (#[trigger] cs[i]).sid@ == sid && cs[i].nsp@ == nsp
}

/// Field-for-field agreement of two client entries, up to views.
pub open spec fn entry_like(a: ClientEntry, b: ClientEntry) -> bool {
    a.sid@ == b.sid@ && a.esid@ == b.esid@ && a.seq_no == b.seq_no && a.nsp@ == b.nsp@
}

impl Server {
    /// The sid and namespace already registered for an engine session, if
    /// any: the lookup that lets a later poll of the same session reuse its
    /// socket. Recovers each engine sid from the stored sid, which the sid
    /// round trip guarantees.
    pub fn polling_transport_info(&self, esid: &Vec<u8>) -> (r: Option<(Vec<u8>, Vec<u8>)>)
        requires
            self.wf(),
        ensures
            match r {
                Some(pair) => exists|i: int|
                    0 <= i < self.clients@.len() && (#[trigger] self.clients@[i]).esid@ == esid@
                        && self.clients@[i].sid@ == pair.0@ && self.clients@[i].nsp@ == pair.1@,
                None => forall|i: int|
                    0 <= i < self.clients@.len() ==> (#[trigger] self.clients@[i]).esid@ != esid@,
            },
    {
        let mut i: usize = 0;
        while i < self.clients.len()
            invariant
                0 <= i <= self.clients@.len(),
                self.wf(),
                forall|j: int| 0 <= j < i ==> (#[trigger] self.clients@[j]).esid@ != esid@,
            decreases self.clients@.len() - i,
        {
            let decoded = SidGenerator::decode(&self.clients[i].sid);
            proof {
                let e = self.clients@[i as int];
                assert(e.sid@ == spec_sid(e.esid@, e.seq_no as nat));
                assert(esid_wf(e.esid@));
            }
            match decoded {
                Some(back) => {
                    if bytes_eq(&back, esid) {
                        let sid = copy_bytes(&self.clients[i].sid);
                        let nsp = copy_bytes(&self.clients[i].nsp);
                        return Some((sid, nsp));
                    }
                },
                None => {
                    proof {
                        assert(false);
                    }
                },
            }
            i = i + 1;
        }
        None
    }

    /// Tears down everything an engine session owned: its clients leave the
    /// table and their sids leave every room, which keeps every roomed sid
    /// a registered client. Returns the dropped sids so their sockets'
    /// pending acknowledgments can be resolved.
    pub fn drop_client(&mut self, esid: &Vec<u8>) -> (r: Vec<Vec<u8>>)
        requires
            old(self).wf(),
        ensures
            final(self).wf(),
            final(self).namespaces@ == old(self).namespaces@,
            final(self).sid_gen == old(self).sid_gen,
            forall|sd: Seq<u8>| #[trigger] vec_has(r@, sd) <==> dropped_sid(*old(self), esid@, sd),
            forall|j: int| 0 <= j < final(self).clients@.len() ==> (
            #[trigger] final(self).clients@[j]).esid@ != esid@,
            forall|sd: Seq<u8>, n: Seq<u8>| #[trigger] client_at(*final(self), sd, n)
                ==> client_at(*old(self), sd, n),
            forall|sd: Seq<u8>, n: Seq<u8>|
                client_at(*old(self), sd, n) && !dropped_sid(*old(self), esid@, sd)
                    ==> #[trigger] client_at(*final(self), sd, n),
            forall|n: Seq<u8>, ro: Seq<u8>, sd: Seq<u8>| #[trigger] in_room(*final(self), n, ro, sd)
                ==> in_room(*old(self), n, ro, sd) && !dropped_sid(*old(self), esid@, sd),
            forall|n: Seq<u8>, ro: Seq<u8>, sd: Seq<u8>|
                in_room(*old(self), n, ro, sd) && !dropped_sid(*old(self), esid@, sd)
                    ==> #[trigger] in_room(*final(self), n, ro, sd),
    {
        let ghost pre = *self;
        let dropped = self.remove_clients_of(esid);
        let ghost mid = *self;
        self.sweep_rooms(&dropped);
        proof {
            assert(mid.clients@ == self.clients@);
            lemma_drop_client_post(pre, *self, esid@, dropped@);
        }
        dropped
    }

    /// First half of a teardown: takes every client of the engine session
    /// out of the table and collects their sids. The rooms still hold the
    /// dropped sids until `sweep_rooms` runs.
    #[verifier::spinoff_prover]
    #[verifier::rlimit(100)]
    fn remove_clients_of(&mut self, esid: &Vec<u8>) -> (r: Vec<Vec<u8>>)
        requires
            old(self).wf(),
        ensures
            final(self).namespaces@ == old(self).namespaces@,
            final(self).rooms@ == old(self).rooms@,
            final(self).sid_gen == old(self).sid_gen,
            clients_wf(*final(self)),
            forall|sd: Seq<u8>| #[trigger] vec_has(r@, sd) <==> dropped_sid(*old(self), esid@, sd),
            forall|a: int| 0 <= a < final(self).clients@.len() ==> (
            #[trigger] final(self).clients@[a]).esid@ != esid@,
            forall|sd: Seq<u8>, n: Seq<u8>| #[trigger] centry_at(final(self).clients@, sd, n)
                <==> exists|j: int|
                0 <= j < old(self).clients@.len() && (#[trigger] old(self).clients@[j]).sid@ == sd
                    && old(self).clients@[j].nsp@ == n && old(self).clients@[j].esid@ != esid@,
    {
        let ghost pre = *self;
        let mut kept: Vec<ClientEntry> = Vec::new();
        let mut dropped: Vec<Vec<u8>> = Vec::new();
        let mut i: usize = 0;
        while i < self.clients.len()
            invariant
                0 <= i <= self.clients@.len(),
                *self == pre,
                pre.wf(),
                forall|a: int| 0 <= a < kept@.len() ==> (#[trigger] kept@[a]).esid@ != esid@,
                forall|a: int| 0 <= a < kept@.len() ==> exists|j: int|
                    0 <= j < i && entry_like(#[trigger] kept@[a], pre.clients@[j]),
                forall|a: int, b: int|
                    0 <= a < b < kept@.len() ==> (#[trigger] kept@[a]).seq_no != (
                    #[trigger] kept@[b]).seq_no,
                forall|sd: Seq<u8>| #[trigger] vec_has(dropped@, sd) <==> exists|j: int|
                    0 <= j < i && (#[trigger] pre.clients@[j]).esid@ == esid@
                        && pre.clients@[j].sid@ == sd,
                forall|sd: Seq<u8>, n: Seq<u8>| #[trigger] centry_at(kept@, sd, n) <==> exists|
                    j: int,
                |
                    0 <= j < i && (#[trigger] pre.clients@[j]).sid@ == sd && pre.clients@[j].nsp@
                        == n && pre.clients@[j].esid@ != esid@,
            decreases self.clients@.len() - i,
        {
            let e_esid_match = bytes_eq(&self.clients[i].esid, esid);
            let ghost kept_pre = kept@;
            let ghost dropped_pre = dropped@;
            if e_esid_match {
                dropped.push(copy_bytes(&self.clients[i].sid));
                proof {
                    assert forall|sd: Seq<u8>| #[trigger] vec_has(dropped@, sd) implies exists|
                        j: int,
                    |
                        0 <= j < i + 1 && (#[trigger] pre.clients@[j]).esid@ == esid@
                            && pre.clients@[j].sid@ == sd by {
                        let a = choose|a: int|
                            0 <= a < dropped@.len() && (#[trigger] dropped@[a])@ == sd;
                        if a < dropped_pre.len() {
                            assert(dropped_pre[a]@ == sd);
                            assert(vec_has(dropped_pre, sd));
                            let j = choose|j: int|
                                0 <= j < i && (#[trigger] pre.clients@[j]).esid@ == esid@
                                    && pre.clients@[j].sid@ == sd;
                            assert(0 <= j < i + 1);
                        } else {
                            assert(pre.clients@[i as int].sid@ == sd);
                        }
                    }
                    assert forall|sd: Seq<u8>|
                        (exists|j: int|
                            0 <= j < i + 1 && (#[trigger] pre.clients@[j]).esid@ == esid@
                                && pre.clients@[j].sid@ == sd) implies #[trigger] vec_has(
                        dropped@,
                        sd,
                    ) by {
                        let j = choose|j: int|
                            0 <= j < i + 1 && (#[trigger] pre.clients@[j]).esid@ == esid@
                                && pre.clients@[j].sid@ == sd;
                        if j < i {
                            assert(vec_has(dropped_pre, sd));
                            let a = choose|a: int|
                                0 <= a < dropped_pre.len() && (#[trigger] dropped_pre[a])@ == sd;
                            assert(dropped@[a]@ == sd);
                        } else {
                            assert(dropped@[dropped@.len() - 1]@ == sd);
                        }
                    }
                    assert forall|sd: Seq<u8>, n: Seq<u8>| #[trigger] centry_at(kept@, sd, n)
                        <==> exists|j: int|
                        0 <= j < i + 1 && (#[trigger] pre.clients@[j]).sid@ == sd
                            && pre.clients@[j].nsp@ == n && pre.clients@[j].esid@ != esid@ by {
                        if centry_at(kept@, sd, n) {
                            let j = choose|j: int|
                                0 <= j < i && (#[trigger] pre.clients@[j]).sid@ == sd
                                    && pre.clients@[j].nsp@ == n && pre.clients@[j].esid@ != esid@;
                            assert(0 <= j < i + 1);
                        }
                        if exists|j: int|
                            0 <= j < i + 1 && (#[trigger] pre.clients@[j]).sid@ == sd
                                && pre.clients@[j].nsp@ == n && pre.clients@[j].esid@ != esid@ {
                            let j = choose|j: int|
                                0 <= j < i + 1 && (#[trigger] pre.clients@[j]).sid@ == sd
                                    && pre.clients@[j].nsp@ == n && pre.clients@[j].esid@
                                    != esid@;
                            assert(j != i);
                            assert(centry_at(kept@, sd, n));
                        }
                    }
                }
            } else {
                let e = ClientEntry {
                    sid: copy_bytes(&self.clients[i].sid),
                    esid: copy_bytes(&self.clients[i].esid),
                    seq_no: self.clients[i].seq_no,
                    nsp: copy_bytes(&self.clients[i].nsp),
                };
                kept.push(e);
                proof {
                    assert(entry_like(kept@[kept@.len() - 1], pre.clients@[i as int]));
                    assert forall|a: int| 0 <= a < kept@.len() implies exists|j: int|
                        0 <= j < i + 1 && entry_like(#[trigger] kept@[a], pre.clients@[j]) by {
                        if a < kept_pre.len() {
                            let j = choose|j: int|
                                0 <= j < i && entry_like(#[trigger] kept_pre[a], pre.clients@[j]);
                            assert(entry_like(kept@[a], pre.clients@[j]));
                        }
                    }
                    assert forall|a: int, b: int| 0 <= a < b < kept@.len() implies (
                    #[trigger] kept@[a]).seq_no != (#[trigger] kept@[b]).seq_no by {
                        if b == kept@.len() - 1 {
                            let j = choose|j: int|
                                0 <= j < i && entry_like(#[trigger] kept_pre[a], pre.clients@[j]);
                            assert(pre.clients@[j].seq_no != pre.clients@[i as int].seq_no);
                        } else {
                            assert(kept_pre[a].seq_no != kept_pre[b].seq_no);
                        }
                    }
                    assert forall|sd: Seq<u8>| #[trigger] vec_has(dropped@, sd) <==> exists|j: int|
                        0 <= j < i + 1 && (#[trigger] pre.clients@[j]).esid@ == esid@
                            && pre.clients@[j].sid@ == sd by {
                        if vec_has(dropped@, sd) {
                            let j = choose|j: int|
                                0 <= j < i && (#[trigger] pre.clients@[j]).esid@ == esid@
                                    && pre.clients@[j].sid@ == sd;
                            assert(0 <= j < i + 1);
                        }
                        if exists|j: int|
                            0 <= j < i + 1 && (#[trigger] pre.clients@[j]).esid@ == esid@
                                && pre.clients@[j].sid@ == sd {
                            let j = choose|j: int|
                                0 <= j < i + 1 && (#[trigger] pre.clients@[j]).esid@ == esid@
                                    && pre.clients@[j].sid@ == sd;
                            assert(j != i);
                        }
                    }
                    assert forall|sd: Seq<u8>, n: Seq<u8>| #[trigger] centry_at(kept@, sd, n)
                        implies exists|j: int|
                        0 <= j < i + 1 && (#[trigger] pre.clients@[j]).sid@ == sd
                            && pre.clients@[j].nsp@ == n && pre.clients@[j].esid@ != esid@ by {
                        let a = choose|a: int|
                            0 <= a < kept@.len() && (#[trigger] kept@[a]).sid@ == sd && kept@[
                                a
                            ].nsp@ == n;
                        if a < kept_pre.len() {
                            assert(centry_at(kept_pre, sd, n));
                            let j = choose|j: int|
                                0 <= j < i && (#[trigger] pre.clients@[j]).sid@ == sd
                                    && pre.clients@[j].nsp@ == n && pre.clients@[j].esid@
                                    != esid@;
                            assert(0 <= j < i + 1);
                        } else {
                            assert(pre.clients@[i as int].sid@ == sd);
                            assert(pre.clients@[i as int].nsp@ == n);
                        }
                    }
                    assert forall|sd: Seq<u8>, n: Seq<u8>|
                        (exists|j: int|
                            0 <= j < i + 1 && (#[trigger] pre.clients@[j]).sid@ == sd
                                && pre.clients@[j].nsp@ == n && pre.clients@[j].esid@ != esid@)
                        implies #[trigger] centry_at(kept@, sd, n) by {
                        let j = choose|j: int|
                            0 <= j < i + 1 && (#[trigger] pre.clients@[j]).sid@ == sd
                                && pre.clients@[j].nsp@ == n && pre.clients@[j].esid@ != esid@;
                        if j < i {
                            assert(centry_at(kept_pre, sd, n));
                            let a = choose|a: int|
                                0 <= a < kept_pre.len() && (#[trigger] kept_pre[a]).sid@ == sd
                                    && kept_pre[a].nsp@ == n;
                            assert(kept@[a].sid@ == sd && kept@[a].nsp@ == n);
                        } else {
                            assert(kept@[kept@.len() - 1].sid@ == sd);
                            assert(kept@[kept@.len() - 1].nsp@ == n);
                        }
                    }
                }
            }
            i = i + 1;
        }
        let ghost kept_view = kept@;
        self.clients = kept;
        proof {
            assert(self.clients@ == kept_view);
            assert forall|a: int| 0 <= a < self.clients@.len() implies {
                let e = #[trigger] self.clients@[a];
                &&& e.sid@ == spec_sid(e.esid@, e.seq_no as nat)
                &&& esid_wf(e.esid@)
                &&& nsp_wf(e.nsp@)
                &&& e.seq_no < self.sid_gen.seq
            } by {
                let j = choose|j: int|
                    0 <= j < pre.clients@.len() && entry_like(kept_view[a], #[trigger] pre.clients@[
                        j
                    ]);
                assert(pre.clients@[j].sid@ == spec_sid(pre.clients@[j].esid@, pre.clients@[
                    j
                ].seq_no as nat));
            }
        }
        dropped
    }

    /// Second half of a teardown: takes each listed sid out of every room.
    #[verifier::spinoff_prover]
    #[verifier::rlimit(100)]
    fn sweep_rooms(&mut self, dropped: &Vec<Vec<u8>>)
        requires
            rooms_structure_wf(*old(self)),
        ensures
            final(self).namespaces@ == old(self).namespaces@,
            final(self).clients@ == old(self).clients@,
            final(self).sid_gen == old(self).sid_gen,
            rooms_structure_wf(*final(self)),
            final(self).rooms@.len() == old(self).rooms@.len(),
            forall|a: int| 0 <= a < final(self).rooms@.len() ==> (
            #[trigger] final(self).rooms@[a]).nsp@ == old(self).rooms@[a].nsp@,
            forall|a: int| 0 <= a < final(self).rooms@.len() ==> (
            #[trigger] final(self).rooms@[a]).room@ == old(self).rooms@[a].room@,
            forall|a: int, sd: Seq<u8>|
                0 <= a < final(self).rooms@.len() ==> (#[trigger] vec_has(
                    final(self).rooms@[a].sids@,
                    sd,
                ) <==> (vec_has(old(self).rooms@[a].sids@, sd) && !vec_has(dropped@, sd))),
    {
        let ghost pre = *self;
        let mut new_rooms: Vec<RoomEntry> = Vec::new();
        let mut t: usize = 0;
        while t < self.rooms.len()
            invariant
                0 <= t <= self.rooms@.len(),
                *self == pre,
                rooms_structure_wf(pre),
                new_rooms@.len() == t,
                forall|a: int| 0 <= a < t ==> (#[trigger] new_rooms@[a]).nsp@
                    == pre.rooms@[a].nsp@,
                forall|a: int| 0 <= a < t ==> (#[trigger] new_rooms@[a]).room@
                    == pre.rooms@[a].room@,
                forall|a: int| 0 <= a < t ==> (forall|k1: int, k2: int|
                    0 <= k1 < k2 < (#[trigger] new_rooms@[a]).sids@.len() ==> (
                    #[trigger] new_rooms@[a].sids@[k1])@ != (#[trigger] new_rooms@[a].sids@[k2])@),
                forall|a: int, sd: Seq<u8>|
                    0 <= a < t ==> (#[trigger] vec_has(new_rooms@[a].sids@, sd) <==> (vec_has(
                        pre.rooms@[a].sids@,
                        sd,
                    ) && !vec_has(dropped@, sd))),
            decreases self.rooms@.len() - t,
        {
            proof {
                assert(forall|k1: int, k2: int|
                    0 <= k1 < k2 < (pre.rooms@[t as int]).sids@.len() ==> (
                    #[trigger] pre.rooms@[t as int].sids@[k1])@ != (
                    #[trigger] pre.rooms@[t as int].sids@[k2])@);
            }
            let sids = filter_sids(&self.rooms[t].sids, dropped);
            let ghost sids_view = sids@;
            let ghost rooms_before = new_rooms@;
            let entry = RoomEntry {
                nsp: copy_bytes(&self.rooms[t].nsp),
                room: copy_bytes(&self.rooms[t].room),
                sids,
            };
            new_rooms.push(entry);
            proof {
                assert(new_rooms@[t as int].sids@ == sids_view);
                assert(new_rooms@[t as int].nsp@ == pre.rooms@[t as int].nsp@);
                assert(new_rooms@[t as int].room@ == pre.rooms@[t as int].room@);
                assert forall|a: int| 0 <= a < t + 1 implies (#[trigger] new_rooms@[a]).nsp@
                    == pre.rooms@[a].nsp@ && new_rooms@[a].room@ == pre.rooms@[a].room@ by {
                    if a < t {
                        assert(new_rooms@[a] == rooms_before[a]);
                    }
                }
                assert forall|a: int| 0 <= a < t + 1 implies (forall|k1: int, k2: int|
                    0 <= k1 < k2 < (#[trigger] new_rooms@[a]).sids@.len() ==> (
                    #[trigger] new_rooms@[a].sids@[k1])@ != (
                    #[trigger] new_rooms@[a].sids@[k2])@) by {
                    if a < t {
                        assert(new_rooms@[a] == rooms_before[a]);
                    }
                }
                assert forall|a: int, sd: Seq<u8>| 0 <= a < t + 1 implies (#[trigger] vec_has(
                    new_rooms@[a].sids@,
                    sd,
                ) <==> (vec_has(pre.rooms@[a].sids@, sd) && !vec_has(dropped@, sd))) by {
                    if a < t {
                        assert(new_rooms@[a] == rooms_before[a]);
                        assert(vec_has(rooms_before[a].sids@, sd) <==> (vec_has(
                            pre.rooms@[a].sids@,
                            sd,
                        ) && !vec_has(dropped@, sd)));
                    } else {
                        assert(new_rooms@[a].sids@ == sids_view);
                    }
                }
            }
            t = t + 1;
        }
        let ghost rooms_view = new_rooms@;
        self.rooms = new_rooms;
        proof {
            assert(self.rooms@ == rooms_view);
            assert forall|i: int, j: int| 0 <= i < j < self.rooms@.len() implies !((
            #[trigger] self.rooms@[i]).nsp@ == (#[trigger] self.rooms@[j]).nsp@
                && self.rooms@[i].room@ == self.rooms@[j].room@) by {
                assert(!(pre.rooms@[i].nsp@ == pre.rooms@[j].nsp@ && pre.rooms@[i].room@
                    == pre.rooms@[j].room@));
            }
        }
    }
}

/// From the phase summaries of `drop_client` to its stated contract.
#[verifier::spinoff_prover]
#[verifier::rlimit(100)]
proof fn lemma_drop_client_post(pre: Server, post: Server, esid: Seq<u8>, dropped: Seq<Vec<u8>>)
    requires
        pre.wf(),
        post.namespaces@ == pre.namespaces@,
        post.sid_gen == pre.sid_gen,
        clients_wf(post),
        rooms_structure_wf(post),
        forall|sd: Seq<u8>| #[trigger] vec_has(dropped, sd) <==> dropped_sid(pre, esid, sd),
        forall|a: int| 0 <= a < post.clients@.len() ==> (#[trigger] post.clients@[a]).esid@
            != esid,
        forall|sd: Seq<u8>, n: Seq<u8>| #[trigger] centry_at(post.clients@, sd, n) <==> exists|
            j: int,
        |
            0 <= j < pre.clients@.len() && (#[trigger] pre.clients@[j]).sid@ == sd
                && pre.clients@[j].nsp@ == n && pre.clients@[j].esid@ != esid,
        post.rooms@.len() == pre.rooms@.len(),
        forall|a: int| 0 <= a < post.rooms@.len() ==> (#[trigger] post.rooms@[a]).nsp@
            == pre.rooms@[a].nsp@,
        forall|a: int| 0 <= a < post.rooms@.len() ==> (#[trigger] post.rooms@[a]).room@
            == pre.rooms@[a].room@,
        forall|a: int, sd: Seq<u8>|
            0 <= a < post.rooms@.len() ==> (#[trigger] vec_has(post.rooms@[a].sids@, sd) <==> (
            vec_has(pre.rooms@[a].sids@, sd) && !vec_has(dropped, sd))),
    ensures
        post.wf(),
        forall|sd: Seq<u8>, n: Seq<u8>| #[trigger] client_at(post, sd, n) ==> client_at(
            pre,
            sd,
            n,
        ),
        forall|sd: Seq<u8>, n: Seq<u8>|
            client_at(pre, sd, n) && !dropped_sid(pre, esid, sd) ==> #[trigger] client_at(
                post,
                sd,
                n,
            ),
        forall|n: Seq<u8>, ro: Seq<u8>, sd: Seq<u8>| #[trigger] in_room(post, n, ro, sd)
            ==> in_room(pre, n, ro, sd) && !dropped_sid(pre, esid, sd),
        forall|n: Seq<u8>, ro: Seq<u8>, sd: Seq<u8>|
            in_room(pre, n, ro, sd) && !dropped_sid(pre, esid, sd) ==> #[trigger] in_room(
                post,
                n,
                ro,
                sd,
            ),
{
    assert forall|i: int| 0 <= i < post.namespaces@.len() implies nsp_wf(
        (#[trigger] post.namespaces@[i])@,
    ) by {
        assert(post.namespaces@[i] == pre.namespaces@[i]);
    }
    // Every surviving roomed sid still names a surviving client: it was a
    // client before, and had its engine session died the sid would stand in
    // the dropped list and be out of the room.
    assert forall|a: int, k: int|
        0 <= a < post.rooms@.len() && 0 <= k < (#[trigger] post.rooms@[a]).sids@.len() implies
        client_at(post, (#[trigger] post.rooms@[a].sids@[k])@, post.rooms@[a].nsp@) by {
        let sd = post.rooms@[a].sids@[k]@;
        let n = post.rooms@[a].nsp@;
        assert(vec_has(post.rooms@[a].sids@, sd));
        assert(vec_has(pre.rooms@[a].sids@, sd) && !vec_has(dropped, sd));
        let kk = choose|kk: int|
            0 <= kk < pre.rooms@[a].sids@.len() && (#[trigger] pre.rooms@[a].sids@[kk])@ == sd;
        assert(client_at(pre, pre.rooms@[a].sids@[kk]@, pre.rooms@[a].nsp@));
        let j = choose|j: int|
            0 <= j < pre.clients@.len() && (#[trigger] pre.clients@[j]).sid@ == sd
                && pre.clients@[j].nsp@ == n;
        if pre.clients@[j].esid@ == esid {
            assert(dropped_sid(pre, esid, sd));
            assert(vec_has(dropped, sd));
        }
        assert(centry_at(post.clients@, sd, n));
    }
    assert(post.wf());
    assert forall|sd: Seq<u8>, n: Seq<u8>| #[trigger] client_at(post, sd, n) implies client_at(
        pre,
        sd,
        n,
    ) by {
        assert(centry_at(post.clients@, sd, n));
        let j = choose|j: int|
            0 <= j < pre.clients@.len() && (#[trigger] pre.clients@[j]).sid@ == sd
                && pre.clients@[j].nsp@ == n && pre.clients@[j].esid@ != esid;
    }
    assert forall|sd: Seq<u8>, n: Seq<u8>|
        client_at(pre, sd, n) && !dropped_sid(pre, esid, sd) implies #[trigger] client_at(
        post,
        sd,
        n,
    ) by {
        let j = choose|j: int|
            0 <= j < pre.clients@.len() && (#[trigger] pre.clients@[j]).sid@ == sd
                && pre.clients@[j].nsp@ == n;
        if pre.clients@[j].esid@ == esid {
            assert(dropped_sid(pre, esid, sd));
        }
        assert(centry_at(post.clients@, sd, n));
    }
    assert forall|n: Seq<u8>, ro: Seq<u8>, sd: Seq<u8>| #[trigger] in_room(post, n, ro, sd) implies
        in_room(pre, n, ro, sd) && !dropped_sid(pre, esid, sd) by {
        let (a, k) = choose|a: int, k: int|
            0 <= a < post.rooms@.len() && post.rooms@[a].nsp@ == n && post.rooms@[a].room@ == ro
                && 0 <= k < post.rooms@[a].sids@.len() && (#[trigger] post.rooms@[a].sids@[k])@
                == sd;
        assert(vec_has(post.rooms@[a].sids@, sd));
        assert(vec_has(pre.rooms@[a].sids@, sd) && !vec_has(dropped, sd));
        let kk = choose|kk: int|
            0 <= kk < pre.rooms@[a].sids@.len() && (#[trigger] pre.rooms@[a].sids@[kk])@ == sd;
        assert(in_room(pre, n, ro, sd));
    }
    assert forall|n: Seq<u8>, ro: Seq<u8>, sd: Seq<u8>|
        in_room(pre, n, ro, sd) && !dropped_sid(pre, esid, sd) implies #[trigger] in_room(
        post,
        n,
        ro,
        sd,
    ) by {
        let (a, kk) = choose|a: int, kk: int|
            0 <= a < pre.rooms@.len() && pre.rooms@[a].nsp@ == n && pre.rooms@[a].room@ == ro && 0
                <= kk < pre.rooms@[a].sids@.len() && (#[trigger] pre.rooms@[a].sids@[kk])@ == sd;
        assert(vec_has(pre.rooms@[a].sids@, sd));
        assert(!vec_has(dropped, sd));
        assert(vec_has(post.rooms@[a].sids@, sd));
        let k = choose|k: int|
            0 <= k < post.rooms@[a].sids@.len() && (#[trigger] post.rooms@[a].sids@[k])@ == sd;
        assert(in_room(post, n, ro, sd));
    }
}

/// How the server answers an engine session's first packet.
pub enum ConnectOutcome {
    Accepted { sid: Vec<u8>, reply: Packet },
    Refused { reply: Packet },
    Ignored,
}

/// The CONNECT_ERROR reply to a namespace with no event table.
pub open spec fn refusal_model(nsp: Seq<u8>) -> PacketModel {
    PacketModel {
        ptype: PacketType::ConnectError,
        nsp: nsp,
        data: None,
        id: None,
        attachment_count: 0,
        attachments: Seq::empty(),
    }
}

/// The CONNECT handshake reply carrying the fresh sid.
pub open spec fn handshake_model(nsp: Seq<u8>, sid: Seq<u8>) -> PacketModel {
    PacketModel {
        ptype: PacketType::Connect,
        nsp: nsp,
        data: Some(spec_handshake_data(sid)),
        id: None,
        attachment_count: 0,
        attachments: Seq::empty(),
    }
}

pub fn nsp_wf_exec(nsp: &Vec<u8>) -> (r: bool)
    ensures
        r == nsp_wf(nsp@),
{
    if nsp.len() == 0 {
        return false;
    }
    if nsp[0] != 0x2f {
        return false;
    }
    let mut i: usize = 0;
    while i < nsp.len()
        invariant
            0 <= i <= nsp@.len(),
            forall|j: int| 0 <= j < i ==> #[trigger] nsp@[j] != 0x2c,
        decreases nsp@.len() - i,
    {
        if nsp[i] == 0x2c {
            return false;
        }
        i = i + 1;
    }
    true
}

fn copy_bytes(v: &Vec<u8>) -> (r: Vec<u8>)
    ensures
        r@ == v@,
{
    let r = copy_range(v, 0, v.len());
    proof {
        assert(v@.subrange(0, v@.len() as int) =~= v@);
    }
    r
}

/// Extending the listed names by one extends the targets by what that name
/// resolves to.
proof fn lemma_target_step(s: Server, nsp: Seq<u8>, names: Seq<Seq<u8>>, i: int)
    requires
        0 <= i < names.len(),
    ensures
        forall|sd: Seq<u8>| #[trigger] is_target(s, nsp, names.subrange(0, i + 1), sd) <==> (
        is_target(s, nsp, names.subrange(0, i), sd) || resolves_to(s, nsp, names[i], sd)),
{
    let pre = names.subrange(0, i);
    let post = names.subrange(0, i + 1);
    assert forall|sd: Seq<u8>| #[trigger] is_target(s, nsp, post, sd) implies (is_target(
        s,
        nsp,
        pre,
        sd,
    ) || resolves_to(s, nsp, names[i], sd)) by {
        let j = choose|j: int| 0 <= j < post.len() && #[trigger] resolves_to(s, nsp, post[j], sd);
        if j < i {
            assert(pre[j] == post[j]);
            assert(resolves_to(s, nsp, pre[j], sd));
        } else {
            assert(post[j] == names[i]);
        }
    }
    assert forall|sd: Seq<u8>|
        is_target(s, nsp, pre, sd) || resolves_to(s, nsp, names[i], sd) implies #[trigger] is_target(
        s,
        nsp,
        post,
        sd,
    ) by {
        if is_target(s, nsp, pre, sd) {
            let j = choose|j: int|
                0 <= j < pre.len() && #[trigger] resolves_to(s, nsp, pre[j], sd);
            assert(post[j] == pre[j]);
            assert(resolves_to(s, nsp, post[j], sd));
        } else {
            assert(post[i] == names[i]);
            assert(resolves_to(s, nsp, post[i], sd));
        }
    }
}

fn contains_sid(v: &Vec<Vec<u8>>, x: &Vec<u8>) -> (r: bool)
    ensures
        r == vec_has(v@, x@),
{
    let mut i: usize = 0;
    while i < v.len()
        invariant
            0 <= i <= v@.len(),
            forall|j: int| 0 <= j < i ==> (#[trigger] v@[j])@ != x@,
        decreases v@.len() - i,
    {
        if bytes_eq(&v[i], x) {
            return true;
        }
        i = i + 1;
    }
    false
}

/// Two server states with the same clients table agree on who is a client.
proof fn lemma_same_clients(a: Server, b: Server)
    requires
        a.clients@ == b.clients@,
    ensures
        forall|sd: Seq<u8>, n: Seq<u8>| #[trigger] client_at(a, sd, n) == client_at(b, sd, n),
{
    assert forall|sd: Seq<u8>, n: Seq<u8>| #[trigger] client_at(a, sd, n) == client_at(
        b,
        sd,
        n,
    ) by {
        if client_at(a, sd, n) {
            let i = choose|i: int|
                0 <= i < a.clients@.len() && (#[trigger] a.clients@[i]).sid@ == sd
                    && a.clients@[i].nsp@ == n;
            assert(b.clients@[i].sid@ == sd && b.clients@[i].nsp@ == n);
        }
        if client_at(b, sd, n) {
            let i = choose|i: int|
                0 <= i < b.clients@.len() && (#[trigger] b.clients@[i]).sid@ == sd
                    && b.clients@[i].nsp@ == n;
            assert(a.clients@[i].sid@ == sd && a.clients@[i].nsp@ == n);
        }
    }
}

/// Every sid standing in any room of a namespace is a registered client of
/// that namespace.
pub proof fn lemma_rooms_subset_clients(s: Server, nsp: Seq<u8>, room: Seq<u8>, sid: Seq<u8>)
    requires
        s.wf(),
        in_room(s, nsp, room, sid),
    ensures
        client_at(s, sid, nsp),
{
    let (i, k) = choose|i: int, k: int|
        0 <= i < s.rooms@.len() && s.rooms@[i].nsp@ == nsp && s.rooms@[i].room@ == room && 0 <= k
            < s.rooms@[i].sids@.len() && (#[trigger] s.rooms@[i].sids@[k])@ == sid;
    assert(client_at(s, s.rooms@[i].sids@[k]@, s.rooms@[i].nsp@));
}

/// Keeps, in order, the sids that do not stand in the dropped list.
#[verifier::spinoff_prover]
#[verifier::rlimit(100)]
fn filter_sids(sids_in: &Vec<Vec<u8>>, dropped: &Vec<Vec<u8>>) -> (r: Vec<Vec<u8>>)
    requires
        forall|k1: int, k2: int|
            0 <= k1 < k2 < sids_in@.len() ==> (#[trigger] sids_in@[k1])@ != (
            #[trigger] sids_in@[k2])@,
    ensures
        forall|a1: int, a2: int| 0 <= a1 < a2 < r@.len() ==> (#[trigger] r@[a1])@ != (
        #[trigger] r@[a2])@,
        forall|sd: Seq<u8>| #[trigger] vec_has(r@, sd) <==> (vec_has(sids_in@, sd) && !vec_has(
            dropped@,
            sd,
        )),
{
    let mut out: Vec<Vec<u8>> = Vec::new();
    let mut k: usize = 0;
    proof {
        assert(sids_in@.subrange(0, 0) =~~= Seq::<Vec<u8>>::empty());
    }
    while k < sids_in.len()
        invariant
            0 <= k <= sids_in@.len(),
            forall|k1: int, k2: int|
                0 <= k1 < k2 < sids_in@.len() ==> (#[trigger] sids_in@[k1])@ != (
                #[trigger] sids_in@[k2])@,
            forall|a1: int, a2: int| 0 <= a1 < a2 < out@.len() ==> (#[trigger] out@[a1])@ != (
            #[trigger] out@[a2])@,
            forall|sd: Seq<u8>| #[trigger] vec_has(out@, sd) <==> (vec_has(
                sids_in@.subrange(0, k as int),
                sd,
            ) && !vec_has(dropped@, sd)),
        decreases sids_in@.len() - k,
    {
        let ghost out_pre = out@;
        if !contains_sid(dropped, &sids_in[k]) {
            proof {
                if vec_has(out_pre, sids_in@[k as int]@) {
                    // Its source index would sit in the scanned prefix and
                    // collide with index k, against the input's uniqueness.
                    let j = choose|j: int|
                        0 <= j < k && (#[trigger] sids_in@.subrange(0, k as int)[j])@ == sids_in@[
                            k as int
                        ]@;
                    assert(sids_in@[j]@ == sids_in@[k as int]@);
                    assert(false);
                }
            }
            out.push(copy_bytes(&sids_in[k]));
            proof {
                lemma_push_vec_has(out_pre, out@);
                lemma_push_distinct(out_pre, out@);
                assert(out@[out@.len() - 1]@ == sids_in@[k as int]@);
            }
        }
        proof {
            lemma_push_vec_has(sids_in@.subrange(0, k as int), sids_in@.subrange(0, k + 1));
            assert(sids_in@.subrange(0, k + 1)[k as int] == sids_in@[k as int]);
            assert forall|sd: Seq<u8>| #[trigger] vec_has(out@, sd) <==> (vec_has(
                sids_in@.subrange(0, k + 1),
                sd,
            ) && !vec_has(dropped@, sd)) by {
                assert(vec_has(sids_in@.subrange(0, k + 1), sd) <==> (vec_has(
                    sids_in@.subrange(0, k as int),
                    sd,
                ) || sd == sids_in@[k as int]@));
            }
        }
        k = k + 1;
    }
    proof {
        assert(sids_in@.subrange(0, sids_in@.len() as int) =~~= sids_in@);
    }
    out
}

} // verus!
