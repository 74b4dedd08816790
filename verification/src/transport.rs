//! Client side of the long-polling transport: URL canonicalization and the
//! HTTP status decision. The byte-level frame and batch handling lives in
//! the engine module; the HTTP requests themselves stay outside the crate.
use vstd::prelude::*;

use crate::Error;
use crate::util::{first_pos, split_on, split_on_exec, find_byte, copy_range, bytes_eq};

verus! {

/// ASCII "transport".
pub open spec fn transport_key() -> Seq<u8> {
    seq![0x74u8, 0x72, 0x61, 0x6e, 0x73, 0x70, 0x6f, 0x72, 0x74]
}

/// ASCII "polling".
pub open spec fn polling_value() -> Seq<u8> {
    seq![0x70u8, 0x6f, 0x6c, 0x6c, 0x69, 0x6e, 0x67]
}

/// ASCII "transport=polling".
pub open spec fn transport_pair() -> Seq<u8> {
    transport_key() + seq![0x3du8] + polling_value()
}

/// Position of the query separator `?`, or the length.
pub open spec fn spec_qpos(u: Seq<u8>) -> nat {
    first_pos(u, 0, 0x3f)
}

/// The URL names a scheme: a `://` stands before the query part.
pub open spec fn spec_scheme_ok(u: Seq<u8>) -> bool {
    let c = first_pos(u, 0, 0x3a);
    c + 2 < spec_qpos(u) && u[c as int + 1] == 0x2f && u[c as int + 2] == 0x2f
}

/// The part before the query, given a trailing slash when the authority has
/// no path at all.
pub open spec fn spec_base(u: Seq<u8>) -> Seq<u8> {
    let q = spec_qpos(u);
    let c = first_pos(u, 0, 0x3a);
    if first_pos(u, (c + 3) as nat, 0x2f) >= q {
        u.subrange(0, q as int) + seq![0x2fu8]
    } else {
        u.subrange(0, q as int)
    }
}

/// One query chunk is exactly the pair `transport=polling`.
pub open spec fn pair_matches(c: Seq<u8>) -> bool {
    c == transport_pair()
}

/// Some chunk of the query is exactly `transport=polling`: the transport
/// invariant already holds of the URL.
pub open spec fn spec_has_transport(u: Seq<u8>) -> bool {
    let q = spec_qpos(u);
    q < u.len() && exists|i: int|
        0 <= i < split_on(u.subrange(q as int + 1, u.len() as int), 0x26).len()
            && pair_matches(#[trigger] split_on(u.subrange(q as int + 1, u.len() as int), 0x26)[i])
}

/// The canonical polling URL: the base (with its slash), the original query
/// kept verbatim, and `transport=polling` appended unless that exact pair
/// is already present — so the pair is present in every result.
pub open spec fn spec_polling_url(u: Seq<u8>) -> Seq<u8> {
    let q = spec_qpos(u);
    if spec_has_transport(u) {
        spec_base(u) + seq![0x3fu8] + u.subrange(q as int + 1, u.len() as int)
    } else if q < u.len() {
        spec_base(u) + seq![0x3fu8] + u.subrange(q as int + 1, u.len() as int) + seq![0x26u8]
            + transport_pair()
    } else {
        spec_base(u) + seq![0x3fu8] + transport_pair()
    }
}

/// The client half of the long-polling transport: it remembers the
/// canonical URL every request goes to.
#[derive(Debug, Clone, PartialEq, Eq)]
pub struct ClientPolling {
    pub url: Vec<u8>,
}

impl ClientPolling {
    /// Canonicalizes the URL for polling: guarantees a path, keeps the
    /// query, and makes sure the `transport=polling` pair is present. A
    /// URL with no `://` before the query is refused.
    pub fn new(url: Vec<u8>) -> (r: Result<ClientPolling, Error>)
        ensures
            match r {
                Ok(t) => spec_scheme_ok(url@) && t.url@ == spec_polling_url(url@),
                Err(e) => !spec_scheme_ok(url@) && e == Error::InvalidUrl,
            },
    {
        let q = find_byte(&url, 0, 0x3f);
        let c = find_byte(&url, 0, 0x3a);
        if q < 3 || c > q - 3 {
            proof {
                assert(!spec_scheme_ok(url@));
            }
            return Err(Error::InvalidUrl);
        }
        if url[c + 1] != 0x2f || url[c + 2] != 0x2f {
            return Err(Error::InvalidUrl);
        }
        let s = find_byte(&url, c + 3, 0x2f);
        let mut out = copy_range(&url, 0, q);
        if s >= q {
            out.push(0x2f);
        }
        proof {
            assert(out@ == spec_base(url@));
        }
        out.push(0x3f);
        let mut has_transport = false;
        if q < url.len() {
            let query = copy_range(&url, q + 1, url.len());
            let chunks = split_on_exec(&query, 0x26);
            let ghost chunk_views = split_on(url@.subrange(q as int + 1, url@.len() as int), 0x26);
            let mut i: usize = 0;
            while i < chunks.len() && !has_transport
                invariant
                    0 <= i <= chunks@.len(),
                    chunks@.map_values(|v: Vec<u8>| v@) == chunk_views,
                    has_transport ==> exists|j: int|
                        0 <= j < chunk_views.len() && pair_matches(#[trigger] chunk_views[j]),
                    !has_transport ==> forall|j: int|
                        0 <= j < i ==> !pair_matches(#[trigger] chunk_views[j]),
                decreases chunks@.len() - i,
            {
                proof {
                    assert(chunks@[i as int]@ == chunk_views[i as int]);
                }
                if pair_matches_exec(&chunks[i]) {
                    has_transport = true;
                }
                i = i + 1;
            }
            proof {
                assert(chunks@.len() == chunk_views.len());
                if has_transport {
                    assert(spec_has_transport(url@));
                } else {
                    assert(forall|j: int|
                        0 <= j < chunk_views.len() ==> !pair_matches(#[trigger] chunk_views[j]));
                    assert(!spec_has_transport(url@));
                }
            }
            let mut body = copy_range(&url, q + 1, url.len());
            out.append(&mut body);
            if !has_transport {
                out.push(0x26);
                let mut pair = transport_pair_exec();
                out.append(&mut pair);
            }
        } else {
            proof {
                assert(!spec_has_transport(url@));
            }
            let mut pair = transport_pair_exec();
            out.append(&mut pair);
        }
        proof {
            assert(out@ =~= spec_polling_url(url@));
        }
        Ok(ClientPolling { url: out })
    }

    /// The canonical URL the transport polls.
    pub fn url(&self) -> (r: &Vec<u8>)
        ensures
            r@ == self.url@,
    {
        &self.url
    }
}

/// Whether one query chunk is exactly the pair `transport=polling`.
fn pair_matches_exec(c: &Vec<u8>) -> (r: bool)
    ensures
        r == pair_matches(c@),
{
    let pair = transport_pair_exec();
    bytes_eq(c, &pair)
}

fn transport_pair_exec() -> (r: Vec<u8>)
    ensures
        r@ == transport_pair(),
{
    let mut r: Vec<u8> = Vec::new();
    r.push(0x74);
    r.push(0x72);
    r.push(0x61);
    r.push(0x6e);
    r.push(0x73);
    r.push(0x70);
    r.push(0x6f);
    r.push(0x72);
    r.push(0x74);
    r.push(0x3d);
    r.push(0x70);
    r.push(0x6f);
    r.push(0x6c);
    r.push(0x6c);
    r.push(0x69);
    r.push(0x6e);
    r.push(0x67);
    proof {
        assert(r@ =~= transport_pair());
    }
    r
}

/// What a polling POST's HTTP status means for `emit`: 200 is success, any
/// other status fails with that status.
pub fn emit_status_result(status: u16) -> (r: Result<(), Error>)
    ensures
        status == 200 ==> r is Ok,
        status != 200 ==> r == Result::<(), Error>::Err(Error::InvalidHttpResponseStatus(status)),
{
    if status == 200 {
        Ok(())
    } else {
        Err(Error::InvalidHttpResponseStatus(status))
    }
}

} // verus!
