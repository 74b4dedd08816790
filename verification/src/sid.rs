//! Socket.IO session ids. A sid is `base64(<engine sid>-<seq>)`, minted from
//! the engine session id and a process-wide monotonic counter; it identifies
//! one (connection, namespace) pair and is reversible to its engine sid.
use vstd::prelude::*;

use crate::b64::{b64_of, b64_encode, b64_decode};
use crate::util::{dec_seq, u64_to_dec, first_pos, copy_range, lemma_dec_seq_digits,
    lemma_first_pos_determined};

verus! {

/// ASCII '-', between the engine sid and the sequence number.
pub const SID_DASH: u8 = 0x2d;

/// An engine sid fit for embedding: it holds no dash, so the dash written
/// between the parts is the first one in the decoded string.
pub open spec fn esid_wf(esid: Seq<u8>) -> bool {
    forall|i: int| 0 <= i < esid.len() ==> #[trigger] esid[i] != SID_DASH
}

/// The string that gets base64-encoded: `<esid>-<seq>`.
pub open spec fn spec_sid_source(esid: Seq<u8>, seq_no: nat) -> Seq<u8> {
    esid + seq![SID_DASH] + dec_seq(seq_no)
}

/// The sid minted for `(esid, seq_no)`.
pub open spec fn spec_sid(esid: Seq<u8>, seq_no: nat) -> Seq<u8> {
    b64_of(spec_sid_source(esid, seq_no))
}

/// Mints sids from a monotonically increasing counter.
pub struct SidGenerator {
    pub seq: u64,
}

impl SidGenerator {
    pub fn new() -> (r: SidGenerator)
        ensures
            r.seq == 0,
    {
        SidGenerator { seq: 0 }
    }

    /// Mints `base64(<esid>-<seq>)` and advances the counter.
    pub fn generate(&mut self, engine_sid: &Vec<u8>) -> (r: Vec<u8>)
        requires
            old(self).seq < u64::MAX,
        ensures
            final(self).seq == old(self).seq + 1,
            r@ == spec_sid(engine_sid@, old(self).seq as nat),
    {
        let mut src = copy_range(engine_sid, 0, engine_sid.len());
        proof {
            assert(engine_sid@.subrange(0, engine_sid@.len() as int) =~= engine_sid@);
        }
        src.push(SID_DASH);
        let mut tail = u64_to_dec(self.seq);
        src.append(&mut tail);
        proof {
            assert(src@ =~= spec_sid_source(engine_sid@, self.seq as nat));
        }
        let r = b64_encode(&src);
        self.seq = self.seq + 1;
        r
    }

    /// Recovers the engine sid from a sid: base64-decode, then take what
    /// stands before the first dash. On every sid minted by `generate` from
    /// a dash-free engine sid this returns that engine sid; bytes that are
    /// no base64 output are refused.
    pub fn decode(sid: &Vec<u8>) -> (r: Option<Vec<u8>>)
        ensures
            forall|esid: Seq<u8>, seq_no: nat|
                esid_wf(esid) && sid@ == spec_sid(esid, seq_no) ==> r is Some && r.unwrap()@
                    == esid,
    {
        match b64_decode(sid) {
            None => None,
            Some(raw) => {
                let j = first_pos_exec(&raw, SID_DASH);
                let prefix = copy_range(&raw, 0, j);
                proof {
                    assert forall|esid: Seq<u8>, seq_no: nat|
                        esid_wf(esid) && sid@ == #[trigger] spec_sid(esid, seq_no) implies prefix@
                        == esid by {
                        let src = spec_sid_source(esid, seq_no);
                        assert(sid@ == b64_of(src));
                        assert(raw@ == src);
                        lemma_dec_seq_digits(seq_no);
                        assert forall|k: int| 0 <= k < esid.len() implies #[trigger] raw@[k]
                            != SID_DASH by {
                            assert(raw@[k] == esid[k]);
                        }
                        assert(raw@[esid.len() as int] == SID_DASH);
                        lemma_first_pos_determined(raw@, 0, SID_DASH, esid.len());
                        assert(j == esid.len());
                        assert(prefix@ =~= esid);
                    }
                }
                Some(prefix)
            },
        }
    }
}

fn first_pos_exec(s: &Vec<u8>, b: u8) -> (r: usize)
    ensures
        r == first_pos(s@, 0, b),
        r <= s@.len(),
{
    crate::util::find_byte(s, 0, b)
}

} // verus!
