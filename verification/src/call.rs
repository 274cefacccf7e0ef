//! Coordination messages between quorum participants: a small framed text
//! format (a human-readable prefix, the quorum fingerprint, a two-digit
//! participant id, and a payload), built and parsed here over plain bytes.
//! Encryption of payloads and transport are outside the core.

use vstd::prelude::*;

verus! {

/// Participant id, also known as the quorum id.
#[derive(Clone, Copy, Debug, Default, PartialEq, Eq, Structural)]
pub struct Pid(pub u32);

impl Pid {
    /// The id as a plain integer.
    pub fn as_u32(self) -> (r: u32)
        ensures
            r == self.0,
    {
        self.0
    }
}

/// Types of calls.
#[derive(Clone, Debug)]
pub enum CallTy {
    /// Negative acknowledgement.
    Nack,
    /// Acknowledgement.
    Ack,
    /// A free-form note (possibly encrypted by the transport layer).
    Note(Vec<u8>),
}

impl CallTy {
    /// The numeric id of the call type.
    pub fn id(&self) -> (r: u8)
        ensures
            r == match self {
                CallTy::Nack => 0u8,
                CallTy::Ack => 1u8,
                CallTy::Note(_) => 2u8,
            },
    {
        match self {
            CallTy::Nack => 0,
            CallTy::Ack => 1,
            CallTy::Note(_) => 2,
        }
    }
}

/// A framed message to a quorum participant.
#[derive(Clone, Debug)]
pub struct Call {
    /// The raw framed bytes.
    pub bytes: Vec<u8>,
}

/// A decoded chat entry: who said what.
#[derive(Clone, Debug)]
pub struct ChatEntry {
    /// Sender alias.
    pub alias: String,
    /// Text message.
    pub message: String,
}

/// The human-readable prefix every call starts with.
pub open spec fn spec_hrp() -> Seq<u8> {
    seq![108u8, 111u8, 111u8, 110u8, 49u8]
}

/// The two-digit encoding of a participant id up to 99.
pub open spec fn spec_pid_digits(p: u32) -> Seq<u8> {
    seq![(48 + p / 10) as u8, (48 + p % 10) as u8]
}

/// The frame layout: prefix, an 8-byte fingerprint, two pid digits, and
/// the payload.
pub open spec fn spec_frame(fp: Seq<u8>, pid: u32, payload: Seq<u8>) -> Seq<u8> {
    spec_hrp() + fp + spec_pid_digits(pid) + payload
}

/// The human-readable prefix, as bytes.
pub fn hrp_bytes() -> (r: Vec<u8>)
    ensures
        r@ == spec_hrp(),
{
    let mut r: Vec<u8> = Vec::new();
    r.push(108);
    r.push(111);
    r.push(111);
    r.push(110);
    r.push(49);
    proof {
        assert(r@ =~= spec_hrp());
    }
    r
}

/// Encode a participant id as exactly two decimal digits.
pub fn pid_encode(p: Pid) -> (r: Vec<u8>)
    requires
        p.0 <= 99,
    ensures
        r@ == spec_pid_digits(p.0),
        r@.len() == 2,
{
    let mut r: Vec<u8> = Vec::new();
    r.push(48 + (p.0 / 10) as u8);
    r.push(48 + (p.0 % 10) as u8);
    proof {
        assert(r@ =~= spec_pid_digits(p.0));
    }
    r
}

/// Decode two decimal digits into a participant id.
pub fn pid_decode(hi: u8, lo: u8) -> (r: Option<u32>)
    ensures
        match r {
            Some(p) => p <= 99 && spec_pid_digits(p) == seq![hi, lo],
            None => !(48 <= hi <= 57 && 48 <= lo <= 57),
        },
{
    if 48 <= hi && hi <= 57 && 48 <= lo && lo <= 57 {
        let p = ((hi - 48) as u32) * 10 + ((lo - 48) as u32);
        proof {
            assert(spec_pid_digits(p) =~= seq![hi, lo]);
        }
        Some(p)
    } else {
        None
    }
}

/// Encoding then decoding a participant id gives it back: the two-digit
/// form is lossless for ids up to 99.
pub proof fn lemma_pid_round_trip(p: u32)
    requires
        p <= 99,
    ensures
        ({
            let d = spec_pid_digits(p);
            48 <= d[0] <= 57 && 48 <= d[1] <= 57 && ((d[0] - 48) * 10 + (d[1] - 48)) == p
        }),
{
}

impl Call {
    /// Frame a new call to `recipient` carrying `payload`, under the
    /// quorum fingerprint `fp`.
    pub fn build(fp: &Vec<u8>, recipient: Pid, payload: &Vec<u8>) -> (r: Call)
        requires
            fp@.len() == 8,
            recipient.0 <= 99,
        ensures
            r.bytes@ == spec_frame(fp@, recipient.0, payload@),
    {
        let mut bytes = hrp_bytes();
        let mut f = crate::types::copy_bytes(fp);
        bytes.append(&mut f);
        let mut d = pid_encode(recipient);
        bytes.append(&mut d);
        let mut pl = crate::types::copy_bytes(payload);
        bytes.append(&mut pl);
        proof {
            assert(bytes@ =~= spec_frame(fp@, recipient.0, payload@));
        }
        Call { bytes }
    }

    /// Parse a framed call addressed to the quorum with fingerprint `fp`:
    /// returns the recipient id and the payload exactly when the message
    /// starts with the prefix, carries `fp`, has two valid pid digits and
    /// a non-empty payload.
    pub fn parse(msg: &Vec<u8>, fp: &Vec<u8>) -> (r: Option<(Pid, Vec<u8>)>)
        requires
            fp@.len() == 8,
        ensures
            match r {
                Some((pid, payload)) => {
                    &&& pid.0 <= 99
                    &&& msg@ == spec_frame(fp@, pid.0, payload@)
                    &&& payload@.len() >= 1
                },
                None => forall|pid: u32, payload: Seq<u8>|
                    pid <= 99 && payload.len() >= 1 ==> msg@ != spec_frame(fp@, pid, payload),
            },
    {
        let ghost gm = msg@;
        if msg.len() < 16 {
            proof {
                assert forall|pid: u32, payload: Seq<u8>|
                    pid <= 99 && payload.len() >= 1 implies gm != spec_frame(
                    fp@,
                    pid,
                    payload,
                ) by {
                    assert(spec_frame(fp@, pid, payload).len() >= 16);
                }
            }
            return None;
        }
        let hrp = hrp_bytes();
        let mut i: usize = 0;
        while i < 5
            invariant
                0 <= i <= 5,
                gm == msg@,
                msg@.len() >= 16,
                fp@.len() == 8,
                hrp@ == spec_hrp(),
                forall|j: int| 0 <= j < i ==> msg@[j] == spec_hrp()[j],
            decreases 5 - i,
        {
            if msg[i] != hrp[i] {
                proof {
                    lemma_frame_mismatch(gm, fp@, i as int);
                }
                return None;
            }
            i += 1;
        }
        let mut j: usize = 0;
        while j < 8
            invariant
                0 <= j <= 8,
                gm == msg@,
                msg@.len() >= 16,
                fp@.len() == 8,
                forall|q: int| 0 <= q < j ==> msg@[5 + q] == fp@[q],
            decreases 8 - j,
        {
            if msg[5 + j] != fp[j] {
                proof {
                    lemma_frame_fp_mismatch(gm, fp@, j as int);
                }
                return None;
            }
            j += 1;
        }
        let pid = match pid_decode(msg[13], msg[14]) {
            Some(p) => p,
            None => {
                proof {
                    assert forall|pid: u32, payload: Seq<u8>|
                        pid <= 99 && payload.len() >= 1 implies gm != spec_frame(
                        fp@,
                        pid,
                        payload,
                    ) by {
                        if gm == spec_frame(fp@, pid, payload) {
                            assert(gm[13] == spec_pid_digits(pid)[0]);
                            assert(gm[14] == spec_pid_digits(pid)[1]);
                            assert(48 <= (48 + pid / 10) <= 57 && 48 <= (48 + pid % 10) <= 57);
                        }
                    }
                }
                return None;
            },
        };
        let mut payload: Vec<u8> = Vec::new();
        let mut k: usize = 15;
        while k < msg.len()
            invariant
                15 <= k <= msg@.len(),
                gm == msg@,
                payload@ == msg@.subrange(15, k as int),
            decreases msg@.len() - k,
        {
            payload.push(msg[k]);
            proof {
                assert(payload@ =~= msg@.subrange(15, k as int + 1));
            }
            k += 1;
        }
        proof {
            assert(payload@ == msg@.subrange(15, msg@.len() as int));
            assert(gm =~= spec_frame(fp@, pid, payload@)) by {
                assert(spec_pid_digits(pid) == seq![gm[13], gm[14]]);
                assert forall|q: int| 0 <= q < gm.len() implies gm[q] == spec_frame(
                    fp@,
                    pid,
                    payload@,
                )[q] by {
                    if q < 5 {
                    } else if q < 13 {
                        assert(gm[q] == fp@[q - 5]);
                    } else if q < 15 {
                        assert(spec_pid_digits(pid)[q - 13] == gm[q]);
                    } else {
                        assert(payload@[q - 15] == gm[q]);
                    }
                }
            }
        }
        Some((Pid(pid), payload))
    }
}

/// A message differing from the prefix at position `i` is no frame.
proof fn lemma_frame_mismatch(m: Seq<u8>, fp: Seq<u8>, i: int)
    requires
        fp.len() == 8,
        0 <= i < 5,
        m.len() >= 16,
        m[i] != spec_hrp()[i],
    ensures
        forall|pid: u32, payload: Seq<u8>|
            pid <= 99 && payload.len() >= 1 ==> m != spec_frame(fp, pid, payload),
{
    assert forall|pid: u32, payload: Seq<u8>| pid <= 99 && payload.len() >= 1 implies m
        != spec_frame(fp, pid, payload) by {
        if m == spec_frame(fp, pid, payload) {
            assert(m[i] == spec_hrp()[i]);
        }
    }
}

/// A message differing from the fingerprint at offset `j` is no frame for
/// that fingerprint.
proof fn lemma_frame_fp_mismatch(m: Seq<u8>, fp: Seq<u8>, j: int)
    requires
        fp.len() == 8,
        0 <= j < 8,
        m.len() >= 16,
        m[5 + j] != fp[j],
    ensures
        forall|pid: u32, payload: Seq<u8>|
            pid <= 99 && payload.len() >= 1 ==> m != spec_frame(fp, pid, payload),
{
    assert forall|pid: u32, payload: Seq<u8>| pid <= 99 && payload.len() >= 1 implies m
        != spec_frame(fp, pid, payload) by {
        if m == spec_frame(fp, pid, payload) {
            assert(m[5 + j] == fp[j]);
        }
    }
}

} // verus!
