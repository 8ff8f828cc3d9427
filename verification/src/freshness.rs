//! Knowing that you have stopped hearing.
//!
//! A publisher with nothing new to say still says so, in short-lived signed statements. A
//! client that keeps the latest statement can tell silence from "nothing new": an expired
//! statement means something is being withheld, a statement at or below one already seen is a
//! replay, and fresh statements vouching for content that has not arrived mean the content is
//! being withheld.
use vstd::prelude::*;
use crate::codec::{
    cid_well_formed, enc_cid, law_cid_round_trip, law_u64_round_trip, rd_cid, rd_u64, u64_le, Address, Cid, CidView,
    Dec, Enc,
};
use crate::object::{Object, ObjectError, ObjectView};

verus! {

/// A signed statement that a publisher was alive and had nothing newer to say.
#[derive(Clone, Copy, Debug, PartialEq, Eq)]
pub struct Timestamp {
    pub publisher: Address,
    pub issued_at: u64,
    pub expires_at: u64,
    /// Monotonic, so an old statement cannot be replayed as a new one.
    pub sequence: u64,
    /// Digest of the advisory set this statement vouches for.
    pub snapshot: Cid,
}

/// `karst.timestamp.v1`, the kind of an object holding a timestamp.
pub open spec fn timestamp_kind() -> Seq<u8> {
    seq![107u8, 97, 114, 115, 116, 46, 116, 105, 109, 101, 115, 116, 97, 109, 112, 46, 118, 49]
}

/// The payload of the object a timestamp is published in: when it was issued, when it expires,
/// its sequence and the snapshot it vouches for. The object is of kind `karst.timestamp.v1` and
/// carries the timestamp's sequence.
pub open spec fn timestamp_payload(issued_at: u64, expires_at: u64, sequence: u64, snapshot: CidView) -> Seq<u8> {
    u64_le(issued_at) + u64_le(expires_at) + u64_le(sequence) + enc_cid(snapshot)
}

/// A timestamp as values: publisher, issue time, expiry, sequence and snapshot.
pub type TimestampView = (Seq<u8>, u64, u64, u64, CidView);

/// What an object says as a timestamp, given what verifying it found: refused unless it is of
/// the timestamp kind, verifies, and its payload is exactly three numbers and a snapshot.
pub open spec fn timestamp_from(o: ObjectView, verified: Result<Seq<u8>, ObjectError>) -> Result<
    TimestampView,
    ObjectError,
> {
    if vstd::utf8::encode_utf8(o.kind) != timestamp_kind() {
        Err(ObjectError::CidMismatch)
    } else {
        match verified {
            Err(e) => Err(e),
            Ok(publisher) => match rd_u64(o.payload, 0) {
                (Ok(issued_at), p1) => match rd_u64(o.payload, p1) {
                    (Ok(expires_at), p2) => match rd_u64(o.payload, p2) {
                        (Ok(sequence), p3) => match rd_cid(o.payload, p3) {
                            (Ok(snapshot), p4) => if p4 == o.payload.len() {
                                Ok((publisher, issued_at, expires_at, sequence, snapshot))
                            } else {
                                Err(ObjectError::CidMismatch)
                            },
                            (Err(_), _) => Err(ObjectError::CidMismatch),
                        },
                        (Err(_), _) => Err(ObjectError::CidMismatch),
                    },
                    (Err(_), _) => Err(ObjectError::CidMismatch),
                },
                (Err(_), _) => Err(ObjectError::CidMismatch),
            },
        }
    }
}

/// A timestamp as values.
pub open spec fn timestamp_view(t: Timestamp) -> TimestampView {
    (t.publisher@, t.issued_at, t.expires_at, t.sequence, t.snapshot@)
}

/// Law: a timestamp published in an object of its kind reads back as what was published, with
/// the address that verified the object as its publisher.
pub proof fn law_a_published_timestamp_reads_back(
    o: ObjectView,
    publisher: Seq<u8>,
    issued_at: u64,
    expires_at: u64,
    sequence: u64,
    snapshot: CidView,
)
    requires
        vstd::utf8::encode_utf8(o.kind) == timestamp_kind(),
        o.payload == timestamp_payload(issued_at, expires_at, sequence, snapshot),
        cid_well_formed(snapshot),
    ensures
        timestamp_from(o, Ok(publisher)) == Ok::<TimestampView, ObjectError>(
            (publisher, issued_at, expires_at, sequence, snapshot),
        ),
{
    let b = o.payload;
    let rest = u64_le(expires_at) + u64_le(sequence) + enc_cid(snapshot);
    law_u64_round_trip(Seq::empty(), issued_at, rest);
    assert(b =~= Seq::<u8>::empty() + u64_le(issued_at) + rest);
    law_u64_round_trip(u64_le(issued_at), expires_at, u64_le(sequence) + enc_cid(snapshot));
    assert(b =~= u64_le(issued_at) + u64_le(expires_at) + (u64_le(sequence) + enc_cid(snapshot)));
    law_u64_round_trip(u64_le(issued_at) + u64_le(expires_at), sequence, enc_cid(snapshot));
    assert(b =~= u64_le(issued_at) + u64_le(expires_at) + u64_le(sequence) + enc_cid(snapshot));
    law_cid_round_trip(u64_le(issued_at) + u64_le(expires_at) + u64_le(sequence), snapshot, Seq::empty());
    assert(b =~= u64_le(issued_at) + u64_le(expires_at) + u64_le(sequence) + enc_cid(snapshot) + Seq::<u8>::empty());
}

impl Timestamp {
    /// The payload of the object a timestamp issued at `issued_at`, valid for `valid_for`, is
    /// published in.
    pub fn payload(issued_at: u64, valid_for: u64, sequence: u64, snapshot: &Cid) -> (b: Vec<u8>)
        requires
            issued_at + valid_for <= u64::MAX,
        ensures
            b@ == timestamp_payload(issued_at, (issued_at + valid_for) as u64, sequence, snapshot@),
    {
        let mut e = Enc::new();
        e.u64(issued_at);
        e.u64(issued_at + valid_for);
        e.u64(sequence);
        e.cid(snapshot);
        e.finish()
    }

    /// Read a timestamp out of an object, given what verifying the object found: the address
    /// that signed it, or why it did not verify.
    pub fn from_object(obj: &Object, verified: Result<Address, ObjectError>) -> (r: Result<Timestamp, ObjectError>)
        ensures
            match r {
                Ok(t) => timestamp_from(obj@, crate::witness::verified_view(verified)) == Ok::<
                    TimestampView,
                    ObjectError,
                >(timestamp_view(t)),
                Err(e) => timestamp_from(obj@, crate::witness::verified_view(verified)) == Err::<
                    TimestampView,
                    ObjectError,
                >(e),
            },
    {
        let kind: [u8; 18] = [107, 97, 114, 115, 116, 46, 116, 105, 109, 101, 115, 116, 97, 109, 112, 46, 118, 49];
        assert(kind@ =~= timestamp_kind());
        if !crate::codec::bytes_equal(obj.kind().as_bytes(), &kind) {
            return Err(ObjectError::CidMismatch);
        }
        let publisher = match verified {
            Ok(a) => a,
            Err(e) => {
                return Err(e);
            },
        };
        let mut d = Dec::new(obj.payload());
        let issued_at = match d.u64() {
            Ok(v) => v,
            Err(_) => {
                return Err(ObjectError::CidMismatch);
            },
        };
        let expires_at = match d.u64() {
            Ok(v) => v,
            Err(_) => {
                return Err(ObjectError::CidMismatch);
            },
        };
        let sequence = match d.u64() {
            Ok(v) => v,
            Err(_) => {
                return Err(ObjectError::CidMismatch);
            },
        };
        let snapshot = match d.cid() {
            Ok(v) => v,
            Err(_) => {
                return Err(ObjectError::CidMismatch);
            },
        };
        if d.end().is_err() {
            return Err(ObjectError::CidMismatch);
        }
        Ok(Timestamp { publisher, issued_at, expires_at, sequence, snapshot })
    }
}

#[derive(Debug, Clone, PartialEq, Eq)]
pub enum Staleness {
    /// Heard recently and the statement has not expired.
    Fresh,
    /// The most recent statement has expired. Assume something is wrong.
    Expired { since: u64 },
    /// A statement arrived with a sequence at or below one already seen: a replay.
    Rollback { seen: u64, offered: u64 },
    /// Nothing has ever been heard, which is not the same as being current.
    NeverHeard,
    /// Statements are arriving and the content they vouch for is not.
    ContentWithheld { expected: Cid },
}

impl Staleness {
    /// Whether a client should act as though it may be missing a defence: anything but fresh.
    pub fn suspect(&self) -> (r: bool)
        ensures
            r == !(*self is Fresh),
    {
        !matches!(self, Staleness::Fresh)
    }
}

/// What accepting a statement answers, given the latest one kept: statements from anyone
/// else are refused as never heard from this publisher, a sequence at or below the latest is
/// a rollback, anything else becomes the latest.
pub open spec fn accept_spec(publisher: Seq<u8>, latest: Option<Timestamp>, ts: Timestamp) -> (
    Option<Timestamp>,
    Result<(), Staleness>,
) {
    if ts.publisher@ != publisher {
        (latest, Err(Staleness::NeverHeard))
    } else if latest is Some && ts.sequence <= latest->0.sequence {
        (
            latest,
            Err(Staleness::Rollback { seen: latest->0.sequence, offered: ts.sequence }),
        )
    } else {
        (Some(ts), Ok(()))
    }
}

/// The state a client is in at time `now`, holding the advisory set `held`.
pub open spec fn status_spec(latest: Option<Timestamp>, now: u64, held: Option<CidView>) -> Staleness {
    match latest {
        None => Staleness::NeverHeard,
        Some(ts) => if now > ts.expires_at {
            Staleness::Expired { since: ts.expires_at }
        } else {
            match held {
                Some(h) => if h != ts.snapshot@ {
                    Staleness::ContentWithheld { expected: ts.snapshot }
                } else {
                    Staleness::Fresh
                },
                None => Staleness::Fresh,
            }
        },
    }
}

/// A client's view of one publisher it expects to hear from.
#[derive(Clone, Debug)]
pub struct FreshnessMonitor {
    pub publisher: Address,
    latest: Option<Timestamp>,
}

impl FreshnessMonitor {
    /// The latest statement kept.
    pub closed spec fn kept(&self) -> Option<Timestamp> {
        self.latest
    }

    /// The publisher whose statements are accepted.
    pub closed spec fn watched(&self) -> Seq<u8> {
        self.publisher@
    }

    pub fn new(publisher: Address) -> (m: Self)
        ensures
            m.watched() == publisher@,
            m.kept() is None,
    {
        FreshnessMonitor { publisher, latest: None }
    }

    /// Accept a statement, rejecting replays and statements from anyone else.
    pub fn accept(&mut self, ts: Timestamp) -> (r: Result<(), Staleness>)
        ensures
            final(self).watched() == old(self).watched(),
            (final(self).kept(), r) == accept_spec(old(self).watched(), old(self).kept(), ts),
    {
        if !ts.publisher.same(&self.publisher) {
            return Err(Staleness::NeverHeard);
        }
        if let Some(prev) = self.latest {
            if ts.sequence <= prev.sequence {
                return Err(Staleness::Rollback { seen: prev.sequence, offered: ts.sequence });
            }
        }
        self.latest = Some(ts);
        Ok(())
    }

    /// The freeze check: silence is not evidence of being current. `held` is the digest of
    /// the advisory set the client has; `None` skips the content check.
    pub fn status(&self, now: u64, held: Option<Cid>) -> (s: Staleness)
        ensures
            s == status_spec(
                self.kept(),
                now,
                match held {
                    Some(h) => Some(h@),
                    None => None,
                },
            ),
    {
        match self.latest {
            None => Staleness::NeverHeard,
            Some(ts) => {
                if now > ts.expires_at {
                    Staleness::Expired { since: ts.expires_at }
                } else {
                    match held {
                        Some(h) => {
                            if !h.same(&ts.snapshot) {
                                Staleness::ContentWithheld { expected: ts.snapshot }
                            } else {
                                Staleness::Fresh
                            }
                        },
                        None => Staleness::Fresh,
                    }
                }
            },
        }
    }

    pub fn latest(&self) -> (r: Option<Timestamp>)
        ensures
            r == self.kept(),
    {
        self.latest
    }
}

/// Sequences only move forward: once a statement is kept, no statement with the same or a
/// lower sequence is accepted, so an old statement cannot be replayed as a new one.
pub proof fn law_an_old_statement_cannot_be_replayed(
    publisher: Seq<u8>,
    latest: Option<Timestamp>,
    ts: Timestamp,
    replay: Timestamp,
)
    requires
        (accept_spec(publisher, latest, ts).1 is Ok),
        replay.sequence <= ts.sequence,
    ensures
        (accept_spec(publisher, accept_spec(publisher, latest, ts).0, replay).1 is Err),
        accept_spec(publisher, accept_spec(publisher, latest, ts).0, replay).0 == Some(ts),
{
}

/// Silence is visible: whatever is held, a kept statement past its expiry reports expiry, and
/// never having heard is reported as such rather than as current.
pub proof fn law_silence_is_not_mistaken_for_freshness(
    latest: Option<Timestamp>,
    now: u64,
    held: Option<CidView>,
)
    ensures
        (latest is None ==> status_spec(latest, now, held) == Staleness::NeverHeard),
        (match latest {
            Some(ts) => now > ts.expires_at ==> status_spec(latest, now, held) == (
            Staleness::Expired { since: ts.expires_at }),
            None => true,
        }),
        (status_spec(latest, now, held) == Staleness::Fresh ==> (latest matches Some(ts) && now
            <= ts.expires_at)),
{
}

} // verus!
