//! Publishing to everyone, rather than sending to someone.
//!
//! A feed's tag is derivable from the publisher's address alone, so people who have never met
//! the publisher can read it. That makes a feed box public and floodable: anyone can deposit,
//! nobody can forge, because a reader keeps only objects signed by the publisher whose feed it
//! is. A flood buys denial and never substitution. Each feed reassembles into its own buffer,
//! so one flooded publisher cannot deny the others a reader follows.
use vstd::prelude::*;
use crate::codec::{blake3_digest, blake3_hash, law_u64_round_trip, push_all, push_u64_le, u64_le, Address};
use crate::frame::{accept_spec, dec_fragment, Fragment, PartialView, Reassembler, ENVELOPE_BYTES, ENV_OPEN, INNER_BYTES};
use crate::provider::sat_inc;

verus! {

broadcast use vstd::std_specs::vec::group_vec_axioms;

/// The domain a feed tag is derived under.
pub open spec fn feed_domain() -> Seq<u8> {
    seq![107u8, 97, 114, 115, 116, 46, 110, 101, 116, 46, 118, 49, 46, 102, 101, 101, 100]
}

/// The box a publisher deposits into during an epoch.
pub open spec fn feed_tag_of(publisher: Seq<u8>, epoch: u64) -> Seq<u8> {
    blake3_digest(feed_domain() + publisher + u64_le(epoch))
}

/// Where `publisher` deposits during `epoch`: a hash of the domain, the address and the epoch.
pub fn feed_tag(publisher: &Address, epoch: u64) -> (t: [u8; 32])
    ensures
        t@ == feed_tag_of(publisher@, epoch),
{
    let domain: [u8; 17] = [107, 97, 114, 115, 116, 46, 110, 101, 116, 46, 118, 49, 46, 102, 101, 101, 100];
    let mut input: Vec<u8> = Vec::new();
    push_all(&mut input, &domain);
    push_all(&mut input, publisher.as_bytes());
    push_u64_le(&mut input, epoch);
    assert(domain@ =~= feed_domain());
    assert(input@ =~= feed_domain() + publisher@ + u64_le(epoch));
    blake3_hash(input.as_slice())
}

#[derive(Debug, Clone, Copy, PartialEq, Eq)]
pub struct FeedStats {
    /// Objects accepted, verified, and from the expected publisher.
    pub accepted: u64,
    /// Reassembled bytes that were not a valid object.
    pub undecodable: u64,
    /// Valid objects signed by somebody other than the publisher of this feed.
    pub wrong_author: u64,
    /// Fragments refused for disagreeing with a publication already being collected.
    pub conflicting: u64,
}

impl FeedStats {
    pub open spec fn zero() -> FeedStats {
        FeedStats { accepted: 0, undecodable: 0, wrong_author: 0, conflicting: 0 }
    }
}

impl Default for FeedStats {
    fn default() -> (s: Self)
        ensures
            s == FeedStats::zero(),
    {
        FeedStats { accepted: 0, undecodable: 0, wrong_author: 0, conflicting: 0 }
    }
}

/// What judging a reassembled object does to the counters: `author` is who signed it when it
/// decoded and verified.
pub open spec fn judge_counts(s: FeedStats, publisher: Seq<u8>, author: Option<Seq<u8>>) -> FeedStats {
    match author {
        None => FeedStats { undecodable: sat_inc(s.undecodable), ..s },
        Some(a) => if a == publisher {
            FeedStats { accepted: sat_inc(s.accepted), ..s }
        } else {
            FeedStats { wrong_author: sat_inc(s.wrong_author), ..s }
        },
    }
}

/// Whether an envelope is an open one of the size everything on this network is.
pub open spec fn open_envelope(e: Seq<u8>) -> bool {
    e.len() == ENVELOPE_BYTES && e[0] == ENV_OPEN
}

/// One publisher's feed, as a subscriber sees it.
pub struct FeedReader {
    publisher: Address,
    inbox: Reassembler,
    stats: FeedStats,
}

impl FeedReader {
    #[verifier::type_invariant]
    closed spec fn inv(self) -> bool {
        self.inbox.capacity() > 0
    }

    /// Whose feed this is.
    pub closed spec fn owner(&self) -> Seq<u8> {
        self.publisher@
    }

    /// Publications part-collected.
    pub closed spec fn collecting(&self) -> Seq<PartialView> {
        self.inbox@
    }

    /// How many publications may be part-collected at once.
    pub closed spec fn room(&self) -> nat {
        self.inbox.capacity()
    }

    pub closed spec fn counts(&self) -> FeedStats {
        self.stats
    }

    pub fn new(publisher: Address) -> (r: Self)
        ensures
            r.owner() == publisher@,
            r.collecting() == Seq::<PartialView>::empty(),
            r.room() == Reassembler::DEFAULT_CAPACITY,
            r.counts() == FeedStats::zero(),
    {
        FeedReader { publisher, inbox: Reassembler::new(), stats: FeedStats::default() }
    }

    pub fn publisher(&self) -> (a: Address)
        ensures
            a@ == self.owner(),
    {
        self.publisher
    }

    pub fn tag(&self, epoch: u64) -> (t: [u8; 32])
        ensures
            t@ == feed_tag_of(self.owner(), epoch),
    {
        feed_tag(&self.publisher, epoch)
    }

    pub fn stats(&self) -> (s: FeedStats)
        ensures
            s == self.counts(),
    {
        self.stats
    }

    /// Read an envelope collected from this feed's box into this feed's own reassembly.
    ///
    /// Only an open envelope is read: a sealed one has no business in a feed box. Returns the
    /// reassembled bytes when this envelope completed a publication.
    pub fn open(&mut self, envelope: &[u8]) -> (r: Option<Vec<u8>>)
        ensures
            final(self).owner() == old(self).owner(),
            final(self).room() == old(self).room(),
            final(self).counts() == old(self).counts(),
            !open_envelope(envelope@) ==> r is None && final(self).collecting() == old(self).collecting(),
            open_envelope(envelope@) ==> match dec_fragment(envelope@.subrange(1, 1 + INNER_BYTES)) {
                Err(_) => r is None && final(self).collecting() == old(self).collecting(),
                Ok(f) => {
                    let (parts, res) = accept_spec(old(self).collecting(), old(self).room(), f);
                    &&& final(self).collecting() == parts
                    &&& match res {
                        Ok(Some(m)) => r is Some && r.unwrap()@ == m,
                        _ => r is None,
                    }
                },
            },
    {
        proof {
            use_type_invariant(&*self);
        }
        if envelope.len() != ENVELOPE_BYTES || envelope[0] != ENV_OPEN {
            return None;
        }
        let mut inner: Vec<u8> = Vec::new();
        let mut i: usize = 1;
        while i < 1 + INNER_BYTES
            invariant
                1 <= i <= 1 + INNER_BYTES,
                envelope@.len() == ENVELOPE_BYTES,
                inner@ == envelope@.subrange(1, i as int),
            decreases 1 + INNER_BYTES - i,
        {
            inner.push(envelope[i]);
            assert(inner@ == envelope@.subrange(1, i + 1));
            i += 1;
        }
        let f = match Fragment::decode(inner.as_slice()) {
            Ok(f) => f,
            Err(_) => {
                return None;
            },
        };
        let mut taken = FeedReader::new(self.publisher);
        std::mem::swap(self, &mut taken);
        let FeedReader { publisher, mut inbox, stats } = taken;
        let r = inbox.accept(f);
        *self = FeedReader { publisher, inbox, stats };
        match r {
            Ok(Some(m)) => Some(m),
            _ => None,
        }
    }

    /// Count what became of a reassembled publication: `author` is who signed it when it
    /// decoded into an object that verified, `None` otherwise. Returns whether it is this
    /// feed's, which is what makes a flood useless for anything but denial.
    pub fn judge(&mut self, author: Option<Address>) -> (mine: bool)
        ensures
            final(self).owner() == old(self).owner(),
            final(self).room() == old(self).room(),
            final(self).collecting() == old(self).collecting(),
            final(self).counts() == judge_counts(
                old(self).counts(),
                old(self).owner(),
                match author {
                    Some(a) => Some(a@),
                    None => None,
                },
            ),
            mine == (author is Some && author.unwrap()@ == old(self).owner()),
    {
        proof {
            use_type_invariant(&*self);
        }
        match author {
            None => {
                self.stats.undecodable = if self.stats.undecodable == u64::MAX {
                    u64::MAX
                } else {
                    self.stats.undecodable + 1
                };
                false
            },
            Some(a) => {
                if a.same(&self.publisher) {
                    self.stats.accepted = if self.stats.accepted == u64::MAX {
                        u64::MAX
                    } else {
                        self.stats.accepted + 1
                    };
                    true
                } else {
                    self.stats.wrong_author = if self.stats.wrong_author == u64::MAX {
                        u64::MAX
                    } else {
                        self.stats.wrong_author + 1
                    };
                    false
                }
            },
        }
    }
}

/// A feed's box depends on nothing but the publisher's address and the epoch, so any reader
/// who knows the address finds the same box, and a publisher's box moves every epoch.
pub proof fn law_a_feed_tag_is_derived_from_the_address(publisher: Seq<u8>, epoch: u64, other: u64)
    ensures
        feed_tag_of(publisher, epoch) == blake3_digest(feed_domain() + publisher + u64_le(epoch)),
        epoch != other ==> feed_domain() + publisher + u64_le(epoch) != feed_domain() + publisher
            + u64_le(other),
{
    if epoch != other {
        let x = feed_domain() + publisher;
        let e = Seq::<u8>::empty();
        law_u64_round_trip(x, epoch, e);
        law_u64_round_trip(x, other, e);
        assert(x + u64_le(epoch) + e == feed_domain() + publisher + u64_le(epoch));
        assert(x + u64_le(other) + e == feed_domain() + publisher + u64_le(other));
    }
}

/// Only objects signed by the feed's own publisher are kept: whatever anyone else deposits is
/// counted, never accepted.
pub proof fn law_a_flood_buys_denial_and_never_substitution(
    s: FeedStats,
    publisher: Seq<u8>,
    author: Option<Seq<u8>>,
)
    requires
        s.accepted < u64::MAX,
    ensures
        judge_counts(s, publisher, author).accepted == s.accepted + 1 <==> author == Some(publisher),
{
}

} // verus!
