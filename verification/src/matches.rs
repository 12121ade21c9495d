//! The records of trades: a trade under a monotonic key, with a reference
//! to the order it filled.
use crate::offers::Security;
use crate::typed_tree::{be_u64, lemma_be_injective, u64_from_be_bytes, u64_to_be_bytes};
use vstd::prelude::*;

verus! {

/// A trade, under the key it was stored with.
#[derive(Debug)]
pub struct Match {
    pub key: MatchKey,
    pub value: MatchValue,
}

/// A monotonic key: a counter stored as eight big-endian bytes, so that the
/// byte order of keys is their numeric order.
#[derive(Debug)]
pub struct MatchKey([u8; 8]);

/// What was traded: the key of the order it filled, the security, the price
/// (`None` at market) and the amount.
#[derive(Debug)]
pub struct MatchValue {
    pub reference: [u8; 8],
    pub security: Security,
    pub price: Option<u64>,
    pub amount: u64,
}

impl View for MatchKey {
    type V = u64;

    /// The counter that the key's bytes encode.
    closed spec fn view(&self) -> u64 {
        be_u64(self.0@) as u64
    }
}

impl MatchKey {
    /// Two keys that encode the same counter are the same key.
    pub proof fn lemma_view_injective(a: MatchKey, b: MatchKey)
        requires
            a@ == b@,
        ensures
            a == b,
    {
        lemma_be_injective(a.0, b.0);
    }

    /// The counter the key encodes.
    pub fn to_u64(&self) -> (r: u64)
        ensures
            r == self@,
    {
        u64_from_be_bytes(self.0)
    }

    /// The key's bytes, most significant first.
    pub fn as_bytes(&self) -> (r: &[u8; 8])
        ensures
            be_u64(r@) == self@,
    {
        &self.0
    }
}

impl From<u64> for MatchKey {
    fn from(v: u64) -> (r: MatchKey)
        ensures
            r@ == v,
    {
        let r = MatchKey(u64_to_be_bytes(v));
        proof {
            let k = choose|k: MatchKey| k@ == v;
            MatchKey::lemma_view_injective(r, k);
        }
        r
    }
}

impl vstd::std_specs::convert::FromSpecImpl<u64> for MatchKey {
    open spec fn obeys_from_spec() -> bool {
        true
    }

    open spec fn from_spec(v: u64) -> MatchKey {
        choose|k: MatchKey| k@ == v
    }
}

impl From<MatchKey> for u64 {
    fn from(k: MatchKey) -> (r: u64)
        ensures
            r == k@,
    {
        u64_from_be_bytes(k.0)
    }
}

impl vstd::std_specs::convert::FromSpecImpl<MatchKey> for u64 {
    open spec fn obeys_from_spec() -> bool {
        true
    }

    open spec fn from_spec(k: MatchKey) -> u64 {
        k@
    }
}

impl From<[u8; 8]> for MatchKey {
    fn from(b: [u8; 8]) -> (r: MatchKey)
        ensures
            r@ == be_u64(b@),
    {
        let r = MatchKey(b);
        proof {
            let k = choose|k: MatchKey| k@ == be_u64(b@);
            MatchKey::lemma_view_injective(r, k);
        }
        r
    }
}

impl vstd::std_specs::convert::FromSpecImpl<[u8; 8]> for MatchKey {
    open spec fn obeys_from_spec() -> bool {
        true
    }

    open spec fn from_spec(b: [u8; 8]) -> MatchKey {
        choose|k: MatchKey| k@ == be_u64(b@)
    }
}

impl AsRef<[u8]> for MatchKey {
    fn as_ref(&self) -> (r: &[u8])
        ensures
            r@.len() == 8,
            be_u64(r@) == self@,
    {
        self.0.as_slice()
    }
}

/// A key and its counter convert into each other without loss.
pub proof fn law_match_key_round_trip(k: MatchKey, v: u64)
    ensures
        <MatchKey as vstd::std_specs::convert::FromSpec<u64>>::from_spec(
            <u64 as vstd::std_specs::convert::FromSpec<MatchKey>>::from_spec(k),
        ) == k,
        <u64 as vstd::std_specs::convert::FromSpec<MatchKey>>::from_spec(
            <MatchKey as vstd::std_specs::convert::FromSpec<u64>>::from_spec(v),
        ) == v,
{
    let k2 = choose|x: MatchKey| x@ == k@;
    MatchKey::lemma_view_injective(k, k2);
    crate::typed_tree::lemma_be_array(v);
    let w = MatchKey(crate::typed_tree::be_array(v));
    assert(w@ == v);
}

} // verus!
