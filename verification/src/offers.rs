//! The orders that reach the engine: who offers what, on which side, at
//! which price, and under which key.
use crate::typed_tree::{be_u64, lemma_be_injective, u64_from_be_bytes, u64_to_be_bytes};
use vstd::prelude::*;

verus! {

/// An order, under the key it was stored with.
#[derive(Debug)]
pub struct Offer {
    pub key: OfferKey,
    pub value: OfferValue,
}

/// A monotonic key: a counter stored as eight big-endian bytes, so that the
/// byte order of keys is their numeric order.
#[derive(Debug)]
pub struct OfferKey([u8; 8]);

/// What can happen to an order book: an order is withdrawn, or one is added.
#[derive(Debug)]
pub enum OfferEvent {
    Delete(OfferKey),
    Add(OfferValue),
}

/// What an order asks for. A price of `None` makes it a market order.
#[derive(Debug)]
pub struct OfferValue {
    pub security: Security,
    pub side: Side,
    pub amount: u64,
    pub price: Option<u64>,
}

/// What is traded.
#[derive(Debug, Clone, Copy)]
pub enum Security {
    BTC,
    USD,
    COP,
}

/// Whether an order sells or buys.
#[derive(Clone, Copy, Debug, PartialEq, Eq, Structural)]
pub enum Side {
    Sell,
    Buy,
}

/// The side that trades against `s`.
pub open spec fn opposite(s: Side) -> Side {
    match s {
        Side::Sell => Side::Buy,
        Side::Buy => Side::Sell,
    }
}

impl Offer {
    /// The side this order trades against.
    pub fn opposite_side(&self) -> (r: Side)
        ensures
            r == opposite(self.value.side),
            r != self.value.side,
    {
        match self.value.side {
            Side::Sell => Side::Buy,
            Side::Buy => Side::Sell,
        }
    }
}

/// Taking the opposite side twice gives the side back.
pub proof fn lemma_opposite_involutive(s: Side)
    ensures
        opposite(opposite(s)) == s,
        opposite(s) != s,
{
}

impl View for OfferKey {
    type V = u64;

    /// The counter that the key's bytes encode.
    closed spec fn view(&self) -> u64 {
        be_u64(self.0@) as u64
    }
}

impl OfferKey {
    /// Two keys that encode the same counter are the same key.
    pub proof fn lemma_view_injective(a: OfferKey, b: OfferKey)
        requires
            a@ == b@,
        ensures
            a == b,
    {
        lemma_be_injective(a.0, b.0);
    }

    /// The counter the key encodes.
    pub fn to_u64(&self) -> (r: u64)
        ensures
            r == self@,
    {
        u64_from_be_bytes(self.0)
    }

    /// The key's bytes, most significant first.
    pub fn as_bytes(&self) -> (r: &[u8; 8])
        ensures
            be_u64(r@) == self@,
    {
        &self.0
    }
}

impl From<u64> for OfferKey {
    fn from(v: u64) -> (r: OfferKey)
        ensures
            r@ == v,
    {
        let r = OfferKey(u64_to_be_bytes(v));
        proof {
            let k = choose|k: OfferKey| k@ == v;
            OfferKey::lemma_view_injective(r, k);
        }
        r
    }
}

impl vstd::std_specs::convert::FromSpecImpl<u64> for OfferKey {
    open spec fn obeys_from_spec() -> bool {
        true
    }

    open spec fn from_spec(v: u64) -> OfferKey {
        choose|k: OfferKey| k@ == v
    }
}

impl From<OfferKey> for u64 {
    fn from(k: OfferKey) -> (r: u64)
        ensures
            r == k@,
    {
        u64_from_be_bytes(k.0)
    }
}

impl vstd::std_specs::convert::FromSpecImpl<OfferKey> for u64 {
    open spec fn obeys_from_spec() -> bool {
        true
    }

    open spec fn from_spec(k: OfferKey) -> u64 {
        k@
    }
}

impl From<[u8; 8]> for OfferKey {
    fn from(b: [u8; 8]) -> (r: OfferKey)
        ensures
            r@ == be_u64(b@),
    {
        let r = OfferKey(b);
        proof {
            let k = choose|k: OfferKey| k@ == be_u64(b@);
            OfferKey::lemma_view_injective(r, k);
        }
        r
    }
}

impl vstd::std_specs::convert::FromSpecImpl<[u8; 8]> for OfferKey {
    open spec fn obeys_from_spec() -> bool {
        true
    }

    open spec fn from_spec(b: [u8; 8]) -> OfferKey {
        choose|k: OfferKey| k@ == be_u64(b@)
    }
}

impl AsRef<[u8]> for OfferKey {
    fn as_ref(&self) -> (r: &[u8])
        ensures
            r@.len() == 8,
            be_u64(r@) == self@,
    {
        self.0.as_slice()
    }
}

/// A key and its counter convert into each other without loss.
pub proof fn law_key_round_trip(k: OfferKey, v: u64)
    ensures
        <OfferKey as vstd::std_specs::convert::FromSpec<u64>>::from_spec(
            <u64 as vstd::std_specs::convert::FromSpec<OfferKey>>::from_spec(k),
        ) == k,
        <u64 as vstd::std_specs::convert::FromSpec<OfferKey>>::from_spec(
            <OfferKey as vstd::std_specs::convert::FromSpec<u64>>::from_spec(v),
        ) == v,
{
    let k2 = choose|x: OfferKey| x@ == k@;
    OfferKey::lemma_view_injective(k, k2);
    crate::typed_tree::lemma_be_array(v);
    let w = OfferKey(crate::typed_tree::be_array(v));
    assert(w@ == v);
}

} // verus!
