//! Big-endian key encoding shared by the monotonic key types, and the
//! decisions a key/value store makes around its monotonic keys.
use vstd::prelude::*;

verus! {

/// The unsigned number that eight bytes encode, most significant byte first.
pub open spec fn be_u64(b: Seq<u8>) -> int
    recommends
        b.len() == 8,
{
    b[0] * 0x100_0000_0000_0000int + b[1] * 0x1_0000_0000_0000int + b[2] * 0x100_0000_0000int
        + b[3] * 0x1_0000_0000int + b[4] * 0x100_0000int + b[5] * 0x1_0000int + b[6] * 0x100int
        + b[7]
}

/// The `i`-th byte (counting from the most significant one) of the
/// big-endian encoding of `v`.
pub open spec fn be_byte(v: u64, i: int) -> u8
    recommends
        0 <= i < 8,
{
    ((v >> ((7 - i) * 8) as u64) & 0xff) as u8
}

proof fn lemma_be_of_bytes(v: u64)
    by (bit_vector)
    ensures
        ((v >> 56u64) & 0xff) * 0x100_0000_0000_0000int + ((v >> 48u64) & 0xff) * 0x1_0000_0000_0000int
            + ((v >> 40u64) & 0xff) * 0x100_0000_0000int + ((v >> 32u64) & 0xff) * 0x1_0000_0000int
            + ((v >> 24u64) & 0xff) * 0x100_0000int + ((v >> 16u64) & 0xff) * 0x1_0000int
            + ((v >> 8u64) & 0xff) * 0x100int + (v & 0xff) == v,
{
}

/// The eight bytes that encode `v`, most significant first.
pub open spec fn be_array(v: u64) -> [u8; 8] {
    [
        ((v >> 56u64) & 0xff) as u8,
        ((v >> 48u64) & 0xff) as u8,
        ((v >> 40u64) & 0xff) as u8,
        ((v >> 32u64) & 0xff) as u8,
        ((v >> 24u64) & 0xff) as u8,
        ((v >> 16u64) & 0xff) as u8,
        ((v >> 8u64) & 0xff) as u8,
        (v & 0xff) as u8,
    ]
}

/// `be_array` encodes `v`.
pub proof fn lemma_be_array(v: u64)
    ensures
        be_u64(be_array(v)@) == v,
{
    lemma_be_of_bytes(v);
    assert(((v >> 56u64) & 0xff) < 256) by (bit_vector);
    assert(((v >> 48u64) & 0xff) < 256) by (bit_vector);
    assert(((v >> 40u64) & 0xff) < 256) by (bit_vector);
    assert(((v >> 32u64) & 0xff) < 256) by (bit_vector);
    assert(((v >> 24u64) & 0xff) < 256) by (bit_vector);
    assert(((v >> 16u64) & 0xff) < 256) by (bit_vector);
    assert(((v >> 8u64) & 0xff) < 256) by (bit_vector);
    assert((v & 0xff) < 256) by (bit_vector);
}

/// Decodes eight bytes as a big-endian unsigned number.
pub fn u64_from_be_bytes(b: [u8; 8]) -> (r: u64)
    ensures
        r == be_u64(b@),
{
    (b[0] as u64) * 0x100_0000_0000_0000 + (b[1] as u64) * 0x1_0000_0000_0000 + (b[2] as u64)
        * 0x100_0000_0000 + (b[3] as u64) * 0x1_0000_0000 + (b[4] as u64) * 0x100_0000
        + (b[5] as u64) * 0x1_0000 + (b[6] as u64) * 0x100 + (b[7] as u64)
}

/// Encodes a number as eight bytes, most significant byte first.
pub fn u64_to_be_bytes(v: u64) -> (r: [u8; 8])
    ensures
        be_u64(r@) == v,
{
    let r = [
        ((v >> 56u64) & 0xff) as u8,
        ((v >> 48u64) & 0xff) as u8,
        ((v >> 40u64) & 0xff) as u8,
        ((v >> 32u64) & 0xff) as u8,
        ((v >> 24u64) & 0xff) as u8,
        ((v >> 16u64) & 0xff) as u8,
        ((v >> 8u64) & 0xff) as u8,
        (v & 0xff) as u8,
    ];
    proof {
        lemma_be_array(v);
        assert(r@ =~= be_array(v)@);
    }
    r
}

proof fn lemma_be_bytes_unique(
    a0: u8, a1: u8, a2: u8, a3: u8, a4: u8, a5: u8, a6: u8, a7: u8,
    b0: u8, b1: u8, b2: u8, b3: u8, b4: u8, b5: u8, b6: u8, b7: u8,
)
    by (bit_vector)
    requires
        a0 * 0x100_0000_0000_0000int + a1 * 0x1_0000_0000_0000int + a2 * 0x100_0000_0000int
            + a3 * 0x1_0000_0000int + a4 * 0x100_0000int + a5 * 0x1_0000int + a6 * 0x100int + a7
            == b0 * 0x100_0000_0000_0000int + b1 * 0x1_0000_0000_0000int + b2 * 0x100_0000_0000int
            + b3 * 0x1_0000_0000int + b4 * 0x100_0000int + b5 * 0x1_0000int + b6 * 0x100int + b7,
    ensures
        a0 == b0 && a1 == b1 && a2 == b2 && a3 == b3 && a4 == b4 && a5 == b5 && a6 == b6 && a7 == b7,
{
}

/// Two eight-byte arrays that encode the same number are the same array.
pub proof fn lemma_be_injective(a: [u8; 8], b: [u8; 8])
    requires
        be_u64(a@) == be_u64(b@),
    ensures
        a == b,
{
    lemma_be_bytes_unique(a[0], a[1], a[2], a[3], a[4], a[5], a[6], a[7], b[0], b[1], b[2], b[3], b[4], b[5], b[6], b[7]);
    assert(a =~= b);
}

/// Reads a big-endian number from the first eight bytes of `input` and
/// advances `input` past them.
pub fn read_be_u64(input: &mut &[u8]) -> (r: u64)
    requires
        old(input)@.len() >= 8,
    ensures
        r == be_u64(old(input)@.subrange(0, 8)),
        final(input)@ == old(input)@.subrange(8, old(input)@.len() as int),
{
    let (int_bytes, rest) = input.split_at(8);
    *input = rest;
    u64_from_be_bytes(
        [
            int_bytes[0],
            int_bytes[1],
            int_bytes[2],
            int_bytes[3],
            int_bytes[4],
            int_bytes[5],
            int_bytes[6],
            int_bytes[7],
        ],
    )
}

/// The counter that monotonic keys continue from: one past the greatest key
/// stored, or 1 when nothing is stored.
pub open spec fn next_counter(max_key: Option<Seq<u8>>) -> int {
    match max_key {
        None => 1,
        Some(k) => be_u64(k) + 1,
    }
}

/// The counter that monotonic keys continue from, given the greatest key
/// stored, if any; a stored key is eight bytes and not the last counter.
pub fn counter_after(max_key: Option<&[u8]>) -> (r: u64)
    requires
        max_key matches Some(k) ==> k@.len() == 8 && be_u64(k@) < u64::MAX,
    ensures
        r == next_counter(
            match max_key {
                None => None,
                Some(k) => Some(k@),
            },
        ),
{
    match max_key {
        None => 1,
        Some(k) => {
            let mut b = k;
            let count = read_be_u64(&mut b);
            proof {
                assert(k@.subrange(0, 8) =~= k@);
            }
            count + 1
        },
    }
}

/// Big-endian keys sort bytewise as their counters: when two keys first
/// differ at byte `i`, the one with the smaller byte there encodes the
/// smaller number.
pub proof fn law_be_bytewise_order(a: [u8; 8], b: [u8; 8], i: int)
    requires
        0 <= i < 8,
        a@.take(i) == b@.take(i),
        a[i] < b[i],
    ensures
        be_u64(a@) < be_u64(b@),
{
    assert forall|j: int| 0 <= j < i implies a@[j] == b@[j] by {
        assert(a@.take(i)[j] == a@[j]);
        assert(b@.take(i)[j] == b@[j]);
    }
}

} // verus!
