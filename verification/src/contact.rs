//! Peer identity: a fixed-length identifier, a network endpoint, and the
//! XOR bit-length distance metric that organizes the routing table.

use vstd::prelude::*;

verus! {

/// A 256-bit peer identifier, stored as four 64-bit words, most significant
/// word first.
#[derive(Clone, Copy, Debug, PartialEq, Eq, Structural)]
pub struct NodeId {
    pub w0: u64,
    pub w1: u64,
    pub w2: u64,
    pub w3: u64,
}

/// A network endpoint: four IPv4 octets and a port.
#[derive(Clone, Copy, Debug, PartialEq, Eq, Structural)]
pub struct Endpoint {
    pub oct0: u8,
    pub oct1: u8,
    pub oct2: u8,
    pub oct3: u8,
    pub port: u16,
}

/// A peer contact. Two contacts are equal only when both the identifier and
/// the endpoint agree; the distance metric looks at the identifier alone.
#[derive(Clone, Copy, Debug, PartialEq, Eq, Structural)]
pub struct Contact {
    pub id: NodeId,
    pub addr: Endpoint,
}

/// Number of binary digits of `v`: zero for zero, and the index of the
/// highest set bit plus one otherwise.
pub open spec fn bit_len(v: nat) -> nat
    decreases v,
{
    if v == 0 {
        0
    } else {
        1 + bit_len((v / 2) as nat)
    }
}

/// `2^k`, used only to bound `bit_len` on machine words.
pub open spec fn exp2(k: nat) -> nat
    decreases k,
{
    if k == 0 {
        1
    } else {
        2 * exp2((k - 1) as nat)
    }
}

proof fn lemma_bit_len_bound(v: nat, k: nat)
    requires
        v < exp2(k),
    ensures
        bit_len(v) <= k,
    decreases k,
{
    if v > 0 {
        assert(exp2(0) == 1);
        assert(k > 0);
        lemma_bit_len_bound((v / 2) as nat, (k - 1) as nat);
    }
}

pub proof fn lemma_bit_len_le_64(v: u64)
    ensures
        bit_len(v as nat) <= 64,
{
    assert(exp2(64) == 0x10000000000000000) by {
        reveal_with_fuel(exp2, 65);
    }
    lemma_bit_len_bound(v as nat, 64);
}

/// The distance between two identifiers: the bit-length of their XOR, i.e.
/// the index of the highest differing bit plus one. Identical identifiers
/// are at distance zero.
pub open spec fn id_distance(a: NodeId, b: NodeId) -> nat {
    if a.w0 ^ b.w0 != 0 {
        (192 + bit_len((a.w0 ^ b.w0) as nat)) as nat
    } else if a.w1 ^ b.w1 != 0 {
        (128 + bit_len((a.w1 ^ b.w1) as nat)) as nat
    } else if a.w2 ^ b.w2 != 0 {
        (64 + bit_len((a.w2 ^ b.w2) as nat)) as nat
    } else {
        bit_len((a.w3 ^ b.w3) as nat)
    }
}

/// The distance between two contacts is the distance between their
/// identifiers; the endpoints play no part in it.
pub open spec fn distance(a: Contact, b: Contact) -> nat {
    id_distance(a.id, b.id)
}

proof fn lemma_xor_comm(x: u64, y: u64)
    ensures
        x ^ y == y ^ x,
{
    assert(x ^ y == y ^ x) by (bit_vector);
}

proof fn lemma_xor_self_zero(x: u64)
    ensures
        x ^ x == 0,
{
    assert(x ^ x == 0) by (bit_vector);
}

proof fn lemma_xor_zero_iff_eq(x: u64, y: u64)
    ensures
        (x ^ y == 0) <==> (x == y),
{
    assert((x ^ y == 0) <==> (x == y)) by (bit_vector);
}

/// The metric is symmetric: the distance from `a` to `b` is the distance
/// from `b` to `a`.
pub proof fn lemma_distance_symmetric(a: Contact, b: Contact)
    ensures
        distance(a, b) == distance(b, a),
{
    lemma_xor_comm(a.id.w0, b.id.w0);
    lemma_xor_comm(a.id.w1, b.id.w1);
    lemma_xor_comm(a.id.w2, b.id.w2);
    lemma_xor_comm(a.id.w3, b.id.w3);
}

/// Every contact is at distance zero from itself.
pub proof fn lemma_distance_self_zero(a: Contact)
    ensures
        distance(a, a) == 0,
{
    lemma_xor_self_zero(a.id.w0);
    lemma_xor_self_zero(a.id.w1);
    lemma_xor_self_zero(a.id.w2);
    lemma_xor_self_zero(a.id.w3);
}

/// Distance zero means exactly that the identifiers coincide; the endpoints
/// may still differ.
pub proof fn lemma_distance_zero_iff_same_id(a: Contact, b: Contact)
    ensures
        (distance(a, b) == 0) <==> (a.id == b.id),
{
    lemma_xor_zero_iff_eq(a.id.w0, b.id.w0);
    lemma_xor_zero_iff_eq(a.id.w1, b.id.w1);
    lemma_xor_zero_iff_eq(a.id.w2, b.id.w2);
    lemma_xor_zero_iff_eq(a.id.w3, b.id.w3);
    if a.id.w0 == b.id.w0 && a.id.w1 == b.id.w1 && a.id.w2 == b.id.w2 && a.id.w3 == b.id.w3 {
        assert(a.id == b.id);
    }
}

/// The metric never exceeds the identifier width of 256 bits.
pub proof fn lemma_distance_le_256(a: Contact, b: Contact)
    ensures
        distance(a, b) <= 256,
{
    lemma_bit_len_le_64(a.id.w0 ^ b.id.w0);
    lemma_bit_len_le_64(a.id.w1 ^ b.id.w1);
    lemma_bit_len_le_64(a.id.w2 ^ b.id.w2);
    lemma_bit_len_le_64(a.id.w3 ^ b.id.w3);
}

/// A strict total order over identifiers: lexicographic over the words,
/// most significant first.
pub open spec fn id_lt(a: NodeId, b: NodeId) -> bool {
    if a.w0 != b.w0 {
        a.w0 < b.w0
    } else if a.w1 != b.w1 {
        a.w1 < b.w1
    } else if a.w2 != b.w2 {
        a.w2 < b.w2
    } else {
        a.w3 < b.w3
    }
}

/// A strict total order over endpoints: octets first, then the port.
pub open spec fn endpoint_lt(a: Endpoint, b: Endpoint) -> bool {
    if a.oct0 != b.oct0 {
        a.oct0 < b.oct0
    } else if a.oct1 != b.oct1 {
        a.oct1 < b.oct1
    } else if a.oct2 != b.oct2 {
        a.oct2 < b.oct2
    } else if a.oct3 != b.oct3 {
        a.oct3 < b.oct3
    } else {
        a.port < b.port
    }
}

/// A strict, deterministic total order over full contact values: identifier
/// first, endpoint as the tie-break. Used to merge query candidates.
pub open spec fn contact_lt(a: Contact, b: Contact) -> bool {
    if a.id != b.id {
        id_lt(a.id, b.id)
    } else {
        endpoint_lt(a.addr, b.addr)
    }
}

/// `contact_lt` is a strict total order: irreflexive, asymmetric,
/// transitive, and total (incomparable contacts are equal).
pub proof fn lemma_contact_order_total(a: Contact, b: Contact)
    ensures
        !contact_lt(a, a),
        contact_lt(a, b) ==> !contact_lt(b, a),
        !contact_lt(a, b) && !contact_lt(b, a) ==> a == b,
{
    if !contact_lt(a, b) && !contact_lt(b, a) {
        assert(a.id == b.id);
        assert(a.addr == b.addr);
        assert(a == b);
    }
}

pub proof fn lemma_contact_order_trans(a: Contact, b: Contact, c: Contact)
    ensures
        contact_lt(a, b) && contact_lt(b, c) ==> contact_lt(a, c),
{
}

impl Contact {
    /// Build a contact from an identifier and an endpoint.
    pub fn new(id: NodeId, addr: Endpoint) -> (c: Contact)
        ensures
            c.id == id,
            c.addr == addr,
    {
        Contact { id, addr }
    }

    /// Build a contact from an identifier alone, with the unspecified
    /// endpoint `0.0.0.0:0`.
    pub fn from_id(id: NodeId) -> (c: Contact)
        ensures
            c.id == id,
            c.addr == (Endpoint { oct0: 0, oct1: 0, oct2: 0, oct3: 0, port: 0 }),
    {
        Contact { id, addr: Endpoint { oct0: 0, oct1: 0, oct2: 0, oct3: 0, port: 0 } }
    }

    /// The distance from this contact to `other`: the bit-length of the XOR
    /// of the two identifiers.
    pub fn log2_distance(&self, other: &Contact) -> (d: usize)
        ensures
            d == distance(*self, *other),
            d <= 256,
    {
        let x0 = self.id.w0 ^ other.id.w0;
        let x1 = self.id.w1 ^ other.id.w1;
        let x2 = self.id.w2 ^ other.id.w2;
        let x3 = self.id.w3 ^ other.id.w3;
        if x0 != 0 {
            192 + bit_length(x0)
        } else if x1 != 0 {
            128 + bit_length(x1)
        } else if x2 != 0 {
            64 + bit_length(x2)
        } else {
            bit_length(x3)
        }
    }
}

/// Number of binary digits of a 64-bit word.
fn bit_length(v: u64) -> (n: usize)
    ensures
        n == bit_len(v as nat),
        n <= 64,
{
    proof {
        lemma_bit_len_le_64(v);
    }
    let mut x = v;
    let mut n: usize = 0;
    while x > 0
        invariant
            n + bit_len(x as nat) == bit_len(v as nat),
            bit_len(v as nat) <= 64,
        decreases x,
    {
        x = x / 2;
        n = n + 1;
    }
    n
}

/// An exec comparison realizing the `contact_lt` order.
pub fn contact_before(a: &Contact, b: &Contact) -> (r: bool)
    ensures
        r == contact_lt(*a, *b),
{
    if a.id.w0 != b.id.w0 {
        a.id.w0 < b.id.w0
    } else if a.id.w1 != b.id.w1 {
        a.id.w1 < b.id.w1
    } else if a.id.w2 != b.id.w2 {
        a.id.w2 < b.id.w2
    } else if a.id.w3 != b.id.w3 {
        a.id.w3 < b.id.w3
    } else if a.addr.oct0 != b.addr.oct0 {
        a.addr.oct0 < b.addr.oct0
    } else if a.addr.oct1 != b.addr.oct1 {
        a.addr.oct1 < b.addr.oct1
    } else if a.addr.oct2 != b.addr.oct2 {
        a.addr.oct2 < b.addr.oct2
    } else if a.addr.oct3 != b.addr.oct3 {
        a.addr.oct3 < b.addr.oct3
    } else {
        a.addr.port < b.addr.port
    }
}

} // verus!
