//! Peer identifiers and the XOR distance metric.
//!
//! A peer identifier is a fixed-length opaque byte string. The distance
//! between two identifiers is their bytewise XOR; distances are ordered
//! lexicographically (equivalently, as big-endian integers), and the number
//! of leading zero bits of a distance gives the routing-table bucket index.

use vstd::prelude::*;

verus! {

/// Number of bytes in a peer identifier.
pub const ID_BYTES: usize = 32;

/// A fixed-length peer identifier derived from a public key.
pub struct PeerId {
    pub bytes: Vec<u8>,
}

impl View for PeerId {
    type V = Seq<u8>;

    open spec fn view(&self) -> Seq<u8> {
        self.bytes@
    }
}

impl Clone for PeerId {
    fn clone(&self) -> (r: Self)
        ensures
            r@ == self@,
    {
        PeerId { bytes: self.bytes.clone() }
    }
}

impl PeerId {
    /// A well-formed identifier has exactly `ID_BYTES` bytes.
    pub open spec fn wf(&self) -> bool {
        self@.len() == ID_BYTES
    }

    pub fn new(bytes: Vec<u8>) -> (r: Option<PeerId>)
        ensures
            bytes@.len() == ID_BYTES ==> (r is Some && r->0@ == bytes@ && r->0.wf()),
            bytes@.len() != ID_BYTES ==> r is None,
    {
        if bytes.len() == ID_BYTES {
            Some(PeerId { bytes })
        } else {
            None
        }
    }
}

/// Bytewise XOR distance between two equal-length identifiers.
pub open spec fn spec_distance(a: Seq<u8>, b: Seq<u8>) -> Seq<u8> {
    Seq::new(a.len(), |i: int| a[i] ^ b[i])
}

/// True when every byte of `d` is zero.
pub open spec fn all_zero(d: Seq<u8>) -> bool {
    forall|i: int| 0 <= i < d.len() ==> d[i] == 0
}

/// Three-way lexicographic comparison of equal-length byte strings,
/// starting at index `i`: negative when `a` comes first, zero when the
/// suffixes are equal, positive when `b` comes first.
pub open spec fn lex_cmp_from(a: Seq<u8>, b: Seq<u8>, i: int) -> int
    decreases a.len() - i,
{
    if i < 0 || i >= a.len() || i >= b.len() {
        0
    } else if a[i] < b[i] {
        -1
    } else if a[i] > b[i] {
        1
    } else {
        lex_cmp_from(a, b, i + 1)
    }
}

/// `a` is at least as close to `t` as `b` is.
pub open spec fn spec_dist_le(a: Seq<u8>, b: Seq<u8>, t: Seq<u8>) -> bool {
    lex_cmp_from(spec_distance(a, t), spec_distance(b, t), 0) <= 0
}

/// `a` is strictly closer to `t` than `b` is.
pub open spec fn spec_dist_lt(a: Seq<u8>, b: Seq<u8>, t: Seq<u8>) -> bool {
    lex_cmp_from(spec_distance(a, t), spec_distance(b, t), 0) < 0
}

/// Leading zero count of one byte.
pub open spec fn byte_lz(b: u8) -> nat {
    if b >= 0x80 {
        0
    } else if b >= 0x40 {
        1
    } else if b >= 0x20 {
        2
    } else if b >= 0x10 {
        3
    } else if b >= 0x08 {
        4
    } else if b >= 0x04 {
        5
    } else if b >= 0x02 {
        6
    } else if b >= 0x01 {
        7
    } else {
        8
    }
}

/// Number of leading zero bits of `d`, counted from byte index `i`.
pub open spec fn lz_from(d: Seq<u8>, i: int) -> nat
    decreases d.len() - i,
{
    if i < 0 || i >= d.len() {
        0
    } else if d[i] == 0 {
        (8 + lz_from(d, i + 1)) as nat
    } else {
        byte_lz(d[i])
    }
}

/// Bucket index of `b` in the table owned by `a`: the shared prefix length
/// of the two identifiers, i.e. the leading zero bits of their distance.
pub open spec fn spec_bucket_index(a: Seq<u8>, b: Seq<u8>) -> nat {
    lz_from(spec_distance(a, b), 0)
}

/// The distance metric is symmetric.
pub proof fn lemma_distance_symmetric(a: Seq<u8>, b: Seq<u8>)
    requires
        a.len() == b.len(),
    ensures
        spec_distance(a, b) == spec_distance(b, a),
{
    assert(forall|x: u8, y: u8| #[trigger] (x ^ y) == (y ^ x)) by (bit_vector);
    assert(spec_distance(a, b) =~= spec_distance(b, a));
}

/// The distance of an identifier to itself is zero, and zero distance
/// occurs only between equal identifiers.
pub proof fn lemma_distance_zero(a: Seq<u8>, b: Seq<u8>)
    requires
        a.len() == b.len(),
    ensures
        all_zero(spec_distance(a, a)),
        all_zero(spec_distance(a, b)) ==> a == b,
{
    assert(forall|x: u8| #[trigger] (x ^ x) == 0) by (bit_vector);
    assert(forall|x: u8, y: u8| #[trigger] (x ^ y) == 0 ==> x == y) by (bit_vector);
    if all_zero(spec_distance(a, b)) {
        assert forall|i: int| 0 <= i < a.len() implies a[i] == b[i] by {
            assert(spec_distance(a, b)[i] == 0);
            assert((a[i] ^ b[i]) == 0);
        }
        assert(a =~= b);
    }
}

/// Lexicographic comparison is antisymmetric under swapping its arguments.
pub proof fn lemma_lex_cmp_antisym(a: Seq<u8>, b: Seq<u8>, i: int)
    ensures
        lex_cmp_from(a, b, i) == -lex_cmp_from(b, a, i),
    decreases a.len() - i,
{
    if i < 0 || i >= a.len() || i >= b.len() {
    } else if a[i] == b[i] {
        lemma_lex_cmp_antisym(a, b, i + 1);
    }
}

/// Lexicographic `<=` is transitive.
pub proof fn lemma_lex_cmp_trans(a: Seq<u8>, b: Seq<u8>, c: Seq<u8>, i: int)
    requires
        a.len() == b.len(),
        b.len() == c.len(),
        lex_cmp_from(a, b, i) <= 0,
        lex_cmp_from(b, c, i) <= 0,
    ensures
        lex_cmp_from(a, c, i) <= 0,
    decreases a.len() - i,
{
    if i < 0 || i >= a.len() {
    } else if a[i] == b[i] && b[i] == c[i] {
        lemma_lex_cmp_trans(a, b, c, i + 1);
    }
}

/// Closeness to a target is a total order: of two identifiers, one is
/// always at least as close as the other.
pub proof fn lemma_dist_le_total(a: Seq<u8>, b: Seq<u8>, t: Seq<u8>)
    ensures
        spec_dist_le(a, b, t) || spec_dist_le(b, a, t),
        spec_dist_lt(a, b, t) <==> !spec_dist_le(b, a, t),
{
    lemma_lex_cmp_antisym(spec_distance(a, t), spec_distance(b, t), 0);
}

/// Closeness to a target is transitive.
pub proof fn lemma_dist_le_trans(a: Seq<u8>, b: Seq<u8>, c: Seq<u8>, t: Seq<u8>)
    requires
        a.len() == t.len(),
        b.len() == t.len(),
        c.len() == t.len(),
        spec_dist_le(a, b, t),
        spec_dist_le(b, c, t),
    ensures
        spec_dist_le(a, c, t),
{
    lemma_lex_cmp_trans(spec_distance(a, t), spec_distance(b, t), spec_distance(c, t), 0);
}

/// Exact XOR distance between two identifiers, most significant byte first.
pub fn distance(a: &PeerId, b: &PeerId) -> (r: Vec<u8>)
    requires
        a.wf(),
        b.wf(),
    ensures
        r@ == spec_distance(a@, b@),
{
    let mut out: Vec<u8> = Vec::new();
    let mut i: usize = 0;
    while i < ID_BYTES
        invariant
            a.wf(),
            b.wf(),
            i <= ID_BYTES,
            out@.len() == i,
            forall|j: int| 0 <= j < i ==> out@[j] == (a@[j] ^ b@[j]),
        decreases ID_BYTES - i,
    {
        let x: u8 = a.bytes[i] ^ b.bytes[i];
        out.push(x);
        i = i + 1;
    }
    proof {
        assert(out@ =~= spec_distance(a@, b@));
    }
    out
}

/// Compares the distances of `a` and `b` to `target`; true when `a` is at
/// least as close as `b`.
pub fn dist_le(a: &PeerId, b: &PeerId, target: &Vec<u8>) -> (r: bool)
    requires
        a.wf(),
        b.wf(),
        target@.len() == ID_BYTES,
    ensures
        r == spec_dist_le(a@, b@, target@),
{
    let ghost da = spec_distance(a@, target@);
    let ghost db = spec_distance(b@, target@);
    let mut i: usize = 0;
    while i < ID_BYTES
        invariant
            a.wf(),
            b.wf(),
            target@.len() == ID_BYTES,
            i <= ID_BYTES,
            da == spec_distance(a@, target@),
            db == spec_distance(b@, target@),
            lex_cmp_from(da, db, 0) == lex_cmp_from(da, db, i as int),
        decreases ID_BYTES - i,
    {
        let x: u8 = a.bytes[i] ^ target[i];
        let y: u8 = b.bytes[i] ^ target[i];
        proof {
            assert(da[i as int] == x);
            assert(db[i as int] == y);
        }
        if x < y {
            return true;
        }
        if x > y {
            return false;
        }
        i = i + 1;
    }
    true
}

/// True when the two identifiers hold the same bytes.
pub fn peer_eq(a: &PeerId, b: &PeerId) -> (r: bool)
    requires
        a.wf(),
        b.wf(),
    ensures
        r == (a@ == b@),
{
    let mut i: usize = 0;
    while i < ID_BYTES
        invariant
            a.wf(),
            b.wf(),
            i <= ID_BYTES,
            forall|j: int| 0 <= j < i ==> a@[j] == b@[j],
        decreases ID_BYTES - i,
    {
        if a.bytes[i] != b.bytes[i] {
            return false;
        }
        i = i + 1;
    }
    proof {
        assert(a@ =~= b@);
    }
    true
}

/// Bucket index for `b` in the table owned by `a`: leading zero bits of
/// their distance, at most `8 * ID_BYTES` (reached only when `a == b`).
pub fn bucket_index(a: &PeerId, b: &PeerId) -> (r: usize)
    requires
        a.wf(),
        b.wf(),
    ensures
        r == spec_bucket_index(a@, b@),
        r <= 8 * ID_BYTES,
        a@ != b@ ==> r < 8 * ID_BYTES,
{
    let ghost d = spec_distance(a@, b@);
    let mut i: usize = 0;
    while i < ID_BYTES
        invariant
            a.wf(),
            b.wf(),
            i <= ID_BYTES,
            d == spec_distance(a@, b@),
            lz_from(d, 0) == 8 * i + lz_from(d, i as int),
            forall|j: int| 0 <= j < i ==> d[j] == 0,
        decreases ID_BYTES - i,
    {
        let bb: u8 = a.bytes[i] ^ b.bytes[i];
        proof {
            assert(d[i as int] == bb);
        }
        if bb != 0 {
            let blz: usize = if bb >= 0x80 {
                0
            } else if bb >= 0x40 {
                1
            } else if bb >= 0x20 {
                2
            } else if bb >= 0x10 {
                3
            } else if bb >= 0x08 {
                4
            } else if bb >= 0x04 {
                5
            } else if bb >= 0x02 {
                6
            } else {
                7
            };
            proof {
                assert(lz_from(d, i as int) == byte_lz(bb));
                assert(forall|x: u8| #[trigger] (x ^ x) == 0) by (bit_vector);
                assert(a@[i as int] != b@[i as int]);
                assert(a@ != b@);
            }
            return 8 * i + blz;
        }
        i = i + 1;
    }
    proof {
        assert(lz_from(d, ID_BYTES as int) == 0);
        assert(forall|j: int| 0 <= j < ID_BYTES ==> d[j] == 0);
        lemma_distance_zero(a@, b@);
        assert(a@ == b@);
    }
    8 * ID_BYTES
}

} // verus!
