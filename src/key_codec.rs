//! Composite keys `[discriminant] [primary] [0x00] [secondary]`.
//!
//! The discriminant comes first so that, under raw byte comparison, keys are
//! grouped by discriminant, then ordered by primary and by secondary segment.
//! The zero byte ends the primary segment, so the primary segment must hold no
//! zero byte; the secondary segment runs to the end and may hold any byte.
use vstd::prelude::*;
use vstd::slice::slice_subrange;
use vstd::string::StringSliceAdditionalSpecFns;
use vstd::utf8::{decode_utf8, encode_utf8, valid_utf8};

verus! {

broadcast use vstd::utf8::group_utf8_lib;

/// The encoded form of the key `(primary, secondary, discriminant)`.
pub open spec fn key_bytes(primary: Seq<u8>, secondary: Seq<u8>, discriminant: u8) -> Seq<u8> {
    seq![discriminant] + primary + seq![0u8] + secondary
}

/// Bytes that hold a discriminant and, after it, a zero byte that ends the
/// primary segment.
pub open spec fn key_well_formed(b: Seq<u8>) -> bool {
    b.len() > 0 && b.drop_first().contains(0u8)
}

/// The parts of a well-formed key: the primary segment is everything between
/// the discriminant and the first zero byte after it.
pub open spec fn key_parts(b: Seq<u8>) -> Option<(Seq<u8>, Seq<u8>, u8)> {
    if key_well_formed(b) {
        let (p, s, n) = choose|p: Seq<u8>, s: Seq<u8>, n: u8|
            !p.contains(0u8) && b == key_bytes(p, s, n);
        Some((p, s, n))
    } else {
        None
    }
}

/// `a` sorts strictly before `b` under byte-lexicographic comparison.
pub open spec fn bytes_lt(a: Seq<u8>, b: Seq<u8>) -> bool {
    exists|i: int|
        0 <= i <= a.len() && i <= b.len() && a.take(i) == b.take(i) && ((i < a.len() && i
            < b.len() && a[i] < b[i]) || (i == a.len() && i < b.len()))
}

/// A key splits in one way only once its primary segment is zero-free.
proof fn lemma_key_bytes_unique(
    p1: Seq<u8>,
    s1: Seq<u8>,
    n1: u8,
    p2: Seq<u8>,
    s2: Seq<u8>,
    n2: u8,
)
    requires
        !p1.contains(0u8),
        !p2.contains(0u8),
        key_bytes(p1, s1, n1) == key_bytes(p2, s2, n2),
    ensures
        p1 == p2,
        s1 == s2,
        n1 == n2,
{
    let b = key_bytes(p1, s1, n1);
    let l1: int = p1.len() as int;
    let l2: int = p2.len() as int;
    assert(b[0] == n1);
    assert(b[0] == n2);
    if l1 < l2 {
        assert(b[l1 + 1] == 0u8);
        assert(b[l1 + 1] == p2[l1]);
        assert(p2.contains(0u8));
    } else if l2 < l1 {
        assert(b[l2 + 1] == 0u8);
        assert(b[l2 + 1] == p1[l2]);
        assert(p1.contains(0u8));
    }
    assert(p1 =~= b.subrange(1, l1 + 1));
    assert(p2 =~= b.subrange(1, l2 + 1));
    assert(s1 =~= b.subrange(l1 + 2, b.len() as int));
    assert(s2 =~= b.subrange(l2 + 2, b.len() as int));
}

/// The split of well-formed bytes at the first zero byte after the discriminant.
proof fn lemma_key_parts_at(b: Seq<u8>, z: int)
    requires
        1 <= z < b.len(),
        b[z] == 0u8,
        forall|j: int| 1 <= j < z ==> b[j] != 0u8,
    ensures
        key_parts(b) == Some((b.subrange(1, z), b.subrange(z + 1, b.len() as int), b[0])),
{
    let p = b.subrange(1, z);
    let s = b.subrange(z + 1, b.len() as int);
    assert(b.drop_first()[z - 1] == 0u8);
    assert(key_well_formed(b));
    assert(b =~= key_bytes(p, s, b[0]));
    assert(!p.contains(0u8)) by {
        if p.contains(0u8) {
            let k = choose|k: int| 0 <= k < p.len() && p[k] == 0u8;
            assert(b[k + 1] == 0u8);
        }
    }
    let (p2, s2, n2) = choose|p2: Seq<u8>, s2: Seq<u8>, n2: u8|
        !p2.contains(0u8) && b == key_bytes(p2, s2, n2);
    lemma_key_bytes_unique(p, s, b[0], p2, s2, n2);
}

/// Decoding the encoding of a key whose primary segment holds no zero byte gives
/// the key back.
pub proof fn lemma_round_trip(primary: Seq<u8>, secondary: Seq<u8>, discriminant: u8)
    requires
        !primary.contains(0u8),
    ensures
        key_parts(key_bytes(primary, secondary, discriminant)) == Some(
            (primary, secondary, discriminant),
        ),
{
    let b = key_bytes(primary, secondary, discriminant);
    let z: int = primary.len() as int + 1;
    assert(b[z] == 0u8);
    assert forall|j: int| 1 <= j < z implies b[j] != 0u8 by {
        assert(b[j] == primary[j - 1]);
    }
    lemma_key_parts_at(b, z);
    assert(b.subrange(1, z) =~= primary);
    assert(b.subrange(z + 1, b.len() as int) =~= secondary);
}

/// Text keys round-trip too: the segments' UTF-8 encodings decode back to the
/// same characters.
pub proof fn lemma_text_round_trip(primary: Seq<char>, secondary: Seq<char>, discriminant: u8)
    requires
        !encode_utf8(primary).contains(0u8),
    ensures
        key_parts(key_bytes(encode_utf8(primary), encode_utf8(secondary), discriminant))
            == Some((encode_utf8(primary), encode_utf8(secondary), discriminant)),
        valid_utf8(encode_utf8(primary)),
        valid_utf8(encode_utf8(secondary)),
        decode_utf8(encode_utf8(primary)) == primary,
        decode_utf8(encode_utf8(secondary)) == secondary,
{
    lemma_round_trip(encode_utf8(primary), encode_utf8(secondary), discriminant);
}

/// Keys with different discriminants sort by discriminant, whatever their
/// segments hold.
pub proof fn lemma_discriminant_orders(
    p1: Seq<u8>,
    s1: Seq<u8>,
    n1: u8,
    p2: Seq<u8>,
    s2: Seq<u8>,
    n2: u8,
)
    requires
        n1 < n2,
    ensures
        bytes_lt(key_bytes(p1, s1, n1), key_bytes(p2, s2, n2)),
        !bytes_lt(key_bytes(p2, s2, n2), key_bytes(p1, s1, n1)),
{
    let a = key_bytes(p1, s1, n1);
    let b = key_bytes(p2, s2, n2);
    assert(a.take(0) =~= b.take(0));
    assert(a[0] < b[0]);
    if bytes_lt(b, a) {
        let i = choose|i: int|
            0 <= i <= b.len() && i <= a.len() && b.take(i) == a.take(i) && ((i < b.len() && i
                < a.len() && b[i] < a[i]) || (i == b.len() && i < a.len()));
        if i > 0 {
            assert(b.take(i)[0] == a.take(i)[0]);
        }
    }
}

/// Index of the first zero byte of `b` at or after position 1, if any.
fn find_separator(b: &[u8]) -> (r: Option<usize>)
    ensures
        match r {
            Some(z) => 1 <= z < b@.len() && b@[z as int] == 0u8 && forall|j: int|
                1 <= j < z ==> b@[j] != 0u8,
            None => forall|j: int| 1 <= j < b@.len() ==> b@[j] != 0u8,
        },
{
    let mut i: usize = 1;
    while i < b.len()
        invariant
            1 <= i,
            forall|j: int| 1 <= j < i && j < b@.len() ==> b@[j] != 0u8,
        decreases b.len() - i,
    {
        if b[i] == 0 {
            return Some(i);
        }
        i = i + 1;
    }
    None
}

/// Splits well-formed key bytes into (primary, secondary, discriminant).
fn split_key<'a>(bytes: &'a [u8]) -> (r: Option<(&'a [u8], &'a [u8], u8)>)
    ensures
        match r {
            Some((p, s, n)) => key_parts(bytes@) == Some((p@, s@, n)),
            None => key_parts(bytes@) is None,
        },
{
    if bytes.len() == 0 {
        return None;
    }
    match find_separator(bytes) {
        Some(z) => {
            let p = slice_subrange(bytes, 1, z);
            let s = slice_subrange(bytes, z + 1, bytes.len());
            proof {
                lemma_key_parts_at(bytes@, z as int);
            }
            Some((p, s, bytes[0]))
        },
        None => {
            proof {
                if key_well_formed(bytes@) {
                    let k = choose|k: int|
                        0 <= k < bytes@.drop_first().len() && bytes@.drop_first()[k] == 0u8;
                    assert(bytes@[k + 1] == 0u8);
                }
            }
            None
        },
    }
}

/// Writes `[discriminant] [primary] [0x00] [secondary]`; `None` where the
/// primary segment holds a zero byte, which would make the key ambiguous.
fn join_key(primary: &[u8], secondary: &[u8], discriminant: u8) -> (r: Option<Vec<u8>>)
    ensures
        r is None <==> primary@.contains(0u8),
        r matches Some(v) ==> v@ == key_bytes(primary@, secondary@, discriminant),
{
    let mut i: usize = 0;
    while i < primary.len()
        invariant
            forall|j: int| 0 <= j < i && j < primary@.len() ==> primary@[j] != 0u8,
        decreases primary.len() - i,
    {
        if primary[i] == 0 {
            return None;
        }
        i = i + 1;
    }
    let mut bytes: Vec<u8> = Vec::new();
    bytes.push(discriminant);
    bytes.extend_from_slice(primary);
    bytes.push(0);
    bytes.extend_from_slice(secondary);
    assert(bytes@ =~= key_bytes(primary@, secondary@, discriminant));
    Some(bytes)
}

/// Relies on std::str::from_utf8: it succeeds exactly on valid UTF-8 and then
/// views the same bytes as text.
#[verifier::external_body]
fn text_of<'a>(b: &'a [u8]) -> (r: Option<&'a str>)
    ensures
        r is Some <==> valid_utf8(b@),
        r matches Some(t) ==> t.spec_bytes() == b@,
{
    std::str::from_utf8(b).ok()
}

/// Codec for keys whose segments are text.
pub struct StrStrU8Codec;

impl StrStrU8Codec {
    /// Splits key bytes into two text segments and the discriminant. Fails where
    /// the bytes are not a well-formed key or a segment is not valid UTF-8.
    pub fn bytes_decode<'a>(bytes: &'a [u8]) -> (r: Option<(&'a str, &'a str, u8)>)
        ensures
            match r {
                Some((p, s, n)) => key_parts(bytes@) == Some(
                    (p.spec_bytes(), s.spec_bytes(), n),
                ),
                None => match key_parts(bytes@) {
                    Some((p, s, n)) => !valid_utf8(p) || !valid_utf8(s),
                    None => true,
                },
            },
    {
        match split_key(bytes) {
            Some((p, s, n)) => match text_of(p) {
                Some(pt) => match text_of(s) {
                    Some(st) => Some((pt, st, n)),
                    None => None,
                },
                None => None,
            },
            None => None,
        }
    }

    /// Encodes a text key; `None` where the primary segment holds a zero byte.
    pub fn bytes_encode(item: &(&str, &str, u8)) -> (r: Option<Vec<u8>>)
        ensures
            r is None <==> item.0.spec_bytes().contains(0u8),
            r matches Some(v) ==> v@ == key_bytes(
                item.0.spec_bytes(),
                item.1.spec_bytes(),
                item.2,
            ),
    {
        join_key(item.0.as_bytes(), item.1.as_bytes(), item.2)
    }
}

/// Codec for keys whose segments are raw bytes, with no text validation.
pub struct UncheckedStrStrU8Codec;

impl UncheckedStrStrU8Codec {
    /// Splits key bytes into the two segments and the discriminant. Fails where
    /// the bytes are empty or hold no zero byte after the discriminant.
    pub fn bytes_decode<'a>(bytes: &'a [u8]) -> (r: Option<(&'a [u8], &'a [u8], u8)>)
        ensures
            r is None <==> !key_well_formed(bytes@),
            match r {
                Some((p, s, n)) => key_parts(bytes@) == Some((p@, s@, n)),
                None => key_parts(bytes@) is None,
            },
    {
        split_key(bytes)
    }

    /// Encodes a raw key; `None` where the primary segment holds a zero byte.
    pub fn bytes_encode(item: &(&[u8], &[u8], u8)) -> (r: Option<Vec<u8>>)
        ensures
            r is None <==> item.0@.contains(0u8),
            r matches Some(v) ==> v@ == key_bytes(item.0@, item.1@, item.2),
    {
        join_key(item.0, item.1, item.2)
    }
}

} // verus!
