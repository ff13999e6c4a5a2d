//! A read-only, sorted set of document identifiers over a byte region, and the
//! builder that produces such regions.
//!
//! The region is a run of identifiers, eight bytes each in native byte order,
//! strictly ascending, with no header, padding or separator.
use byteorder::{ByteOrder, NativeEndian};
use fst::raw::MmapReadOnly;
use std::collections::BTreeSet;
use std::sync::Arc;
use vstd::prelude::*;
use vstd::slice::slice_subrange;
use vstd::std_specs::btree::{increasing_seq, spec_btree_keys_iter};
use vstd::std_specs::iter::IteratorSpec;
use vstd::laws_cmp::obeys_cmp;
use vstd::std_specs::cmp::OrdSpec;

verus! {

/// Width in bytes of one stored identifier.
pub const ID_WIDTH: usize = 8;

/// The identifier that eight bytes hold in the native byte order, as byteorder's
/// `NativeEndian::read_u64` reads it.
pub uninterp spec fn native_u64(b: Seq<u8>) -> u64;

/// The bytes of the `i`-th identifier slot of a region.
pub open spec fn slot(b: Seq<u8>, i: int) -> Seq<u8> {
    b.subrange(8 * i, 8 * i + 8)
}

/// The identifiers that a region holds, one per complete eight-byte slot.
pub open spec fn decode_ids(b: Seq<u8>) -> Seq<u64> {
    Seq::new(b.len() / 8, |i: int| native_u64(slot(b, i)))
}

/// Each identifier is smaller than the next one, so none repeats.
pub open spec fn strictly_ascending(s: Seq<u64>) -> bool {
    forall|i: int, j: int| 0 <= i < j < s.len() ==> s[i] < s[j]
}

/// `b` is the region that stores `ids`, in that order.
pub open spec fn region_of(b: Seq<u8>, ids: Seq<u64>) -> bool {
    b.len() == 8 * ids.len() && decode_ids(b) == ids
}

/// Relies on byteorder's `NativeEndian::read_u64`: the identifier stored in
/// eight bytes (it panics on fewer).
#[verifier::external_body]
fn read_id(b: &[u8]) -> (r: u64)
    requires
        b@.len() == 8,
    ensures
        r == native_u64(b@),
{
    NativeEndian::read_u64(b)
}

/// Relies on byteorder's `NativeEndian::write_u64`: the eight bytes from which
/// `read_u64` reads `n` back; no other eight bytes read back as `n`.
#[verifier::external_body]
fn id_bytes(n: u64) -> (r: [u8; 8])
    ensures
        native_u64(r@) == n,
        forall|b: Seq<u8>| b.len() == 8 && native_u64(b) == n ==> b == r@,
{
    let mut buf = [0u8; 8];
    NativeEndian::write_u64(&mut buf, n);
    buf
}

/// Appends the stored form of `id` to `out`.
fn push_id(out: &mut Vec<u8>, id: u64)
    ensures
        final(out)@.len() == old(out)@.len() + 8,
        final(out)@.subrange(0, old(out)@.len() as int) == old(out)@,
        native_u64(final(out)@.subrange(old(out)@.len() as int, old(out)@.len() as int + 8)) == id,
{
    let b = id_bytes(id);
    let ghost before = out@;
    out.extend_from_slice(&b);
    assert(out@.subrange(0, before.len() as int) =~= before);
    assert(out@.subrange(before.len() as int, before.len() as int + 8) =~= b@);
}

/// A region that grows by one slot keeps the identifiers it held.
proof fn lemma_slots_kept(before: Seq<u8>, after: Seq<u8>, k: int)
    requires
        0 <= 8 * k <= before.len(),
        before.len() <= after.len(),
        after.subrange(0, before.len() as int) == before,
    ensures
        forall|i: int| 0 <= i < k ==> #[trigger] slot(after, i) == slot(before, i),
{
    assert forall|i: int| 0 <= i < k implies #[trigger] slot(after, i) == slot(before, i) by {
        assert(slot(after, i) =~= slot(before, i)) by {
            assert forall|j: int| 0 <= j < 8 implies slot(after, i)[j] == slot(before, i)[j] by {
                assert(after.subrange(0, before.len() as int)[8 * i + j] == after[8 * i + j]);
            }
        }
    }
}

/// Looks `doc` up by binary search over the identifiers stored in `bytes`
/// (trailing bytes short of a slot are ignored). A `true` answer is always a
/// stored identifier; on strictly ascending identifiers the answer is exact.
pub fn search_ids(bytes: &[u8], doc: u64) -> (r: bool)
    ensures
        r ==> decode_ids(bytes@).contains(doc),
        strictly_ascending(decode_ids(bytes@)) ==> (r <==> decode_ids(bytes@).contains(doc)),
{
    let ghost ids = decode_ids(bytes@);
    let n: usize = bytes.len() / ID_WIDTH;
    let mut lo: usize = 0;
    let mut hi: usize = n;
    while lo < hi
        invariant
            lo <= hi <= n,
            n == ids.len(),
            n * 8 <= bytes@.len(),
            bytes@.len() <= usize::MAX,
            ids == decode_ids(bytes@),
            strictly_ascending(ids) ==> forall|k: int| 0 <= k < lo ==> ids[k] < doc,
            strictly_ascending(ids) ==> forall|k: int| hi <= k < n ==> ids[k] > doc,
        decreases hi - lo,
    {
        let mid: usize = lo + (hi - lo) / 2;
        assert(8 * mid + 8 <= n * 8) by (nonlinear_arith)
            requires
                mid < n,
        ;
        let chunk = slice_subrange(bytes, 8 * mid, 8 * mid + 8);
        let v = read_id(chunk);
        assert(v == ids[mid as int]);
        if v == doc {
            return true;
        } else if v < doc {
            lo = mid + 1;
        } else {
            hi = mid;
        }
    }
    false
}

/// The identifiers stored in `bytes`, one per complete slot.
pub fn decode_all(bytes: &[u8]) -> (r: Vec<u64>)
    ensures
        r@ == decode_ids(bytes@),
{
    let n: usize = bytes.len() / ID_WIDTH;
    let mut out: Vec<u64> = Vec::new();
    let mut i: usize = 0;
    assert(n * 8 <= bytes@.len());
    while i < n
        invariant
            i <= n,
            n == bytes@.len() / 8,
            n * 8 <= bytes@.len(),
            bytes@.len() <= usize::MAX,
            out@.len() == i,
            forall|k: int| 0 <= k < i ==> out@[k] == decode_ids(bytes@)[k],
        decreases n - i,
    {
        assert(8 * i + 8 <= n * 8) by (nonlinear_arith)
            requires
                i < n,
        ;
        let chunk = slice_subrange(bytes, 8 * i, 8 * i + 8);
        out.push(read_id(chunk));
        i = i + 1;
    }
    assert(out@ =~= decode_ids(bytes@));
    out
}

/// The region that stores `ids` in the given order.
fn encode_ids(ids: &[u64]) -> (r: Vec<u8>)
    ensures
        region_of(r@, ids@),
{
    let mut out: Vec<u8> = Vec::new();
    let mut i: usize = 0;
    while i < ids.len()
        invariant
            i <= ids@.len(),
            out@.len() == 8 * i,
            forall|k: int| 0 <= k < i ==> native_u64(#[trigger] slot(out@, k)) == ids@[k],
        decreases ids.len() - i,
    {
        let ghost before = out@;
        push_id(&mut out, ids[i]);
        proof {
            lemma_slots_kept(before, out@, i as int);
        }
        i = i + 1;
    }
    assert(decode_ids(out@) =~= ids@);
    out
}

/// Accepts a region length that is a whole number of identifier slots;
/// refuses any other length with the length itself.
pub fn check_region_len(len: usize) -> (r: Result<(), DocIdsError>)
    ensures
        r is Ok <==> len % 8 == 0,
        r matches Err(e) ==> e == DocIdsError::UnalignedLength(len),
{
    if len % ID_WIDTH != 0 {
        Err(DocIdsError::UnalignedLength(len))
    } else {
        Ok(())
    }
}

/// Why a byte region was refused as an identifier set.
#[derive(Debug, Clone, Copy, PartialEq, Eq, Structural)]
pub enum DocIdsError {
    /// The region's length, which is not a multiple of the identifier width.
    UnalignedLength(usize),
}

#[verifier::external_type_specification]
#[verifier::external_body]
pub struct ExMmapReadOnly(MmapReadOnly);

/// Relies on fst's `MmapReadOnly::as_slice`: the mapped bytes. What they hold
/// is up to the file behind the mapping.
#[verifier::external_body]
fn mapped_bytes(m: &MmapReadOnly) -> (r: &[u8]) {
    m.as_slice()
}

/// Where the bytes of a set live.
enum Data {
    /// A read-only memory mapping of a file.
    Mmap(MmapReadOnly),
    /// `len` bytes from `offset` of a buffer shared between readers.
    Shared { vec: Arc<Vec<u8>>, offset: usize, len: usize },
}

/// An immutable set of document identifiers, read in place from its region.
pub struct DocIds {
    data: Data,
}

impl DocIds {
    #[verifier::type_invariant]
    spec fn inv(self) -> bool {
        match self.data {
            Data::Shared { vec, offset, len } => offset + len <= vec@.len() && len % 8 == 0,
            Data::Mmap(_) => true,
        }
    }

    /// The set reads a memory mapping, whose bytes are the file's.
    pub closed spec fn is_mapped(&self) -> bool {
        self.data is Mmap
    }

    /// The region of a set over a shared buffer.
    pub closed spec fn bytes(&self) -> Seq<u8> {
        match self.data {
            Data::Shared { vec, offset, len } => vec@.subrange(offset as int, offset + len),
            Data::Mmap(_) => Seq::empty(),
        }
    }

    /// The identifiers of a set over a shared buffer, in stored order.
    pub open spec fn ids(&self) -> Seq<u64> {
        decode_ids(self.bytes())
    }

    /// Reads a set from a memory mapping; fails where the mapped length is not a
    /// multiple of the identifier width. The mapped length is the file's, so
    /// the outcome for a given length is the one `check_region_len` states.
    pub fn from_mmap(mmap: MmapReadOnly) -> (r: Result<DocIds, DocIdsError>)
        ensures
            r matches Ok(d) ==> d.is_mapped(),
            r matches Err(e) ==> e matches DocIdsError::UnalignedLength(l) && l % 8 != 0,
    {
        let len = mapped_bytes(&mmap).len();
        match check_region_len(len) {
            Ok(()) => Ok(DocIds { data: Data::Mmap(mmap) }),
            Err(e) => Err(e),
        }
    }

    /// Takes a buffer as the region of a set; fails where its length is not a
    /// multiple of the identifier width.
    pub fn from_bytes(vec: Vec<u8>) -> (r: Result<DocIds, DocIdsError>)
        ensures
            r is Ok <==> vec@.len() % 8 == 0,
            r matches Ok(d) ==> !d.is_mapped() && d.bytes() == vec@,
            r matches Err(e) ==> e == DocIdsError::UnalignedLength(vec@.len() as usize),
    {
        let len = vec.len();
        if let Err(e) = check_region_len(len) {
            return Err(e);
        }
        let data = Data::Shared { vec: Arc::new(vec), offset: 0, len };
        let d = DocIds { data };
        assert(d.bytes() =~= vec@);
        Ok(d)
    }

    /// Stores identifiers as given, which are to be strictly ascending already.
    pub fn from_document_ids(vec: Vec<u64>) -> (r: DocIds)
        ensures
            !r.is_mapped(),
            region_of(r.bytes(), vec@),
            r.ids() == vec@,
    {
        let bytes = encode_ids(vec.as_slice());
        let len = bytes.len();
        let d = DocIds { data: Data::Shared { vec: Arc::new(bytes), offset: 0, len } };
        assert(d.bytes() =~= bytes@);
        d
    }

    /// The region, byte for byte: the serialized form of the set.
    pub fn as_bytes(&self) -> (r: &[u8])
        ensures
            !self.is_mapped() ==> r@ == self.bytes(),
    {
        proof {
            use_type_invariant(self);
        }
        match &self.data {
            Data::Mmap(m) => mapped_bytes(m),
            Data::Shared { vec, offset, len } => {
                let all = vec.as_slice();
                let total = all.len();
                assert(*offset + *len <= total);
                slice_subrange(all, *offset, *offset + *len)
            },
        }
    }

    /// Whether `doc` is in the set, by binary search.
    pub fn contains(&self, doc: u64) -> (r: bool)
        ensures
            !self.is_mapped() ==> (r ==> self.ids().contains(doc)),
            !self.is_mapped() && strictly_ascending(self.ids()) ==> (r <==> self.ids().contains(
                doc,
            )),
    {
        search_ids(self.as_bytes(), doc)
    }

    /// The identifiers, in stored order.
    pub fn doc_ids(&self) -> (r: Vec<u64>)
        ensures
            !self.is_mapped() ==> r@ == self.ids(),
    {
        decode_all(self.as_bytes())
    }
}

/// Collects identifiers, without repeats, for a sink; finishing yields the
/// region that stores them in ascending order, together with the sink.
pub struct DocIdsBuilder<W> {
    doc_ids: BTreeSet<u64>,
    wrt: W,
}

impl<W> DocIdsBuilder<W> {
    /// The identifiers inserted so far.
    pub closed spec fn ids(&self) -> Set<u64> {
        self.doc_ids@
    }

    /// The sink the region is meant for.
    pub closed spec fn sink(&self) -> W {
        self.wrt
    }

    /// An empty builder for `wrt`.
    pub fn new(wrt: W) -> (r: Self)
        ensures
            r.ids() == Set::<u64>::empty(),
            r.sink() == wrt,
    {
        DocIdsBuilder { doc_ids: BTreeSet::new(), wrt }
    }

    /// Adds `doc`; `true` where it was not there yet.
    pub fn insert(&mut self, doc: u64) -> (r: bool)
        ensures
            final(self).ids() == old(self).ids().insert(doc),
            r == !old(self).ids().contains(doc),
            final(self).sink() == old(self).sink(),
    {
        self.doc_ids.insert(doc)
    }

    /// The region that stores the inserted identifiers in ascending order, and
    /// the sink it is meant for.
    pub fn into_bytes(self) -> (r: (Vec<u8>, W))
        ensures
            r.0@.len() == 8 * self.ids().len(),
            strictly_ascending(decode_ids(r.0@)),
            decode_ids(r.0@).to_set() == self.ids(),
            r.1 == self.sink(),
    {
        let mut out: Vec<u8> = Vec::new();
        let ghost keys = spec_btree_keys_iter(&self.doc_ids).remaining();
        for id in it: self.doc_ids.iter()
            invariant
                it.seq() == keys,
                out@.len() == 8 * it.index(),
                forall|k: int|
                    0 <= k < it.index() ==> native_u64(#[trigger] slot(out@, k)) == *it.seq()[k],
        {
            let ghost before = out@;
            push_id(&mut out, *id);
            proof {
                lemma_slots_kept(before, out@, it.index());
            }
        }
        proof {
            let vals = keys.unref();
            assert(decode_ids(out@) =~= vals);
            assert(obeys_cmp::<&u64>());
            assert(increasing_seq(keys));
            assert forall|i: int, j: int| 0 <= i < j < vals.len() implies vals[i] < vals[j] by {
                assert(<&u64 as OrdSpec>::cmp_spec(&keys[i], &keys[j]) is Less);
            }
        }
        (out, self.wrt)
    }
}

/// What a builder yields answers membership exactly: a region that stores the
/// inserted identifiers strictly ascending has a whole number of slots, so it
/// is accepted as a set, and an identifier is in it exactly when it was
/// inserted.
pub proof fn lemma_built_set_membership(bytes: Seq<u8>, inserted: Set<u64>, x: u64)
    requires
        bytes.len() == 8 * inserted.len(),
        strictly_ascending(decode_ids(bytes)),
        decode_ids(bytes).to_set() == inserted,
    ensures
        bytes.len() % 8 == 0,
        decode_ids(bytes).contains(x) <==> inserted.contains(x),
{
    assert(bytes.len() % 8 == 0) by (nonlinear_arith)
        requires
            bytes.len() == 8 * inserted.len(),
    ;
    if decode_ids(bytes).contains(x) {
        assert(decode_ids(bytes).to_set().contains(x));
    }
    if inserted.contains(x) {
        assert(decode_ids(bytes).to_set().contains(x));
    }
}

/// Inserting an identifier a second time finds it there and changes nothing.
pub proof fn lemma_insert_twice(inserted: Set<u64>, x: u64)
    ensures
        inserted.insert(x).contains(x),
        inserted.insert(x).insert(x) == inserted.insert(x),
{
    assert(inserted.insert(x).insert(x) =~= inserted.insert(x));
}

/// Strictly ascending identifiers hold each identifier at most once.
pub proof fn lemma_ascending_no_duplicates(ids: Seq<u64>)
    requires
        strictly_ascending(ids),
    ensures
        ids.no_duplicates(),
{
    assert forall|i: int, j: int| 0 <= i < ids.len() && 0 <= j < ids.len() && i != j implies ids[i]
        != ids[j] by {
        if i < j {
            assert(ids[i] < ids[j]);
        } else {
            assert(ids[j] < ids[i]);
        }
    }
}

/// A builder with nothing inserted yields zero bytes, which hold no identifier.
pub proof fn lemma_empty_region(bytes: Seq<u8>, x: u64)
    requires
        bytes.len() == 8 * Set::<u64>::empty().len(),
    ensures
        bytes.len() == 0,
        decode_ids(bytes).len() == 0,
        !decode_ids(bytes).contains(x),
{
}

} // verus!
