use crate::dual_file::DualFile;
use crate::error::Error;
use crate::ivfc_level::{block_of, IvfcLevel};
use crate::le_bytes::{le, le_bytes, lemma_le_round_trip, lemma_pow256_values, push_le, read_le};
use crate::memory_file::{lemma_splice, splice, MemoryFile};
use crate::misc::{align_up, align_up_spec, sha256, sha256_of};
use crate::signed_file::{SignedFile, Signer};
use crate::sub_file::SubFile;
use vstd::prelude::*;

verus! {

/// Length of the encoded DIFF header.
pub const HEADER_LEN: usize = 0x5C;

/// The DIFF container header, as stored little-endian at file offset 0x100.
pub struct DiffHeader {
    pub magic: [u8; 4],
    pub version: u32,
    pub secondary_table_offset: u64,
    pub primary_table_offset: u64,
    pub table_size: u64,
    pub partition_offset: u64,
    pub partition_size: u64,
    pub active_table: u8,
    pub sha: Vec<u8>,
    pub unique_id: u64,
}

/// The bytes `"DIFF"`.
pub open spec fn diff_magic() -> Seq<u8> {
    seq![0x44u8, 0x49u8, 0x46u8, 0x46u8]
}

/// The encoding of a header from its field values: each field little-endian
/// at its offset, three zero bytes of padding after `active_table`.
pub open spec fn encode_header(
    magic: Seq<u8>,
    version: nat,
    sec: nat,
    pri: nat,
    size: nat,
    poff: nat,
    psize: nat,
    active: u8,
    sha: Seq<u8>,
    uid: nat,
) -> Seq<u8> {
    magic + le_bytes(version, 4) + le_bytes(sec, 8) + le_bytes(pri, 8) + le_bytes(size, 8)
        + le_bytes(poff, 8) + le_bytes(psize, 8) + seq![active, 0u8, 0u8, 0u8] + sha + le_bytes(
        uid,
        8,
    )
}

/// The encoding of `h`.
pub open spec fn header_bytes(h: &DiffHeader) -> Seq<u8> {
    encode_header(
        h.magic@,
        h.version as nat,
        h.secondary_table_offset as nat,
        h.primary_table_offset as nat,
        h.table_size as nat,
        h.partition_offset as nat,
        h.partition_size as nat,
        h.active_table,
        h.sha@,
        h.unique_id as nat,
    )
}

/// Each field of an encoded header decodes to its value.
pub proof fn lemma_encode_decode(
    magic: Seq<u8>,
    version: nat,
    sec: nat,
    pri: nat,
    size: nat,
    poff: nat,
    psize: nat,
    active: u8,
    sha: Seq<u8>,
    uid: nat,
)
    requires
        magic.len() == 4,
        sha.len() == 32,
        version < 0x1_0000_0000,
        sec < 0x1_0000_0000_0000_0000,
        pri < 0x1_0000_0000_0000_0000,
        size < 0x1_0000_0000_0000_0000,
        poff < 0x1_0000_0000_0000_0000,
        psize < 0x1_0000_0000_0000_0000,
        uid < 0x1_0000_0000_0000_0000,
    ensures
        ({
            let b = encode_header(magic, version, sec, pri, size, poff, psize, active, sha, uid);
            &&& b.len() == HEADER_LEN
            &&& b.subrange(0x00, 0x04) == magic
            &&& le(b.subrange(0x04, 0x08)) == version
            &&& le(b.subrange(0x08, 0x10)) == sec
            &&& le(b.subrange(0x10, 0x18)) == pri
            &&& le(b.subrange(0x18, 0x20)) == size
            &&& le(b.subrange(0x20, 0x28)) == poff
            &&& le(b.subrange(0x28, 0x30)) == psize
            &&& b[0x30] == active
            &&& b.subrange(0x34, 0x54) == sha
            &&& le(b.subrange(0x54, 0x5C)) == uid
        }),
{
    lemma_pow256_values();
    lemma_le_round_trip(version, 4);
    lemma_le_round_trip(sec, 8);
    lemma_le_round_trip(pri, 8);
    lemma_le_round_trip(size, 8);
    lemma_le_round_trip(poff, 8);
    lemma_le_round_trip(psize, 8);
    lemma_le_round_trip(uid, 8);
    let b = encode_header(magic, version, sec, pri, size, poff, psize, active, sha, uid);
    assert(b.subrange(0x00, 0x04) =~= magic);
    assert(b.subrange(0x04, 0x08) =~= le_bytes(version, 4));
    assert(b.subrange(0x08, 0x10) =~= le_bytes(sec, 8));
    assert(b.subrange(0x10, 0x18) =~= le_bytes(pri, 8));
    assert(b.subrange(0x18, 0x20) =~= le_bytes(size, 8));
    assert(b.subrange(0x20, 0x28) =~= le_bytes(poff, 8));
    assert(b.subrange(0x28, 0x30) =~= le_bytes(psize, 8));
    assert(b.subrange(0x34, 0x54) =~= sha);
    assert(b.subrange(0x54, 0x5C) =~= le_bytes(uid, 8));
}

/// `h` is what the bytes `b` decode to.
pub open spec fn decodes_to(b: Seq<u8>, h: &DiffHeader) -> bool {
    &&& h.magic@ == b.subrange(0x00, 0x04)
    &&& h.version == le(b.subrange(0x04, 0x08))
    &&& h.secondary_table_offset == le(b.subrange(0x08, 0x10))
    &&& h.primary_table_offset == le(b.subrange(0x10, 0x18))
    &&& h.table_size == le(b.subrange(0x18, 0x20))
    &&& h.partition_offset == le(b.subrange(0x20, 0x28))
    &&& h.partition_size == le(b.subrange(0x28, 0x30))
    &&& h.active_table == b[0x30]
    &&& h.sha@ == b.subrange(0x34, 0x54)
    &&& h.unique_id == le(b.subrange(0x54, 0x5C))
}

/// Decoding the encoding of a header gives the header back.
pub proof fn lemma_header_round_trip(h: &DiffHeader)
    requires
        h.sha@.len() == 32,
    ensures
        header_bytes(h).len() == HEADER_LEN,
        decodes_to(header_bytes(h), h),
{
    lemma_encode_decode(
        h.magic@,
        h.version as nat,
        h.secondary_table_offset as nat,
        h.primary_table_offset as nat,
        h.table_size as nat,
        h.partition_offset as nat,
        h.partition_size as nat,
        h.active_table,
        h.sha@,
        h.unique_id as nat,
    );
}

impl DiffHeader {
    /// Decodes the header from the first `HEADER_LEN` bytes of `b`.
    pub fn from_bytes(b: &[u8]) -> (r: DiffHeader)
        requires
            b@.len() >= HEADER_LEN,
        ensures
            decodes_to(b@, &r),
    {
        let mut sha: Vec<u8> = Vec::new();
        let mut i: usize = 0x34;
        while i < 0x54
            invariant
                0x34 <= i <= 0x54,
                b@.len() >= HEADER_LEN,
                sha@ == b@.subrange(0x34, i as int),
            decreases 0x54 - i,
        {
            sha.push(b[i]);
            assert(sha@ =~= b@.subrange(0x34, i + 1));
            i = i + 1;
        }
        let magic: [u8; 4] = [b[0], b[1], b[2], b[3]];
        assert(magic@ =~= b@.subrange(0, 4));
        proof {
            lemma_pow256_values();
            crate::le_bytes::lemma_le_bound(b@.subrange(0x04, 0x08));
        }
        DiffHeader {
            magic,
            version: read_le(b, 0x04, 4) as u32,
            secondary_table_offset: read_le(b, 0x08, 8),
            primary_table_offset: read_le(b, 0x10, 8),
            table_size: read_le(b, 0x18, 8),
            partition_offset: read_le(b, 0x20, 8),
            partition_size: read_le(b, 0x28, 8),
            active_table: b[0x30],
            sha,
            unique_id: read_le(b, 0x54, 8),
        }
    }

    /// Encodes the header into `HEADER_LEN` bytes.
    pub fn to_bytes(&self) -> (r: Vec<u8>)
        requires
            self.sha@.len() == 32,
        ensures
            r@ == header_bytes(self),
            r@.len() == HEADER_LEN,
    {
        let mut out: Vec<u8> = Vec::new();
        out.push(self.magic[0]);
        out.push(self.magic[1]);
        out.push(self.magic[2]);
        out.push(self.magic[3]);
        assert(out@ =~= self.magic@);
        push_le(&mut out, self.version as u64, 4);
        push_le(&mut out, self.secondary_table_offset, 8);
        push_le(&mut out, self.primary_table_offset, 8);
        push_le(&mut out, self.table_size, 8);
        push_le(&mut out, self.partition_offset, 8);
        push_le(&mut out, self.partition_size, 8);
        let ghost before_pad = out@;
        out.push(self.active_table);
        out.push(0);
        out.push(0);
        out.push(0);
        assert(out@ =~= before_pad + seq![self.active_table, 0u8, 0u8, 0u8]);
        let mut i: usize = 0;
        let ghost before_sha = out@;
        while i < 32
            invariant
                i <= 32,
                self.sha@.len() == 32,
                out@ == before_sha + self.sha@.take(i as int),
            decreases 32 - i,
        {
            out.push(self.sha[i]);
            assert(out@ =~= before_sha + self.sha@.take(i + 1));
            i = i + 1;
        }
        assert(self.sha@.take(32) =~= self.sha@);
        push_le(&mut out, self.unique_id, 8);
        proof {
            lemma_header_round_trip(self);
        }
        out
    }
}


/// The sizes that a DIFI partition asks of its container: the descriptor
/// table's length, the partition body's length and the body's alignment
/// (the larger of the DPFS level-3 and IVFC level-4 block lengths).
pub struct DifiLayout {
    pub descriptor_len: usize,
    pub partition_len: usize,
    pub partition_align: usize,
}

impl DifiLayout {
    /// The alignment is positive and the whole container fits a machine integer.
    pub open spec fn fits(&self) -> bool {
        &&& self.partition_align > 0
        &&& 0x200 + 2 * self.descriptor_len + 8 + self.partition_align + self.partition_len
            <= usize::MAX
    }
}

/// Where each region of a DIFF container lies.
pub struct DiffInfo {
    pub secondary_table_offset: usize,
    pub primary_table_offset: usize,
    pub table_len: usize,
    pub partition_offset: usize,
    pub partition_len: usize,
    pub end: usize,
}

/// The secondary table comes right after the 0x200-byte header block.
pub open spec fn secondary_offset_spec() -> int {
    0x200
}

/// The primary table follows the secondary one, 8-aligned.
pub open spec fn primary_offset_spec(l: DifiLayout) -> int {
    align_up_spec(0x200 + l.descriptor_len, 8)
}

/// The partition follows the primary table at the partition's alignment.
pub open spec fn partition_offset_spec(l: DifiLayout) -> int {
    align_up_spec(primary_offset_spec(l) + l.descriptor_len, l.partition_align as int)
}

/// The total container length.
pub open spec fn diff_size_spec(l: DifiLayout) -> int {
    partition_offset_spec(l) + l.partition_len
}

/// The container layout for a partition of the given sizes.
pub fn calculate_info(l: &DifiLayout) -> (r: DiffInfo)
    requires
        l.fits(),
    ensures
        r.secondary_table_offset == secondary_offset_spec(),
        r.primary_table_offset == primary_offset_spec(*l),
        r.table_len == l.descriptor_len,
        r.partition_offset == partition_offset_spec(*l),
        r.partition_len == l.partition_len,
        r.end == diff_size_spec(*l),
        r.primary_table_offset >= r.secondary_table_offset + r.table_len,
        r.partition_offset >= r.primary_table_offset + r.table_len,
        r.partition_offset % l.partition_align == 0,
{
    let secondary_table_offset: usize = 0x200;
    let table_len = l.descriptor_len;
    let primary_table_offset = align_up(secondary_table_offset + table_len, 8);
    let partition_offset = align_up(primary_table_offset + table_len, l.partition_align);
    let end = partition_offset + l.partition_len;
    DiffInfo {
        secondary_table_offset,
        primary_table_offset,
        table_len,
        partition_offset,
        partition_len: l.partition_len,
        end,
    }
}

/// A DIFF container: a signed header, a descriptor table kept as two copies
/// under a selector and a digest, and one partition body.
pub struct Diff<S: Signer> {
    parent_len: usize,
    signed: Option<SignedFile<S>>,
    table: IvfcLevel,
    partition: SubFile,
    unique_id: u64,
}


/// The little-endian header field at `off` (from the header's start), `n` bytes long.
pub open spec fn hdr_field(img: Seq<u8>, off: int, n: int) -> nat {
    le(img.subrange(0x100 + off, 0x100 + off + n))
}

/// The header starts with `"DIFF"` and version 0x30000.
pub open spec fn magic_ok(img: Seq<u8>) -> bool {
    img.subrange(0x100, 0x104) == diff_magic() && hdr_field(img, 0x04, 4) == 0x30000
}

/// Whether `[a, a + n)` and `[b, b + m)` share no byte.
pub open spec fn ranges_apart(a: int, n: int, b: int, m: int) -> bool {
    a + n <= b || b + m <= a
}

/// Both table copies lie inside the image.
pub open spec fn tables_fit(img: Seq<u8>) -> bool {
    let size = hdr_field(img, 0x18, 8);
    &&& hdr_field(img, 0x10, 8) + size <= img.len()
    &&& hdr_field(img, 0x08, 8) + size <= img.len()
}

/// The partition lies inside the image.
pub open spec fn partition_fits(img: Seq<u8>) -> bool {
    hdr_field(img, 0x20, 8) + hdr_field(img, 0x28, 8) <= img.len()
}

/// The two table copies lie apart from each other and from the selector
/// byte and the digest in the header.
pub open spec fn tables_apart(img: Seq<u8>) -> bool {
    let size = hdr_field(img, 0x18, 8) as int;
    let pri = hdr_field(img, 0x10, 8) as int;
    let sec = hdr_field(img, 0x08, 8) as int;
    &&& ranges_apart(pri, size, sec, size)
    &&& ranges_apart(0x130, 1, pri, size)
    &&& ranges_apart(0x130, 1, sec, size)
    &&& ranges_apart(0x134, 0x20, pri, size)
    &&& ranges_apart(0x134, 0x20, sec, size)
}

/// The table copy that the selector byte names: 0 the primary, else the secondary.
pub open spec fn active_table_bytes(img: Seq<u8>) -> Seq<u8> {
    let size = hdr_field(img, 0x18, 8) as int;
    let at = if img[0x130] == 0 {
        hdr_field(img, 0x10, 8) as int
    } else {
        hdr_field(img, 0x08, 8) as int
    };
    img.subrange(at, at + size)
}

/// Both table copies lie past the first 0x200 bytes, where the tag and the
/// header live.
pub open spec fn tables_clear(img: Seq<u8>) -> bool {
    let size = hdr_field(img, 0x18, 8) as int;
    &&& ranges_apart(hdr_field(img, 0x10, 8) as int, size, 0, 0x200)
    &&& ranges_apart(hdr_field(img, 0x08, 8) as int, size, 0, 0x200)
}

/// The active table hashes to the digest in the header.
pub open spec fn table_hash_ok(img: Seq<u8>) -> bool {
    sha256_of(active_table_bytes(img)) == img.subrange(0x134, 0x154)
}

/// The first check that opening `img` fails, the header's tag aside, in the
/// order the checks are made; `None` when all pass.
pub open spec fn open_error(img: Seq<u8>) -> Option<Error> {
    if img.len() < 0x200 {
        Some(Error::OutOfBound)
    } else if !magic_ok(img) {
        Some(Error::MagicMismatch)
    } else if !tables_fit(img) {
        Some(Error::OutOfBound)
    } else if hdr_field(img, 0x18, 8) == 0 {
        Some(Error::SizeMismatch)
    } else if !tables_apart(img) || !tables_clear(img) {
        Some(Error::BrokenLayout)
    } else if !partition_fits(img) {
        Some(Error::OutOfBound)
    } else if img[0x130] > 1 {
        Some(Error::BrokenLayout)
    } else if !table_hash_ok(img) {
        Some(Error::HashMismatch)
    } else {
        None
    }
}

/// Everything that opening an image checks, the header's tag aside.
pub open spec fn diff_opens(img: Seq<u8>) -> bool {
    open_error(img) is None
}

/// The header that `format` writes for a partition of layout `l` whose
/// descriptor hashes to `sha`: version 0x30000, the secondary table active.
pub open spec fn format_header(l: DifiLayout, sha: Seq<u8>, uid: u64) -> Seq<u8> {
    encode_header(
        diff_magic(),
        0x30000,
        0x200,
        primary_offset_spec(l) as nat,
        l.descriptor_len as nat,
        partition_offset_spec(l) as nat,
        l.partition_len as nat,
        1,
        sha,
        uid as nat,
    )
}

/// What `format` leaves in the image: the header, the descriptor in the
/// secondary table.
pub open spec fn formatted(img: Seq<u8>, l: DifiLayout, descriptor: Seq<u8>, uid: u64) -> bool {
    &&& img.len() >= diff_size_spec(l)
    &&& img.subrange(0x100, 0x15C) == format_header(l, sha256_of(descriptor), uid)
    &&& img.subrange(0x200, 0x200 + l.descriptor_len) == descriptor
}

/// An aligned-up value is at least the value and less than one alignment above it.
proof fn lemma_align_up(v: int, a: int)
    requires
        v >= 0,
        a > 0,
    ensures
        v <= align_up_spec(v, a) < v + a,
{
    assert(0 <= v % a < a) by (nonlinear_arith)
        requires a > 0;
}

/// Format and open agree on the layout: an image that `format` wrote for
/// layout `l` passes every check that `new` makes, and `new` finds the
/// partition, the descriptor and the unique id where `format` put them.
pub proof fn lemma_format_then_open(img: Seq<u8>, l: DifiLayout, descriptor: Seq<u8>, uid: u64)
    requires
        l.fits(),
        descriptor.len() == l.descriptor_len,
        l.descriptor_len > 0,
        formatted(img, l, descriptor, uid),
    ensures
        diff_opens(img),
        hdr_field(img, 0x20, 8) == partition_offset_spec(l),
        hdr_field(img, 0x28, 8) == l.partition_len,
        hdr_field(img, 0x54, 8) == uid,
        active_table_bytes(img) == descriptor,
{
    let t = l.descriptor_len as int;
    lemma_align_up(0x200 + t, 8);
    lemma_align_up(primary_offset_spec(l) + t, l.partition_align as int);
    let pri = primary_offset_spec(l);
    let poff = partition_offset_spec(l);
    let sha = sha256_of(descriptor);
    crate::le_bytes::lemma_le_bytes_len(0x30000, 4);
    crate::le_bytes::lemma_le_bytes_len(0x200, 8);
    crate::le_bytes::lemma_le_bytes_len(pri as nat, 8);
    crate::le_bytes::lemma_le_bytes_len(t as nat, 8);
    crate::le_bytes::lemma_le_bytes_len(poff as nat, 8);
    crate::le_bytes::lemma_le_bytes_len(l.partition_len as nat, 8);
    crate::le_bytes::lemma_le_bytes_len(uid as nat, 8);
    assert(img.subrange(0x100, 0x15C).len() == 0x5C);
    assert(format_header(l, sha, uid).len() == 60 + sha.len());
    assert(sha.len() == 32);
    lemma_encode_decode(
        diff_magic(),
        0x30000,
        0x200,
        pri as nat,
        t as nat,
        poff as nat,
        l.partition_len as nat,
        1,
        sha,
        uid as nat,
    );
    let hb = img.subrange(0x100, 0x15C);
    assert(img.subrange(0x100, 0x104) =~= hb.subrange(0x00, 0x04));
    assert(img.subrange(0x104, 0x108) =~= hb.subrange(0x04, 0x08));
    assert(img.subrange(0x108, 0x110) =~= hb.subrange(0x08, 0x10));
    assert(img.subrange(0x110, 0x118) =~= hb.subrange(0x10, 0x18));
    assert(img.subrange(0x118, 0x120) =~= hb.subrange(0x18, 0x20));
    assert(img.subrange(0x120, 0x128) =~= hb.subrange(0x20, 0x28));
    assert(img.subrange(0x128, 0x130) =~= hb.subrange(0x28, 0x30));
    assert(img[0x130] == hb[0x30]);
    assert(img.subrange(0x134, 0x154) =~= hb.subrange(0x34, 0x54));
    assert(img.subrange(0x154, 0x15C) =~= hb.subrange(0x54, 0x5C));
    assert(active_table_bytes(img) =~= descriptor);
}

/// Two images that agree on the header block, the selector byte and the
/// digest aside, agree on every other header field.
proof fn lemma_header_same(img: Seq<u8>, img2: Seq<u8>)
    requires
        img.len() >= 0x200,
        img2.len() == img.len(),
        forall|i: int|
            0x100 <= i < 0x200 && i != 0x130 && !(0x134 <= i < 0x154) ==> #[trigger] img2[i]
                == img[i],
    ensures
        img2.subrange(0x100, 0x104) == img.subrange(0x100, 0x104),
        hdr_field(img2, 0x04, 4) == hdr_field(img, 0x04, 4),
        hdr_field(img2, 0x08, 8) == hdr_field(img, 0x08, 8),
        hdr_field(img2, 0x10, 8) == hdr_field(img, 0x10, 8),
        hdr_field(img2, 0x18, 8) == hdr_field(img, 0x18, 8),
        hdr_field(img2, 0x20, 8) == hdr_field(img, 0x20, 8),
        hdr_field(img2, 0x28, 8) == hdr_field(img, 0x28, 8),
        hdr_field(img2, 0x54, 8) == hdr_field(img, 0x54, 8),
{
    assert(img2.subrange(0x100, 0x104) =~= img.subrange(0x100, 0x104));
    assert(img2.subrange(0x104, 0x108) =~= img.subrange(0x104, 0x108));
    assert(img2.subrange(0x108, 0x110) =~= img.subrange(0x108, 0x110));
    assert(img2.subrange(0x110, 0x118) =~= img.subrange(0x110, 0x118));
    assert(img2.subrange(0x118, 0x120) =~= img.subrange(0x118, 0x120));
    assert(img2.subrange(0x120, 0x128) =~= img.subrange(0x120, 0x128));
    assert(img2.subrange(0x128, 0x130) =~= img.subrange(0x128, 0x130));
    assert(img2.subrange(0x154, 0x15C) =~= img.subrange(0x154, 0x15C));
}

/// A single-block level over a table of `size` bytes touches block 0 only,
/// and that block is the whole table.
proof fn lemma_single_block(view: Seq<u8>, size: int, pos: int, len: int)
    requires
        size > 0,
        view.len() == size,
    ensures
        block_of(view, 0, size) == view,
        crate::misc::divide_up_spec(size, size) == 1,
        forall|b: int|
            0 <= b && #[trigger] crate::ivfc_level::touches(pos, len, size, b) && pos + len <= size
                ==> b == 0,
{
    assert(block_of(view, 0, size) =~= view);
    assert(crate::misc::divide_up_spec(size, size) == 1) by (nonlinear_arith)
        requires size > 0;
    assert forall|b: int|
        0 <= b && #[trigger] crate::ivfc_level::touches(pos, len, size, b) && pos + len <= size
            implies b == 0 by {
        if b >= 1 {
            assert(b * size >= size) by (nonlinear_arith)
                requires b >= 1, size > 0;
        }
    }
}

impl<S: Signer> Diff<S> {
    pub closed spec fn spec_table(&self) -> IvfcLevel {
        self.table
    }

    pub closed spec fn spec_partition(&self) -> SubFile {
        self.partition
    }

    pub closed spec fn spec_unique_id(&self) -> u64 {
        self.unique_id
    }

    pub closed spec fn spec_parent_len(&self) -> int {
        self.parent_len as int
    }

    pub closed spec fn spec_signed(&self) -> Option<SignedFile<S>> {
        self.signed
    }

    /// The image opens, the layers stand where its header puts them, and the
    /// table's one block matches its digest (pending or stored).
    pub open spec fn sound(&self, img: Seq<u8>) -> bool {
        &&& self.wf(img.len())
        &&& self.bound_to(img)
        &&& diff_opens(img)
        &&& self.spec_table().block_ok(img, 0)
    }

    /// Whether a commit has anything to publish.
    pub open spec fn pending_work(&self) -> bool {
        self.spec_table().has_work()
    }

    /// The layers stand where the header of `img` puts them.
    pub open spec fn bound_to(&self, img: Seq<u8>) -> bool {
        let t = self.spec_table();
        let d = t.spec_data();
        let size = hdr_field(img, 0x18, 8) as int;
        &&& t.spec_hash_store().spec_offset() == 0x134
        &&& t.spec_hash_store().spec_len() == 0x20
        &&& d.spec_selector().spec_offset() == 0x130
        &&& d.spec_pair(0).spec_offset() == hdr_field(img, 0x10, 8)
        &&& d.spec_pair(1).spec_offset() == hdr_field(img, 0x08, 8)
        &&& t.spec_len() == size
        &&& t.spec_block_len() == size
        &&& self.spec_signed() matches Some(f) ==> f.spec_tag().spec_offset() == 0
            && f.spec_tag().spec_len() == 0x10
    }

    pub open spec fn wf(&self, img_len: nat) -> bool {
        &&& self.spec_table().wf(img_len)
        &&& self.spec_partition().within(img_len)
        &&& self.spec_parent_len() == img_len
        &&& self.spec_signed() matches Some(f) ==> f.wf(img_len) && f.spec_tag().disjoint(
            &f.spec_body(),
        )
    }

    /// The container length for a partition of the given sizes.
    pub fn calculate_size(l: &DifiLayout) -> (r: usize)
        requires
            l.fits(),
        ensures
            r == diff_size_spec(*l),
    {
        calculate_info(l).end
    }

    /// Opens a DIFF image: checks the header's tag (with a signer), its magic
    /// and version, the table windows and the active table's digest.
    pub fn new(img: &MemoryFile, signer: Option<(S, [u8; 16])>) -> (r: Result<Diff<S>, Error>)
        ensures
            img@.len() < 0x200 ==> r == Err::<Diff<S>, Error>(Error::OutOfBound),
            r == Err::<Diff<S>, Error>(Error::SignatureMismatch) ==> signer is Some,
            r != Err::<Diff<S>, Error>(Error::SignatureMismatch) ==> (open_error(img@) matches Some(
                e,
            ) ==> r == Err::<Diff<S>, Error>(e)),
            r != Err::<Diff<S>, Error>(Error::SignatureMismatch) ==> (r.is_ok() <==> diff_opens(
                img@,
            )),
            signer is None ==> r != Err::<Diff<S>, Error>(Error::SignatureMismatch),
            r matches Ok(d) ==> d.wf(img@.len()) && d.spec_unique_id() == hdr_field(img@, 0x54, 8)
                && d.spec_partition().spec_offset() == hdr_field(img@, 0x20, 8)
                && d.spec_partition().spec_len() == hdr_field(img@, 0x28, 8)
                && d.spec_table().view_of(img@) == active_table_bytes(img@) && d.bound_to(img@)
                && d.spec_table().block_ok(img@, 0) && d.sound(img@) && !d.pending_work()
                && (d.spec_signed() is Some <==> signer is Some),
    {
        let parent_len = img.len();
        let header = SubFile::new(img, 0x100, 0x100)?;
        let signed = match signer {
            None => None,
            Some((s, key)) => {
                let tag = SubFile::new(img, 0, 0x10)?;
                match SignedFile::new(img, tag, header, s, key) {
                    Ok(f) => Some(f),
                    Err(e) => {
                        assert(e == Error::SignatureMismatch);
                        return Err(e);
                    },
                }
            },
        };
        let bytes = header.read(img, 0, HEADER_LEN).unwrap();
        let h = DiffHeader::from_bytes(bytes.as_slice());
        proof {
            let hv = img@.subrange(0x100, 0x15C);
            assert(bytes@ =~= hv);
            assert(hv.subrange(0x00, 0x04) =~= img@.subrange(0x100, 0x104));
            assert(hv.subrange(0x04, 0x08) =~= img@.subrange(0x104, 0x108));
            assert(hv.subrange(0x08, 0x10) =~= img@.subrange(0x108, 0x110));
            assert(hv.subrange(0x10, 0x18) =~= img@.subrange(0x110, 0x118));
            assert(hv.subrange(0x18, 0x20) =~= img@.subrange(0x118, 0x120));
            assert(hv.subrange(0x20, 0x28) =~= img@.subrange(0x120, 0x128));
            assert(hv.subrange(0x28, 0x30) =~= img@.subrange(0x128, 0x130));
            assert(hv.subrange(0x34, 0x54) =~= img@.subrange(0x134, 0x154));
            assert(hv.subrange(0x54, 0x5C) =~= img@.subrange(0x154, 0x15C));
        }
        if h.magic[0] != 0x44 || h.magic[1] != 0x49 || h.magic[2] != 0x46 || h.magic[3] != 0x46
            || h.version != 0x30000 {
            proof {
                if magic_ok(img@) {
                    assert(h.magic@[0] == diff_magic()[0]);
                    assert(h.magic@[1] == diff_magic()[1]);
                    assert(h.magic@[2] == diff_magic()[2]);
                    assert(h.magic@[3] == diff_magic()[3]);
                }
            }
            return Err(Error::MagicMismatch);
        }
        assert(h.magic@ =~= diff_magic());
        let selector = header.window(0x30, 1).unwrap();
        let hash = header.window(0x34, 0x20).unwrap();
        let size = h.table_size;
        if size as u128 + h.primary_table_offset as u128 > parent_len as u128 {
            return Err(Error::OutOfBound);
        }
        if size as u128 + h.secondary_table_offset as u128 > parent_len as u128 {
            return Err(Error::OutOfBound);
        }
        let primary = SubFile::new(img, h.primary_table_offset as usize, size as usize)?;
        let secondary = SubFile::new(img, h.secondary_table_offset as usize, size as usize)?;
        let upper = match DualFile::new(selector, [primary, secondary]) {
            Ok(u) => u,
            Err(e) => {
                return Err(e);
            },
        };
        let ghost up = upper;
        proof {
            if size > 0 {
                lemma_single_block(primary.view_of(img@), size as int, 0, size as int);
            }
        }
        let table = match IvfcLevel::new(hash, upper, size as usize) {
            Ok(t) => t,
            Err(e) => {
                return Err(e);
            },
        };
        let pri = h.primary_table_offset as u128;
        let sec = h.secondary_table_offset as u128;
        let sz = size as u128;
        if !(pri + sz <= 0 || 0x200 <= pri) || !(sec + sz <= 0 || 0x200 <= sec) {
            return Err(Error::BrokenLayout);
        }
        if h.partition_size as u128 + h.partition_offset as u128 > parent_len as u128 {
            return Err(Error::OutOfBound);
        }
        let partition = SubFile::new(
            img,
            h.partition_offset as usize,
            h.partition_size as usize,
        ).unwrap();
        proof {
            up.lemma_pair_index(up.active(img@));
            lemma_single_block(table.view_of(img@), size as int, 0, size as int);
            assert(table.spec_pending(0) is None);
            assert(table.spec_hash_store().view_of(img@).subrange(0, 32) =~= img@.subrange(
                0x134,
                0x154,
            ));
            assert(up.spec_pair(0) == primary);
            assert(up.spec_pair(1) == secondary);
            assert(up.sel_byte(img@) == img@[0x130]);
            assert(table.spec_data() == up);
            assert(primary.spec_offset() == hdr_field(img@, 0x10, 8));
            assert(secondary.spec_offset() == hdr_field(img@, 0x08, 8));
            assert(table.view_of(img@) =~= active_table_bytes(img@));
        }
        match table.read(img, 0, size as usize) {
            Ok(_) => {},
            Err(e) => {
                proof {
                    lemma_single_block(table.view_of(img@), size as int, 0, size as int);
                    assert(0 * (size as int) == 0 && (0 + 1) * (size as int) == size as int) by (nonlinear_arith);
                    if img@[0x130] <= 1 {
                        assert(!table.block_ok(img@, 0));
                        assert(!table_hash_ok(img@));
                    }
                }
                return Err(e);
            },
        }
        proof {
            assert(0 * (size as int) == 0 && (0 + 1) * (size as int) == size as int) by (nonlinear_arith);
            assert(crate::ivfc_level::touches(0, size as int, size as int, 0));
            assert(table.block_ok(img@, 0));
        }
        Ok(Diff { parent_len, signed, table, partition, unique_id: h.unique_id })
    }

    pub fn parent_len(&self) -> (r: usize)
        ensures
            r == self.spec_parent_len(),
    {
        self.parent_len
    }

    /// The window of the partition body.
    pub fn partition(&self) -> (r: SubFile)
        ensures
            r == self.spec_partition(),
    {
        self.partition
    }

    pub fn unique_id(&self) -> (r: u64)
        ensures
            r == self.spec_unique_id(),
    {
        self.unique_id
    }

    /// The length of the partition descriptor.
    pub fn descriptor_len(&self) -> (r: usize)
        ensures
            r == self.spec_table().spec_len(),
    {
        self.table.len()
    }

    /// Reads the partition descriptor through the table's digest check.
    pub fn read_descriptor(&self, img: &MemoryFile, pos: usize, len: usize) -> (r: Result<
        Vec<u8>,
        Error,
    >)
        requires
            self.wf(img@.len()),
        ensures
            pos + len > self.spec_table().spec_len() ==> r == Err::<Vec<u8>, Error>(
                Error::OutOfBound,
            ),
            r.is_ok() <==> (pos + len <= self.spec_table().spec_len()
                && self.spec_table().spec_data().sel_byte(img@) <= 1 && forall|b: int|
                #![trigger self.spec_table().block_ok(img@, b)]
                0 <= b && crate::ivfc_level::touches(
                    pos as int,
                    len as int,
                    self.spec_table().spec_block_len(),
                    b,
                ) ==> self.spec_table().block_ok(img@, b)),
            r matches Err(e) ==> e == Error::OutOfBound || e == Error::BrokenLayout || e
                == Error::HashMismatch,
            r matches Ok(v) ==> v@ == self.spec_table().view_of(img@).subrange(
                pos as int,
                pos + len,
            ),
    {
        self.table.read(img, pos, len)
    }

    /// Writes the partition descriptor; the new digest is stored on `commit`.
    pub fn write_descriptor(&mut self, img: &mut MemoryFile, pos: usize, buf: &[u8]) -> (r:
        Result<(), Error>)
        requires
            old(self).wf(old(img)@.len()),
        ensures
            final(self).wf(final(img)@.len()),
            (pos + buf@.len() <= old(self).spec_table().spec_len() && (buf@.len() == 0 || old(
                self,
            ).spec_table().spec_data().sel_byte(old(img)@) <= 1)) <==> r.is_ok(),
            r.is_err() || buf@.len() == 0 ==> final(img)@ == old(img)@ && *final(self) == *old(
                self,
            ),
            r.is_ok() ==> final(self).spec_table().view_of(final(img)@) == splice(
                old(self).spec_table().view_of(old(img)@),
                pos as int,
                buf@,
            ),
            final(self).spec_partition() == old(self).spec_partition(),
            final(self).spec_unique_id() == old(self).spec_unique_id(),
            old(self).sound(old(img)@) ==> final(self).sound(final(img)@),
            r.is_ok() && old(self).sound(old(img)@) ==> active_table_bytes(final(img)@)
                == active_table_bytes(old(img)@),
            old(self).sound(old(img)@) ==> (forall|i: int|
                0 <= i < 0x200 ==> #[trigger] final(img)@[i] == old(img)@[i]),
    {
        if buf.len() == 0 {
            if pos > self.table.len() {
                return Err(Error::OutOfBound);
            }
            proof {
                let d = self.table.spec_data();
                d.lemma_pair_index(d.active(img@));
                assert(self.table.view_of(img@).len() == self.table.spec_len());
            }
            assert(splice(self.table.view_of(img@), pos as int, buf@) =~= self.table.view_of(img@));
            return Ok(());
        }
        let ghost img0 = img@;
        let ghost t0 = self.table;
        let r = self.table.write(img, pos, buf);
        proof {
            if r.is_ok() && old(self).bound_to(img0) && diff_opens(img0) {
                let d = t0.spec_data();
                d.lemma_write(img0, pos as int, buf@);
                d.lemma_layout();
                let sel = d.sel_byte(img0);
                d.lemma_pair_index(1 - sel);
                d.lemma_pair_index(sel as int);
                let cur = d.spec_pair(1 - sel);
                if d.spec_modified() {
                    lemma_splice(img0, cur.spec_offset() + pos, buf@);
                } else {
                    lemma_splice(img0, cur.spec_offset(), splice(d.view_of(img0), pos as int, buf@));
                    d.lemma_pair_index(d.active(img0));
                    lemma_splice(d.view_of(img0), pos as int, buf@);
                }
                assert forall|i: int| 0 <= i < 0x200 implies #[trigger] img@[i] == img0[i] by {
                    assert(!cur.covers(i));
                }
                lemma_header_same(img0, img@);
                assert(active_table_bytes(img0) =~= d.committed_of(img0));
                assert(active_table_bytes(img@) =~= d.committed_of(img@));
                assert(img@.subrange(0x134, 0x154) =~= img0.subrange(0x134, 0x154));
            }
        }
        proof {
            if r.is_ok() && buf@.len() > 0 && old(self).bound_to(img0) && diff_opens(img0) {
                let size = hdr_field(img0, 0x18, 8) as int;
                assert(0 * size == 0 && (0 + 1) * size == size) by (nonlinear_arith);
                assert(crate::ivfc_level::touches(pos as int, buf@.len() as int, size, 0)) by {
                    assert(0 <= pos && pos < size);
                }
                crate::misc::lemma_divide_up_self(size);
            }
        }
        r
    }

    /// Publishes pending writes: the table's digests, then its selector, then
    /// the header's tag.
    pub fn commit(&mut self, img: &mut MemoryFile) -> (r: Result<(), Error>)
        requires
            old(self).wf(old(img)@.len()),
        ensures
            (old(self).spec_table().spec_data().spec_modified()
                && old(self).spec_table().spec_data().sel_byte(old(img)@) > 1) <==> r.is_err(),
            r matches Err(e) ==> e == Error::BrokenLayout,
            r.is_err() ==> final(img)@ == old(img)@,
            final(self).wf(final(img)@.len()),
            final(self).spec_partition() == old(self).spec_partition(),
            final(self).spec_unique_id() == old(self).spec_unique_id(),
            r.is_ok() ==> final(self).spec_table().spec_data() == old(
                self,
            ).spec_table().spec_data().reopened(),
            r.is_ok() ==> (final(self).spec_signed() is Some <==> old(self).spec_signed() is Some),
            r.is_ok() ==> !final(self).pending_work(),
            !old(self).pending_work() ==> r.is_ok() && final(img)@ == old(img)@ && *final(self)
                == *old(self),
            old(self).sound(old(img)@) ==> r.is_ok() && final(self).sound(final(img)@)
                && active_table_bytes(final(img)@) == old(self).spec_table().view_of(old(img)@)
                && final(self).spec_table().view_of(final(img)@)
                == old(self).spec_table().view_of(old(img)@) && hdr_field(final(img)@, 0x54, 8) == hdr_field(
                old(img)@,
                0x54,
                8,
            ) && (forall|i: int|
                0x100 <= i < 0x200 && i != 0x130 && !(0x134 <= i < 0x154)
                    ==> #[trigger] final(img)@[i] == old(img)@[i]),
    {
        if !self.table.is_dirty() {
            proof {
                self.table.spec_data().lemma_layout();
            }
            return Ok(());
        }
        let ghost img0 = img@;
        let ghost t0 = self.table;
        self.table.commit(img)?;
        let ghost img1 = img@;
        let ghost t1 = self.table;
        match &mut self.signed {
            Some(f) => {
                f.touch();
                let _ = f.commit(img);
            },
            None => {},
        }
        proof {
            t0.spec_data().lemma_layout();
            if old(self).sound(img0) {
                let d0 = t0.spec_data();
                d0.lemma_layout();
                let d1 = t1.spec_data();
                assert(d1 == d0.reopened());
                assert forall|i: int|
                    0x10 <= i < img0.len() implies #[trigger] img@[i] == img1[i] by {
                    if let Some(f) = old(self).spec_signed() {
                        assert(!f.spec_tag().covers(i));
                    }
                }
                assert forall|i: int|
                    0x100 <= i < 0x200 && i != 0x130 && !(0x134 <= i < 0x154) implies #[trigger] img@[i]
                        == img0[i] by {
                    assert(img@[i] == img1[i]);
                    assert(!t0.spec_hash_store().covers(i));
                }
                lemma_header_same(img0, img@);
                assert forall|i: int|
                    0x100 <= i < 0x200 && i != 0x130 && !(0x134 <= i < 0x154) implies #[trigger] img1[i]
                        == img0[i] by {
                    assert(!t0.spec_hash_store().covers(i));
                }
                lemma_header_same(img0, img1);
                let size = hdr_field(img0, 0x18, 8) as int;
                lemma_single_block(t0.view_of(img0), size, 0, size);
                d1.lemma_pair_index(d1.sel_byte(img1) as int);
                assert(active_table_bytes(img1) =~= t1.view_of(img1));
                assert(active_table_bytes(img@) =~= active_table_bytes(img1));
                assert(t1.spec_pending(0) is None);
                assert(img@.subrange(0x134, 0x154) =~= t1.spec_hash_store().view_of(img1).subrange(
                    0,
                    32,
                ));
                assert(t1.expected_hash(img1, 0) == t0.expected_hash(img0, 0));
                assert(self.spec_table() == t1);
                assert(t1.spec_hash_store().view_of(img@) =~= t1.spec_hash_store().view_of(img1));
                assert(t1.expected_hash(img@, 0) == t1.expected_hash(img1, 0));
                d1.lemma_pair_index(d1.sel_byte(img@) as int);
                assert(t1.view_of(img@) =~= active_table_bytes(img@));
                assert(t1.view_of(img@) == t0.view_of(img0));
                assert(diff_opens(img@));
                assert(t1.block_ok(img@, 0));
                assert(self.bound_to(img@));
            }
        }
        Ok(())
    }

    /// Lays out a DIFF container in `img`: zeroes the header block, writes
    /// `descriptor` into the secondary table, and writes the header with the
    /// secondary table active and its digest, then the tag with a signer.
    pub fn format(
        img: &mut MemoryFile,
        signer: Option<(S, [u8; 16])>,
        l: &DifiLayout,
        descriptor: &[u8],
        unique_id: u64,
    ) -> (r: Result<(), Error>)
        requires
            l.fits(),
        ensures
            old(img)@.len() < diff_size_spec(*l) ==> r == Err::<(), Error>(Error::OutOfBound),
            old(img)@.len() >= diff_size_spec(*l) && (descriptor@.len() != l.descriptor_len
                || l.descriptor_len == 0) ==> r == Err::<(), Error>(Error::SizeMismatch),
            r.is_ok() <==> (old(img)@.len() >= diff_size_spec(*l) && descriptor@.len()
                == l.descriptor_len && l.descriptor_len > 0),
            r.is_err() ==> final(img)@ == old(img)@,
            final(img)@.len() == old(img)@.len(),
            r.is_ok() ==> formatted(final(img)@, *l, descriptor@, unique_id),
            r.is_ok() && signer is None ==> final(img)@.subrange(0, 0x10) == Seq::new(
                0x10,
                |i: int| 0u8,
            ),
            r.is_ok() ==> forall|i: int|
                (0x10 <= i < 0x100 || 0x15C <= i < 0x200) ==> #[trigger] final(img)@[i] == 0u8,
            r.is_ok() ==> forall|i: int|
                0x200 + l.descriptor_len <= i < old(img)@.len() ==> #[trigger] final(img)@[i] == old(
                    img,
                )@[i],
    {
        let info = calculate_info(l);
        if img.len() < info.end {
            return Err(Error::OutOfBound);
        }
        if descriptor.len() != info.table_len || info.table_len == 0 {
            return Err(Error::SizeMismatch);
        }
        let ghost orig = img@;
        let zeros: Vec<u8> = vec![0u8; 0x200];
        let _ = img.write(0, zeros.as_slice());
        let ghost img0 = img@;
        proof {
            lemma_splice(orig, 0, zeros@);
            assert forall|i: int| 0 <= i < 0x200 implies #[trigger] img0[i] == 0u8 by {
                assert(img0[0 + i] == zeros@[i]);
            }
        }
        let _ = img.write(info.secondary_table_offset, descriptor);
        let ghost img1 = img@;
        proof {
            lemma_splice(img0, 0x200, descriptor@);
        }
        let sha = sha256(descriptor);
        let h = DiffHeader {
            magic: [0x44, 0x49, 0x46, 0x46],
            version: 0x30000,
            secondary_table_offset: info.secondary_table_offset as u64,
            primary_table_offset: info.primary_table_offset as u64,
            table_size: info.table_len as u64,
            partition_offset: info.partition_offset as u64,
            partition_size: info.partition_len as u64,
            active_table: 1,
            sha,
            unique_id,
        };
        let bytes = h.to_bytes();
        assert(h.magic@ =~= diff_magic());
        assert(bytes@ == format_header(*l, sha256_of(descriptor@), unique_id));
        let _ = img.write(0x100, bytes.as_slice());
        let ghost img2 = img@;
        proof {
            lemma_splice(img1, 0x100, bytes@);
            assert(img2.subrange(0x100, 0x15C) =~= bytes@);
            assert(img2.subrange(0x200, 0x200 + l.descriptor_len) =~= img1.subrange(
                0x200,
                0x200 + l.descriptor_len,
            ));
        }
        proof {
            assert forall|i: int| (0x10 <= i < 0x100 || 0x15C <= i < 0x200) implies #[trigger] img2[i]
                == 0u8 by {
                assert(img2[i] == img1[i]);
                assert(img1[i] == img0[i]);
            }
            assert forall|i: int| 0x200 + l.descriptor_len <= i < orig.len() implies #[trigger] img2[i]
                == orig[i] by {
                assert(img2[i] == img1[i]);
                assert(img1[i] == img0[i]);
            }
        }
        match signer {
            None => {},
            Some((s, key)) => {
                let body = img.read(0x100, 0x100).unwrap();
                let tag = s.hash(&key, body.as_slice());
                let _ = img.write(0, &tag);
                proof {
                    lemma_splice(img2, 0, tag@);
                    assert forall|i: int| 0x10 <= i < orig.len() implies #[trigger] img@[i]
                        == img2[i] by {}
                    assert(img@.subrange(0x100, 0x15C) =~= img2.subrange(0x100, 0x15C));
                    assert(img@.subrange(0x200, 0x200 + l.descriptor_len) =~= img2.subrange(
                        0x200,
                        0x200 + l.descriptor_len,
                    ));
                }
            },
        }
        Ok(())
    }
}

} // verus!
