use crate::dual_file::{apart, DualFile};
use crate::error::Error;
use crate::memory_file::{lemma_splice, splice, MemoryFile};
use crate::misc::{divide_up, divide_up_spec, sha256, sha256_of};
use crate::sub_file::SubFile;
use vstd::prelude::*;

verus! {

/// Length of one stored digest.
pub const HASH_LEN: usize = 32;

/// Block `b` of `view`, cut at the end of the data and zero-filled to `bl` bytes.
pub open spec fn block_of(view: Seq<u8>, b: int, bl: int) -> Seq<u8> {
    let start = b * bl;
    let end = if start + bl <= view.len() {
        start + bl
    } else {
        view.len() as int
    };
    view.subrange(start, end) + Seq::new((bl - (end - start)) as nat, |i: int| 0u8)
}

/// Whether a request of `len` bytes at `pos` covers a byte of block `b`.
pub open spec fn touches(pos: int, len: int, bl: int, b: int) -> bool {
    len > 0 && b * bl < pos + len && pos < (b + 1) * bl
}

/// Blocks before the one holding `pos` end at or before `pos`; the block
/// holding `pos` ends after it.
proof fn lemma_first_block(pos: int, bl: int, c: int)
    requires
        pos >= 0,
        bl > 0,
        c >= 0,
    ensures
        c < pos / bl ==> (c + 1) * bl <= pos,
        c >= pos / bl ==> pos < (c + 1) * bl,
        (pos / bl) * bl <= pos,
{
    assert(c < pos / bl ==> (c + 1) * bl <= pos) by (nonlinear_arith)
        requires pos >= 0, bl > 0, c >= 0;
    assert(c >= pos / bl ==> pos < (c + 1) * bl) by (nonlinear_arith)
        requires pos >= 0, bl > 0, c >= 0;
    assert((pos / bl) * bl <= pos) by (nonlinear_arith)
        requires pos >= 0, bl > 0;
}

/// Blocks at or after `b` start at or after `b * bl`; a block that starts
/// inside the data is one of its `divide_up(len, bl)` blocks.
proof fn lemma_block_order(b: int, bl: int, c: int, len: int)
    requires
        b >= 0,
        bl > 0,
        len >= 0,
    ensures
        c >= b ==> c * bl >= b * bl,
        b * bl < len ==> b < divide_up_spec(len, bl),
        (b + 1) * bl == b * bl + bl,
        b < divide_up_spec(len, bl) ==> b * 32 + 32 <= divide_up_spec(len, bl) * 32,
{
    assert(c >= b ==> c * bl >= b * bl) by (nonlinear_arith)
        requires b >= 0, bl > 0;
    assert(b * bl < len ==> b < (len + bl - 1) / bl) by (nonlinear_arith)
        requires b >= 0, bl > 0, len >= 0;
    assert((b + 1) * bl == b * bl + bl) by (nonlinear_arith);
    assert(b < divide_up_spec(len, bl) ==> b * 32 + 32 <= divide_up_spec(len, bl) * 32) by (nonlinear_arith);
}

/// Whether two byte strings are equal.
pub(crate) fn same_bytes(a: &[u8], b: &[u8]) -> (r: bool)
    ensures
        r == (a@ == b@),
{
    if a.len() != b.len() {
        return false;
    }
    let mut i: usize = 0;
    while i < a.len()
        invariant
            i <= a@.len(),
            a@.len() == b@.len(),
            a@.take(i as int) == b@.take(i as int),
        decreases a@.len() - i,
    {
        if a[i] != b[i] {
            assert(a@[i as int] != b@[i as int]);
            return false;
        }
        assert(a@.take(i + 1) =~= a@.take(i as int).push(a@[i as int]));
        assert(b@.take(i + 1) =~= b@.take(i as int).push(b@[i as int]));
        i = i + 1;
    }
    assert(a@ =~= a@.take(a@.len() as int));
    assert(b@ =~= b@.take(b@.len() as int));
    true
}

/// One level of a hash tree: each block of the data has its SHA-256 in the
/// hash store. Reads are checked against it; writes keep the new digests in
/// memory until `commit` stores them.
pub struct IvfcLevel {
    hash_store: SubFile,
    data: DualFile,
    block_len: usize,
    len: usize,
    pending: Vec<Option<Vec<u8>>>,
}

impl IvfcLevel {
    pub closed spec fn spec_hash_store(&self) -> SubFile {
        self.hash_store
    }

    pub closed spec fn spec_data(&self) -> DualFile {
        self.data
    }

    pub closed spec fn spec_block_len(&self) -> int {
        self.block_len as int
    }

    pub closed spec fn spec_len(&self) -> int {
        self.len as int
    }

    /// The digest not yet stored for block `b`, if any.
    pub closed spec fn spec_pending(&self, b: int) -> Option<Seq<u8>> {
        match self.pending@[b] {
            Some(h) => Some(h@),
            None => None,
        }
    }

    pub closed spec fn spec_pending_len(&self) -> int {
        self.pending@.len() as int
    }

    /// Number of blocks.
    pub open spec fn block_count(&self) -> int {
        divide_up_spec(self.spec_len(), self.spec_block_len())
    }

    /// The windows fit the image and each other, and no two of them overlap.
    pub open spec fn wf(&self, img_len: nat) -> bool {
        &&& self.spec_block_len() > 0
        &&& self.spec_data().wf(img_len)
        &&& self.spec_data().separated()
        &&& self.spec_data().spec_len() == self.spec_len()
        &&& self.spec_hash_store().within(img_len)
        &&& self.spec_hash_store().spec_len() == self.block_count() * 32
        &&& self.spec_hash_store().disjoint(&self.spec_data().spec_selector())
        &&& self.spec_hash_store().disjoint(&self.spec_data().spec_pair(0))
        &&& self.spec_hash_store().disjoint(&self.spec_data().spec_pair(1))
        &&& self.spec_pending_len() == self.block_count()
        &&& forall|b: int|
            0 <= b < self.block_count() ==> (#[trigger] self.spec_pending(b) matches Some(h) ==> h.len()
                == 32)
    }

    /// Whether a commit has anything to publish: pending writes in the data
    /// or a digest not yet stored.
    pub open spec fn has_work(&self) -> bool {
        self.spec_data().spec_modified() || exists|b: int|
            0 <= b < self.spec_pending_len() && #[trigger] self.spec_pending(b) is Some
    }

    /// The data bytes that reads see.
    pub open spec fn view_of(&self, img: Seq<u8>) -> Seq<u8> {
        self.spec_data().view_of(img)
    }

    /// The digest that block `b` is checked against: the pending one, else the stored one.
    pub open spec fn expected_hash(&self, img: Seq<u8>, b: int) -> Seq<u8> {
        match self.spec_pending(b) {
            Some(h) => h,
            None => self.spec_hash_store().view_of(img).subrange(b * 32, b * 32 + 32),
        }
    }

    /// Block `b` matches its digest.
    pub open spec fn block_ok(&self, img: Seq<u8>, b: int) -> bool {
        self.expected_hash(img, b) == sha256_of(
            block_of(self.view_of(img), b, self.spec_block_len()),
        )
    }

    /// Builds the level; the hash store must hold one digest per block.
    pub fn new(hash_store: SubFile, data: DualFile, block_len: usize) -> (r: Result<IvfcLevel, Error>)
        ensures
            r matches Ok(l) ==> l.spec_hash_store() == hash_store && l.spec_data() == data
                && l.spec_block_len() == block_len && l.spec_len() == data.spec_len()
                && l.spec_pending_len() == l.block_count() && (forall|
                b: int|
                0 <= b < l.block_count() ==> l.spec_pending(b) is None),
            block_len == 0 ==> r == Err::<IvfcLevel, Error>(Error::SizeMismatch),
            block_len > 0 && hash_store.spec_len() != divide_up_spec(data.spec_len(), block_len as int) * 32
                ==> r == Err::<IvfcLevel, Error>(Error::SizeMismatch),
            r.is_ok() <==> (block_len > 0 && hash_store.spec_len() == divide_up_spec(
                data.spec_len(),
                block_len as int,
            ) * 32 && data.separated() && hash_store.disjoint(&data.spec_selector())
                && hash_store.disjoint(&data.spec_pair(0)) && hash_store.disjoint(
                &data.spec_pair(1),
            )),
            r matches Err(e) ==> e == Error::SizeMismatch || e == Error::BrokenLayout,
            block_len > 0 && hash_store.spec_len() == divide_up_spec(data.spec_len(), block_len as int)
                * 32 && r.is_err() ==> r == Err::<IvfcLevel, Error>(Error::BrokenLayout),
    {
        if block_len == 0 {
            return Err(Error::SizeMismatch);
        }
        let len = data.len();
        let count = divide_up(len, block_len);
        if count > usize::MAX / HASH_LEN || hash_store.len() != count * HASH_LEN {
            proof {
                if count > usize::MAX / 32 {
                    assert(count * 32 > usize::MAX) by (nonlinear_arith)
                        requires count > usize::MAX / 32;
                    hash_store.lemma_bounded();
                }
            }
            return Err(Error::SizeMismatch);
        }
        if !data.is_separated() || !apart(&hash_store, &data.selector_window()) || !apart(
            &hash_store,
            &data.pair_window(0),
        ) || !apart(&hash_store, &data.pair_window(1)) {
            return Err(Error::BrokenLayout);
        }
        let mut pending: Vec<Option<Vec<u8>>> = Vec::new();
        let mut i: usize = 0;
        while i < count
            invariant
                i <= count,
                pending@.len() == i,
                forall|b: int| 0 <= b < i ==> pending@[b] is None,
            decreases count - i,
        {
            pending.push(None);
            i = i + 1;
        }
        Ok(IvfcLevel { hash_store, data, block_len, len, pending })
    }

    pub fn len(&self) -> (r: usize)
        ensures
            r == self.spec_len(),
    {
        self.len
    }

    /// Whether a commit has anything to publish.
    pub fn is_dirty(&self) -> (r: bool)
        ensures
            r == self.has_work(),
    {
        if self.data.modified() {
            return true;
        }
        let mut b: usize = 0;
        while b < self.pending.len()
            invariant
                b <= self.spec_pending_len(),
                forall|c: int| 0 <= c < b ==> #[trigger] self.spec_pending(c) is None,
            decreases self.spec_pending_len() - b,
        {
            if self.pending[b].is_some() {
                assert(self.spec_pending(b as int) is Some);
                return true;
            }
            b = b + 1;
        }
        false
    }

    /// The digest of block `b` as the data reads now, zero-filled to a whole block.
    fn block_hash(&self, img: &MemoryFile, b: usize, start: usize) -> (r: Vec<u8>)
        requires
            self.wf(img@.len()),
            self.spec_data().sel_byte(img@) <= 1,
            start == b * self.spec_block_len(),
            start < self.spec_len(),
        ensures
            r@ == sha256_of(block_of(self.view_of(img@), b as int, self.spec_block_len())),
            r@.len() == 32,
    {
        let bl = self.block_len;
        let end = if self.len - start >= bl {
            start + bl
        } else {
            self.len
        };
        let mut block = self.data.read(img, start, end - start).unwrap();
        let ghost got = block@;
        let mut i: usize = end - start;
        while i < bl
            invariant
                end - start <= i <= bl,
                block@ == got + Seq::new((i - (end - start)) as nat, |k: int| 0u8),
            decreases bl - i,
        {
            block.push(0);
            assert(block@ =~= got + Seq::new((i + 1 - (end - start)) as nat, |k: int| 0u8));
            i = i + 1;
        }
        assert(block@ =~= block_of(self.view_of(img@), b as int, bl as int));
        sha256(block.as_slice())
    }

    /// The digest block `b` is checked against, as bytes.
    fn expected(&self, img: &MemoryFile, b: usize) -> (r: Vec<u8>)
        requires
            self.wf(img@.len()),
            b < self.block_count(),
        ensures
            r@ == self.expected_hash(img@, b as int),
    {
        proof {
            lemma_block_order(b as int, self.spec_block_len(), 0, self.spec_len());
            self.spec_hash_store().lemma_bounded();
        }
        match &self.pending[b] {
            Some(h) => h.clone(),
            None => self.hash_store.read(img, b * HASH_LEN, HASH_LEN).unwrap(),
        }
    }

    /// Reads `len` bytes at `pos`, checking every block the request touches
    /// against its digest.
    pub fn read(&self, img: &MemoryFile, pos: usize, len: usize) -> (r: Result<Vec<u8>, Error>)
        requires
            self.wf(img@.len()),
        ensures
            pos + len > self.spec_len() ==> r == Err::<Vec<u8>, Error>(Error::OutOfBound),
            pos + len <= self.spec_len() && self.spec_data().sel_byte(img@) > 1 ==> r == Err::<
                Vec<u8>,
                Error,
            >(Error::BrokenLayout),
            pos + len <= self.spec_len() && self.spec_data().sel_byte(img@) <= 1 ==> (r.is_ok()
                <==> forall|b: int|
                #![trigger self.block_ok(img@, b)]
                0 <= b && touches(pos as int, len as int, self.spec_block_len(), b) ==> self.block_ok(
                    img@,
                    b,
                )),
            r matches Err(e) ==> e == Error::OutOfBound || e == Error::BrokenLayout || e
                == Error::HashMismatch,
            pos + len <= self.spec_len() && self.spec_data().sel_byte(img@) <= 1 && r.is_err()
                ==> r == Err::<Vec<u8>, Error>(Error::HashMismatch),
            r matches Ok(v) ==> v@ == self.view_of(img@).subrange(pos as int, pos + len),
    {
        if len > self.len || pos > self.len - len {
            return Err(Error::OutOfBound);
        }
        let _ = self.data.select(img)?;
        let bl = self.block_len;
        let mut b: usize = pos / bl;
        proof {
            lemma_first_block(pos as int, bl as int, 0);
            assert forall|c: int|
                #![trigger self.block_ok(img@, c)]
                0 <= c < b && touches(pos as int, len as int, bl as int, c) implies self.block_ok(
                    img@,
                    c,
                ) by {
                lemma_first_block(pos as int, bl as int, c);
            }
        }
        let mut start: usize = b * bl;
        while len > 0 && start < pos + len
            invariant
                self.wf(img@.len()),
                self.spec_data().sel_byte(img@) <= 1,
                bl == self.spec_block_len(),
                pos + len <= self.spec_len(),
                b >= pos / bl,
                start == b * bl,
                start <= self.spec_len(),
                forall|c: int|
                    #![trigger self.block_ok(img@, c)]
                    0 <= c < b && touches(pos as int, len as int, bl as int, c) ==> self.block_ok(
                        img@,
                        c,
                    ),
            decreases self.spec_len() - start,
        {
            proof {
                lemma_block_order(b as int, bl as int, 0, self.spec_len());
                lemma_first_block(pos as int, bl as int, b as int);
                assert(b <= b * bl) by (nonlinear_arith)
                    requires bl >= 1, b >= 0;
            }
            let got = self.block_hash(img, b, start);
            let want = self.expected(img, b);
            if !same_bytes(got.as_slice(), want.as_slice()) {
                assert(touches(pos as int, len as int, bl as int, b as int));
                assert(!self.block_ok(img@, b as int));
                return Err(Error::HashMismatch);
            }
            assert(self.block_ok(img@, b as int));
            if self.len - start <= bl {
                // the data ends in this block: no later block is touched
                proof {
                    assert forall|c: int|
                        #![trigger self.block_ok(img@, c)]
                        0 <= c && touches(pos as int, len as int, bl as int, c) implies self.block_ok(
                            img@,
                            c,
                        ) by {
                        lemma_block_order(b as int + 1, bl as int, c, self.spec_len());
                        lemma_block_order(b as int, bl as int, c, self.spec_len());
                    }
                }
                return self.data.read(img, pos, len);
            }
            start = start + bl;
            b = b + 1;
        }
        proof {
            assert forall|c: int|
                #![trigger self.block_ok(img@, c)]
                0 <= c && touches(pos as int, len as int, bl as int, c) implies self.block_ok(img@, c) by {
                lemma_block_order(b as int, bl as int, c, self.spec_len());
                lemma_first_block(pos as int, bl as int, c);
            }
        }
        self.data.read(img, pos, len)
    }

    /// Writes `buf` at `pos` through to the data and recomputes the digest of
    /// every block it touches; the digests are stored on `commit`.
    pub fn write(&mut self, img: &mut MemoryFile, pos: usize, buf: &[u8]) -> (r: Result<(), Error>)
        requires
            old(self).wf(old(img)@.len()),
        ensures
            pos + buf@.len() > old(self).spec_len() ==> r == Err::<(), Error>(Error::OutOfBound),
            pos + buf@.len() <= old(self).spec_len() && old(self).spec_data().sel_byte(old(img)@)
                > 1 ==> r == Err::<(), Error>(Error::BrokenLayout),
            (pos + buf@.len() <= old(self).spec_len() && old(self).spec_data().sel_byte(old(img)@)
                <= 1) <==> r.is_ok(),
            r.is_err() ==> final(img)@ == old(img)@ && *final(self) == *old(self),
            final(self).wf(final(img)@.len()),
            final(img)@.len() == old(img)@.len(),
            final(self).spec_hash_store() == old(self).spec_hash_store(),
            final(self).spec_block_len() == old(self).spec_block_len(),
            final(self).spec_len() == old(self).spec_len(),
            r.is_ok() ==> final(img)@ == old(self).spec_data().write_effect(
                old(img)@,
                pos as int,
                buf@,
            ) && final(self).spec_data() == old(self).spec_data().written(),
            r.is_ok() ==> final(self).view_of(final(img)@) == splice(
                old(self).view_of(old(img)@),
                pos as int,
                buf@,
            ),
            r.is_ok() ==> forall|b: int|
                0 <= b < old(self).block_count() ==> #[trigger] final(self).spec_pending(b) == if touches(
                    pos as int,
                    buf@.len() as int,
                    old(self).spec_block_len(),
                    b,
                ) {
                    Some(
                        sha256_of(
                            block_of(final(self).view_of(final(img)@), b, old(self).spec_block_len()),
                        ),
                    )
                } else {
                    old(self).spec_pending(b)
                },
            r.is_ok() ==> forall|b: int|
                0 <= b < old(self).block_count() && touches(
                    pos as int,
                    buf@.len() as int,
                    old(self).spec_block_len(),
                    b,
                ) ==> #[trigger] final(self).block_ok(final(img)@, b),
    {
        if buf.len() > self.len || pos > self.len - buf.len() {
            return Err(Error::OutOfBound);
        }
        let _ = self.data.select(img)?;
        let ghost img0 = img@;
        let ghost self0 = *self;
        proof {
            self.spec_data().lemma_write(img0, pos as int, buf@);
            self.spec_data().lemma_layout();
        }
        let _ = self.data.write(img, pos, buf);
        let len = buf.len();
        let bl = self.block_len;
        let mut b: usize = pos / bl;
        proof {
            lemma_first_block(pos as int, bl as int, 0);
        }
        let mut start: usize = b * bl;
        assert(self.spec_data().separated());
        assert(self.spec_hash_store().disjoint(&self.spec_data().spec_selector()));
        assert(self.spec_hash_store().disjoint(&self.spec_data().spec_pair(0)));
        assert(self.spec_hash_store().disjoint(&self.spec_data().spec_pair(1)));
        proof {
            assert forall|c: int| 0 <= c < self.block_count() implies #[trigger] self.spec_pending(c) == if c < b
                && touches(pos as int, len as int, bl as int, c) {
                Some(sha256_of(block_of(self.view_of(img@), c, bl as int)))
            } else {
                self0.spec_pending(c)
            } by {
                lemma_first_block(pos as int, bl as int, c);
            }
        }
        while len > 0 && start < pos + len
            invariant
                self.wf(img@.len()),
                self.spec_data().sel_byte(img@) <= 1,
                self.spec_data() == self0.spec_data().written(),
                self0 == *old(self),
                img0 == old(img)@,
                self0.spec_data().sel_byte(img0) <= 1,
                pos + buf@.len() <= self0.spec_len(),
                self.spec_hash_store() == self0.spec_hash_store(),
                self.spec_block_len() == self0.spec_block_len(),
                self.spec_len() == self0.spec_len(),
                img@ == self0.spec_data().write_effect(img0, pos as int, buf@),
                img@.len() == img0.len(),
                self.view_of(img@) == splice(self0.view_of(img0), pos as int, buf@),
                len == buf@.len(),
                bl == self.spec_block_len(),
                pos + len <= self.spec_len(),
                b >= pos / bl,
                start == b * bl,
                start <= self.spec_len(),
                forall|c: int|
                    0 <= c < self.block_count() ==> #[trigger] self.spec_pending(c) == if c < b
                        && touches(pos as int, len as int, bl as int, c) {
                        Some(sha256_of(block_of(self.view_of(img@), c, bl as int)))
                    } else {
                        self0.spec_pending(c)
                    },
            decreases self.spec_len() - start,
        {
            proof {
                lemma_block_order(b as int, bl as int, 0, self.spec_len());
                lemma_first_block(pos as int, bl as int, b as int);
                assert(b <= b * bl) by (nonlinear_arith)
                    requires bl >= 1, b >= 0;
            }
            let h = self.block_hash(img, b, start);
            let ghost before_set = *self;
            self.pending.set(b, Some(h));
            proof {
                assert(self.spec_pending(b as int) == Some(
                    sha256_of(block_of(self.view_of(img@), b as int, bl as int)),
                ));
                assert forall|c: int| 0 <= c < self.block_count() && c != b implies #[trigger] self.spec_pending(c)
                    == before_set.spec_pending(c) by {
                    assert(self.pending@[c] == before_set.pending@[c]);
                }
            }
            assert(touches(pos as int, len as int, bl as int, b as int));
            if self.len - start <= bl {
                proof {
                    assert forall|c: int| 0 <= c < self.block_count() implies #[trigger] self.spec_pending(c)
                        == if touches(pos as int, len as int, bl as int, c) {
                        Some(sha256_of(block_of(self.view_of(img@), c, bl as int)))
                    } else {
                        self0.spec_pending(c)
                    } by {
                        lemma_block_order(b as int + 1, bl as int, c, self.spec_len());
                        lemma_block_order(b as int, bl as int, c, self.spec_len());
                    }
                }
                return Ok(());
            }
            start = start + bl;
            b = b + 1;
        }
        proof {
            assert forall|c: int| 0 <= c < self.block_count() implies #[trigger] self.spec_pending(c)
                == if touches(pos as int, len as int, bl as int, c) {
                Some(sha256_of(block_of(self.view_of(img@), c, bl as int)))
            } else {
                self0.spec_pending(c)
            } by {
                lemma_block_order(b as int, bl as int, c, self.spec_len());
                lemma_first_block(pos as int, bl as int, c);
            }
        }
        Ok(())
    }

    /// Stores every pending digest in the hash store, then commits the data.
    pub fn commit(&mut self, img: &mut MemoryFile) -> (r: Result<(), Error>)
        requires
            old(self).wf(old(img)@.len()),
        ensures
            (old(self).spec_data().spec_modified() && old(self).spec_data().sel_byte(old(img)@) > 1)
                <==> r.is_err(),
            r matches Err(e) ==> e == Error::BrokenLayout,
            r.is_err() ==> final(img)@ == old(img)@ && *final(self) == *old(self),
            final(self).wf(final(img)@.len()),
            final(img)@.len() == old(img)@.len(),
            final(self).spec_hash_store() == old(self).spec_hash_store(),
            final(self).spec_block_len() == old(self).spec_block_len(),
            final(self).spec_len() == old(self).spec_len(),
            r.is_ok() ==> final(self).spec_data() == old(self).spec_data().reopened(),
            r.is_ok() ==> final(self).view_of(final(img)@) == old(self).view_of(old(img)@),
            r.is_ok() ==> forall|b: int|
                0 <= b < old(self).block_count() ==> #[trigger] final(self).spec_pending(b) is None
                    && final(self).expected_hash(final(img)@, b) == old(self).expected_hash(
                    old(img)@,
                    b,
                ),
            forall|i: int|
                0 <= i < old(img)@.len() && !old(self).spec_hash_store().covers(i) && i != old(
                    self,
                ).spec_data().spec_selector().spec_offset() ==> #[trigger] final(img)@[i] == old(
                    img,
                )@[i],
            r.is_ok() && old(self).spec_data().sel_byte(old(img)@) <= 1
                ==> final(self).spec_data().sel_byte(final(img)@) <= 1,
    {
        if self.data.modified() {
            let _ = self.data.select(img)?;
        }
        let ghost img0 = img@;
        let ghost self0 = *self;
        let count = self.pending.len();
        let store = self.hash_store;
        proof {
            store.lemma_bounded();
        }
        let mut b: usize = 0;
        while b < count
            invariant
                self.wf(img@.len()),
                img@.len() == img0.len(),
                count == self.block_count(),
                store == self.spec_hash_store(),
                self.spec_data() == self0.spec_data(),
                self.spec_hash_store() == self0.spec_hash_store(),
                self.spec_block_len() == self0.spec_block_len(),
                self.spec_len() == self0.spec_len(),
                self0.wf(img0.len()),
                store.spec_len() <= usize::MAX,
                store.spec_offset() + store.spec_len() <= img0.len(),
                b <= count,
                forall|i: int| 0 <= i < img0.len() && !store.covers(i) ==> img@[i] == img0[i],
                forall|c: int|
                    0 <= c < count ==> #[trigger] self.expected_hash(img@, c)
                        == self0.expected_hash(img0, c),
                forall|c: int|
                    0 <= c < count ==> #[trigger] self.spec_pending(c) == if c < b {
                        None
                    } else {
                        self0.spec_pending(c)
                    },
            decreases count - b,
        {
            assert(b * 32 + 32 <= count * 32);
            let ghost before = img@;
            let ghost s0 = *self;
            if let Some(h) = &self.pending[b] {
                let h2 = h.clone();
                assert(self.spec_pending(b as int) == Some(h2@));
                let _ = store.write(img, b * 32, &h2);
                proof {
                    lemma_splice(before, store.spec_offset() + b * 32, h2@);
                }
            }
            let ghost before_set = *self;
            self.pending.set(b, None);
            proof {
                assert forall|c: int| 0 <= c < count && c != b implies #[trigger] self.spec_pending(c)
                    == before_set.spec_pending(c) by {
                    assert(self.pending@[c] == before_set.pending@[c]);
                }
                assert(self.spec_pending(b as int) is None);
                assert forall|c: int| 0 <= c < count implies #[trigger] self.expected_hash(img@, c)
                    == self0.expected_hash(img0, c) by {
                    assert(s0.expected_hash(before, c) == self0.expected_hash(img0, c));
                    let slot = store.view_of(img@).subrange(c * 32, c * 32 + 32);
                    let slot0 = store.view_of(before).subrange(c * 32, c * 32 + 32);
                    if c == b {
                        if let Some(h) = s0.spec_pending(c) {
                            assert(slot =~= h);
                        } else {
                            assert(slot =~= slot0);
                        }
                    } else {
                        assert(slot =~= slot0);
                        assert(self.spec_pending(c) == s0.spec_pending(c));
                    }
                }
            }
            b = b + 1;
        }
        let ghost img1 = img@;
        let ghost s1 = *self;
        let _ = self.data.commit(img);
        proof {
            let d = self0.spec_data();
            d.lemma_layout();
            assert forall|i: int|
                0 <= i < img0.len() && !store.covers(i) && i != d.spec_selector().spec_offset()
                    implies #[trigger] img@[i] == img0[i] by {
                assert(img1[i] == img0[i]);
            }
            assert(self.spec_data() == d.reopened());
            let so = d.spec_selector().spec_offset();
            assert(!store.covers(so));
            assert(d.sel_byte(img1) == d.sel_byte(img0));
            assert(d.spec_pair(0).view_of(img1) =~= d.spec_pair(0).view_of(img0));
            assert(d.spec_pair(1).view_of(img1) =~= d.spec_pair(1).view_of(img0));
            d.lemma_pair_index(d.active(img1));
            d.reopened().lemma_pair_index(d.reopened().active(img@));
            assert(d.view_of(img1) == d.view_of(img0));
            if d.spec_modified() {
                assert(d.spec_pair(0).view_of(img@) =~= d.spec_pair(0).view_of(img1));
                assert(d.spec_pair(1).view_of(img@) =~= d.spec_pair(1).view_of(img1));
                assert(img@[so] == 1 - d.sel_byte(img1));
            }
            assert(d.reopened().view_of(img@) == d.view_of(img1));
            assert(!store.covers(so));
            assert(d.sel_byte(img0) <= 1 ==> d.reopened().sel_byte(img@) <= 1);
            assert(self.view_of(img@) == self0.view_of(img0));
            assert(self.spec_data().wf(img@.len()));
            assert(self.spec_data().separated());
            assert(self.spec_hash_store().disjoint(&self.spec_data().spec_selector()));
            assert(self.spec_hash_store().disjoint(&self.spec_data().spec_pair(0)));
            assert(self.spec_hash_store().disjoint(&self.spec_data().spec_pair(1)));
            assert(self.spec_pending_len() == self.block_count());
            assert forall|c: int| 0 <= c < self.block_count() implies (#[trigger] self.spec_pending(c) matches Some(h) ==> h.len()
                == 32) by {
                assert(self.spec_pending(c) == s1.spec_pending(c));
            }
            assert forall|c: int| 0 <= c < count implies #[trigger] self.expected_hash(img@, c)
                == self0.expected_hash(img0, c) by {
                assert(store.view_of(img@) =~= store.view_of(img1));
                assert(s1.expected_hash(img1, c) == self0.expected_hash(img0, c));
                assert(self.spec_pending(c) == s1.spec_pending(c));
            }
            assert forall|c: int| 0 <= c < count implies #[trigger] self.spec_pending(c) is None
                && self.expected_hash(img@, c) == self0.expected_hash(img0, c) by {
                assert(self.spec_pending(c) == s1.spec_pending(c));
            }
        }
        Ok(())
    }

    /// Crash consistency: a write that is not committed leaves what a level
    /// rebuilt over the image reads, the committed copy and the stored
    /// digests, as they were.
    pub proof fn lemma_uncommitted_write_invisible(&self, img: Seq<u8>, pos: int, d: Seq<u8>)
        requires
            self.wf(img.len()),
            self.spec_data().sel_byte(img) <= 1,
            0 <= pos,
            pos + d.len() <= self.spec_len(),
        ensures
            ({
                let after = self.spec_data().write_effect(img, pos, d);
                &&& self.spec_data().reopened().view_of(after) == self.spec_data().committed_of(img)
                &&& self.spec_hash_store().view_of(after) == self.spec_hash_store().view_of(img)
            }),
    {
        let data = self.spec_data();
        data.lemma_write(img, pos, d);
        data.lemma_layout();
        data.lemma_uncommitted_writes_lost(img, seq![(pos, d)], data.reopened());
        let after = data.write_effect(img, pos, d);
        assert(data.writes_effect(img, seq![(pos, d)]) == data.written().writes_effect(
            after,
            seq![(pos, d)].drop_first(),
        ));
        assert(seq![(pos, d)].drop_first().len() == 0);
        let store = self.spec_hash_store();
        let cur = data.spec_pair(1 - data.sel_byte(img));
        data.lemma_pair_index(1 - data.sel_byte(img));
        if data.spec_modified() {
            lemma_splice(img, cur.spec_offset() + pos, d);
        } else {
            lemma_splice(img, cur.spec_offset(), splice(data.view_of(img), pos, d));
            data.lemma_pair_index(data.active(img));
            lemma_splice(data.view_of(img), pos, d);
        }
        assert(store.view_of(after) =~= store.view_of(img));
    }
}

} // verus!
