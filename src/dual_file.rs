use crate::error::Error;
use crate::memory_file::{
    lemma_splice, lemma_splices_read_back, splice, splices, writes_disjoint, writes_in_bounds,
    MemoryFile,
};
use crate::sub_file::SubFile;
use vstd::prelude::*;

verus! {

/// Two copies of a region and a one-byte selector naming the authoritative
/// one. Writes go to the other copy; `commit` flips the selector, so a batch
/// of writes is published by a single byte.
pub struct DualFile {
    selector: SubFile,
    pair: [SubFile; 2],
    modified: bool,
    len: usize,
}

/// `base` with the bytes from `pos` on replaced by `buf`, built in a new buffer.
fn spliced(base: &Vec<u8>, pos: usize, buf: &[u8]) -> (r: Vec<u8>)
    requires
        pos + buf@.len() <= base@.len(),
    ensures
        r@ == splice(base@, pos as int, buf@),
{
    let mut m = MemoryFile::new(base.clone());
    let _ = m.write(pos, buf);
    m.read(0, base.len()).unwrap()
}

/// Whether two windows share no byte.
pub(crate) fn apart(a: &SubFile, b: &SubFile) -> (r: bool)
    ensures
        r == a.disjoint(b),
{
    proof {
        a.lemma_bounded();
        b.lemma_bounded();
    }
    a.offset() as u128 + a.len() as u128 <= b.offset() as u128 || b.offset() as u128
        + b.len() as u128 <= a.offset() as u128
}

impl DualFile {
    pub closed spec fn spec_selector(&self) -> SubFile {
        self.selector
    }

    /// Copy `i`: 0 is the first, any other index the second.
    pub closed spec fn spec_pair(&self, i: int) -> SubFile {
        if i == 0 {
            self.pair[0]
        } else {
            self.pair[1]
        }
    }

    pub closed spec fn spec_modified(&self) -> bool {
        self.modified
    }

    pub closed spec fn spec_len(&self) -> int {
        self.len as int
    }

    /// The same layers after a write: the inactive copy is now the one in use.
    pub closed spec fn written(&self) -> DualFile {
        DualFile { modified: true, ..*self }
    }

    /// The same layers with nothing pending, as after `commit` or a fresh `new`.
    pub closed spec fn reopened(&self) -> DualFile {
        DualFile { modified: false, ..*self }
    }

    /// Every window lies in an image of `img_len` bytes, has its expected
    /// length, and overlaps none of the others.
    pub open spec fn wf(&self, img_len: nat) -> bool {
        &&& self.separated()
        &&& self.spec_selector().spec_len() == 1
        &&& self.spec_selector().within(img_len)
        &&& self.spec_pair(0).within(img_len)
        &&& self.spec_pair(1).within(img_len)
        &&& self.spec_pair(0).spec_len() == self.spec_len()
        &&& self.spec_pair(1).spec_len() == self.spec_len()
    }

    /// No two of the three windows share a byte.
    pub open spec fn separated(&self) -> bool {
        &&& self.spec_selector().disjoint(&self.spec_pair(0))
        &&& self.spec_selector().disjoint(&self.spec_pair(1))
        &&& self.spec_pair(0).disjoint(&self.spec_pair(1))
    }

    /// The selector byte as stored in the image.
    pub open spec fn sel_byte(&self, img: Seq<u8>) -> u8 {
        img[self.spec_selector().spec_offset()]
    }

    /// The copy that reads see: the stored selector, flipped while writes are pending.
    pub open spec fn active(&self, img: Seq<u8>) -> int {
        if self.spec_modified() {
            1 - self.sel_byte(img)
        } else {
            self.sel_byte(img) as int
        }
    }

    /// What reads of this instance see.
    pub open spec fn view_of(&self, img: Seq<u8>) -> Seq<u8> {
        self.spec_pair(self.active(img)).view_of(img)
    }

    /// What a fresh instance over the same image sees: the copy the selector names.
    pub open spec fn committed_of(&self, img: Seq<u8>) -> Seq<u8> {
        self.spec_pair(self.sel_byte(img) as int).view_of(img)
    }

    /// The image after a successful `write(pos, d)`.
    pub open spec fn write_effect(&self, img: Seq<u8>, pos: int, d: Seq<u8>) -> Seq<u8> {
        let cur = self.spec_pair(1 - self.sel_byte(img));
        if self.spec_modified() {
            splice(img, cur.spec_offset() + pos, d)
        } else {
            splice(img, cur.spec_offset(), splice(self.view_of(img), pos, d))
        }
    }

    /// The image after a successful `commit`.
    pub open spec fn commit_effect(&self, img: Seq<u8>) -> Seq<u8> {
        if self.spec_modified() {
            img.update(self.spec_selector().spec_offset(), (1 - self.sel_byte(img)) as u8)
        } else {
            img
        }
    }

    /// Builds the layer; the two copies must have one length, the selector
    /// one byte, and no two of the three windows may overlap.
    pub fn new(selector: SubFile, pair: [SubFile; 2]) -> (r: Result<DualFile, Error>)
        ensures
            (pair[0].spec_len() != pair[1].spec_len() || selector.spec_len() != 1) ==> r == Err::<
                DualFile,
                Error,
            >(Error::SizeMismatch),
            pair[0].spec_len() == pair[1].spec_len() && selector.spec_len() == 1 && !(
            selector.disjoint(&pair[0]) && selector.disjoint(&pair[1]) && pair[0].disjoint(
                &pair[1],
            )) ==> r == Err::<DualFile, Error>(Error::BrokenLayout),
            r.is_ok() <==> (pair[0].spec_len() == pair[1].spec_len() && selector.spec_len() == 1
                && selector.disjoint(&pair[0]) && selector.disjoint(&pair[1]) && pair[0].disjoint(
                &pair[1],
            )),
            r matches Ok(d) ==> d.spec_selector() == selector && d.spec_pair(0) == pair[0]
                && d.spec_pair(1) == pair[1] && !d.spec_modified() && d.spec_len()
                == pair[0].spec_len() && d.separated(),
    {
        let len = pair[0].len();
        if pair[1].len() != len {
            return Err(Error::SizeMismatch);
        }
        if selector.len() != 1 {
            return Err(Error::SizeMismatch);
        }
        if !apart(&selector, &pair[0]) || !apart(&selector, &pair[1]) || !apart(&pair[0], &pair[1]) {
            return Err(Error::BrokenLayout);
        }
        Ok(DualFile { selector, pair, modified: false, len })
    }

    pub fn len(&self) -> (r: usize)
        ensures
            r == self.spec_len(),
    {
        self.len
    }

    pub fn selector_window(&self) -> (r: SubFile)
        ensures
            r == self.spec_selector(),
    {
        self.selector
    }

    pub fn pair_window(&self, i: usize) -> (r: SubFile)
        requires
            i < 2,
        ensures
            r == self.spec_pair(i as int),
    {
        self.pair[i]
    }

    /// Whether writes are pending since the last commit.
    pub fn modified(&self) -> (r: bool)
        ensures
            r == self.spec_modified(),
    {
        self.modified
    }

    /// Whether the selector and the two copies lie apart from each other.
    pub fn is_separated(&self) -> (r: bool)
        ensures
            r == self.separated(),
    {
        let s = &self.selector;
        let a = &self.pair[0];
        let b = &self.pair[1];
        apart(s, a) && apart(s, b) && apart(a, b)
    }

    /// Reads the selector byte; a value other than 0 or 1 is a broken layout.
    pub(crate) fn select(&self, img: &MemoryFile) -> (r: Result<usize, Error>)
        requires
            self.wf(img@.len()),
        ensures
            self.sel_byte(img@) <= 1 <==> r.is_ok(),
            r matches Ok(s) ==> s == self.sel_byte(img@),
            r matches Err(e) ==> e == Error::BrokenLayout,
    {
        let b = self.selector.read(img, 0, 1).unwrap();
        assert(b@[0] == self.sel_byte(img@));
        if b[0] > 1 {
            Err(Error::BrokenLayout)
        } else {
            Ok(b[0] as usize)
        }
    }

    /// Reads `len` bytes at `pos` of the copy in use.
    pub fn read(&self, img: &MemoryFile, pos: usize, len: usize) -> (r: Result<Vec<u8>, Error>)
        requires
            self.wf(img@.len()),
        ensures
            (pos + len <= self.spec_len() && self.sel_byte(img@) <= 1) <==> r.is_ok(),
            pos + len > self.spec_len() ==> r == Err::<Vec<u8>, Error>(Error::OutOfBound),
            pos + len <= self.spec_len() && self.sel_byte(img@) > 1 ==> r == Err::<
                Vec<u8>,
                Error,
            >(Error::BrokenLayout),
            r matches Ok(b) ==> b@ == self.view_of(img@).subrange(pos as int, pos + len),
    {
        if len > self.len || pos > self.len - len {
            return Err(Error::OutOfBound);
        }
        let sel = self.select(img)?;
        let active = if self.modified { 1 - sel } else { sel };
        self.pair[active].read(img, pos, len)
    }

    /// Writes `buf` at `pos`. The first write after a commit fills the inactive
    /// copy with the active one's bytes around `buf`; later writes go straight to it.
    pub fn write(&mut self, img: &mut MemoryFile, pos: usize, buf: &[u8]) -> (r: Result<(), Error>)
        requires
            old(self).wf(old(img)@.len()),
        ensures
            (pos + buf@.len() <= old(self).spec_len() && old(self).sel_byte(old(img)@) <= 1)
                <==> r.is_ok(),
            pos + buf@.len() > old(self).spec_len() ==> r == Err::<(), Error>(Error::OutOfBound),
            pos + buf@.len() <= old(self).spec_len() && old(self).sel_byte(old(img)@) > 1 ==> r
                == Err::<(), Error>(Error::BrokenLayout),
            r.is_ok() ==> final(img)@ == old(self).write_effect(old(img)@, pos as int, buf@)
                && *final(self) == old(self).written(),
            r.is_err() ==> final(img)@ == old(img)@ && *final(self) == *old(self),
            r.is_ok() ==> final(self).view_of(final(img)@) == splice(
                old(self).view_of(old(img)@),
                pos as int,
                buf@,
            ),
            final(img)@.len() == old(img)@.len(),
            final(self).wf(final(img)@.len()),
    {
        if buf.len() > self.len || pos > self.len - buf.len() {
            return Err(Error::OutOfBound);
        }
        let prev = self.select(img)?;
        let cur = 1 - prev;
        let ghost img0 = img@;
        if self.modified {
            let _ = self.pair[cur].write(img, pos, buf);
            proof {
                let c = self.spec_pair(cur as int);
                lemma_splice(img0, c.spec_offset() + pos, buf@);
                assert(self.sel_byte(img@) == self.sel_byte(img0));
                assert(self.view_of(img@) =~= splice(self.view_of(img0), pos as int, buf@));
            }
        } else {
            let whole = self.pair[prev].read(img, 0, self.len).unwrap();
            let fresh = spliced(&whole, pos, buf);
            let _ = self.pair[cur].write(img, 0, &fresh);
            self.modified = true;
            proof {
                let c = self.spec_pair(cur as int);
                lemma_splice(img0, c.spec_offset(), fresh@);
                assert(self.sel_byte(img@) == self.sel_byte(img0));
                assert(self.view_of(img@) =~= fresh@);
            }
        }
        Ok(())
    }

    /// Publishes pending writes by flipping the selector byte.
    pub fn commit(&mut self, img: &mut MemoryFile) -> (r: Result<(), Error>)
        requires
            old(self).wf(old(img)@.len()),
        ensures
            (!old(self).spec_modified() || old(self).sel_byte(old(img)@) <= 1) <==> r.is_ok(),
            r matches Err(e) ==> e == Error::BrokenLayout,
            r.is_ok() ==> final(img)@ == old(self).commit_effect(old(img)@) && *final(self)
                == old(self).reopened(),
            r.is_err() ==> final(img)@ == old(img)@ && *final(self) == *old(self),
            final(img)@.len() == old(img)@.len(),
            final(self).wf(final(img)@.len()),
    {
        if self.modified {
            let sel = self.select(img)?;
            let flipped: [u8; 1] = [(1 - sel) as u8];
            let _ = self.selector.write(img, 0, &flipped);
            self.modified = false;
            proof {
                lemma_splice(old(img)@, self.spec_selector().spec_offset(), flipped@);
                assert(img@ =~= old(img)@.update(
                    self.spec_selector().spec_offset(),
                    (1 - sel) as u8,
                ));
            }
        }
        Ok(())
    }
}


impl DualFile {
    /// The image after each `(pos, bytes)` write in turn, with no commit.
    pub open spec fn writes_effect(&self, img: Seq<u8>, ws: Seq<(int, Seq<u8>)>) -> Seq<u8>
        decreases ws.len(),
    {
        if ws.len() == 0 {
            img
        } else {
            self.written().writes_effect(self.write_effect(img, ws[0].0, ws[0].1), ws.drop_first())
        }
    }

    /// The layer's state after the writes `ws`.
    pub open spec fn after_writes(&self, ws: Seq<(int, Seq<u8>)>) -> DualFile {
        if ws.len() == 0 {
            *self
        } else {
            self.written()
        }
    }

    /// Any index other than 0 names the second copy.
    pub proof fn lemma_pair_index(&self, i: int)
        ensures
            self.spec_pair(i) == if i == 0 {
                self.spec_pair(0)
            } else {
                self.spec_pair(1)
            },
    {
    }

    /// Writing and committing change only the pending flag.
    pub proof fn lemma_layout(&self)
        ensures
            self.written().spec_selector() == self.spec_selector(),
            self.written().spec_pair(0) == self.spec_pair(0),
            self.written().spec_pair(1) == self.spec_pair(1),
            self.written().spec_len() == self.spec_len(),
            self.written().spec_modified(),
            self.reopened().spec_selector() == self.spec_selector(),
            self.reopened().spec_pair(0) == self.spec_pair(0),
            self.reopened().spec_pair(1) == self.spec_pair(1),
            self.reopened().spec_len() == self.spec_len(),
            !self.reopened().spec_modified(),
            !self.spec_modified() ==> self.reopened() == *self,
    {
    }

    /// One write: it lands in the copy in use and leaves the selector and the
    /// committed copy as they were.
    pub proof fn lemma_write(&self, img: Seq<u8>, pos: int, d: Seq<u8>)
        requires
            self.wf(img.len()),
            self.sel_byte(img) <= 1,
            0 <= pos,
            pos + d.len() <= self.spec_len(),
        ensures
            self.write_effect(img, pos, d).len() == img.len(),
            self.sel_byte(self.write_effect(img, pos, d)) == self.sel_byte(img),
            self.committed_of(self.write_effect(img, pos, d)) == self.committed_of(img),
            self.written().view_of(self.write_effect(img, pos, d)) == splice(
                self.view_of(img),
                pos,
                d,
            ),
            self.written().wf(img.len()),
            self.written().separated(),
            self.written().written() == self.written(),
            self.written().reopened() == self.reopened(),
    {
        let cur = self.spec_pair(1 - self.sel_byte(img));
        let img2 = self.write_effect(img, pos, d);
        let sel_off = self.spec_selector().spec_offset();
        if self.spec_modified() {
            lemma_splice(img, cur.spec_offset() + pos, d);
            assert(img2[sel_off] == img[sel_off]);
            assert(self.written().view_of(img2) =~= splice(self.view_of(img), pos, d));
        } else {
            let fresh = splice(self.view_of(img), pos, d);
            lemma_splice(self.view_of(img), pos, d);
            lemma_splice(img, cur.spec_offset(), fresh);
            assert(img2[sel_off] == img[sel_off]);
            assert(self.written().view_of(img2) =~= fresh);
        }
        assert(self.committed_of(img2) =~= self.committed_of(img));
    }

    /// Read-your-write: after writes to separate ranges, each range reads back
    /// as the bytes last written to it.
    pub proof fn lemma_read_your_writes(&self, img: Seq<u8>, ws: Seq<(int, Seq<u8>)>, k: int)
        requires
            self.wf(img.len()),
            self.sel_byte(img) <= 1,
            writes_in_bounds(ws, self.spec_len()),
            writes_disjoint(ws),
            0 <= k < ws.len(),
        ensures
            self.after_writes(ws).view_of(self.writes_effect(img, ws)).subrange(
                ws[k].0,
                ws[k].0 + ws[k].1.len(),
            ) == ws[k].1,
    {
        self.lemma_writes_view(img, ws);
        assert(self.view_of(img).len() == self.spec_len());
        lemma_splices_read_back(self.view_of(img), ws, k);
    }

    /// A run of writes shows through reads as the same writes applied to the view.
    pub proof fn lemma_writes_view(&self, img: Seq<u8>, ws: Seq<(int, Seq<u8>)>)
        requires
            self.wf(img.len()),
            self.sel_byte(img) <= 1,
            writes_in_bounds(ws, self.spec_len()),
        ensures
            self.after_writes(ws).view_of(self.writes_effect(img, ws)) == splices(
                self.view_of(img),
                ws,
            ),
            self.writes_effect(img, ws).len() == img.len(),
            self.sel_byte(self.writes_effect(img, ws)) == self.sel_byte(img),
            self.committed_of(self.writes_effect(img, ws)) == self.committed_of(img),
        decreases ws.len(),
    {
        if ws.len() > 0 {
            let (p, d) = ws[0];
            self.lemma_write(img, p, d);
            let w = self.written();
            let img1 = self.write_effect(img, p, d);
            let rest = ws.drop_first();
            assert(writes_in_bounds(rest, w.spec_len())) by {
                assert forall|m: int| 0 <= m < rest.len() implies 0 <= #[trigger] rest[m].0
                    && rest[m].0 + rest[m].1.len() <= w.spec_len() by {
                    assert(rest[m] == ws[m + 1]);
                }
            }
            w.lemma_writes_view(img1, rest);
            if rest.len() > 0 {
                assert(w.after_writes(rest) == w);
            } else {
                assert(w.writes_effect(img1, rest) == img1);
            }
            assert(w.committed_of(img1) == self.committed_of(img1));
        }
    }

    /// Crash consistency: whatever was written without a commit, a layer
    /// rebuilt over the image sees the previously committed bytes.
    /// `rebuilt` is any layer made by `new` over the same windows, for
    /// instance after a crash; right after a commit, or a fresh `new`, the
    /// committed bytes are the ones reads saw.
    pub proof fn lemma_uncommitted_writes_lost(
        &self,
        img: Seq<u8>,
        ws: Seq<(int, Seq<u8>)>,
        rebuilt: DualFile,
    )
        requires
            self.wf(img.len()),
            self.sel_byte(img) <= 1,
            writes_in_bounds(ws, self.spec_len()),
            rebuilt.spec_selector() == self.spec_selector(),
            rebuilt.spec_pair(0) == self.spec_pair(0),
            rebuilt.spec_pair(1) == self.spec_pair(1),
            !rebuilt.spec_modified(),
        ensures
            self.reopened().view_of(self.writes_effect(img, ws)) == self.committed_of(img),
            rebuilt.view_of(self.writes_effect(img, ws)) == self.committed_of(img),
            !self.spec_modified() ==> self.committed_of(img) == self.view_of(img),
    {
        self.lemma_writes_view(img, ws);
        self.lemma_layout();
        let after = self.writes_effect(img, ws);
        rebuilt.lemma_pair_index(rebuilt.active(after));
        self.reopened().lemma_pair_index(self.reopened().active(after));
    }

    /// After `write` and `commit`, a layer rebuilt over the image sees the write.
    pub proof fn lemma_committed_write_persists(&self, img: Seq<u8>, pos: int, d: Seq<u8>)
        requires
            self.wf(img.len()),
            self.sel_byte(img) <= 1,
            0 <= pos,
            pos + d.len() <= self.spec_len(),
        ensures
            self.reopened().view_of(self.written().commit_effect(self.write_effect(img, pos, d)))
                == splice(self.view_of(img), pos, d),
    {
        self.lemma_write(img, pos, d);
        let img1 = self.write_effect(img, pos, d);
        let img2 = self.written().commit_effect(img1);
        let sel_off = self.spec_selector().spec_offset();
        assert(self.reopened().view_of(img2) =~= self.written().view_of(img1)) by {
            assert(img2[sel_off] == 1 - self.sel_byte(img));
            let c = self.spec_pair(1 - self.sel_byte(img));
            assert(c.view_of(img2) =~= c.view_of(img1));
        }
    }

    /// Commit is idempotent: a second commit changes neither the image nor the state.
    pub proof fn lemma_commit_idempotent(&self, img: Seq<u8>)
        ensures
            self.reopened().commit_effect(self.commit_effect(img)) == self.commit_effect(img),
            self.reopened().reopened() == self.reopened(),
    {
    }

    /// The state and image after `ops`, where `Some((pos, bytes))` is a
    /// successful write and `None` a successful commit.
    pub open spec fn run(&self, img: Seq<u8>, ops: Seq<Option<(int, Seq<u8>)>>) -> (DualFile, Seq<u8>)
        decreases ops.len(),
    {
        if ops.len() == 0 {
            (*self, img)
        } else {
            match ops[0] {
                Some(w) => self.written().run(self.write_effect(img, w.0, w.1), ops.drop_first()),
                None => self.reopened().run(self.commit_effect(img), ops.drop_first()),
            }
        }
    }

    /// A commit keeps what reads see.
    pub proof fn lemma_commit_keeps_view(&self, img: Seq<u8>)
        requires
            self.wf(img.len()),
            self.sel_byte(img) <= 1,
        ensures
            self.commit_effect(img).len() == img.len(),
            self.reopened().view_of(self.commit_effect(img)) == self.view_of(img),
            self.reopened().sel_byte(self.commit_effect(img)) <= 1,
            self.reopened().wf(img.len()),
    {
        self.lemma_layout();
        let img2 = self.commit_effect(img);
        self.lemma_pair_index(self.active(img));
        self.reopened().lemma_pair_index(self.reopened().active(img2));
        assert(self.spec_pair(0).view_of(img2) =~= self.spec_pair(0).view_of(img));
        assert(self.spec_pair(1).view_of(img2) =~= self.spec_pair(1).view_of(img));
    }

    /// Any interleaving of writes and commits shows through reads as the
    /// writes applied in order to the view.
    pub proof fn lemma_run_view(&self, img: Seq<u8>, ops: Seq<Option<(int, Seq<u8>)>>)
        requires
            self.wf(img.len()),
            self.sel_byte(img) <= 1,
            writes_in_bounds(writes_of(ops), self.spec_len()),
        ensures
            self.run(img, ops).1.len() == img.len(),
            self.run(img, ops).0.wf(img.len()),
            self.run(img, ops).0.sel_byte(self.run(img, ops).1) <= 1,
            self.run(img, ops).0.spec_len() == self.spec_len(),
            self.run(img, ops).0.view_of(self.run(img, ops).1) == splices(
                self.view_of(img),
                writes_of(ops),
            ),
        decreases ops.len(),
    {
        if ops.len() > 0 {
            let rest = ops.drop_first();
            self.lemma_layout();
            match ops[0] {
                Some(w) => {
                    assert(writes_of(ops) =~= seq![w] + writes_of(rest));
                    assert(writes_of(ops)[0] == w);
                    self.lemma_write(img, w.0, w.1);
                    assert(writes_in_bounds(writes_of(rest), self.spec_len())) by {
                        assert forall|m: int| 0 <= m < writes_of(rest).len() implies 0
                            <= #[trigger] writes_of(rest)[m].0 && writes_of(rest)[m].0
                            + writes_of(rest)[m].1.len() <= self.spec_len() by {
                            assert(writes_of(rest)[m] == writes_of(ops)[m + 1]);
                        }
                    }
                    self.written().lemma_run_view(self.write_effect(img, w.0, w.1), rest);
                    assert(writes_of(ops).drop_first() =~= writes_of(rest));
                },
                None => {
                    assert(writes_of(ops) == writes_of(rest));
                    self.lemma_commit_keeps_view(img);
                    self.reopened().lemma_run_view(self.commit_effect(img), rest);
                },
            }
        }
    }

    /// Read-your-write across commits: after writes to separate ranges, with
    /// commits anywhere between them, every byte of a written range reads as
    /// the byte last written there.
    pub proof fn lemma_read_your_writes_across_commits(
        &self,
        img: Seq<u8>,
        ops: Seq<Option<(int, Seq<u8>)>>,
        k: int,
        q: int,
    )
        requires
            self.wf(img.len()),
            self.sel_byte(img) <= 1,
            writes_in_bounds(writes_of(ops), self.spec_len()),
            writes_disjoint(writes_of(ops)),
            0 <= k < writes_of(ops).len(),
            writes_of(ops)[k].0 <= q < writes_of(ops)[k].0 + writes_of(ops)[k].1.len(),
        ensures
            self.run(img, ops).0.view_of(self.run(img, ops).1)[q] == writes_of(ops)[k].1[q
                - writes_of(ops)[k].0],
    {
        self.lemma_run_view(img, ops);
        self.lemma_pair_index(self.active(img));
        lemma_splices_read_back(self.view_of(img), writes_of(ops), k);
        let w = writes_of(ops)[k];
        assert(splices(self.view_of(img), writes_of(ops)).subrange(w.0, w.0 + w.1.len())[q - w.0]
            == splices(self.view_of(img), writes_of(ops))[q]);
    }
}

/// The writes among `ops`, in order.
pub open spec fn writes_of(ops: Seq<Option<(int, Seq<u8>)>>) -> Seq<(int, Seq<u8>)>
    decreases ops.len(),
{
    if ops.len() == 0 {
        Seq::empty()
    } else {
        match ops[0] {
            Some(w) => seq![w] + writes_of(ops.drop_first()),
            None => writes_of(ops.drop_first()),
        }
    }
}

} // verus!
