use crate::error::Error;
use crate::ivfc_level::same_bytes;
use crate::memory_file::{lemma_splice, splice, MemoryFile};
use crate::sub_file::SubFile;
use vstd::prelude::*;

verus! {

/// Computes the 16-byte authentication tag of a payload (AES-CMAC in the
/// save format); implemented by the caller that holds the key material.
/// Nothing is assumed of the tag it returns.
pub trait Signer {
    fn hash(&self, key: &[u8; 16], data: &[u8]) -> [u8; 16];
}

/// Whether a computed tag equals the stored one.
pub fn tag_matches(computed: &[u8; 16], stored: &[u8]) -> (r: bool)
    ensures
        r == (computed@ == stored@),
{
    same_bytes(computed, stored)
}

/// A payload window authenticated by a 16-byte tag window.
pub struct SignedFile<S: Signer> {
    tag: SubFile,
    body: SubFile,
    signer: S,
    key: [u8; 16],
    dirty: bool,
}

impl<S: Signer> SignedFile<S> {
    pub closed spec fn spec_tag(&self) -> SubFile {
        self.tag
    }

    pub closed spec fn spec_body(&self) -> SubFile {
        self.body
    }

    pub closed spec fn spec_signer(&self) -> S {
        self.signer
    }

    pub closed spec fn spec_key(&self) -> Seq<u8> {
        self.key@
    }

    pub closed spec fn spec_dirty(&self) -> bool {
        self.dirty
    }

    pub open spec fn wf(&self, img_len: nat) -> bool {
        &&& self.spec_tag().within(img_len)
        &&& self.spec_body().within(img_len)
        &&& self.spec_tag().spec_len() == 16
    }

    /// What reads see: the body.
    pub open spec fn view_of(&self, img: Seq<u8>) -> Seq<u8> {
        self.spec_body().view_of(img)
    }

    /// Builds the layer without checking the tag, for a payload that is about to be written.
    pub fn new_unverified(tag: SubFile, body: SubFile, signer: S, key: [u8; 16]) -> (r: Result<
        SignedFile<S>,
        Error,
    >)
        ensures
            tag.spec_len() == 16 <==> r.is_ok(),
            r matches Err(e) ==> e == Error::SizeMismatch,
            r matches Ok(f) ==> f.spec_tag() == tag && f.spec_body() == body && !f.spec_dirty()
                && f.spec_signer() == signer && f.spec_key() == key@,
    {
        if tag.len() != 16 {
            return Err(Error::SizeMismatch);
        }
        Ok(SignedFile { tag, body, signer, key, dirty: false })
    }

    /// Builds the layer, checking that the tag window holds the body's tag.
    pub fn new(img: &MemoryFile, tag: SubFile, body: SubFile, signer: S, key: [u8; 16]) -> (r:
        Result<SignedFile<S>, Error>)
        requires
            tag.within(img@.len()),
            body.within(img@.len()),
        ensures
            tag.spec_len() != 16 ==> r == Err::<SignedFile<S>, Error>(Error::SizeMismatch),
            r matches Err(e) ==> (e == Error::SizeMismatch <==> tag.spec_len() != 16),
            r matches Err(e) ==> e == Error::SizeMismatch || e == Error::SignatureMismatch,
            r matches Ok(f) ==> f.spec_tag() == tag && f.spec_body() == body && !f.spec_dirty()
                && f.spec_key() == key@,
    {
        let f = SignedFile::new_unverified(tag, body, signer, key)?;
        let payload = body.read(img, 0, body.len()).unwrap();
        let want = f.signer.hash(&f.key, payload.as_slice());
        let got = tag.read(img, 0, 16).unwrap();
        if !tag_matches(&want, got.as_slice()) {
            return Err(Error::SignatureMismatch);
        }
        Ok(f)
    }

    pub fn read(&self, img: &MemoryFile, pos: usize, len: usize) -> (r: Result<Vec<u8>, Error>)
        requires
            self.wf(img@.len()),
        ensures
            pos + len <= self.spec_body().spec_len() <==> r.is_ok(),
            r matches Ok(b) ==> b@ == self.view_of(img@).subrange(pos as int, pos + len),
            r matches Err(e) ==> e == Error::OutOfBound,
    {
        self.body.read(img, pos, len)
    }

    /// Writes to the body; the tag is brought up to date by `commit`.
    pub fn write(&mut self, img: &mut MemoryFile, pos: usize, buf: &[u8]) -> (r: Result<(), Error>)
        requires
            old(self).wf(old(img)@.len()),
        ensures
            pos + buf@.len() <= old(self).spec_body().spec_len() <==> r.is_ok(),
            r.is_ok() ==> final(img)@ == splice(
                old(img)@,
                old(self).spec_body().spec_offset() + pos,
                buf@,
            ) && final(self).spec_dirty(),
            r.is_err() ==> final(img)@ == old(img)@ && final(self).spec_dirty() == old(self).spec_dirty(),
            r matches Err(e) ==> e == Error::OutOfBound,
            final(self).spec_tag() == old(self).spec_tag(),
            final(self).spec_body() == old(self).spec_body(),
            final(self).wf(final(img)@.len()),
    {
        let r = self.body.write(img, pos, buf);
        if r.is_ok() {
            self.dirty = true;
        }
        r
    }

    /// Records that the body was changed through another window over it.
    pub fn touch(&mut self)
        ensures
            final(self).spec_dirty(),
            final(self).spec_tag() == old(self).spec_tag(),
            final(self).spec_body() == old(self).spec_body(),
            final(self).spec_signer() == old(self).spec_signer(),
            final(self).spec_key() == old(self).spec_key(),
    {
        self.dirty = true;
    }

    /// Recomputes the tag over the body if it was written, and stores it.
    pub fn commit(&mut self, img: &mut MemoryFile) -> (r: Result<(), Error>)
        requires
            old(self).wf(old(img)@.len()),
            old(self).spec_tag().disjoint(&old(self).spec_body()),
        ensures
            r.is_ok(),
            !final(self).spec_dirty(),
            final(self).spec_tag() == old(self).spec_tag(),
            final(self).spec_body() == old(self).spec_body(),
            final(self).spec_signer() == old(self).spec_signer(),
            final(self).spec_key() == old(self).spec_key(),
            final(self).wf(final(img)@.len()),
            final(img)@.len() == old(img)@.len(),
            !old(self).spec_dirty() ==> final(img)@ == old(img)@,
            forall|i: int|
                0 <= i < old(img)@.len() && !old(self).spec_tag().covers(i)
                    ==> #[trigger] final(img)@[i] == old(img)@[i],
            final(self).view_of(final(img)@) == old(self).view_of(old(img)@),
    {
        if self.dirty {
            let ghost img0 = img@;
            let payload = self.body.read(img, 0, self.body.len()).unwrap();
            let t = self.signer.hash(&self.key, payload.as_slice());
            let _ = self.tag.write(img, 0, &t);
            self.dirty = false;
            proof {
                lemma_splice(img0, self.tag.spec_offset(), t@);
                assert(self.body.view_of(img@) =~= self.body.view_of(img0));
            }
        }
        Ok(())
    }
}

} // verus!
