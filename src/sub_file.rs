use crate::error::Error;
use crate::memory_file::{splice, MemoryFile};
use vstd::prelude::*;

verus! {

/// A window `[offset, offset + len)` into a backing image.
#[derive(Clone, Copy)]
pub struct SubFile {
    offset: usize,
    len: usize,
}

impl SubFile {
    pub closed spec fn spec_offset(&self) -> int {
        self.offset as int
    }

    pub closed spec fn spec_len(&self) -> int {
        self.len as int
    }

    #[verifier::type_invariant]
    spec fn inv(&self) -> bool {
        self.offset + self.len <= usize::MAX
    }

    /// Offset and length are machine integers.
    pub proof fn lemma_bounded(&self)
        ensures
            0 <= self.spec_offset() <= usize::MAX,
            0 <= self.spec_len() <= usize::MAX,
    {
    }

    /// The window lies inside an image of `parent_len` bytes.
    pub open spec fn within(&self, parent_len: nat) -> bool {
        &&& 0 <= self.spec_offset()
        &&& 0 <= self.spec_len()
        &&& self.spec_offset() + self.spec_len() <= parent_len
    }

    /// The bytes of `img` that the window shows.
    pub open spec fn view_of(&self, img: Seq<u8>) -> Seq<u8> {
        img.subrange(self.spec_offset(), self.spec_offset() + self.spec_len())
    }

    /// Whether two windows share no byte.
    pub open spec fn disjoint(&self, other: &SubFile) -> bool {
        self.spec_offset() + self.spec_len() <= other.spec_offset() || other.spec_offset()
            + other.spec_len() <= self.spec_offset()
    }

    /// Whether the byte at `p` of the image lies in the window.
    pub open spec fn covers(&self, p: int) -> bool {
        self.spec_offset() <= p < self.spec_offset() + self.spec_len()
    }

    /// A window over `parent`; fails when it would reach past the parent's end.
    pub fn new(parent: &MemoryFile, offset: usize, len: usize) -> (r: Result<SubFile, Error>)
        ensures
            offset + len <= parent@.len() <==> r.is_ok(),
            r matches Ok(s) ==> s.spec_offset() == offset && s.spec_len() == len,
            r matches Err(e) ==> e == Error::OutOfBound,
    {
        let parent_len = parent.len();
        if len > parent_len || offset > parent_len - len {
            return Err(Error::OutOfBound);
        }
        Ok(SubFile { offset, len })
    }

    /// A window into this window, at `offset` from its start.
    pub fn window(&self, offset: usize, len: usize) -> (r: Result<SubFile, Error>)
        ensures
            offset + len <= self.spec_len() <==> r.is_ok(),
            r matches Ok(s) ==> s.spec_offset() == self.spec_offset() + offset && s.spec_len()
                == len,
            r matches Err(e) ==> e == Error::OutOfBound,
    {
        proof {
            use_type_invariant(self);
        }
        if len > self.len || offset > self.len - len {
            return Err(Error::OutOfBound);
        }
        Ok(SubFile { offset: self.offset + offset, len })
    }

    pub fn offset(&self) -> (r: usize)
        ensures
            r == self.spec_offset(),
    {
        self.offset
    }

    pub fn len(&self) -> (r: usize)
        ensures
            r == self.spec_len(),
    {
        self.len
    }

    /// Reads `len` bytes at `pos` of the window, that is at `offset + pos` of the image.
    pub fn read(&self, img: &MemoryFile, pos: usize, len: usize) -> (r: Result<Vec<u8>, Error>)
        requires
            self.within(img@.len()),
        ensures
            pos + len <= self.spec_len() <==> r.is_ok(),
            r matches Ok(b) ==> b@ == self.view_of(img@).subrange(pos as int, pos + len) && b@
                == img@.subrange(self.spec_offset() + pos, self.spec_offset() + pos + len),
            r matches Err(e) ==> e == Error::OutOfBound,
    {
        if len > self.len || pos > self.len - len {
            return Err(Error::OutOfBound);
        }
        proof {
            use_type_invariant(self);
        }
        let r = img.read(self.offset + pos, len);
        assert(self.view_of(img@).subrange(pos as int, pos + len) =~= img@.subrange(
            self.spec_offset() + pos,
            self.spec_offset() + pos + len,
        ));
        r
    }

    /// Writes `buf` at `pos` of the window, that is at `offset + pos` of the image.
    pub fn write(&self, img: &mut MemoryFile, pos: usize, buf: &[u8]) -> (r: Result<(), Error>)
        requires
            self.within(old(img)@.len()),
        ensures
            pos + buf@.len() <= self.spec_len() <==> r.is_ok(),
            r.is_ok() ==> final(img)@ == splice(old(img)@, self.spec_offset() + pos, buf@),
            r.is_err() ==> final(img)@ == old(img)@,
            r matches Err(e) ==> e == Error::OutOfBound,
            final(img)@.len() == old(img)@.len(),
    {
        if buf.len() > self.len || pos > self.len - buf.len() {
            return Err(Error::OutOfBound);
        }
        proof {
            use_type_invariant(self);
        }
        img.write(self.offset + pos, buf)
    }

    /// A window has nothing of its own to publish.
    pub fn commit(&self) -> (r: Result<(), Error>)
        ensures
            r.is_ok(),
    {
        Ok(())
    }
}

} // verus!
