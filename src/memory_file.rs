use crate::error::Error;
use vstd::prelude::*;

verus! {

/// `s` with the bytes from `pos` on replaced by `d`.
pub open spec fn splice(s: Seq<u8>, pos: int, d: Seq<u8>) -> Seq<u8> {
    s.subrange(0, pos) + d + s.subrange(pos + d.len(), s.len() as int)
}

/// A splice keeps the length, puts `d` at `pos` and leaves every other byte.
pub proof fn lemma_splice(s: Seq<u8>, pos: int, d: Seq<u8>)
    requires
        0 <= pos,
        pos + d.len() <= s.len(),
    ensures
        splice(s, pos, d).len() == s.len(),
        splice(s, pos, d).subrange(pos, pos + d.len()) == d,
        forall|i: int| 0 <= i < d.len() ==> #[trigger] splice(s, pos, d)[pos + i] == d[i],
        forall|i: int|
            0 <= i < s.len() && !(pos <= i < pos + d.len()) ==> #[trigger] splice(s, pos, d)[i]
                == s[i],
{
    assert(splice(s, pos, d).subrange(pos, pos + d.len()) =~= d);
}

/// Applies each `(pos, bytes)` write in order.
pub open spec fn splices(s: Seq<u8>, ws: Seq<(int, Seq<u8>)>) -> Seq<u8>
    decreases ws.len(),
{
    if ws.len() == 0 {
        s
    } else {
        splices(splice(s, ws[0].0, ws[0].1), ws.drop_first())
    }
}

/// Each write lies inside a region of `len` bytes.
pub open spec fn writes_in_bounds(ws: Seq<(int, Seq<u8>)>, len: int) -> bool {
    forall|k: int| 0 <= k < ws.len() ==> 0 <= #[trigger] ws[k].0 && ws[k].0 + ws[k].1.len() <= len
}

/// No two writes touch a common byte.
pub open spec fn writes_disjoint(ws: Seq<(int, Seq<u8>)>) -> bool {
    forall|j: int, k: int|
        0 <= j < ws.len() && 0 <= k < ws.len() && j != k ==> #[trigger] ws[j].0 + ws[j].1.len()
            <= #[trigger] ws[k].0 || ws[k].0 + ws[k].1.len() <= ws[j].0
}

/// Writes to separate ranges: reading back any one range gives what was last
/// written there, whatever else was written around it.
pub proof fn lemma_splices_read_back(s: Seq<u8>, ws: Seq<(int, Seq<u8>)>, k: int)
    requires
        writes_in_bounds(ws, s.len() as int),
        writes_disjoint(ws),
        0 <= k < ws.len(),
    ensures
        splices(s, ws).len() == s.len(),
        splices(s, ws).subrange(ws[k].0, ws[k].0 + ws[k].1.len()) == ws[k].1,
    decreases ws.len(),
{
    let (p, d) = ws[0];
    lemma_splice(s, p, d);
    let s1 = splice(s, p, d);
    let rest = ws.drop_first();
    assert(writes_in_bounds(rest, s1.len() as int)) by {
        assert forall|m: int| 0 <= m < rest.len() implies 0 <= #[trigger] rest[m].0 && rest[m].0
            + rest[m].1.len() <= s1.len() by {
            assert(rest[m] == ws[m + 1]);
        }
    }
    assert(writes_disjoint(rest)) by {
        assert forall|j: int, m: int|
            0 <= j < rest.len() && 0 <= m < rest.len() && j != m implies #[trigger] rest[j].0
            + rest[j].1.len() <= #[trigger] rest[m].0 || rest[m].0 + rest[m].1.len() <= rest[j].0 by {
            assert(rest[j] == ws[j + 1]);
            assert(rest[m] == ws[m + 1]);
        }
    }
    if rest.len() > 0 {
        lemma_splices_len(s1, rest);
        lemma_splices_keeps(s1, rest, if k == 0 { p } else { 0 }, if k == 0 { d.len() as int } else { 0 });
        if k > 0 {
            assert(rest[k - 1] == ws[k]);
            lemma_splices_read_back(s1, rest, k - 1);
        } else {
            assert(splices(s, ws).subrange(p, p + d.len()) =~= d);
        }
    } else {
        assert(splices(s, ws) == s1);
    }
}

/// Applying writes keeps the length.
pub proof fn lemma_splices_len(s: Seq<u8>, ws: Seq<(int, Seq<u8>)>)
    requires
        writes_in_bounds(ws, s.len() as int),
    ensures
        splices(s, ws).len() == s.len(),
    decreases ws.len(),
{
    if ws.len() > 0 {
        lemma_splice(s, ws[0].0, ws[0].1);
        let rest = ws.drop_first();
        assert(writes_in_bounds(rest, s.len() as int)) by {
            assert forall|m: int| 0 <= m < rest.len() implies 0 <= #[trigger] rest[m].0 && rest[m].0
                + rest[m].1.len() <= s.len() by {
                assert(rest[m] == ws[m + 1]);
            }
        }
        lemma_splices_len(splice(s, ws[0].0, ws[0].1), rest);
    }
}

/// Applying writes leaves alone a range `[p, p + n)` that none of them touches.
pub proof fn lemma_splices_keeps(s: Seq<u8>, ws: Seq<(int, Seq<u8>)>, p: int, n: int)
    requires
        writes_in_bounds(ws, s.len() as int),
        0 <= p,
        0 <= n,
        p + n <= s.len(),
        forall|k: int|
            0 <= k < ws.len() ==> #[trigger] ws[k].0 + ws[k].1.len() <= p || p + n <= ws[k].0,
    ensures
        splices(s, ws).len() == s.len(),
        splices(s, ws).subrange(p, p + n) == s.subrange(p, p + n),
    decreases ws.len(),
{
    lemma_splices_len(s, ws);
    if ws.len() > 0 {
        let (q, d) = ws[0];
        lemma_splice(s, q, d);
        let s1 = splice(s, q, d);
        let rest = ws.drop_first();
        assert(writes_in_bounds(rest, s1.len() as int)) by {
            assert forall|m: int| 0 <= m < rest.len() implies 0 <= #[trigger] rest[m].0 && rest[m].0
                + rest[m].1.len() <= s1.len() by {
                assert(rest[m] == ws[m + 1]);
            }
        }
        assert forall|k: int| 0 <= k < rest.len() implies #[trigger] rest[k].0 + rest[k].1.len()
            <= p || p + n <= rest[k].0 by {
            assert(rest[k] == ws[k + 1]);
        }
        assert(ws[0].0 + ws[0].1.len() <= p || p + n <= ws[0].0);
        lemma_splices_keeps(s1, rest, p, n);
        assert(s1.subrange(p, p + n) =~= s.subrange(p, p + n));
    }
}

/// A leaf backing store: a fixed-length byte buffer held in memory.
pub struct MemoryFile {
    data: Vec<u8>,
}

impl View for MemoryFile {
    type V = Seq<u8>;

    open spec fn view(&self) -> Seq<u8> {
        self.spec_data()
    }
}

impl MemoryFile {
    pub closed spec fn spec_data(&self) -> Seq<u8> {
        self.data@
    }

    pub fn new(data: Vec<u8>) -> (r: MemoryFile)
        ensures
            r@ == data@,
    {
        MemoryFile { data }
    }

    pub fn len(&self) -> (r: usize)
        ensures
            r == self@.len(),
    {
        self.data.len()
    }

    /// Hands out the bytes `[pos, pos + len)`.
    pub fn read(&self, pos: usize, len: usize) -> (r: Result<Vec<u8>, Error>)
        ensures
            pos + len <= self@.len() <==> r.is_ok(),
            r matches Ok(b) ==> b@ == self@.subrange(pos as int, pos + len),
            r matches Err(e) ==> e == Error::OutOfBound,
    {
        if len > self.data.len() || pos > self.data.len() - len {
            return Err(Error::OutOfBound);
        }
        let mut out: Vec<u8> = Vec::with_capacity(len);
        let mut i: usize = 0;
        while i < len
            invariant
                i <= len,
                pos + len <= self.data.len(),
                out@ == self@.subrange(pos as int, pos + i),
            decreases len - i,
        {
            out.push(self.data[pos + i]);
            assert(out@ =~= self@.subrange(pos as int, pos + i + 1));
            i = i + 1;
        }
        Ok(out)
    }

    /// Overwrites the bytes from `pos` on with `buf`; never extends the file.
    pub fn write(&mut self, pos: usize, buf: &[u8]) -> (r: Result<(), Error>)
        ensures
            pos + buf@.len() <= old(self)@.len() <==> r.is_ok(),
            r.is_ok() ==> final(self)@ == splice(old(self)@, pos as int, buf@),
            r.is_err() ==> final(self)@ == old(self)@,
            r matches Err(e) ==> e == Error::OutOfBound,
            final(self)@.len() == old(self)@.len(),
    {
        if buf.len() > self.data.len() || pos > self.data.len() - buf.len() {
            return Err(Error::OutOfBound);
        }
        let ghost before = self@;
        let mut i: usize = 0;
        while i < buf.len()
            invariant
                i <= buf@.len(),
                pos + buf@.len() <= before.len(),
                self.data.len() == before.len(),
                self@ == splice(before, pos as int, buf@.take(i as int)),
            decreases buf@.len() - i,
        {
            self.data.set(pos + i, buf[i]);
            assert(self@ =~= splice(before, pos as int, buf@.take(i + 1)));
            i = i + 1;
        }
        assert(buf@.take(buf@.len() as int) =~= buf@);
        Ok(())
    }

    /// A memory buffer has nothing to publish.
    pub fn commit(&self) -> (r: Result<(), Error>)
        ensures
            r.is_ok(),
    {
        Ok(())
    }
}

} // verus!
