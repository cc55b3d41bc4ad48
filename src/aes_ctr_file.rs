use crate::error::Error;
use crate::le_bytes::{lemma_pow256_16, lemma_pow256_mono, pow256};
use crate::memory_file::{lemma_splice, splice, MemoryFile};
use crate::sub_file::SubFile;
use vstd::arithmetic::div_mod::lemma_div_denominator;
use vstd::prelude::*;

verus! {

/// What AES-128 makes of one 16-byte block under a 16-byte key.
pub uninterp spec fn aes128_block(key: Seq<u8>, block: Seq<u8>) -> Seq<u8>;

/// Relies on aes::Aes128 through cipher::BlockEncrypt::encrypt_block: the
/// AES-128 encryption of one block, which depends on the key and block alone.
#[verifier::external_body]
fn aes128_encrypt(key: &[u8; 16], block: &[u8]) -> (r: [u8; 16])
    requires
        block@.len() == 16,
    ensures
        r@ == aes128_block(key@, block@),
{
    let cipher = <aes::Aes128 as aes::cipher::KeyInit>::new(&(*key).into());
    let mut b = aes::Block::clone_from_slice(block);
    aes::cipher::BlockEncrypt::encrypt_block(&cipher, &mut b);
    b.into()
}

/// The number that big-endian bytes `s` spell.
pub open spec fn be(s: Seq<u8>) -> nat
    decreases s.len(),
{
    if s.len() == 0 {
        0
    } else {
        be(s.drop_last()) * 256 + s.last() as nat
    }
}

/// The counter block for the `k`-th 16-byte block: the base counter read as a
/// 128-bit big-endian number, plus `k`, modulo 2^128, written big-endian.
pub open spec fn counter_block(ctr: Seq<u8>, k: nat) -> Seq<u8> {
    let v = (be(ctr) + k) % pow256(16);
    Seq::new(16, |j: int| ((v / pow256((15 - j) as nat)) % 256) as u8)
}

/// The key stream byte at offset `i` of the file.
pub open spec fn keystream(key: Seq<u8>, ctr: Seq<u8>, i: int) -> u8 {
    aes128_block(key, counter_block(ctr, (i / 16) as nat))[i % 16]
}

/// `data`, standing at offset `base`, XORed with the key stream.
pub open spec fn crypt(key: Seq<u8>, ctr: Seq<u8>, base: int, data: Seq<u8>) -> Seq<u8> {
    Seq::new(data.len(), |j: int| data[j] ^ keystream(key, ctr, base + j))
}

/// `n` big-endian bytes spell a number below `256^n`.
proof fn lemma_be_bound(s: Seq<u8>)
    ensures
        be(s) < pow256(s.len()),
    decreases s.len(),
{
    if s.len() > 0 {
        lemma_be_bound(s.drop_last());
        let p = pow256((s.len() - 1) as nat);
        assert(pow256(s.len()) == 256 * p);
        assert(be(s.drop_last()) * 256 + (s.last() as nat) < 256 * p) by (nonlinear_arith)
            requires be(s.drop_last()) < p, s.last() < 256;
    }
}

/// XOR with the same key stream twice gives the data back.
pub proof fn lemma_crypt_involution(key: Seq<u8>, ctr: Seq<u8>, base: int, data: Seq<u8>)
    ensures
        crypt(key, ctr, base, crypt(key, ctr, base, data)) == data,
{
    assert forall|j: int| 0 <= j < data.len() implies #[trigger] crypt(
        key,
        ctr,
        base,
        crypt(key, ctr, base, data),
    )[j] == data[j] by {
        let a = data[j];
        let k = keystream(key, ctr, base + j);
        assert((a ^ k) ^ k == a) by (bit_vector);
    }
    assert(crypt(key, ctr, base, crypt(key, ctr, base, data)) =~= data);
}

/// Transparent AES-128-CTR over a window: byte `i` is stored XORed with key
/// stream byte `i`, taken from the encryption of counter `base + i / 16`.
pub struct AesCtrFile {
    parent: SubFile,
    key: [u8; 16],
    ctr: [u8; 16],
}

impl AesCtrFile {
    pub closed spec fn spec_parent(&self) -> SubFile {
        self.parent
    }

    pub closed spec fn spec_key(&self) -> Seq<u8> {
        self.key@
    }

    pub closed spec fn spec_ctr(&self) -> Seq<u8> {
        self.ctr@
    }

    /// The plain bytes that reads see.
    pub open spec fn view_of(&self, img: Seq<u8>) -> Seq<u8> {
        crypt(self.spec_key(), self.spec_ctr(), 0, self.spec_parent().view_of(img))
    }

    pub fn new(parent: SubFile, key: [u8; 16], ctr: [u8; 16]) -> (r: AesCtrFile)
        ensures
            r.spec_parent() == parent,
            r.spec_key() == key@,
            r.spec_ctr() == ctr@,
    {
        AesCtrFile { parent, key, ctr }
    }

    pub fn len(&self) -> (r: usize)
        ensures
            r == self.spec_parent().spec_len(),
    {
        self.parent.len()
    }

    /// Passes a commit on to the window, which has nothing of its own to publish.
    pub fn commit(&self) -> (r: Result<(), Error>)
        ensures
            r.is_ok(),
    {
        self.parent.commit()
    }

    /// The counter block for block `k`.
    fn counter_bytes(&self, k: usize) -> (r: Vec<u8>)
        ensures
            r@ == counter_block(self.ctr@, k as nat),
    {
        let mut base: u128 = 0;
        let mut i: usize = 0;
        while i < 16
            invariant
                i <= 16,
                base == be(self.ctr@.take(i as int)),
            decreases 16 - i,
        {
            proof {
                lemma_be_bound(self.ctr@.take(i as int));
                lemma_pow256_mono(i as nat, 15);
                reveal_with_fuel(pow256, 16);
                assert(self.ctr@.take(i + 1).drop_last() =~= self.ctr@.take(i as int));
            }
            base = base * 256 + self.ctr[i] as u128;
            i = i + 1;
        }
        assert(self.ctr@.take(16) =~= self.ctr@);
        proof {
            lemma_pow256_16();
            lemma_be_bound(self.ctr@);
            assert(pow256(0) == 1) by {
                reveal_with_fuel(pow256, 1);
            }
        }
        let v: u128 = if k as u128 > u128::MAX - base {
            k as u128 - (u128::MAX - base) - 1
        } else {
            base + k as u128
        };
        assert(v == (be(self.ctr@) + k as nat) % pow256(16));
        let ghost target = counter_block(self.ctr@, k as nat);
        let mut out: Vec<u8> = vec![0u8; 16];
        let mut x: u128 = v;
        let mut j: usize = 16;
        while j > 0
            invariant
                j <= 16,
                out@.len() == 16,
                target == counter_block(self.ctr@, k as nat),
                v == (be(self.ctr@) + k as nat) % pow256(16),
                x == (v as nat) / pow256((16 - j) as nat),
                forall|m: int| j <= m < 16 ==> out@[m] == target[m],
            decreases j,
        {
            j = j - 1;
            out.set(j, (x % 256) as u8);
            proof {
                lemma_pow256_16();
                lemma_div_denominator(v as int, pow256((15 - j) as nat) as int, 256);
                assert(pow256((16 - j) as nat) == 256 * pow256((15 - j) as nat));
                assert(out@[j as int] == target[j as int]);
            }
            x = x / 256;
        }
        assert(out@ =~= target);
        out
    }

    /// `data`, standing at `pos`, XORed with the key stream.
    fn crypt_bytes(&self, pos: usize, data: &[u8]) -> (r: Vec<u8>)
        requires
            pos + data@.len() <= usize::MAX,
        ensures
            r@ == crypt(self.key@, self.ctr@, pos as int, data@),
    {
        let mut out: Vec<u8> = Vec::new();
        let mut ks: [u8; 16] = [0u8; 16];
        let mut i: usize = 0;
        while i < data.len()
            invariant
                i <= data@.len(),
                pos + data@.len() <= usize::MAX,
                out@ == crypt(self.key@, self.ctr@, pos as int, data@).take(i as int),
                i > 0 ==> ks@ == aes128_block(
                    self.key@,
                    counter_block(self.ctr@, ((pos + i - 1) / 16) as nat),
                ),
            decreases data@.len() - i,
        {
            let at = pos + i;
            if i == 0 || at % 16 == 0 {
                let c = self.counter_bytes(at / 16);
                ks = aes128_encrypt(&self.key, c.as_slice());
            } else {
                assert((at - 1) / 16 == at / 16);
            }
            out.push(data[i] ^ ks[at % 16]);
            assert(out@ =~= crypt(self.key@, self.ctr@, pos as int, data@).take(i + 1));
            i = i + 1;
        }
        assert(crypt(self.key@, self.ctr@, pos as int, data@).take(data@.len() as int) =~= crypt(
            self.key@,
            self.ctr@,
            pos as int,
            data@,
        ));
        out
    }

    /// Reads and decrypts `len` bytes at `pos`.
    pub fn read(&self, img: &MemoryFile, pos: usize, len: usize) -> (r: Result<Vec<u8>, Error>)
        requires
            self.spec_parent().within(img@.len()),
        ensures
            pos + len <= self.spec_parent().spec_len() <==> r.is_ok(),
            r matches Ok(v) ==> v@ == self.view_of(img@).subrange(pos as int, pos + len),
            r matches Err(e) ==> e == Error::OutOfBound,
    {
        let raw = self.parent.read(img, pos, len)?;
        proof {
            self.parent.lemma_bounded();
        }
        let plain = self.crypt_bytes(pos, raw.as_slice());
        assert(plain@ =~= self.view_of(img@).subrange(pos as int, pos + len));
        Ok(plain)
    }

    /// Encrypts `buf` and writes it at `pos`.
    pub fn write(&self, img: &mut MemoryFile, pos: usize, buf: &[u8]) -> (r: Result<(), Error>)
        requires
            self.spec_parent().within(old(img)@.len()),
        ensures
            pos + buf@.len() <= self.spec_parent().spec_len() <==> r.is_ok(),
            r.is_ok() ==> final(img)@ == splice(
                old(img)@,
                self.spec_parent().spec_offset() + pos,
                crypt(self.spec_key(), self.spec_ctr(), pos as int, buf@),
            ),
            r.is_ok() ==> self.view_of(final(img)@) == splice(
                self.view_of(old(img)@),
                pos as int,
                buf@,
            ),
            r.is_err() ==> final(img)@ == old(img)@,
            r matches Err(e) ==> e == Error::OutOfBound,
    {
        if buf.len() > self.parent.len() || pos > self.parent.len() - buf.len() {
            return Err(Error::OutOfBound);
        }
        proof {
            self.parent.lemma_bounded();
        }
        let ghost img0 = img@;
        let sealed = self.crypt_bytes(pos, buf);
        let _ = self.parent.write(img, pos, sealed.as_slice());
        proof {
            let p = self.parent;
            lemma_splice(img0, p.spec_offset() + pos, sealed@);
            lemma_crypt_involution(self.key@, self.ctr@, pos as int, buf@);
            assert forall|j: int| 0 <= j < p.spec_len() implies #[trigger] self.view_of(img@)[j]
                == splice(self.view_of(img0), pos as int, buf@)[j] by {
                if pos <= j < pos + buf@.len() {
                    let k = keystream(self.key@, self.ctr@, j);
                    let b = buf@[j - pos];
                    assert(img@[p.spec_offset() + j] == sealed@[j - pos]);
                    assert((b ^ k) ^ k == b) by (bit_vector);
                }
            }
            assert(self.view_of(img@) =~= splice(self.view_of(img0), pos as int, buf@));
        }
        Ok(())
    }
}

} // verus!
