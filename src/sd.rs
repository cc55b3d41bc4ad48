use crate::misc::{hex8, hex8_spec, sha256, sha256_of};
use vstd::prelude::*;
use vstd::string::StringSliceAdditionalSpecFns;

verus! {

/// The components joined as `/a/b/c`.
pub open spec fn slash_join(parts: Seq<Seq<u8>>) -> Seq<u8>
    decreases parts.len(),
{
    if parts.len() == 0 {
        Seq::empty()
    } else {
        slash_join(parts.drop_last()).push(0x2Fu8) + parts.last()
    }
}

/// Each byte followed by a zero byte: ASCII text as UTF-16LE.
pub open spec fn widen(s: Seq<u8>) -> Seq<u8> {
    Seq::new(
        2 * s.len(),
        |i: int|
            if i % 2 == 0 {
                s[i / 2]
            } else {
                0u8
            },
    )
}

/// The bytes of each component.
pub open spec fn parts_bytes(path: Seq<&str>) -> Seq<Seq<u8>> {
    path.map(|i: int, s: &str| s.spec_bytes())
}

/// The bytes hashed for a file on an SD card: its path from the title
/// directory, `/`-separated and NUL-terminated, widened to UTF-16LE.
pub open spec fn hash_path_spec(path: Seq<&str>) -> Seq<u8> {
    widen(slash_join(parts_bytes(path)).push(0u8))
}

/// The two halves of a 32-byte digest XORed together.
pub open spec fn fold_halves(h: Seq<u8>) -> Seq<u8> {
    Seq::new(16, |i: int| h[i] ^ h[i + 16])
}

/// Appends `b` and a zero byte.
fn push_wide(out: &mut Vec<u8>, b: u8)
    ensures
        final(out)@ == old(out)@ + seq![b, 0u8],
{
    out.push(b);
    out.push(0);
    assert(final(out)@ =~= old(out)@ + seq![b, 0u8]);
}

/// The bytes whose SHA-256 gives the counter of the file at `path`.
pub fn hash_path(path: &[&str]) -> (r: Vec<u8>)
    ensures
        r@ == hash_path_spec(path@),
{
    let ghost parts = parts_bytes(path@);
    let mut out: Vec<u8> = Vec::new();
    let mut k: usize = 0;
    while k < path.len()
        invariant
            k <= path@.len(),
            parts == parts_bytes(path@),
            out@ == widen(slash_join(parts.take(k as int))),
        decreases path@.len() - k,
    {
        let part = path[k].as_bytes();
        push_wide(&mut out, 0x2F);
        let mut i: usize = 0;
        while i < part.len()
            invariant
                i <= part@.len(),
                part@ == parts[k as int],
                k < path@.len(),
                parts == parts_bytes(path@),
                out@ == widen(slash_join(parts.take(k as int)).push(0x2Fu8) + part@.take(i as int)),
            decreases part@.len() - i,
        {
            push_wide(&mut out, part[i]);
            assert(out@ =~= widen(
                slash_join(parts.take(k as int)).push(0x2Fu8) + part@.take(i + 1),
            ));
            i = i + 1;
        }
        assert(parts.take(k + 1).drop_last() =~= parts.take(k as int));
        assert(part@.take(part@.len() as int) =~= part@);
        k = k + 1;
    }
    assert(parts.take(path@.len() as int) =~= parts);
    push_wide(&mut out, 0);
    assert(out@ =~= widen(slash_join(parts).push(0u8)));
    out
}

/// The AES-CTR base counter of the file at `path` on an SD card.
pub fn sd_ctr(path: &[&str]) -> (r: [u8; 16])
    ensures
        r@ == fold_halves(sha256_of(hash_path_spec(path@))),
{
    let data = hash_path(path);
    let h = sha256(data.as_slice());
    let r = [
        h[0] ^ h[16],
        h[1] ^ h[17],
        h[2] ^ h[18],
        h[3] ^ h[19],
        h[4] ^ h[20],
        h[5] ^ h[21],
        h[6] ^ h[22],
        h[7] ^ h[23],
        h[8] ^ h[24],
        h[9] ^ h[25],
        h[10] ^ h[26],
        h[11] ^ h[27],
        h[12] ^ h[28],
        h[13] ^ h[29],
        h[14] ^ h[30],
        h[15] ^ h[31],
    ];
    assert(r@ =~= fold_halves(h@));
    r
}

/// The components, under the per-console directory, of the save file of
/// title `id`: `title/<high 32 bits>/<low 32 bits>/data/00000001.sav`.
pub fn sd_save_path(id: u64) -> (r: Vec<String>)
    ensures
        r@.len() == 5,
        r@[0]@ == "title"@,
        r@[1]@ == hex8_spec((id >> 32) as u32),
        r@[2]@ == hex8_spec((id & 0xFFFF_FFFF) as u32),
        r@[3]@ == "data"@,
        r@[4]@ == "00000001.sav"@,
{
    let mut r: Vec<String> = Vec::new();
    r.push("title".to_owned());
    r.push(hex8((id >> 32) as u32));
    r.push(hex8((id & 0xFFFF_FFFF) as u32));
    r.push("data".to_owned());
    r.push("00000001.sav".to_owned());
    r
}

} // verus!
