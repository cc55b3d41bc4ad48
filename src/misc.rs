use vstd::prelude::*;

verus! {

/// The least multiple of `align` that is at least `value`.
pub open spec fn align_up_spec(value: int, align: int) -> int {
    value + (align - value % align) % align
}

/// The number of `align`-sized blocks needed to cover `value` bytes.
pub open spec fn divide_up_spec(value: int, align: int) -> int {
    (value + align - 1) / align
}

/// A length of one block is one block.
pub proof fn lemma_divide_up_self(n: int)
    requires
        n > 0,
    ensures
        divide_up_spec(n, n) == 1,
{
    assert((n + n - 1) / n == 1) by (nonlinear_arith)
        requires n > 0;
}

/// Rounds `value` up to a multiple of `align`.
pub fn align_up(value: usize, align: usize) -> (r: usize)
    requires
        align > 0,
        value + align - 1 <= usize::MAX,
    ensures
        r == align_up_spec(value as int, align as int),
        r % align == 0,
        value <= r < value + align,
{
    proof {
        let v = value as int;
        let a = align as int;
        assert(0 <= v % a < a) by (nonlinear_arith)
            requires a > 0;
        assert((v + (a - v % a) % a) % a == 0) by (nonlinear_arith)
            requires a > 0, 0 <= v % a < a, v >= 0;
    }
    value + (align - value % align) % align
}

/// Divides `value` by `align`, rounding up.
pub fn divide_up(value: usize, align: usize) -> (r: usize)
    requires
        align > 0,
    ensures
        r == divide_up_spec(value as int, align as int),
        r * align >= value,
        value == 0 || (r - 1) * align < value,
{
    if value == 0 {
        proof {
            assert(divide_up_spec(0, align as int) == 0) by (nonlinear_arith)
                requires align > 0;
        }
        0
    } else {
        let r = 1 + (value - 1) / align;
        proof {
            let v = value as int;
            let a = align as int;
            assert(1 + (v - 1) / a == (v + a - 1) / a) by (nonlinear_arith)
                requires a > 0, v > 0;
            assert((1 + (v - 1) / a) * a >= v) by (nonlinear_arith)
                requires a > 0, v > 0;
            assert(((v - 1) / a) * a < v) by (nonlinear_arith)
                requires a > 0, v > 0;
        }
        r
    }
}

/// What SHA-256 yields for the given bytes.
pub uninterp spec fn sha256_of(data: Seq<u8>) -> Seq<u8>;

/// Relies on sha2::Sha256::digest: the 32-byte SHA-256 digest of the input.
#[verifier::external_body]
pub(crate) fn sha256(data: &[u8]) -> (r: Vec<u8>)
    ensures
        r@ == sha256_of(data@),
        r@.len() == 32,
{
    <sha2::Sha256 as sha2::Digest>::digest(data).to_vec()
}

/// Relies on String::push: appends one character at the end.
#[verifier::external_body]
fn push_char(s: &mut String, c: char)
    ensures
        final(s)@ == old(s)@.push(c),
{
    s.push(c)
}

/// The lower-case hexadecimal digit for a nibble.
pub open spec fn hex_digit(n: u8) -> char {
    if n < 10 {
        (48 + n) as char
    } else {
        (87 + n) as char
    }
}

/// Which digest byte stands at position `i` of the directory name: each
/// 32-bit word is taken in reversed byte order.
pub open spec fn movable_index(i: int) -> int {
    (i / 4) * 4 + 3 - i % 4
}

/// The directory name derived from a digest: two hex digits per byte, bytes
/// taken word by word in little-endian order.
pub open spec fn movable_name(h: Seq<u8>) -> Seq<char> {
    Seq::new(32, |j: int| {
        let b = h[movable_index(j / 2)];
        if j % 2 == 0 {
            hex_digit(b / 16)
        } else {
            hex_digit(b % 16)
        }
    })
}

fn to_hex_digit(n: u8) -> (c: char)
    requires
        n < 16,
    ensures
        c == hex_digit(n),
{
    if n < 10 {
        (48 + n) as char
    } else {
        (87 + n) as char
    }
}

/// Names the per-console directory of an SD card from the console's key Y:
/// the first 16 bytes of SHA-256(key), as four little-endian words in hex.
pub fn hash_movable(key: [u8; 16]) -> (r: String)
    ensures
        r@ == movable_name(sha256_of(key@)),
{
    let hash = sha256(&key);
    let mut result = String::new();
    let mut i: usize = 0;
    while i < 16
        invariant
            i <= 16,
            hash@ == sha256_of(key@),
            hash@.len() == 32,
            result@ == movable_name(hash@).take(2 * i as int),
        decreases 16 - i,
    {
        let index = (i / 4) * 4 + 3 - i % 4;
        assert(index == movable_index(i as int));
        let b = hash[index];
        let hi = to_hex_digit(b / 16);
        let lo = to_hex_digit(b % 16);
        push_char(&mut result, hi);
        push_char(&mut result, lo);
        assert(result@ =~= movable_name(hash@).take(2 * (i + 1) as int));
        i = i + 1;
    }
    assert(result@ =~= movable_name(hash@));
    result
}

/// `v` as eight lower-case hex digits, most significant first.
pub open spec fn hex8_spec(v: u32) -> Seq<char> {
    Seq::new(8, |i: int| hex_digit(((v as int / pow16(7 - i)) % 16) as u8))
}

/// `16` to the power `n`.
pub open spec fn pow16(n: int) -> int
    decreases n,
{
    if n <= 0 {
        1
    } else {
        16 * pow16(n - 1)
    }
}

/// Formats `v` as eight lower-case hex digits, as `{:08x}` does.
pub fn hex8(v: u32) -> (r: String)
    ensures
        r@ == hex8_spec(v),
{
    let mut result = String::new();
    let mut i: usize = 0;
    while i < 8
        invariant
            i <= 8,
            result@ == hex8_spec(v).take(i as int),
        decreases 8 - i,
    {
        let shift: u32 = (28 - 4 * i) as u32;
        let d = ((v >> shift) & 0xF) as u8;
        proof {
            reveal_with_fuel(pow16, 8);
            let s = shift;
            assert((v >> s) & 0xF == (v / (1u32 << s)) % 16) by (bit_vector)
                requires s < 32;
            assert(1u32 << s == pow16(7 - i) as u32) by {
                assert(1u32 << 0u32 == 1) by (bit_vector);
                assert(1u32 << 4u32 == 16) by (bit_vector);
                assert(1u32 << 8u32 == 256) by (bit_vector);
                assert(1u32 << 12u32 == 4096) by (bit_vector);
                assert(1u32 << 16u32 == 65536) by (bit_vector);
                assert(1u32 << 20u32 == 1048576) by (bit_vector);
                assert(1u32 << 24u32 == 16777216) by (bit_vector);
                assert(1u32 << 28u32 == 268435456) by (bit_vector);
            }
        }
        push_char(&mut result, to_hex_digit(d));
        assert(result@ =~= hex8_spec(v).take(i + 1));
        i = i + 1;
    }
    assert(result@ =~= hex8_spec(v));
    result
}

} // verus!
