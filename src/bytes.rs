//! Byte-string helpers and the content hash.
use vstd::prelude::*;

verus! {

/// The xxh3 64-bit digest of a byte string.
pub uninterp spec fn xxh3_64_of(bytes: Seq<u8>) -> u64;

/// Relies on xxhash_rust::xxh3::xxh3_64: a digest that depends on the bytes
/// alone (fixed seed and secret).
#[verifier::external_body]
pub(crate) fn xxh3_64(bytes: &[u8]) -> (r: u64)
    ensures
        r == xxh3_64_of(bytes@),
{
    xxhash_rust::xxh3::xxh3_64(bytes)
}

/// Whether two byte strings are equal.
pub fn bytes_eq(a: &[u8], b: &[u8]) -> (r: bool)
    ensures
        r == (a@ == b@),
{
    if a.len() != b.len() {
        return false;
    }
    let mut i: usize = 0;
    while i < a.len()
        invariant
            a@.len() == b@.len(),
            0 <= i <= a@.len(),
            forall|j: int| 0 <= j < i ==> a@[j] == b@[j],
        decreases a@.len() - i,
    {
        if a[i] != b[i] {
            return false;
        }
        i += 1;
    }
    assert(a@ =~= b@);
    true
}

/// A copy of a byte string.
pub fn bytes_copy(a: &[u8]) -> (r: Vec<u8>)
    ensures
        r@ == a@,
{
    let mut r: Vec<u8> = Vec::with_capacity(a.len());
    let mut i: usize = 0;
    while i < a.len()
        invariant
            0 <= i <= a@.len(),
            r@ == a@.subrange(0, i as int),
        decreases a@.len() - i,
    {
        r.push(a[i]);
        i += 1;
        assert(r@ =~= a@.subrange(0, i as int));
    }
    assert(a@.subrange(0, a@.len() as int) =~= a@);
    r
}

/// `b` appended to `a`.
pub fn bytes_extend(a: &mut Vec<u8>, b: &[u8])
    ensures
        final(a)@ == old(a)@ + b@,
{
    let mut i: usize = 0;
    while i < b.len()
        invariant
            0 <= i <= b@.len(),
            a@ == old(a)@ + b@.subrange(0, i as int),
        decreases b@.len() - i,
    {
        a.push(b[i]);
        i += 1;
        assert(a@ =~= old(a)@ + b@.subrange(0, i as int));
    }
    assert(b@.subrange(0, b@.len() as int) =~= b@);
}

/// Lower-case hexadecimal digit of a value below 16.
pub open spec fn hex_digit(d: nat) -> u8 {
    if d < 10 {
        (48 + d) as u8
    } else {
        (87 + d) as u8
    }
}

/// The last `n` hexadecimal digits of `x`, most significant first.
pub open spec fn hex_digits(x: nat, n: nat) -> Seq<u8>
    decreases n,
{
    if n == 0 {
        Seq::empty()
    } else {
        hex_digits(x / 16, (n - 1) as nat).push(hex_digit(x % 16))
    }
}

/// `x` as sixteen lower-case hexadecimal digits, zero-padded.
pub fn hex16(x: u64) -> (r: Vec<u8>)
    ensures
        r@ == hex_digits(x as nat, 16),
{
    let mut r: Vec<u8> = Vec::new();
    let mut y: u64 = x;
    let mut k: usize = 0;
    while k < 16
        invariant
            0 <= k <= 16,
            hex_digits(x as nat, 16) == hex_digits(y as nat, (16 - k) as nat) + r@,
        decreases 16 - k,
    {
        let d = (y % 16) as u8;
        let c: u8 = if d < 10 {
            48 + d
        } else {
            87 + d
        };
        proof {
            let m = (16 - k) as nat;
            assert(hex_digits(y as nat, m) == hex_digits(y as nat / 16, (m - 1) as nat).push(
                hex_digit(y as nat % 16),
            ));
            assert(hex_digits(y as nat, m) + r@ =~= hex_digits(y as nat / 16, (m - 1) as nat) + (
            seq![c] + r@));
        }
        let ghost before = r@;
        r.insert(0, c);
        assert(r@ =~= seq![c] + before);
        y = y / 16;
        k += 1;
    }
    assert(hex_digits(y as nat, 0) + r@ =~= r@);
    r
}

/// The eight little-endian bytes of `x`.
pub open spec fn enc_u64(x: u64) -> Seq<u8> {
    Seq::new(8, |i: int| ((x >> (8 * i) as u64) & 0xff) as u8)
}

/// A byte string prefixed with its length.
pub open spec fn enc_bytes(b: Seq<u8>) -> Seq<u8> {
    enc_u64(b.len() as u64) + b
}

/// An optional byte string: a tag byte, then the string if present.
pub open spec fn enc_opt(o: Option<Seq<u8>>) -> Seq<u8> {
    match o {
        Some(b) => seq![1u8] + enc_bytes(b),
        None => seq![0u8],
    }
}

/// Appends the little-endian bytes of `x`.
pub fn push_u64(out: &mut Vec<u8>, x: u64)
    ensures
        final(out)@ == old(out)@ + enc_u64(x),
{
    let mut i: u64 = 0;
    while i < 8
        invariant
            0 <= i <= 8,
            out@ == old(out)@ + enc_u64(x).subrange(0, i as int),
        decreases 8 - i,
    {
        out.push(((x >> (8 * i)) & 0xff) as u8);
        i += 1;
        assert(out@ =~= old(out)@ + enc_u64(x).subrange(0, i as int));
    }
    assert(enc_u64(x).subrange(0, 8) =~= enc_u64(x));
}

/// Appends `b` prefixed with its length.
pub fn push_bytes(out: &mut Vec<u8>, b: &[u8])
    ensures
        final(out)@ == old(out)@ + enc_bytes(b@),
{
    push_u64(out, b.len() as u64);
    bytes_extend(out, b);
    assert(out@ =~= old(out)@ + enc_bytes(b@));
}

/// Appends an optional byte string.
pub fn push_opt(out: &mut Vec<u8>, o: &Option<Vec<u8>>)
    ensures
        final(out)@ == old(out)@ + enc_opt(
            match *o {
                Some(v) => Some(v@),
                None => None,
            },
        ),
{
    match o {
        Some(v) => {
            out.push(1u8);
            push_bytes(out, v.as_slice());
            assert(out@ =~= old(out)@ + (seq![1u8] + enc_bytes(v@)));
        },
        None => {
            out.push(0u8);
            assert(out@ =~= old(out)@ + seq![0u8]);
        },
    }
}

} // verus!
