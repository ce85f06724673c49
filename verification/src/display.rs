//! The display form of a content digest: unpadded base32, lowercase,
//! 52 characters for 32 bytes.
//!
//! The base32 alphabet transform is an outside call; its contract states
//! the standard encoding bit-exactly, and the lowercase fold is verified
//! here byte by byte.

use vstd::prelude::*;

use crate::types::{BlobError, BlobHash};

verus! {

/// Two to the power `k`.
pub open spec fn p2(k: int) -> int
    decreases k,
{
    if k <= 0 {
        1
    } else {
        2 * p2(k - 1)
    }
}

/// Bit `k` (0 = most significant) of a byte.
pub open spec fn byte_bit(b: u8, k: int) -> int {
    ((b as int) / p2(7 - k)) % 2
}

/// Bit `j` of a byte string read as a bit stream, most significant bit
/// first; zero beyond the end.
pub open spec fn stream_bit(s: Seq<u8>, j: int) -> int {
    if 0 <= j < 8 * s.len() {
        byte_bit(s[j / 8], j % 8)
    } else {
        0
    }
}

/// The value of the `i`-th five-bit group of the stream.
pub open spec fn b32_group(s: Seq<u8>, i: int) -> int {
    stream_bit(s, 5 * i) * 16 + stream_bit(s, 5 * i + 1) * 8 + stream_bit(s, 5 * i + 2) * 4
        + stream_bit(s, 5 * i + 3) * 2 + stream_bit(s, 5 * i + 4)
}

/// The standard base32 symbol for a five-bit value: the letters then the
/// digits two to seven.
pub open spec fn b32_symbol(v: int) -> u8 {
    if v < 26 {
        (65 + v) as u8
    } else {
        (50 + (v - 26)) as u8
    }
}

/// The unpadded base32 encoding of a byte string, as uppercase ASCII.
pub open spec fn b32_of(s: Seq<u8>) -> Seq<u8> {
    Seq::new(((8 * s.len() + 4) / 5) as nat, |i: int| b32_symbol(b32_group(s, i)))
}

/// An ASCII byte folded to lowercase.
pub open spec fn ascii_lower(b: u8) -> u8 {
    if 65 <= b <= 90 {
        (b + 32) as u8
    } else {
        b
    }
}

/// An ASCII byte folded to uppercase.
pub open spec fn ascii_upper(b: u8) -> u8 {
    if 97 <= b <= 122 {
        (b - 32) as u8
    } else {
        b
    }
}

/// The display form of digest bytes: the unpadded base32 encoding, folded
/// to lowercase.
pub open spec fn display_of(s: Seq<u8>) -> Seq<u8> {
    b32_of(s).map_values(|b: u8| ascii_lower(b))
}

/// Relies on data_encoding::BASE32_NOPAD.encode: the standard unpadded
/// base32 encoding of the input, uppercase, five bits per symbol, most
/// significant bit first.
#[verifier::external_body]
fn b32_encode(data: &Vec<u8>) -> (r: Vec<u8>)
    ensures
        r@ == b32_of(data@),
{
    data_encoding::BASE32_NOPAD.encode(data.as_slice()).into_bytes()
}

/// Relies on data_encoding::BASE32_NOPAD.decode: the encoding is
/// canonical (no padding, no ignored characters, trailing bits checked,
/// symbol and value tables mutually inverse), so decoding succeeds on
/// exactly the byte strings the encoding produces, and a decoded value
/// re-encodes to exactly the input.
#[verifier::external_body]
fn b32_decode(data: &Vec<u8>) -> (r: Result<Vec<u8>, BlobError>)
    ensures
        match r {
            Ok(v) => b32_of(v@) == data@,
            Err(e) => e == BlobError::IllegalArgument && !(exists|v: Seq<u8>|
                v.len() <= usize::MAX && #[trigger] b32_of(v) == data@),
        },
{
    match data_encoding::BASE32_NOPAD.decode(data.as_slice()) {
        Ok(v) => Ok(v),
        Err(_e) => Err(BlobError::IllegalArgument),
    }
}

/// Folds ASCII bytes to lowercase.
fn to_lower(v: &Vec<u8>) -> (r: Vec<u8>)
    ensures
        r@ == v@.map_values(|b: u8| ascii_lower(b)),
{
    let mut r: Vec<u8> = Vec::new();
    let n = v.len();
    let mut i: usize = 0;
    while i < n
        invariant
            0 <= i <= n,
            n == v@.len(),
            r@ == v@.subrange(0, i as int).map_values(|b: u8| ascii_lower(b)),
        decreases n - i,
    {
        let b = v[i];
        if 65 <= b && b <= 90 {
            r.push(b + 32);
        } else {
            r.push(b);
        }
        proof {
            assert(r@ =~= v@.subrange(0, i + 1 as int).map_values(|b: u8| ascii_lower(b)));
        }
        i = i + 1;
    }
    proof {
        assert(r@ =~= v@.map_values(|b: u8| ascii_lower(b)));
    }
    r
}

/// Folds ASCII bytes to uppercase.
fn to_upper(v: &Vec<u8>) -> (r: Vec<u8>)
    ensures
        r@ == v@.map_values(|b: u8| ascii_upper(b)),
{
    let mut r: Vec<u8> = Vec::new();
    let n = v.len();
    let mut i: usize = 0;
    while i < n
        invariant
            0 <= i <= n,
            n == v@.len(),
            r@ == v@.subrange(0, i as int).map_values(|b: u8| ascii_upper(b)),
        decreases n - i,
    {
        let b = v[i];
        if 97 <= b && b <= 122 {
            r.push(b - 32);
        } else {
            r.push(b);
        }
        proof {
            assert(r@ =~= v@.subrange(0, i + 1 as int).map_values(|b: u8| ascii_upper(b)));
        }
        i = i + 1;
    }
    proof {
        assert(r@ =~= v@.map_values(|b: u8| ascii_upper(b)));
    }
    r
}


/// Equal base32 lengths come from equal byte lengths.
proof fn lemma_b32_len_pins(n1: int, n2: int)
    requires
        n1 >= 0,
        n2 >= 0,
        (8 * n1 + 4) / 5 == (8 * n2 + 4) / 5,
    ensures
        n1 == n2,
{
    if n1 < n2 {
        assert(8 * n1 + 4 + 8 <= 8 * n2 + 4);
        assert((8 * n1 + 4) / 5 < (8 * n1 + 4 + 5) / 5);
        assert((8 * n1 + 4 + 5) / 5 <= (8 * n2 + 4) / 5);
    }
    if n2 < n1 {
        assert(8 * n2 + 4 + 8 <= 8 * n1 + 4);
        assert((8 * n2 + 4) / 5 < (8 * n2 + 4 + 5) / 5);
        assert((8 * n2 + 4 + 5) / 5 <= (8 * n1 + 4) / 5);
    }
}


proof fn lemma_bit01(s: Seq<u8>, j: int)
    ensures
        0 <= stream_bit(s, j) <= 1,
{
    if 0 <= j < 8 * s.len() {
        assert(p2(7 - j % 8) >= 1) by {
            lemma_p2_pos(7 - j % 8);
        }
    }
}

proof fn lemma_p2_pos(k: int)
    ensures
        p2(k) >= 1,
    decreases (if k > 0 {
        k
    } else {
        0int
    }),
{
    if k > 0 {
        lemma_p2_pos(k - 1);
    }
}

proof fn lemma_group_range(s: Seq<u8>, i: int)
    ensures
        0 <= b32_group(s, i) <= 31,
{
    lemma_bit01(s, 5 * i);
    lemma_bit01(s, 5 * i + 1);
    lemma_bit01(s, 5 * i + 2);
    lemma_bit01(s, 5 * i + 3);
    lemma_bit01(s, 5 * i + 4);
}

proof fn lemma_symbol_inj(v1: int, v2: int)
    requires
        0 <= v1 <= 31,
        0 <= v2 <= 31,
        b32_symbol(v1) == b32_symbol(v2),
    ensures
        v1 == v2,
{
}

proof fn lemma_byte_from_bits(x: u8, y: u8)
    requires
        forall|k: int| 0 <= k < 8 ==> byte_bit(x, k) == byte_bit(y, k),
    ensures
        x == y,
{
    assert(p2(0) == 1);
    assert(p2(1) == 2);
    assert(p2(2) == 4);
    assert(p2(3) == 8);
    assert(p2(4) == 16);
    assert(p2(5) == 32);
    assert(p2(6) == 64);
    assert(p2(7) == 128);
    assert(byte_bit(x, 0) == byte_bit(y, 0));
    assert(byte_bit(x, 1) == byte_bit(y, 1));
    assert(byte_bit(x, 2) == byte_bit(y, 2));
    assert(byte_bit(x, 3) == byte_bit(y, 3));
    assert(byte_bit(x, 4) == byte_bit(y, 4));
    assert(byte_bit(x, 5) == byte_bit(y, 5));
    assert(byte_bit(x, 6) == byte_bit(y, 6));
    assert(byte_bit(x, 7) == byte_bit(y, 7));
    assert(x == y) by (bit_vector)
        requires
            (x / 128) % 2 == (y / 128) % 2,
            (x / 64) % 2 == (y / 64) % 2,
            (x / 32) % 2 == (y / 32) % 2,
            (x / 16) % 2 == (y / 16) % 2,
            (x / 8) % 2 == (y / 8) % 2,
            (x / 4) % 2 == (y / 4) % 2,
            (x / 2) % 2 == (y / 2) % 2,
            x % 2 == y % 2,
    ;
}

/// The base32 encoding is one-to-one: equal encodings come from equal
/// bytes, so a parsed display form names exactly one digest.
pub proof fn lemma_b32_inj(a: Seq<u8>, b: Seq<u8>)
    requires
        b32_of(a) == b32_of(b),
    ensures
        a == b,
{
    assert(b32_of(a).len() == b32_of(b).len());
    assert(b32_of(a).len() == ((8 * a.len() + 4) / 5) as nat);
    assert(b32_of(b).len() == ((8 * b.len() + 4) / 5) as nat);
    assert((8 * (a.len() as int) + 4) / 5 == (8 * (b.len() as int) + 4) / 5);
    lemma_b32_len_pins(a.len() as int, b.len() as int);
    assert(a.len() == b.len());
    assert forall|j: int| 0 <= j < 8 * a.len() implies stream_bit(a, j) == stream_bit(b, j) by {
        let i = j / 5;
        assert(0 <= i < b32_of(a).len());
        assert(b32_of(a)[i] == b32_of(b)[i]);
        assert(b32_of(a)[i] == b32_symbol(b32_group(a, i)));
        assert(b32_of(b)[i] == b32_symbol(b32_group(b, i)));
        lemma_group_range(a, i);
        lemma_group_range(b, i);
        lemma_symbol_inj(b32_group(a, i), b32_group(b, i));
        lemma_bit01(a, 5 * i);
        lemma_bit01(a, 5 * i + 1);
        lemma_bit01(a, 5 * i + 2);
        lemma_bit01(a, 5 * i + 3);
        lemma_bit01(a, 5 * i + 4);
        lemma_bit01(b, 5 * i);
        lemma_bit01(b, 5 * i + 1);
        lemma_bit01(b, 5 * i + 2);
        lemma_bit01(b, 5 * i + 3);
        lemma_bit01(b, 5 * i + 4);
        assert(j == 5 * i + (j % 5));
    }
    assert forall|k: int| 0 <= k < a.len() implies a[k] == b[k] by {
        assert forall|t: int| 0 <= t < 8 implies byte_bit(a[k], t) == byte_bit(b[k], t) by {
            assert(stream_bit(a, 8 * k + t) == byte_bit(a[k], t));
            assert(stream_bit(b, 8 * k + t) == byte_bit(b[k], t));
        }
        lemma_byte_from_bits(a[k], b[k]);
    }
    assert(a =~= b);
}

/// Folding the display form back to uppercase restores the base32
/// encoding exactly, so parsing the display form of a digest yields that
/// digest and no other.
pub proof fn lemma_display_upper(b: Seq<u8>)
    ensures
        display_of(b).map_values(|c: u8| ascii_upper(c)) == b32_of(b),
{
    assert forall|i: int| 0 <= i < b32_of(b).len() implies display_of(b).map_values(
        |c: u8| ascii_upper(c),
    )[i] == b32_of(b)[i] by {
        lemma_group_range(b, i);
    }
    assert(display_of(b).map_values(|c: u8| ascii_upper(c)) =~= b32_of(b));
}


impl BlobHash {
    /// The display form of the digest: 52 lowercase base32 characters.
    pub fn display_bytes(&self) -> (r: Vec<u8>)
        ensures
            r@ == display_of(self.bytes@),
            self.wf() ==> r@.len() == 52,
    {
        let enc = b32_encode(&self.bytes);
        to_lower(&enc)
    }

    /// Parses a display form back into a digest, accepting either case:
    /// the call succeeds exactly when the case-folded bytes are the base32
    /// form of a 32-byte digest, and hands that digest back.
    pub fn from_display(d: &Vec<u8>) -> (r: Result<BlobHash, BlobError>)
        ensures
            match r {
                Ok(h) => h.wf() && b32_of(h.bytes@) == d@.map_values(|b: u8| ascii_upper(b)),
                Err(e) => e == BlobError::IllegalArgument,
            },
            (r is Ok) == (exists|v: Seq<u8>|
                v.len() == 32 && #[trigger] b32_of(v) == d@.map_values(|b: u8| ascii_upper(b))),
    {
        let up = to_upper(d);
        match b32_decode(&up) {
            Err(e) => {
                proof {
                    assert forall|v: Seq<u8>|
                        v.len() == 32 implies #[trigger] b32_of(v) != d@.map_values(
                        |b: u8| ascii_upper(b),
                    ) by {
                        if b32_of(v) == up@ {
                            assert(v.len() <= usize::MAX);
                        }
                    }
                }
                Err(e)
            },
            Ok(v) => {
                if v.len() == 32 {
                    proof {
                        assert(b32_of(v@) == up@);
                    }
                    Ok(BlobHash { bytes: v })
                } else {
                    proof {
                        assert forall|w: Seq<u8>|
                            w.len() == 32 implies #[trigger] b32_of(w) != d@.map_values(
                            |b: u8| ascii_upper(b),
                        ) by {
                            if b32_of(w) == up@ {
                                assert(b32_of(w).len() == b32_of(v@).len());
                                assert((8 * w.len() + 4) / 5 == (8 * v@.len() + 4) / 5);
                                lemma_b32_len_pins(w.len() as int, v@.len() as int);
                            }
                        }
                    }
                    Err(BlobError::IllegalArgument)
                }
            },
        }
    }
}

} // verus!
