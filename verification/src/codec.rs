//! The executable codec: branchless symbol conversion, chunk conversion, and
//! the top-level drivers. No branch condition and no table index here depends
//! on the value of the data being encoded or decoded; range tests are done
//! with sign-bit masks on 32-bit integers instead.

use crate::errors::Error;
use crate::errors::InvalidEncodingError;
use crate::errors::InvalidLengthError;
use crate::laws::lemma_encode_in_alphabet;
use crate::model::b64_char;
use crate::model::b64_value;
use crate::model::byte_at;
use crate::model::chars_of_bytes;
use crate::model::decode_spec;
use crate::model::decoded_byte;
use crate::model::decoded_len_spec;
use crate::model::encode_spec;
use crate::model::encoded_len_spec;
use crate::model::is_b64_byte;
use crate::model::is_valid_b64;
use crate::model::lemma_decoded_len_split;
use crate::model::lemma_div3_round_up;
use crate::model::lemma_encoded_len_split;
use crate::model::lemma_group_index;
use crate::model::sextet;
use vstd::arithmetic::div_mod::lemma_fundamental_div_mod;
use vstd::prelude::*;
use vstd::string::StringSliceAdditionalSpecFns;

verus! {

/// Exact length of the "B64" encoding of the given byte slice.
pub fn encoded_len(bytes: &[u8]) -> (n: usize)
    requires
        4 * bytes@.len() <= usize::MAX,
    ensures
        n == encoded_len_spec(bytes@.len()),
{
    let q: usize = bytes.len() * 4;
    proof {
        lemma_div3_round_up(q as int);
    }
    q / 3 + (q % 3 != 0) as usize
}

/// Exact length of the decoding of a "B64" text of the given byte length.
/// It is total on purpose: a length leaving a remainder of one modulo four
/// can never come from an encoding, but that is rejected by `decode`, not
/// here, so that buffer sizes can be computed before validity is known.
pub fn decoded_len(bytes: &str) -> (n: usize)
    requires
        3 * bytes.spec_bytes().len() <= usize::MAX,
    ensures
        n == decoded_len_spec(bytes.spec_bytes().len()),
{
    (bytes.len() * 3) / 4
}

/// Maps a 6-bit value to its alphabet character. The four threshold masks
/// `(t - src) >> 8` are all ones exactly when `src > t`, which selects the
/// additive offset of the alphabet run that `src` falls in.
fn encode_6bits(src: i32) -> (r: u8)
    requires
        0 <= src < 64,
    ensures
        r == b64_char(src as int),
{
    let a0: i32 = ((25 - src) >> 8) & 6;
    let a1: i32 = ((51 - src) >> 8) & 75;
    let a2: i32 = ((61 - src) >> 8) & 15;
    let a3: i32 = ((62 - src) >> 8) & 3;
    proof {
        assert(a0 == (if src > 25 { 6i32 } else { 0i32 })) by (bit_vector)
            requires
                0 <= src < 64,
                a0 == (((25i32 - src) as i32) >> 8) & 6i32,
        ;
        assert(a1 == (if src > 51 { 75i32 } else { 0i32 })) by (bit_vector)
            requires
                0 <= src < 64,
                a1 == (((51i32 - src) as i32) >> 8) & 75i32,
        ;
        assert(a2 == (if src > 61 { 15i32 } else { 0i32 })) by (bit_vector)
            requires
                0 <= src < 64,
                a2 == (((61i32 - src) as i32) >> 8) & 15i32,
        ;
        assert(a3 == (if src > 62 { 3i32 } else { 0i32 })) by (bit_vector)
            requires
                0 <= src < 64,
                a3 == (((62i32 - src) as i32) >> 8) & 3i32,
        ;
    }
    let diff: i32 = 0x41 + a0 - a1 - a2 + a3;
    (src + diff) as u8
}

/// Maps a byte to its alphabet index, or to `-1` when it is no symbol. The
/// double mask `((lo - ch) & (ch - hi)) >> 8` is all ones exactly when
/// `lo < ch < hi`, which selects the contribution of the one range (if any)
/// that `ch` falls in; the accumulator starts one below the contributions,
/// so that it stays at `-1` when no range matches.
fn decode_6bits(src: u8) -> (r: i32)
    ensures
        r == b64_value(src),
{
    let ch: i32 = src as i32;
    let a0: i32 = (((64 - ch) & (ch - 91)) >> 8) & (ch - 64);
    let a1: i32 = (((96 - ch) & (ch - 123)) >> 8) & (ch - 70);
    let a2: i32 = (((47 - ch) & (ch - 58)) >> 8) & (ch + 5);
    let a3: i32 = (((42 - ch) & (ch - 44)) >> 8) & 63;
    let a4: i32 = (((46 - ch) & (ch - 48)) >> 8) & 64;
    proof {
        assert(a0 == (if 64 < ch < 91 { ch - 64 } else { 0 })) by (bit_vector)
            requires
                0 <= ch < 256,
                a0 == (((((64i32 - ch) as i32) & ((ch - 91i32) as i32)) >> 8) & ((ch
                    - 64i32) as i32)),
        ;
        assert(a1 == (if 96 < ch < 123 { ch - 70 } else { 0 })) by (bit_vector)
            requires
                0 <= ch < 256,
                a1 == (((((96i32 - ch) as i32) & ((ch - 123i32) as i32)) >> 8) & ((ch
                    - 70i32) as i32)),
        ;
        assert(a2 == (if 47 < ch < 58 { ch + 5 } else { 0 })) by (bit_vector)
            requires
                0 <= ch < 256,
                a2 == (((((47i32 - ch) as i32) & ((ch - 58i32) as i32)) >> 8) & ((ch
                    + 5i32) as i32)),
        ;
        assert(a3 == (if ch == 43 { 63i32 } else { 0i32 })) by (bit_vector)
            requires
                0 <= ch < 256,
                a3 == (((((42i32 - ch) as i32) & ((ch - 44i32) as i32)) >> 8) & 63i32),
        ;
        assert(a4 == (if ch == 47 { 64i32 } else { 0i32 })) by (bit_vector)
            requires
                0 <= ch < 256,
                a4 == (((((46i32 - ch) as i32) & ((ch - 48i32) as i32)) >> 8) & 64i32),
        ;
    }
    -1 + a0 + a1 + a2 + a3 + a4
}

/// Spreads 3 raw bytes over four 6-bit groups, high bits first, and encodes
/// each group as its alphabet character.
fn encode_3bytes(b0: u8, b1: u8, b2: u8) -> (r: (u8, u8, u8, u8))
    ensures
        r.0 == b64_char(b0 as int / 4),
        r.1 == b64_char((b0 as int % 4) * 16 + b1 as int / 16),
        r.2 == b64_char((b1 as int % 16) * 4 + b2 as int / 64),
        r.3 == b64_char(b2 as int % 64),
{
    let i0: i32 = b0 as i32;
    let i1: i32 = b1 as i32;
    let i2: i32 = b2 as i32;
    let v0: i32 = i0 >> 2;
    let v1: i32 = ((i0 << 4) | (i1 >> 4)) & 63;
    let v2: i32 = ((i1 << 2) | (i2 >> 6)) & 63;
    let v3: i32 = i2 & 63;
    proof {
        assert(v0 == i0 / 4 && 0 <= v0 < 64) by (bit_vector)
            requires
                0 <= i0 < 256,
                v0 == i0 >> 2,
        ;
        assert(v1 == (i0 % 4) * 16 + i1 / 16 && 0 <= v1 < 64) by (bit_vector)
            requires
                0 <= i0 < 256,
                0 <= i1 < 256,
                v1 == ((((i0 << 4) as i32) | ((i1 >> 4) as i32)) & 63i32),
        ;
        assert(v2 == (i1 % 16) * 4 + i2 / 64 && 0 <= v2 < 64) by (bit_vector)
            requires
                0 <= i1 < 256,
                0 <= i2 < 256,
                v2 == ((((i1 << 2) as i32) | ((i2 >> 6) as i32)) & 63i32),
        ;
        assert(v3 == i2 % 64 && 0 <= v3 < 64) by (bit_vector)
            requires
                0 <= i2 < 256,
                v3 == i2 & 63i32,
        ;
    }
    (encode_6bits(v0), encode_6bits(v1), encode_6bits(v2), encode_6bits(v3))
}

/// Decodes 4 symbols into 3 raw bytes and one invalidity signal. All four
/// symbol decodes always run; their results are combined with bitwise OR, so
/// one bad symbol sets the high bit of the combination and the signal is 1,
/// with no branch on any symbol's value. When the signal is 0 the three bytes
/// are the 24 bits of the four 6-bit groups, high bits first.
fn decode_3bytes(s0: u8, s1: u8, s2: u8, s3: u8) -> (r: (u8, u8, u8, i32))
    ensures
        r.3 == 0 || r.3 == 1,
        (r.3 == 0) <==> (is_b64_byte(s0) && is_b64_byte(s1) && is_b64_byte(s2) && is_b64_byte(
            s3,
        )),
        r.3 == 0 ==> r.0 as int == b64_value(s0) * 4 + b64_value(s1) / 16,
        r.3 == 0 ==> r.1 as int == (b64_value(s1) % 16) * 16 + b64_value(s2) / 4,
        r.3 == 0 ==> r.2 as int == (b64_value(s2) % 4) * 64 + b64_value(s3),
{
    let c0: i32 = decode_6bits(s0);
    let c1: i32 = decode_6bits(s1);
    let c2: i32 = decode_6bits(s2);
    let c3: i32 = decode_6bits(s3);
    let b0: u8 = #[verifier::truncate] (((c0 << 2) | (c1 >> 4)) as u8);
    let b1: u8 = #[verifier::truncate] (((c1 << 4) | (c2 >> 2)) as u8);
    let b2: u8 = #[verifier::truncate] (((c2 << 6) | c3) as u8);
    let err: i32 = ((c0 | c1 | c2 | c3) >> 8) & 1;
    proof {
        assert(err == (if 0 <= c0 && 0 <= c1 && 0 <= c2 && 0 <= c3 { 0i32 } else { 1i32 }))
            by (bit_vector)
            requires
                -1 <= c0 < 64,
                -1 <= c1 < 64,
                -1 <= c2 < 64,
                -1 <= c3 < 64,
                err == ((((c0 | c1) | c2) | c3) >> 8) & 1i32,
        ;
        assert((0 <= c0 && 0 <= c1) ==> b0 == c0 * 4 + c1 / 16) by (bit_vector)
            requires
                -1 <= c0 < 64,
                -1 <= c1 < 64,
                b0 == (((c0 << 2) as i32 | (c1 >> 4) as i32) as u8),
        ;
        assert((0 <= c1 && 0 <= c2) ==> b1 == (c1 % 16) * 16 + c2 / 4) by (bit_vector)
            requires
                -1 <= c1 < 64,
                -1 <= c2 < 64,
                b1 == (((c1 << 4) as i32 | (c2 >> 2) as i32) as u8),
        ;
        assert((0 <= c2 && 0 <= c3) ==> b2 == (c2 % 4) * 64 + c3) by (bit_vector)
            requires
                -1 <= c2 < 64,
                -1 <= c3 < 64,
                b2 == (((c2 << 6) as i32 | c3) as u8),
        ;
    }
    (b0, b1, b2, err)
}

/// Encodes `src` as "B64", writing the result into the first
/// `encoded_len_spec(src@.len())` bytes of `dst` and returning that length.
/// Fails with `InvalidLengthError`, writing nothing, when `dst` is smaller
/// than that; the rest of `dst` is never touched.
pub fn encode(src: &[u8], dst: &mut Vec<u8>) -> (r: Result<usize, InvalidLengthError>)
    requires
        4 * src@.len() <= usize::MAX,
    ensures
        final(dst)@.len() == old(dst)@.len(),
        r is Ok <==> encoded_len_spec(src@.len()) <= old(dst)@.len(),
        r matches Ok(n) ==> n == encoded_len_spec(src@.len()) && final(dst)@.subrange(0, n as int)
            == encode_spec(src@) && final(dst)@.skip(n as int) == old(dst)@.skip(n as int),
        r is Err ==> final(dst)@ == old(dst)@,
{
    let elen = encoded_len(src);
    if elen > dst.len() {
        return Err(InvalidLengthError);
    }
    let n = src.len();
    let full = n / 3;
    proof {
        lemma_fundamental_div_mod(n as int, 3);
        lemma_encoded_len_split(n as nat);
    }
    let ghost dst0 = dst@;
    let mut i: usize = 0;
    while i < full
        invariant
            i <= full,
            full == n as int / 3,
            n == src@.len(),
            elen == encoded_len_spec(n as nat),
            4 * full <= elen <= dst@.len(),
            dst@.len() == dst0.len(),
            forall|p: int| 0 <= p < 4 * i ==> dst@[p] == encode_spec(src@)[p],
            forall|p: int| 4 * i <= p < dst@.len() ==> dst@[p] == dst0[p],
        decreases full - i,
    {
        let s0 = src[3 * i];
        let s1 = src[3 * i + 1];
        let s2 = src[3 * i + 2];
        let (e0, e1, e2, e3) = encode_3bytes(s0, s1, s2);
        dst[4 * i] = e0;
        dst[4 * i + 1] = e1;
        dst[4 * i + 2] = e2;
        dst[4 * i + 3] = e3;
        proof {
            lemma_group_index(4, i as int, 0);
            lemma_group_index(4, i as int, 1);
            lemma_group_index(4, i as int, 2);
            lemma_group_index(4, i as int, 3);
            assert(sextet(src@, 4 * i as int) == s0 as int / 4);
            assert(sextet(src@, 4 * i as int + 1) == (s0 as int % 4) * 16 + s1 as int / 16);
            assert(sextet(src@, 4 * i as int + 2) == (s1 as int % 16) * 4 + s2 as int / 64);
            assert(sextet(src@, 4 * i as int + 3) == s2 as int % 64);
        }
        i = i + 1;
    }
    let rem = n - 3 * full;
    if rem > 0 {
        let t0 = src[3 * full];
        let t1 = if rem >= 2 {
            src[3 * full + 1]
        } else {
            0
        };
        let (e0, e1, e2, _e3) = encode_3bytes(t0, t1, 0);
        dst[4 * full] = e0;
        dst[4 * full + 1] = e1;
        if rem == 2 {
            dst[4 * full + 2] = e2;
        }
        proof {
            lemma_group_index(4, full as int, 0);
            lemma_group_index(4, full as int, 1);
            lemma_group_index(4, full as int, 2);
            assert(byte_at(src@, 3 * (full as int)) == t0);
            assert(byte_at(src@, 3 * (full as int) + 1) == t1);
            assert(byte_at(src@, 3 * (full as int) + 2) == 0);
            assert(sextet(src@, 4 * full as int) == t0 as int / 4);
            assert(sextet(src@, 4 * full as int + 1) == (t0 as int % 4) * 16 + t1 as int / 16);
            if rem == 2 {
                assert(sextet(src@, 4 * full as int + 2) == (t1 as int % 16) * 4);
            }
        }
    }
    proof {
        assert(dst@.subrange(0, elen as int) =~= encode_spec(src@));
        assert(dst@.skip(elen as int) =~= dst0.skip(elen as int));
    }
    Ok(elen)
}

/// Decodes the "B64" text `src` into the first `decoded_len_spec` bytes of
/// `dst` and returns that length. Fails with `Error::InvalidLength`, writing
/// nothing, when `dst` is smaller than that; fails with
/// `Error::InvalidEncoding` when any byte of `src` is outside the alphabet or
/// its length leaves a remainder of one modulo four — in that case the first
/// `decoded_len_spec` bytes of `dst` carry no meaning, while the rest of `dst`
/// is never touched. Every symbol group is processed even after an invalid one
/// has been seen, so the running time does not depend on where invalid input
/// occurs.
pub fn decode(src: &str, dst: &mut Vec<u8>) -> (r: Result<usize, Error>)
    requires
        3 * src.spec_bytes().len() <= usize::MAX,
    ensures
        final(dst)@.len() == old(dst)@.len(),
        r is Ok <==> decoded_len_spec(src.spec_bytes().len()) <= old(dst)@.len() && is_valid_b64(
            src.spec_bytes(),
        ),
        r == Err::<usize, Error>(Error::InvalidLength) <==> decoded_len_spec(
            src.spec_bytes().len(),
        ) > old(dst)@.len(),
        r == Err::<usize, Error>(Error::InvalidEncoding) <==> decoded_len_spec(
            src.spec_bytes().len(),
        ) <= old(dst)@.len() && !is_valid_b64(src.spec_bytes()),
        r == Err::<usize, Error>(Error::InvalidLength) ==> final(dst)@ == old(dst)@,
        r matches Ok(n) ==> n == decoded_len_spec(src.spec_bytes().len()) && final(dst)@.subrange(
            0,
            n as int,
        ) == decode_spec(src.spec_bytes()),
        r != Err::<usize, Error>(Error::InvalidLength) ==> final(dst)@.skip(
            decoded_len_spec(src.spec_bytes().len()) as int,
        ) == old(dst)@.skip(decoded_len_spec(src.spec_bytes().len()) as int),
{
    let dlen = decoded_len(src);
    if dlen > dst.len() {
        return Err(Error::InvalidLength);
    }
    let sb = src.as_bytes();
    let n = sb.len();
    let full = n / 4;
    proof {
        lemma_fundamental_div_mod(n as int, 4);
        lemma_decoded_len_split(n as nat);
    }
    let ghost dst0 = dst@;
    let mut err: i32 = 0;
    let mut i: usize = 0;
    while i < full
        invariant
            i <= full,
            full == n as int / 4,
            n == sb@.len(),
            sb@ == src.spec_bytes(),
            dlen == decoded_len_spec(n as nat),
            3 * full <= dlen <= dst@.len(),
            dst@.len() == dst0.len(),
            err == 0 || err == 1,
            (err == 0) <==> (forall|p: int| 0 <= p < 4 * i ==> is_b64_byte(#[trigger] sb@[p])),
            err == 0 ==> forall|q: int| 0 <= q < 3 * i ==> dst@[q] == decoded_byte(sb@, q),
            forall|q: int| 3 * i <= q < dst@.len() ==> dst@[q] == dst0[q],
        decreases full - i,
    {
        let s0 = sb[4 * i];
        let s1 = sb[4 * i + 1];
        let s2 = sb[4 * i + 2];
        let s3 = sb[4 * i + 3];
        let (b0, b1, b2, e) = decode_3bytes(s0, s1, s2, s3);
        dst[3 * i] = b0;
        dst[3 * i + 1] = b1;
        dst[3 * i + 2] = b2;
        proof {
            assert((err | e) == (if err == 0 && e == 0 {
                0i32
            } else {
                1i32
            })) by (bit_vector)
                requires
                    err == 0 || err == 1,
                    e == 0 || e == 1,
            ;
            lemma_group_index(3, i as int, 0);
            lemma_group_index(3, i as int, 1);
            lemma_group_index(3, i as int, 2);
            lemma_group_index(4, i as int, 0);
            lemma_group_index(4, i as int, 1);
            lemma_group_index(4, i as int, 2);
            lemma_group_index(4, i as int, 3);
        }
        err = err | e;
        i = i + 1;
    }
    let rem = n - 4 * full;
    let structural: i32 = (rem == 1) as i32;
    proof {
        assert((err | structural) == (if err == 0 && structural == 0 {
            0i32
        } else {
            1i32
        })) by (bit_vector)
            requires
                err == 0 || err == 1,
                structural == 0 || structural == 1,
        ;
    }
    err = err | structural;
    let t0 = if rem >= 1 {
        sb[4 * full]
    } else {
        0x41
    };
    let t1 = if rem >= 2 {
        sb[4 * full + 1]
    } else {
        0x41
    };
    let t2 = if rem >= 3 {
        sb[4 * full + 2]
    } else {
        0x41
    };
    let (b0, b1, _b2, e) = decode_3bytes(t0, t1, t2, 0x41);
    proof {
        assert((err | e) == (if err == 0 && e == 0 {
            0i32
        } else {
            1i32
        })) by (bit_vector)
            requires
                err == 0 || err == 1,
                e == 0 || e == 1,
        ;
    }
    err = err | e;
    let drem = dlen - 3 * full;
    if drem >= 1 {
        dst[3 * full] = b0;
    }
    if drem >= 2 {
        dst[3 * full + 1] = b1;
    }
    proof {
        lemma_group_index(3, full as int, 0);
        lemma_group_index(3, full as int, 1);
        if err == 0 {
            assert forall|p: int| 0 <= p < n implies is_b64_byte(#[trigger] sb@[p]) by {
                if p >= 4 * full {
                    assert(sb@[p] == (if p == 4 * full {
                        t0
                    } else if p == 4 * full + 1 {
                        t1
                    } else {
                        t2
                    }));
                }
            }
            assert(is_valid_b64(sb@));
        } else {
            assert(!is_valid_b64(sb@));
        }
        assert(dst@.skip(dlen as int) =~= dst0.skip(dlen as int));
        if err == 0 {
            assert(dst@.subrange(0, dlen as int) =~= decode_spec(sb@));
        }
    }
    if err == 0 {
        Ok(dlen)
    } else {
        Err(Error::InvalidEncoding)
    }
}

/// Builds an owned string from ASCII bytes.
/// Relies on `String::from_utf8`: bytes below 0x80 are valid UTF-8, and the
/// characters of the resulting string are exactly those bytes.
#[verifier::external_body]
fn string_from_ascii(v: Vec<u8>) -> (s: String)
    requires
        forall|i: int| 0 <= i < v@.len() ==> v@[i] < 0x80,
    ensures
        s@ == chars_of_bytes(v@),
{
    String::from_utf8(v).unwrap()
}

/// Encodes `input` as an owned "B64" string: a thin allocating wrapper that
/// sizes a buffer with `encoded_len` and fills it with `encode`.
pub fn encode_string(input: &[u8]) -> (s: String)
    requires
        4 * input@.len() <= usize::MAX,
    ensures
        s@ == chars_of_bytes(encode_spec(input@)),
{
    let elen = encoded_len(input);
    let mut dst: Vec<u8> = vec![0u8; elen];
    let res = encode(input, &mut dst);
    proof {
        assert(res is Ok);
        assert(dst@.subrange(0, elen as int) =~= dst@);
        lemma_encode_in_alphabet(input@);
    }
    string_from_ascii(dst)
}

/// Decodes a "B64" string into an owned byte vector: a thin allocating wrapper
/// that sizes a buffer with `decoded_len` and fills it with `decode`. The
/// buffer is sized exactly, so the only failure left is an invalid encoding.
pub fn decode_vec(input: &str) -> (r: Result<Vec<u8>, InvalidEncodingError>)
    requires
        3 * input.spec_bytes().len() <= usize::MAX,
    ensures
        r is Ok <==> is_valid_b64(input.spec_bytes()),
        r matches Ok(v) ==> v@ == decode_spec(input.spec_bytes()),
{
    let dlen = decoded_len(input);
    let mut output: Vec<u8> = vec![0u8; dlen];
    match decode(input, &mut output) {
        Ok(_) => {
            proof {
                assert(output@.subrange(0, dlen as int) =~= output@);
            }
            Ok(output)
        },
        Err(_) => Err(InvalidEncodingError),
    }
}

} // verus!
