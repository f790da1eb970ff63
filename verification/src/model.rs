//! The mathematical model of the codec: what the alphabet is, what a byte
//! sequence encodes to, and what a symbol sequence decodes to. The executable
//! functions in `codec` are specified against these functions, and the laws in
//! `laws` are proved of them.

use vstd::arithmetic::div_mod::lemma_fundamental_div_mod;
use vstd::arithmetic::div_mod::lemma_fundamental_div_mod_converse;
use vstd::arithmetic::mul::lemma_mul_is_commutative;
use vstd::prelude::*;

verus! {

/// The character standing at a given index of the 64-symbol alphabet:
/// `0..26` map to `A..Z`, `26..52` to `a..z`, `52..62` to `0..9`,
/// `62` to `+` and `63` to `/`.
pub open spec fn b64_char(v: int) -> u8
    recommends
        0 <= v < 64,
{
    if v < 26 {
        (0x41 + v) as u8
    } else if v < 52 {
        (0x61 + (v - 26)) as u8
    } else if v < 62 {
        (0x30 + (v - 52)) as u8
    } else if v == 62 {
        0x2b as u8
    } else {
        0x2f as u8
    }
}

/// The alphabet index of a byte, or `-1` when the byte is no symbol of the
/// alphabet.
pub open spec fn b64_value(ch: u8) -> int {
    if 0x41 <= ch <= 0x5a {
        ch - 0x41
    } else if 0x61 <= ch <= 0x7a {
        ch - 0x61 + 26
    } else if 0x30 <= ch <= 0x39 {
        ch - 0x30 + 52
    } else if ch == 0x2b {
        62
    } else if ch == 0x2f {
        63
    } else {
        -1
    }
}

/// Whether a byte is one of the 64 symbols of the alphabet.
pub open spec fn is_b64_byte(ch: u8) -> bool {
    b64_value(ch) >= 0
}

/// Exact length of the encoding of `n` raw bytes: the least `m` with
/// `3 * m >= 4 * n`, that is `ceil(4 * n / 3)`.
pub open spec fn encoded_len_spec(n: nat) -> nat {
    ((4 * n + 2) / 3) as nat
}

/// Exact length of the decoding of `m` symbols: `floor(3 * m / 4)`.
pub open spec fn decoded_len_spec(m: nat) -> nat {
    (3 * m / 4) as nat
}

/// The byte of `s` at `i`, or zero past either end. Encoding treats missing
/// bytes of the final partial chunk as zero.
pub open spec fn byte_at(s: Seq<u8>, i: int) -> u8 {
    if 0 <= i < s.len() {
        s[i]
    } else {
        0
    }
}

/// The `i`-th 6-bit group of the bit stream of `s`, high bits first: group `i`
/// holds bits `6 * i` to `6 * i + 5`, where byte `j` contributes bits `8 * j`
/// to `8 * j + 7` most significant first, and bits past the end are zero.
pub open spec fn sextet(s: Seq<u8>, i: int) -> int {
    let b0 = byte_at(s, 3 * (i / 4)) as int;
    let b1 = byte_at(s, 3 * (i / 4) + 1) as int;
    let b2 = byte_at(s, 3 * (i / 4) + 2) as int;
    if i % 4 == 0 {
        b0 / 4
    } else if i % 4 == 1 {
        (b0 % 4) * 16 + b1 / 16
    } else if i % 4 == 2 {
        (b1 % 16) * 4 + b2 / 64
    } else {
        b2 % 64
    }
}

/// The encoding of a byte sequence: one alphabet character per 6-bit group.
pub open spec fn encode_spec(s: Seq<u8>) -> Seq<u8> {
    Seq::new(encoded_len_spec(s.len()), |i: int| b64_char(sextet(s, i)))
}

/// The alphabet index of the symbol of `t` at `i`; positions past the end read
/// as the filler symbol `A`, whose index is zero.
pub open spec fn sym_at(t: Seq<u8>, i: int) -> int {
    if 0 <= i < t.len() {
        b64_value(t[i])
    } else {
        0
    }
}

/// The `j`-th byte of the decoding of `t`: 24 bits are gathered from the four
/// symbols of group `j / 3` (the inverse of the layout of `sextet`).
pub open spec fn decoded_byte(t: Seq<u8>, j: int) -> u8
    recommends
        is_valid_b64(t),
{
    let v0 = sym_at(t, 4 * (j / 3));
    let v1 = sym_at(t, 4 * (j / 3) + 1);
    let v2 = sym_at(t, 4 * (j / 3) + 2);
    let v3 = sym_at(t, 4 * (j / 3) + 3);
    if j % 3 == 0 {
        (v0 * 4 + v1 / 16) as u8
    } else if j % 3 == 1 {
        ((v1 % 16) * 16 + v2 / 4) as u8
    } else {
        ((v2 % 4) * 64 + v3) as u8
    }
}

/// The decoding of a symbol sequence, meaningful when `t` is valid.
pub open spec fn decode_spec(t: Seq<u8>) -> Seq<u8> {
    Seq::new(decoded_len_spec(t.len()), |j: int| decoded_byte(t, j))
}

/// The characters of an ASCII byte sequence, one character per byte. The view
/// of the string that `encode_string` returns is this function of the encoded
/// bytes.
pub open spec fn chars_of_bytes(s: Seq<u8>) -> Seq<char> {
    s.map_values(|b: u8| b as char)
}

/// A symbol sequence is a valid encoding when every byte is an alphabet symbol
/// and the length does not leave a remainder of one modulo four.
pub open spec fn is_valid_b64(t: Seq<u8>) -> bool {
    &&& t.len() % 4 != 1
    &&& forall|i: int| 0 <= i < t.len() ==> is_b64_byte(#[trigger] t[i])
}

/// How the encoded length splits over whole chunks and the remainder of the
/// raw length modulo three.
pub proof fn lemma_encoded_len_split(n: nat)
    ensures
        n % 3 == 0 ==> encoded_len_spec(n) == 4 * (n / 3),
        n % 3 == 1 ==> encoded_len_spec(n) == 4 * (n / 3) + 2,
        n % 3 == 2 ==> encoded_len_spec(n) == 4 * (n / 3) + 3,
{
    let k = n as int / 3;
    let r = n as int % 3;
    lemma_fundamental_div_mod(n as int, 3);
    assert(n == 3 * k + r);
    if r == 0 {
        lemma_fundamental_div_mod_converse(4 * n as int + 2, 3, 4 * k, 2);
    } else if r == 1 {
        lemma_fundamental_div_mod_converse(4 * n as int + 2, 3, 4 * k + 2, 0);
    } else {
        lemma_fundamental_div_mod_converse(4 * n as int + 2, 3, 4 * k + 3, 1);
    }
}

/// How the decoded length splits over whole groups and the remainder of the
/// symbol length modulo four.
pub proof fn lemma_decoded_len_split(m: nat)
    ensures
        m % 4 == 0 ==> decoded_len_spec(m) == 3 * (m / 4),
        m % 4 == 1 ==> decoded_len_spec(m) == 3 * (m / 4),
        m % 4 == 2 ==> decoded_len_spec(m) == 3 * (m / 4) + 1,
        m % 4 == 3 ==> decoded_len_spec(m) == 3 * (m / 4) + 2,
{
    let k = m as int / 4;
    let r = m as int % 4;
    lemma_fundamental_div_mod(m as int, 4);
    assert(m == 4 * k + r);
    if r == 0 {
        lemma_fundamental_div_mod_converse(3 * m as int, 4, 3 * k, 0);
    } else if r == 1 {
        lemma_fundamental_div_mod_converse(3 * m as int, 4, 3 * k, 3);
    } else if r == 2 {
        lemma_fundamental_div_mod_converse(3 * m as int, 4, 3 * k + 1, 2);
    } else {
        lemma_fundamental_div_mod_converse(3 * m as int, 4, 3 * k + 2, 1);
    }
}

/// Rounding a division by three up by testing the remainder gives the same
/// value as adding two before dividing.
pub proof fn lemma_div3_round_up(q: int)
    requires
        0 <= q,
    ensures
        (q + 2) / 3 == q / 3 + (if q % 3 == 0 {
            0int
        } else {
            1int
        }),
{
    let k = q / 3;
    let r = q % 3;
    lemma_fundamental_div_mod(q, 3);
    assert(q == 3 * k + r);
    if r == 0 {
        lemma_fundamental_div_mod_converse(q + 2, 3, k, 2);
    } else if r == 1 {
        lemma_fundamental_div_mod_converse(q + 2, 3, k + 1, 0);
    } else {
        lemma_fundamental_div_mod_converse(q + 2, 3, k + 1, 1);
    }
}

/// Division and remainder of an offset into groups of a constant width.
pub proof fn lemma_group_index(w: int, k: int, j: int)
    requires
        0 < w,
        0 <= k,
        0 <= j < w,
    ensures
        (w * k + j) / w == k,
        (w * k + j) % w == j,
{
    lemma_mul_is_commutative(w, k);
    lemma_fundamental_div_mod_converse(w * k + j, w, k, j);
}

} // verus!
