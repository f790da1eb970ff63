//! The laws of the codec, stated over the model and proved once and for all:
//! the length formulas round exactly, encoding only ever emits alphabet
//! symbols, and decoding an encoding gives the original bytes back.

use crate::model::b64_char;
use crate::model::b64_value;
use crate::model::byte_at;
use crate::model::decode_spec;
use crate::model::decoded_byte;
use crate::model::decoded_len_spec;
use crate::model::encode_spec;
use crate::model::encoded_len_spec;
use crate::model::is_b64_byte;
use crate::model::is_valid_b64;
use crate::model::lemma_decoded_len_split;
use crate::model::lemma_encoded_len_split;
use crate::model::lemma_group_index;
use crate::model::sextet;
use crate::model::sym_at;
use vstd::arithmetic::div_mod::lemma_fundamental_div_mod;
use vstd::arithmetic::div_mod::lemma_fundamental_div_mod_converse;
use vstd::prelude::*;

verus! {

/// The encoded length is the exact rounding-up of `4 * n / 3`: it is the
/// least count of 6-bit symbols that can carry `8 * n` bits.
pub proof fn lemma_encoded_len_is_ceil(n: nat)
    ensures
        3 * encoded_len_spec(n) >= 4 * n,
        encoded_len_spec(n) > 0 ==> 3 * (encoded_len_spec(n) - 1) < 4 * n,
{
    lemma_fundamental_div_mod(n as int, 3);
    lemma_encoded_len_split(n);
}

/// The decoded length is the exact rounding-down of `3 * m / 4`: the count of
/// whole bytes carried by `6 * m` bits.
pub proof fn lemma_decoded_len_is_floor(m: nat)
    ensures
        4 * decoded_len_spec(m) <= 3 * m,
        3 * m < 4 * decoded_len_spec(m) + 4,
{
    lemma_fundamental_div_mod(m as int, 4);
    lemma_decoded_len_split(m);
}

/// Looking an alphabet index up and mapping the character back gives the index
/// again; in particular every alphabet character is a valid symbol.
pub proof fn lemma_char_value_inverse(v: int)
    requires
        0 <= v < 64,
    ensures
        is_b64_byte(b64_char(v)),
        b64_value(b64_char(v)) == v,
{
}

/// Every 6-bit group of a byte sequence is a 6-bit value.
pub proof fn lemma_sextet_in_range(s: Seq<u8>, i: int)
    ensures
        0 <= sextet(s, i) < 64,
{
    let b0 = byte_at(s, 3 * (i / 4)) as int;
    let b1 = byte_at(s, 3 * (i / 4) + 1) as int;
    let b2 = byte_at(s, 3 * (i / 4) + 2) as int;
    lemma_fundamental_div_mod(b0, 4);
    lemma_fundamental_div_mod(b1, 16);
    lemma_fundamental_div_mod(b2, 64);
}

/// Encoding never emits a byte outside the 64-symbol alphabet, and the length
/// of an encoding never leaves a remainder of one modulo four; so every
/// encoding is itself valid input for decoding.
pub proof fn lemma_encode_in_alphabet(s: Seq<u8>)
    ensures
        forall|i: int|
            0 <= i < encode_spec(s).len() ==> is_b64_byte(#[trigger] encode_spec(s)[i]),
        is_valid_b64(encode_spec(s)),
{
    let e = encode_spec(s);
    let n = s.len();
    assert forall|i: int| 0 <= i < e.len() implies is_b64_byte(#[trigger] e[i]) by {
        lemma_sextet_in_range(s, i);
        lemma_char_value_inverse(sextet(s, i));
    }
    lemma_fundamental_div_mod(n as int, 3);
    lemma_encoded_len_split(n);
    let k = n as int / 3;
    if n % 3 == 0 {
        lemma_group_index(4, k, 0);
    } else if n % 3 == 1 {
        lemma_group_index(4, k, 2);
    } else {
        lemma_group_index(4, k, 3);
    }
}

/// One byte of the round trip: byte `j` of the decoding of the encoding of
/// `s` is byte `j` of `s`.
proof fn lemma_round_trip_byte(s: Seq<u8>, j: int)
    requires
        0 <= j < s.len(),
    ensures
        decoded_byte(encode_spec(s), j) == s[j],
{
    let e = encode_spec(s);
    let n = s.len() as int;
    let k = j / 3;
    let r = j % 3;
    lemma_fundamental_div_mod(j, 3);
    lemma_fundamental_div_mod(n, 3);
    lemma_encoded_len_split(s.len());
    let b0 = byte_at(s, 3 * k) as int;
    let b1 = byte_at(s, 3 * k + 1) as int;
    let b2 = byte_at(s, 3 * k + 2) as int;
    lemma_fundamental_div_mod(b0, 4);
    lemma_fundamental_div_mod(b1, 16);
    lemma_fundamental_div_mod(b2, 64);
    lemma_group_index(4, k, 0);
    lemma_group_index(4, k, 1);
    lemma_group_index(4, k, 2);
    lemma_group_index(4, k, 3);
    assert(3 * k + r < n);
    assert(n / 3 >= k) by {
        if n / 3 < k {
            lemma_fundamental_div_mod_converse(n, 3, k, 3 * (n / 3) + n % 3 - 3 * k);
        }
    }
    assert(e.len() > 4 * k + 1);
    assert(r >= 1 ==> e.len() > 4 * k + 2);
    assert(r >= 2 ==> e.len() > 4 * k + 3);
    assert(sym_at(e, 4 * k) == sextet(s, 4 * k)) by {
        lemma_sextet_in_range(s, 4 * k);
        lemma_char_value_inverse(sextet(s, 4 * k));
    }
    assert(sym_at(e, 4 * k + 1) == sextet(s, 4 * k + 1)) by {
        lemma_sextet_in_range(s, 4 * k + 1);
        lemma_char_value_inverse(sextet(s, 4 * k + 1));
    }
    if r >= 1 {
        assert(sym_at(e, 4 * k + 2) == sextet(s, 4 * k + 2)) by {
            lemma_sextet_in_range(s, 4 * k + 2);
            lemma_char_value_inverse(sextet(s, 4 * k + 2));
        }
    }
    if r >= 2 {
        assert(sym_at(e, 4 * k + 3) == sextet(s, 4 * k + 3)) by {
            lemma_sextet_in_range(s, 4 * k + 3);
            lemma_char_value_inverse(sextet(s, 4 * k + 3));
        }
    }
    if r == 0 {
        let v0 = sextet(s, 4 * k);
        let v1 = sextet(s, 4 * k + 1);
        assert(v1 / 16 == b0 % 4) by {
            lemma_fundamental_div_mod_converse(v1, 16, b0 % 4, b1 / 16);
        }
        assert(v0 * 4 + v1 / 16 == b0);
    } else if r == 1 {
        let v1 = sextet(s, 4 * k + 1);
        let v2 = sextet(s, 4 * k + 2);
        assert(v1 % 16 == b1 / 16) by {
            lemma_fundamental_div_mod_converse(v1, 16, b0 % 4, b1 / 16);
        }
        assert(v2 / 4 == b1 % 16) by {
            lemma_fundamental_div_mod_converse(v2, 4, b1 % 16, b2 / 64);
        }
        assert((v1 % 16) * 16 + v2 / 4 == b1);
    } else {
        let v2 = sextet(s, 4 * k + 2);
        let v3 = sextet(s, 4 * k + 3);
        assert(v2 % 4 == b2 / 64) by {
            lemma_fundamental_div_mod_converse(v2, 4, b1 % 16, b2 / 64);
        }
        assert((v2 % 4) * 64 + v3 == b2);
    }
}

/// The round trip: every byte sequence decodes from its own encoding. The
/// encoding is valid decoder input, its decoded length is the original length,
/// and decoding gives the original bytes.
pub proof fn lemma_round_trip(s: Seq<u8>)
    ensures
        is_valid_b64(encode_spec(s)),
        decoded_len_spec(encode_spec(s).len()) == s.len(),
        decode_spec(encode_spec(s)) == s,
{
    let e = encode_spec(s);
    let n = s.len();
    lemma_encode_in_alphabet(s);
    lemma_fundamental_div_mod(n as int, 3);
    lemma_encoded_len_split(n);
    lemma_decoded_len_split(e.len());
    let k = n as int / 3;
    if n % 3 == 0 {
        lemma_group_index(4, k, 0);
    } else if n % 3 == 1 {
        lemma_group_index(4, k, 2);
    } else {
        lemma_group_index(4, k, 3);
    }
    assert(decoded_len_spec(e.len()) == n);
    assert forall|j: int| 0 <= j < n implies decode_spec(e)[j] == s[j] by {
        lemma_round_trip_byte(s, j);
    }
    assert(decode_spec(e) =~= s);
}

} // verus!
