//! The Bech32 address format: data bytes are regrouped into five-bit symbols,
//! written in a 32-character alphabet after a human-readable prefix and a
//! one-character separator, and protected by a six-symbol polymod checksum.
//!
//! Everything here is the library's own logic and is verified, including the
//! round trip: decoding an encoded address returns the original prefix and
//! data unchanged.

use vstd::arithmetic::div_mod::lemma_fundamental_div_mod;
use vstd::arithmetic::div_mod::lemma_fundamental_div_mod_converse;
use vstd::arithmetic::div_mod::lemma_div_pos_is_pos;
use vstd::arithmetic::div_mod::lemma_mod_division_less_than_divisor;
use vstd::prelude::*;

verus! {

/// The fixed one-character separator of the address format, as an ASCII byte
/// (the digit `1`, which the data alphabet deliberately omits).
pub const SEPARATOR: u8 = 49;

/// Number of five-bit symbols in a checksum.
pub const CHECKSUM_LEN: usize = 6;

/// The ASCII byte that writes a five-bit value, for values below 32.
/// Values of 32 and above are not part of the alphabet; they map to 0 here
/// and callers stay below 32.
pub open spec fn spec_charset(v: u8) -> u8 {
    match v {
        0 => 113,  // q
        1 => 112,  // p
        2 => 122,  // z
        3 => 114,  // r
        4 => 121,  // y
        5 => 57,   // 9
        6 => 120,  // x
        7 => 56,   // 8
        8 => 103,  // g
        9 => 102,  // f
        10 => 50,  // 2
        11 => 116, // t
        12 => 118, // v
        13 => 100, // d
        14 => 119, // w
        15 => 48,  // 0
        16 => 115, // s
        17 => 51,  // 3
        18 => 106, // j
        19 => 110, // n
        20 => 53,  // 5
        21 => 52,  // 4
        22 => 107, // k
        23 => 104, // h
        24 => 99,  // c
        25 => 101, // e
        26 => 54,  // 6
        27 => 109, // m
        28 => 117, // u
        29 => 97,  // a
        30 => 55,  // 7
        31 => 108, // l
        _ => 0,
    }
}

/// The five-bit value written by an ASCII byte, or `None` for a byte outside
/// the alphabet.
pub open spec fn spec_charset_rev(c: u8) -> Option<u8> {
    match c {
        113 => Some(0u8),
        112 => Some(1u8),
        122 => Some(2u8),
        114 => Some(3u8),
        121 => Some(4u8),
        57 => Some(5u8),
        120 => Some(6u8),
        56 => Some(7u8),
        103 => Some(8u8),
        102 => Some(9u8),
        50 => Some(10u8),
        116 => Some(11u8),
        118 => Some(12u8),
        100 => Some(13u8),
        119 => Some(14u8),
        48 => Some(15u8),
        115 => Some(16u8),
        51 => Some(17u8),
        106 => Some(18u8),
        110 => Some(19u8),
        53 => Some(20u8),
        52 => Some(21u8),
        107 => Some(22u8),
        104 => Some(23u8),
        99 => Some(24u8),
        101 => Some(25u8),
        54 => Some(26u8),
        109 => Some(27u8),
        117 => Some(28u8),
        97 => Some(29u8),
        55 => Some(30u8),
        108 => Some(31u8),
        _ => None,
    }
}

/// Reading a symbol back gives the value it was written from.
pub proof fn lemma_charset_round_trip(v: u8)
    requires
        v < 32,
    ensures
        spec_charset_rev(spec_charset(v)) == Some(v),
{
}

/// No symbol of the alphabet is the separator.
pub proof fn lemma_charset_no_separator(v: u8)
    requires
        v < 32,
    ensures
        spec_charset(v) != SEPARATOR,
{
}

/// Writes a five-bit value in the alphabet.
pub fn charset_byte(v: u8) -> (c: u8)
    requires
        v < 32,
    ensures
        c == spec_charset(v),
{
    match v {
        0 => 113,
        1 => 112,
        2 => 122,
        3 => 114,
        4 => 121,
        5 => 57,
        6 => 120,
        7 => 56,
        8 => 103,
        9 => 102,
        10 => 50,
        11 => 116,
        12 => 118,
        13 => 100,
        14 => 119,
        15 => 48,
        16 => 115,
        17 => 51,
        18 => 106,
        19 => 110,
        20 => 53,
        21 => 52,
        22 => 107,
        23 => 104,
        24 => 99,
        25 => 101,
        26 => 54,
        27 => 109,
        28 => 117,
        29 => 97,
        30 => 55,
        31 => 108,
        _ => 0,
    }
}

/// Reads a symbol of the alphabet back into its five-bit value.
pub fn charset_index(c: u8) -> (v: Option<u8>)
    ensures
        v == spec_charset_rev(c),
{
    match c {
        113 => Some(0u8),
        112 => Some(1u8),
        122 => Some(2u8),
        114 => Some(3u8),
        121 => Some(4u8),
        57 => Some(5u8),
        120 => Some(6u8),
        56 => Some(7u8),
        103 => Some(8u8),
        102 => Some(9u8),
        50 => Some(10u8),
        116 => Some(11u8),
        118 => Some(12u8),
        100 => Some(13u8),
        119 => Some(14u8),
        48 => Some(15u8),
        115 => Some(16u8),
        51 => Some(17u8),
        106 => Some(18u8),
        110 => Some(19u8),
        53 => Some(20u8),
        52 => Some(21u8),
        107 => Some(22u8),
        104 => Some(23u8),
        99 => Some(24u8),
        101 => Some(25u8),
        54 => Some(26u8),
        109 => Some(27u8),
        117 => Some(28u8),
        97 => Some(29u8),
        55 => Some(30u8),
        108 => Some(31u8),
        _ => None,
    }
}

/// All 32 symbols of the alphabet, in value order.
pub fn charset_bytes() -> (r: Vec<u8>)
    ensures
        r@.len() == 32,
        forall|i: int| 0 <= i < 32 ==> r@[i] == spec_charset(i as u8),
{
    let mut r: Vec<u8> = Vec::new();
    let mut v: u8 = 0;
    while v < 32
        invariant
            v <= 32,
            r@.len() == v as int,
            forall|i: int| 0 <= i < v as int ==> r@[i] == spec_charset(i as u8),
        decreases 32 - v,
    {
        r.push(charset_byte(v));
        v = v + 1;
    }
    r
}

/// Bit `i` (most-significant first) of a byte.
pub open spec fn byte_bit(b: u8, i: int) -> u8
    recommends
        0 <= i < 8,
{
    (b >> ((7 - i) as u8)) & 1
}

/// The bit stream a byte sequence spells, extended with zero padding: bit `i`
/// of the stream is bit `i % 8` of byte `i / 8`.
pub open spec fn padded_bit(bytes: Seq<u8>, i: int) -> u8 {
    if 0 <= i < 8 * bytes.len() {
        byte_bit(bytes[i / 8], i % 8)
    } else {
        0
    }
}

/// Number of five-bit groups that hold `n` bytes: the least count of groups
/// that covers `8 * n` bits.
pub open spec fn base32_len(n: int) -> int {
    (8 * n + 4) / 5
}

/// The value of one five-bit group, from its five bits.
pub open spec fn group_value(b0: u8, b1: u8, b2: u8, b3: u8, b4: u8) -> u8 {
    (16 * b0 + 8 * b1 + 4 * b2 + 2 * b3 + b4) as u8
}

/// A byte sequence regrouped into five-bit values, most-significant bit
/// first, the last group padded with zero bits.
pub open spec fn base32_groups(bytes: Seq<u8>) -> Seq<u8> {
    Seq::new(
        base32_len(bytes.len() as int) as nat,
        |j: int|
            group_value(
                padded_bit(bytes, 5 * j),
                padded_bit(bytes, 5 * j + 1),
                padded_bit(bytes, 5 * j + 2),
                padded_bit(bytes, 5 * j + 3),
                padded_bit(bytes, 5 * j + 4),
            ),
    )
}

/// Bit `k` (most-significant first) of a five-bit group.
pub open spec fn group_bit(g: u8, k: int) -> u8
    recommends
        0 <= k < 5,
{
    (g >> ((4 - k) as u8)) & 1
}

/// Bit `i` of the stream that a group sequence spells.
pub open spec fn stream_bit(groups: Seq<u8>, i: int) -> u8 {
    group_bit(groups[i / 5], i % 5)
}

/// Number of whole bytes in the bit stream of `m` five-bit groups.
pub open spec fn decoded_len(m: int) -> int {
    (5 * m) / 8
}

/// Byte `i` rebuilt from the bit stream of a group sequence.
pub open spec fn rebuilt_byte(groups: Seq<u8>, i: int) -> u8 {
    (128 * stream_bit(groups, 8 * i) + 64 * stream_bit(groups, 8 * i + 1) + 32 * stream_bit(
        groups,
        8 * i + 2,
    ) + 16 * stream_bit(groups, 8 * i + 3) + 8 * stream_bit(groups, 8 * i + 4) + 4 * stream_bit(
        groups,
        8 * i + 5,
    ) + 2 * stream_bit(groups, 8 * i + 6) + stream_bit(groups, 8 * i + 7)) as u8
}

/// A group sequence ends in valid padding: fewer than five bits are left over
/// after the last whole byte, and all of them are zero.
pub open spec fn padding_ok(groups: Seq<u8>) -> bool {
    &&& (5 * groups.len()) % 8 < 5
    &&& forall|i: int|
        8 * decoded_len(groups.len() as int) <= i < 5 * groups.len()
            ==> #[trigger] stream_bit(groups, i) == 0
}

/// The bytes a group sequence spells, or `None` when its tail is not the
/// zero padding the format prescribes.
pub open spec fn spec_from_base32(groups: Seq<u8>) -> Option<Seq<u8>> {
    if padding_ok(groups) {
        Some(Seq::new(decoded_len(groups.len() as int) as nat, |i: int| rebuilt_byte(groups, i)))
    } else {
        None
    }
}

proof fn lemma_shifted_bit_le_one(b: u8, s: u8)
    ensures
        (b >> s) & 1 <= 1,
{
    assert((b >> s) & 1 <= 1) by (bit_vector);
}

proof fn lemma_padded_bit_le_one(bytes: Seq<u8>, i: int)
    ensures
        padded_bit(bytes, i) <= 1,
{
    if 0 <= i < 8 * bytes.len() {
        lemma_shifted_bit_le_one(bytes[i / 8], (7 - i % 8) as u8);
    }
}

/// Each bit of a five-bit group can be read back from its value, and the
/// value stays below 32.
proof fn lemma_group_value_bits(b0: u8, b1: u8, b2: u8, b3: u8, b4: u8)
    requires
        b0 <= 1,
        b1 <= 1,
        b2 <= 1,
        b3 <= 1,
        b4 <= 1,
    ensures
        group_value(b0, b1, b2, b3, b4) < 32,
        group_bit(group_value(b0, b1, b2, b3, b4), 0) == b0,
        group_bit(group_value(b0, b1, b2, b3, b4), 1) == b1,
        group_bit(group_value(b0, b1, b2, b3, b4), 2) == b2,
        group_bit(group_value(b0, b1, b2, b3, b4), 3) == b3,
        group_bit(group_value(b0, b1, b2, b3, b4), 4) == b4,
{
    assert((((16 * b0 + 8 * b1 + 4 * b2 + 2 * b3 + b4) as u8) < 32) && ((((16 * b0 + 8 * b1 + 4
        * b2 + 2 * b3 + b4) as u8) >> 4u8) & 1 == b0) && ((((16 * b0 + 8 * b1 + 4 * b2 + 2 * b3
        + b4) as u8) >> 3u8) & 1 == b1) && ((((16 * b0 + 8 * b1 + 4 * b2 + 2 * b3 + b4) as u8)
        >> 2u8) & 1 == b2) && ((((16 * b0 + 8 * b1 + 4 * b2 + 2 * b3 + b4) as u8) >> 1u8) & 1 == b3)
        && ((((16 * b0 + 8 * b1 + 4 * b2 + 2 * b3 + b4) as u8) >> 0u8) & 1 == b4)) by (bit_vector)
        requires
            b0 <= 1 && b1 <= 1 && b2 <= 1 && b3 <= 1 && b4 <= 1,
    ;
}

/// A byte is the weighted sum of its eight bits.
proof fn lemma_byte_from_bits(b: u8)
    ensures
        128 * byte_bit(b, 0) + 64 * byte_bit(b, 1) + 32 * byte_bit(b, 2) + 16 * byte_bit(b, 3) + 8
            * byte_bit(b, 4) + 4 * byte_bit(b, 5) + 2 * byte_bit(b, 6) + byte_bit(b, 7) == b,
{
    assert(128 * ((b >> 7u8) & 1) + 64 * ((b >> 6u8) & 1) + 32 * ((b >> 5u8) & 1) + 16 * ((b >> 4u8)
        & 1) + 8 * ((b >> 3u8) & 1) + 4 * ((b >> 2u8) & 1) + 2 * ((b >> 1u8) & 1) + ((b >> 0u8) & 1)
        == b) by (bit_vector);
}

/// How the group count of `n` bytes relates to the byte count read back from
/// those groups: the groups cover all bits with fewer than five left over.
proof fn lemma_base32_len_arith(n: int)
    requires
        n >= 0,
    ensures
        8 * n <= 5 * base32_len(n) <= 8 * n + 4,
        decoded_len(base32_len(n)) == n,
        (5 * base32_len(n)) % 8 == 5 * base32_len(n) - 8 * n,
{
    let m = base32_len(n);
    lemma_fundamental_div_mod(8 * n + 4, 5);
    lemma_mod_division_less_than_divisor(8 * n + 4, 5);
    assert(8 * n <= 5 * m <= 8 * n + 4);
    let r = 5 * m - 8 * n;
    lemma_fundamental_div_mod_converse(5 * m, 8, n, r);
}

/// Regrouping is lossless: reading the five-bit groups of any byte sequence
/// back yields exactly that sequence, and the padding is valid.
pub proof fn lemma_base32_round_trip(bytes: Seq<u8>)
    ensures
        spec_from_base32(base32_groups(bytes)) == Some(bytes),
{
    let n = bytes.len() as int;
    let g = base32_groups(bytes);
    let m = base32_len(n);
    lemma_base32_len_arith(n);
    assert(g.len() == m);

    assert forall|i: int| 0 <= i < 5 * m implies #[trigger] stream_bit(g, i) == padded_bit(
        bytes,
        i,
    ) by {
        let j = i / 5;
        let k = i % 5;
        lemma_fundamental_div_mod(i, 5);
        lemma_mod_division_less_than_divisor(i, 5);
        lemma_div_pos_is_pos(i, 5);
        assert(i == 5 * j + k);
        assert(0 <= k < 5);
        assert(5 * j < 5 * m);
        let b0 = padded_bit(bytes, 5 * j);
        let b1 = padded_bit(bytes, 5 * j + 1);
        let b2 = padded_bit(bytes, 5 * j + 2);
        let b3 = padded_bit(bytes, 5 * j + 3);
        let b4 = padded_bit(bytes, 5 * j + 4);
        lemma_padded_bit_le_one(bytes, 5 * j);
        lemma_padded_bit_le_one(bytes, 5 * j + 1);
        lemma_padded_bit_le_one(bytes, 5 * j + 2);
        lemma_padded_bit_le_one(bytes, 5 * j + 3);
        lemma_padded_bit_le_one(bytes, 5 * j + 4);
        lemma_group_value_bits(b0, b1, b2, b3, b4);
        assert(g[j] == group_value(b0, b1, b2, b3, b4));
        if k == 0 {
            assert(stream_bit(g, i) == b0);
        } else if k == 1 {
            assert(stream_bit(g, i) == b1);
        } else if k == 2 {
            assert(stream_bit(g, i) == b2);
        } else if k == 3 {
            assert(stream_bit(g, i) == b3);
        } else {
            assert(stream_bit(g, i) == b4);
        }
    };

    assert forall|i: int| 8 * decoded_len(m) <= i < 5 * m implies #[trigger] stream_bit(g, i)
        == 0 by {
        assert(i >= 8 * n);
        assert(padded_bit(bytes, i) == 0);
    };
    assert(padding_ok(g));

    let rebuilt = Seq::new(decoded_len(m) as nat, |i: int| rebuilt_byte(g, i));
    assert forall|i: int| 0 <= i < n implies #[trigger] rebuilt[i] == bytes[i] by {
        lemma_byte_from_bits(bytes[i]);
        lemma_fundamental_div_mod_converse(8 * i + 0, 8, i, 0);
        lemma_fundamental_div_mod_converse(8 * i + 1, 8, i, 1);
        lemma_fundamental_div_mod_converse(8 * i + 2, 8, i, 2);
        lemma_fundamental_div_mod_converse(8 * i + 3, 8, i, 3);
        lemma_fundamental_div_mod_converse(8 * i + 4, 8, i, 4);
        lemma_fundamental_div_mod_converse(8 * i + 5, 8, i, 5);
        lemma_fundamental_div_mod_converse(8 * i + 6, 8, i, 6);
        lemma_fundamental_div_mod_converse(8 * i + 7, 8, i, 7);
        assert(8 * i + 7 < 5 * m);
        assert(rebuilt_byte(g, i) == (128 * byte_bit(bytes[i], 0) + 64 * byte_bit(bytes[i], 1) + 32
            * byte_bit(bytes[i], 2) + 16 * byte_bit(bytes[i], 3) + 8 * byte_bit(bytes[i], 4) + 4
            * byte_bit(bytes[i], 5) + 2 * byte_bit(bytes[i], 6) + byte_bit(bytes[i], 7)) as u8);
    };
    assert(rebuilt =~= bytes);
    assert(spec_from_base32(g) == Some(rebuilt));
}

/// Every five-bit group of a regrouped sequence is below 32.
pub proof fn lemma_base32_groups_bounded(bytes: Seq<u8>)
    ensures
        forall|j: int| 0 <= j < base32_groups(bytes).len() ==> #[trigger] base32_groups(bytes)[j]
            < 32,
{
    assert forall|j: int|
        0 <= j < base32_groups(bytes).len() implies #[trigger] base32_groups(bytes)[j] < 32 by {
        lemma_padded_bit_le_one(bytes, 5 * j);
        lemma_padded_bit_le_one(bytes, 5 * j + 1);
        lemma_padded_bit_le_one(bytes, 5 * j + 2);
        lemma_padded_bit_le_one(bytes, 5 * j + 3);
        lemma_padded_bit_le_one(bytes, 5 * j + 4);
        lemma_group_value_bits(
            padded_bit(bytes, 5 * j),
            padded_bit(bytes, 5 * j + 1),
            padded_bit(bytes, 5 * j + 2),
            padded_bit(bytes, 5 * j + 3),
            padded_bit(bytes, 5 * j + 4),
        );
    };
}

/// One bit of the zero-padded stream of a byte sequence.
fn padded_bit_at(bytes: &Vec<u8>, i: usize) -> (r: u8)
    ensures
        r == padded_bit(bytes@, i as int),
        r <= 1,
{
    let n = bytes.len();
    proof {
        lemma_fundamental_div_mod(i as int, 8);
        lemma_mod_division_less_than_divisor(i as int, 8);
        lemma_padded_bit_le_one(bytes@, i as int);
    }
    if i / 8 < n {
        let b = bytes[i / 8];
        let k = i % 8;
        (b >> ((7 - k) as u8)) & 1
    } else {
        0
    }
}

/// One bit of the stream that a group sequence spells.
fn stream_bit_at(groups: &Vec<u8>, i: usize) -> (r: u8)
    requires
        (i as int) < 5 * groups@.len(),
    ensures
        r == stream_bit(groups@, i as int),
        r <= 1,
{
    proof {
        lemma_fundamental_div_mod(i as int, 5);
        lemma_mod_division_less_than_divisor(i as int, 5);
        lemma_shifted_bit_le_one(groups@[i as int / 5], (4 - (i as int) % 5) as u8);
    }
    let j = i / 5;
    let k = i % 5;
    let g = groups[j];
    (g >> ((4 - k) as u8)) & 1
}

/// Regroups bytes into five-bit values, most-significant bit first, the last
/// group padded with zero bits.
pub fn to_base32(bytes: &Vec<u8>) -> (r: Vec<u8>)
    requires
        8 * bytes@.len() + 4 <= usize::MAX,
    ensures
        r@ == base32_groups(bytes@),
{
    let n = bytes.len();
    let m = (8 * n + 4) / 5;
    proof {
        lemma_base32_len_arith(n as int);
    }
    let mut r: Vec<u8> = Vec::new();
    let mut j: usize = 0;
    while j < m
        invariant
            n == bytes@.len(),
            m == base32_len(n as int),
            5 * m <= 8 * n + 4,
            8 * n + 4 <= usize::MAX,
            j <= m,
            r@.len() == j as int,
            forall|t: int| 0 <= t < j as int ==> r@[t] == base32_groups(bytes@)[t],
        decreases m - j,
    {
        let b0 = padded_bit_at(bytes, 5 * j);
        let b1 = padded_bit_at(bytes, 5 * j + 1);
        let b2 = padded_bit_at(bytes, 5 * j + 2);
        let b3 = padded_bit_at(bytes, 5 * j + 3);
        let b4 = padded_bit_at(bytes, 5 * j + 4);
        let g = 16 * b0 + 8 * b1 + 4 * b2 + 2 * b3 + b4;
        assert(g == base32_groups(bytes@)[j as int]);
        r.push(g);
        j = j + 1;
    }
    proof {
        assert(r@ =~= base32_groups(bytes@));
    }
    r
}

/// Reads the bytes back out of a sequence of five-bit groups; `None` when the
/// tail is not the zero padding the format prescribes.
pub fn from_base32(groups: &Vec<u8>) -> (r: Option<Vec<u8>>)
    requires
        5 * groups@.len() <= usize::MAX,
    ensures
        match r {
            Some(v) => spec_from_base32(groups@) == Some(v@),
            None => spec_from_base32(groups@) is None,
        },
{
    let m = groups.len();
    let total = 5 * m;
    let out_len = total / 8;
    let rem = total % 8;
    proof {
        lemma_fundamental_div_mod(total as int, 8);
        lemma_mod_division_less_than_divisor(total as int, 8);
    }
    if rem >= 5 {
        return None;
    }
    let mut i = 8 * out_len;
    while i < total
        invariant
            m == groups@.len(),
            total == 5 * m,
            out_len == decoded_len(m as int),
            8 * out_len <= i <= total,
            forall|t: int| 8 * out_len <= t < i as int ==> #[trigger] stream_bit(groups@, t) == 0,
        decreases total - i,
    {
        if stream_bit_at(groups, i) != 0 {
            return None;
        }
        i = i + 1;
    }
    let mut v: Vec<u8> = Vec::new();
    let mut t: usize = 0;
    while t < out_len
        invariant
            m == groups@.len(),
            total == 5 * m,
            total <= usize::MAX,
            out_len == decoded_len(m as int),
            8 * out_len <= total,
            t <= out_len,
            v@.len() == t as int,
            forall|q: int| 0 <= q < t as int ==> v@[q] == rebuilt_byte(groups@, q),
        decreases out_len - t,
    {
        let s0 = stream_bit_at(groups, 8 * t);
        let s1 = stream_bit_at(groups, 8 * t + 1);
        let s2 = stream_bit_at(groups, 8 * t + 2);
        let s3 = stream_bit_at(groups, 8 * t + 3);
        let s4 = stream_bit_at(groups, 8 * t + 4);
        let s5 = stream_bit_at(groups, 8 * t + 5);
        let s6 = stream_bit_at(groups, 8 * t + 6);
        let s7 = stream_bit_at(groups, 8 * t + 7);
        let b = 128 * s0 + 64 * s1 + 32 * s2 + 16 * s3 + 8 * s4 + 4 * s5 + 2 * s6 + s7;
        assert(b == rebuilt_byte(groups@, t as int));
        v.push(b);
        t = t + 1;
    }
    proof {
        assert(padding_ok(groups@));
        assert(v@ =~= Seq::new(
            decoded_len(groups@.len() as int) as nat,
            |i: int| rebuilt_byte(groups@, i),
        ));
    }
    Some(v)
}

/// One step of the checksum polymod: shift the 25-bit state up by five bits,
/// mix in the next five-bit value, and fold each bit shifted out back in
/// with its generator constant.
pub open spec fn polymod_step(chk: u32, v: u8) -> u32 {
    ((chk & 0x1ffffff) << 5u32) ^ (v as u32) ^ ((((chk >> 25u32) & 1) * 0x3b6a57b2) as u32) ^ ((((
    chk >> 26u32) & 1) * 0x26508e6d) as u32) ^ ((((chk >> 27u32) & 1) * 0x1ea119fa) as u32) ^ ((((
    chk >> 28u32) & 1) * 0x3d4233dd) as u32) ^ ((((chk >> 29u32) & 1) * 0x2a1462b3) as u32)
}

/// The checksum state after absorbing a sequence of five-bit values,
/// starting from `start`.
pub open spec fn polymod_from(start: u32, values: Seq<u8>) -> u32
    decreases values.len(),
{
    if values.len() == 0 {
        start
    } else {
        polymod_step(polymod_from(start, values.drop_last()), values.last())
    }
}

/// The checksum polymod of a value sequence, from the format's initial state.
pub open spec fn spec_polymod(values: Seq<u8>) -> u32 {
    polymod_from(1u32, values)
}

/// The human-readable prefix, expanded for the checksum: the high three bits
/// of each byte, a zero, then the low five bits of each byte.
pub open spec fn spec_hrp_expand(hrp: Seq<u8>) -> Seq<u8> {
    Seq::new(hrp.len(), |i: int| hrp[i] >> 5u8) + seq![0u8] + Seq::new(
        hrp.len(),
        |i: int| hrp[i] & 31,
    )
}

/// A run of zero values.
pub open spec fn zero_values(n: nat) -> Seq<u8> {
    Seq::new(n, |i: int| 0u8)
}

/// The six five-bit words of a 30-bit checksum state, high word first.
pub open spec fn checksum_words(target: u32) -> Seq<u8> {
    Seq::new(6, |i: int| ((target >> ((5 * (5 - i)) as u32)) & 31) as u8)
}

/// The six five-bit checksum symbols for a prefix and data payload.
pub open spec fn spec_checksum(hrp: Seq<u8>, data: Seq<u8>) -> Seq<u8> {
    checksum_words(spec_polymod(spec_hrp_expand(hrp) + data + zero_values(6)) ^ 1u32)
}

/// The polymod step distributes over exclusive-or of states and values.
proof fn lemma_step_linear(c1: u32, c2: u32, v1: u8, v2: u8)
    ensures
        polymod_step(c1 ^ c2, v1 ^ v2) == polymod_step(c1, v1) ^ polymod_step(c2, v2),
{
    assert(polymod_step(c1 ^ c2, v1 ^ v2) == polymod_step(c1, v1) ^ polymod_step(c2, v2))
        by (bit_vector);
}

/// Absorbing a sequence is absorbing zeros, folded with absorbing the
/// sequence from the zero state.
proof fn lemma_polymod_split_zero(c: u32, s: Seq<u8>)
    ensures
        polymod_from(c, s) == polymod_from(c, zero_values(s.len())) ^ polymod_from(0u32, s),
    decreases s.len(),
{
    if s.len() == 0 {
        assert(c ^ 0u32 == c) by (bit_vector);
    } else {
        let n = s.len();
        lemma_polymod_split_zero(c, s.drop_last());
        assert(zero_values(n).drop_last() =~= zero_values((n - 1) as nat));
        assert(zero_values(n).last() == 0u8);
        let a = polymod_from(c, zero_values((n - 1) as nat));
        let b = polymod_from(0u32, s.drop_last());
        lemma_step_linear(a, b, 0u8, s.last());
        let v = s.last();
        assert(0u8 ^ v == v) by (bit_vector);
    }
}

/// Absorbing a concatenation is absorbing the parts in turn.
proof fn lemma_polymod_append(start: u32, a: Seq<u8>, b: Seq<u8>)
    ensures
        polymod_from(start, a + b) == polymod_from(polymod_from(start, a), b),
    decreases b.len(),
{
    if b.len() == 0 {
        assert(a + b =~= a);
    } else {
        lemma_polymod_append(start, a, b.drop_last());
        assert((a + b).drop_last() =~= a + b.drop_last());
        assert((a + b).last() == b.last());
    }
}

/// The polymod state always stays below two to the thirtieth.
proof fn lemma_polymod_step_bound(chk: u32, v: u8)
    ensures
        polymod_step(chk, v) < 0x40000000u32,
{
    assert(polymod_step(chk, v) < 0x40000000u32) by (bit_vector);
}

proof fn lemma_polymod_from_bound(start: u32, s: Seq<u8>)
    requires
        start < 0x40000000u32,
    ensures
        polymod_from(start, s) < 0x40000000u32,
    decreases s.len(),
{
    if s.len() == 0 {
    } else {
        lemma_polymod_from_bound(start, s.drop_last());
        lemma_polymod_step_bound(polymod_from(start, s.drop_last()), s.last());
    }
}

/// Unfolds one step of absorbing a prefix of a sequence.
proof fn lemma_polymod_take_step(start: u32, s: Seq<u8>, k: int)
    requires
        0 <= k < s.len(),
    ensures
        polymod_from(start, s.take(k + 1)) == polymod_step(polymod_from(start, s.take(k)), s[k]),
{
    assert(s.take(k + 1).drop_last() =~= s.take(k));
    assert(s.take(k + 1).last() == s[k]);
}

/// Feeding the six five-bit words of a 30-bit state into the polymod from
/// the zero state reproduces that state.
proof fn lemma_feed_words(u: u32)
    requires
        u < 0x40000000u32,
    ensures
        polymod_from(0u32, checksum_words(u)) == u,
{
    let w = checksum_words(u);
    assert(w.take(0) =~= Seq::<u8>::empty());
    lemma_polymod_take_step(0u32, w, 0);
    lemma_polymod_take_step(0u32, w, 1);
    lemma_polymod_take_step(0u32, w, 2);
    lemma_polymod_take_step(0u32, w, 3);
    lemma_polymod_take_step(0u32, w, 4);
    lemma_polymod_take_step(0u32, w, 5);
    assert(w.take(6) =~= w);
    assert(polymod_step(
        polymod_step(
            polymod_step(
                polymod_step(
                    polymod_step(
                        polymod_step(0u32, ((u >> 25u32) & 31) as u8),
                        ((u >> 20u32) & 31) as u8,
                    ),
                    ((u >> 15u32) & 31) as u8,
                ),
                ((u >> 10u32) & 31) as u8,
            ),
            ((u >> 5u32) & 31) as u8,
        ),
        ((u >> 0u32) & 31) as u8,
    ) == u) by (bit_vector)
        requires
            u < 0x40000000u32,
    ;
}

/// Every checksum word is a five-bit value.
proof fn lemma_checksum_words_bounded(target: u32)
    ensures
        forall|i: int| 0 <= i < 6 ==> #[trigger] checksum_words(target)[i] < 32,
{
    assert forall|i: int| 0 <= i < 6 implies #[trigger] checksum_words(target)[i] < 32 by {
        let s = (5 * (5 - i)) as u32;
        assert((((target >> s) & 31) as u8) < 32) by (bit_vector);
    };
}

/// Appending the checksum to the expanded prefix and data always yields a
/// sequence whose polymod is the format's residue constant, one.
pub proof fn lemma_checksum_verifies(hrp: Seq<u8>, data: Seq<u8>)
    ensures
        spec_polymod(spec_hrp_expand(hrp) + data + spec_checksum(hrp, data)) == 1u32,
{
    let x = spec_hrp_expand(hrp) + data;
    let pm0 = spec_polymod(x + zero_values(6));
    let target = pm0 ^ 1u32;
    let cs = checksum_words(target);
    lemma_polymod_append(1u32, x, cs);
    lemma_polymod_append(1u32, x, zero_values(6));
    let c = spec_polymod(x);
    lemma_polymod_split_zero(c, cs);
    assert(cs.len() == 6);
    lemma_polymod_from_bound(1u32, x + zero_values(6));
    assert(pm0 < 0x40000000u32 ==> (pm0 ^ 1u32) < 0x40000000u32) by (bit_vector);
    lemma_feed_words(target);
    assert(pm0 ^ (pm0 ^ 1u32) == 1u32) by (bit_vector);
}

/// The value sequences folded element by element.
spec fn xor_seq(a: Seq<u8>, b: Seq<u8>) -> Seq<u8>
    recommends
        a.len() == b.len(),
{
    Seq::new(a.len(), |i: int| a[i] ^ b[i])
}

/// Folding two absorptions of equal length distributes over exclusive-or.
proof fn lemma_fold_xor(c1: u32, c2: u32, s1: Seq<u8>, s2: Seq<u8>)
    requires
        s1.len() == s2.len(),
    ensures
        polymod_from(c1, s1) ^ polymod_from(c2, s2) == polymod_from(c1 ^ c2, xor_seq(s1, s2)),
    decreases s1.len(),
{
    if s1.len() == 0 {
    } else {
        lemma_fold_xor(c1, c2, s1.drop_last(), s2.drop_last());
        assert(xor_seq(s1, s2).drop_last() =~= xor_seq(s1.drop_last(), s2.drop_last()));
        assert(xor_seq(s1, s2).last() == s1.last() ^ s2.last());
        lemma_step_linear(
            polymod_from(c1, s1.drop_last()),
            polymod_from(c2, s2.drop_last()),
            s1.last(),
            s2.last(),
        );
    }
}

/// Absorbing only zeros from the zero state stays at zero.
proof fn lemma_fold_zeros(n: nat)
    ensures
        polymod_from(0u32, zero_values(n)) == 0u32,
    decreases n,
{
    if n > 0 {
        lemma_fold_zeros((n - 1) as nat);
        assert(zero_values(n).drop_last() =~= zero_values((n - 1) as nat));
        assert(zero_values(n).last() == 0u8);
        assert(polymod_step(0u32, 0u8) == 0u32) by (bit_vector);
    }
}

/// A zero value never collapses a nonzero state to zero: the polymod step is
/// injective on the 30-bit states it produces.
proof fn lemma_step_keeps_nonzero(x: u32)
    requires
        x < 0x40000000u32,
        x != 0u32,
    ensures
        polymod_step(x, 0u8) != 0u32,
        polymod_step(x, 0u8) < 0x40000000u32,
{
    assert(x < 0x40000000u32 && x != 0u32 ==> polymod_step(x, 0u8) != 0u32) by (bit_vector);
    lemma_polymod_step_bound(x, 0u8);
}

/// Absorbing a sequence with exactly one nonzero five-bit value from the
/// zero state never returns to zero.
proof fn lemma_single_nonzero_fold(delta: Seq<u8>, i: int)
    requires
        0 <= i < delta.len(),
        delta[i] != 0,
        delta[i] < 32,
        forall|j: int| 0 <= j < delta.len() && j != i ==> delta[j] == 0,
    ensures
        polymod_from(0u32, delta) != 0u32,
        polymod_from(0u32, delta) < 0x40000000u32,
    decreases delta.len(),
{
    lemma_polymod_from_bound(0u32, delta);
    if i == delta.len() - 1 {
        assert(delta.drop_last() =~= zero_values((delta.len() - 1) as nat));
        lemma_fold_zeros((delta.len() - 1) as nat);
        let d = delta.last();
        assert(d < 32 && d != 0 ==> polymod_step(0u32, d) != 0u32) by (bit_vector);
    } else {
        lemma_single_nonzero_fold(delta.drop_last(), i);
        lemma_step_keeps_nonzero(polymod_from(0u32, delta.drop_last()));
        assert(delta.last() == 0u8);
    }
}

/// The checksum detects every single-character error: a payload whose
/// polymod verifies stops verifying when any one of its five-bit values is
/// changed to any other value.
pub proof fn lemma_checksum_detects_single_error(hrp: Seq<u8>, values: Seq<u8>, i: int, v: u8)
    requires
        spec_polymod(spec_hrp_expand(hrp) + values) == 1u32,
        0 <= i < values.len(),
        v < 32,
        values[i] < 32,
        v != values[i],
    ensures
        spec_polymod(spec_hrp_expand(hrp) + values.update(i, v)) != 1u32,
{
    let e = spec_hrp_expand(hrp);
    let a = e + values;
    let b = e + values.update(i, v);
    let pos = e.len() + i;
    if spec_polymod(b) == 1u32 {
        lemma_fold_xor(1u32, 1u32, a, b);
        let delta = xor_seq(a, b);
        assert(1u32 ^ 1u32 == 0u32) by (bit_vector);
        let vi = values[i];
        assert(vi < 32 && v < 32 && v != vi ==> (vi ^ v) != 0 && (vi ^ v) < 32) by (bit_vector);
        assert(delta[pos as int] == vi ^ v);
        assert forall|j: int| 0 <= j < delta.len() && j != pos as int implies delta[j] == 0 by {
            let x = a[j];
            assert(a[j] == b[j]);
            assert(x ^ x == 0u8) by (bit_vector);
        };
        lemma_single_nonzero_fold(delta, pos as int);
        assert(false);
    }
}

/// The polymod of a value sequence, computed step by step.
pub fn polymod(values: &Vec<u8>) -> (r: u32)
    ensures
        r == spec_polymod(values@),
{
    let mut chk: u32 = 1;
    let mut i: usize = 0;
    while i < values.len()
        invariant
            i <= values@.len(),
            chk == polymod_from(1u32, values@.take(i as int)),
        decreases values@.len() - i,
    {
        let v = values[i];
        let base = ((chk & 0x1ffffff) << 5u32) ^ (v as u32);
        let t0 = if (chk >> 25u32) & 1 == 1 { 0x3b6a57b2u32 } else { 0u32 };
        let t1 = if (chk >> 26u32) & 1 == 1 { 0x26508e6du32 } else { 0u32 };
        let t2 = if (chk >> 27u32) & 1 == 1 { 0x1ea119fau32 } else { 0u32 };
        let t3 = if (chk >> 28u32) & 1 == 1 { 0x3d4233ddu32 } else { 0u32 };
        let t4 = if (chk >> 29u32) & 1 == 1 { 0x2a1462b3u32 } else { 0u32 };
        let nxt = base ^ t0 ^ t1 ^ t2 ^ t3 ^ t4;
        proof {
            let ck = chk;
            assert(((ck >> 25u32) & 1) <= 1 && ((ck >> 26u32) & 1) <= 1 && ((ck >> 27u32) & 1) <= 1
                && ((ck >> 28u32) & 1) <= 1 && ((ck >> 29u32) & 1) <= 1) by (bit_vector);
            assert(nxt == polymod_step(chk, v));
            assert(values@.take(i as int + 1).drop_last() =~= values@.take(i as int));
            assert(values@.take(i as int + 1).last() == values@[i as int]);
        }
        chk = nxt;
        i = i + 1;
    }
    proof {
        assert(values@.take(values@.len() as int) =~= values@);
    }
    chk
}

/// Expands the human-readable prefix for the checksum.
pub fn hrp_expand(hrp: &Vec<u8>) -> (r: Vec<u8>)
    ensures
        r@ == spec_hrp_expand(hrp@),
{
    let n = hrp.len();
    let mut r: Vec<u8> = Vec::new();
    let mut i: usize = 0;
    while i < n
        invariant
            n == hrp@.len(),
            i <= n,
            r@.len() == i as int,
            forall|t: int| 0 <= t < i as int ==> r@[t] == hrp@[t] >> 5u8,
        decreases n - i,
    {
        r.push(hrp[i] >> 5u8);
        i = i + 1;
    }
    r.push(0u8);
    let mut k: usize = 0;
    while k < n
        invariant
            n == hrp@.len(),
            k <= n,
            r@.len() == n + 1 + k as int,
            forall|t: int| 0 <= t < n ==> r@[t] == hrp@[t] >> 5u8,
            r@[n as int] == 0u8,
            forall|t: int| 0 <= t < k as int ==> r@[n + 1 + t] == hrp@[t] & 31,
        decreases n - k,
    {
        r.push(hrp[k] & 31);
        k = k + 1;
    }
    proof {
        assert(r@ =~= spec_hrp_expand(hrp@));
    }
    r
}

/// The six checksum symbols for a prefix and a five-bit data payload.
pub fn create_checksum(hrp: &Vec<u8>, data5: &Vec<u8>) -> (r: Vec<u8>)
    requires
        hrp@.len() <= 16384,
        data5@.len() <= 32768,
    ensures
        r@ == spec_checksum(hrp@, data5@),
        r@.len() == 6,
        forall|i: int| 0 <= i < 6 ==> r@[i] < 32,
{
    let mut values = hrp_expand(hrp);
    let mut i: usize = 0;
    while i < data5.len()
        invariant
            i <= data5@.len(),
            values@ == spec_hrp_expand(hrp@) + data5@.take(i as int),
        decreases data5@.len() - i,
    {
        values.push(data5[i]);
        proof {
            assert(spec_hrp_expand(hrp@) + data5@.take(i as int + 1) =~= (spec_hrp_expand(hrp@)
                + data5@.take(i as int)).push(data5@[i as int]));
        }
        i = i + 1;
    }
    proof {
        assert(data5@.take(data5@.len() as int) =~= data5@);
    }
    let mut k: usize = 0;
    while k < CHECKSUM_LEN
        invariant
            k <= 6,
            values@ == spec_hrp_expand(hrp@) + data5@ + zero_values(k as nat),
        decreases 6 - k,
    {
        values.push(0u8);
        proof {
            assert(spec_hrp_expand(hrp@) + data5@ + zero_values((k + 1) as nat) =~= (
            spec_hrp_expand(hrp@) + data5@ + zero_values(k as nat)).push(0u8));
        }
        k = k + 1;
    }
    let pm = polymod(&values);
    let target = pm ^ 1u32;
    let mut r: Vec<u8> = Vec::new();
    r.push(((target >> 25u32) & 31) as u8);
    r.push(((target >> 20u32) & 31) as u8);
    r.push(((target >> 15u32) & 31) as u8);
    r.push(((target >> 10u32) & 31) as u8);
    r.push(((target >> 5u32) & 31) as u8);
    r.push(((target >> 0u32) & 31) as u8);
    proof {
        lemma_checksum_words_bounded(target);
        assert(r@ =~= checksum_words(target));
    }
    r
}

/// A human-readable prefix the format accepts: one to eighty-three bytes,
/// each a printable ASCII character.
pub open spec fn valid_hrp(h: Seq<u8>) -> bool {
    &&& 1 <= h.len() <= 83
    &&& forall|i: int| 0 <= i < h.len() ==> 33 <= #[trigger] h[i] <= 126
}

/// The five-bit payload written after the separator: the data groups
/// followed by their checksum.
pub open spec fn spec_encode_payload(hrp: Seq<u8>, data5: Seq<u8>) -> Seq<u8> {
    data5 + spec_checksum(hrp, data5)
}

/// An encoded string: the prefix, the separator, and the payload written in
/// the alphabet.
pub open spec fn spec_encode(hrp: Seq<u8>, data5: Seq<u8>) -> Seq<u8> {
    hrp + seq![SEPARATOR] + Seq::new(
        spec_encode_payload(hrp, data5).len(),
        |i: int| spec_charset(spec_encode_payload(hrp, data5)[i]),
    )
}

/// An encoded address: the data bytes regrouped into five-bit values, then
/// encoded under the prefix.
pub open spec fn spec_encode_address(hrp: Seq<u8>, data: Seq<u8>) -> Seq<u8> {
    spec_encode(hrp, base32_groups(data))
}

/// Encodes a five-bit payload under a prefix.
pub fn encode(hrp: &Vec<u8>, data5: &Vec<u8>) -> (r: Vec<u8>)
    requires
        hrp@.len() <= 16384,
        data5@.len() <= 32768,
        forall|i: int| 0 <= i < data5@.len() ==> data5@[i] < 32,
    ensures
        r@ == spec_encode(hrp@, data5@),
{
    let cs = create_checksum(hrp, data5);
    let ghost payload = spec_encode_payload(hrp@, data5@);
    let mut r: Vec<u8> = Vec::new();
    let mut i: usize = 0;
    while i < hrp.len()
        invariant
            i <= hrp@.len(),
            r@ == hrp@.take(i as int),
        decreases hrp@.len() - i,
    {
        r.push(hrp[i]);
        proof {
            assert(hrp@.take(i as int + 1) =~= hrp@.take(i as int).push(hrp@[i as int]));
        }
        i = i + 1;
    }
    proof {
        assert(hrp@.take(hrp@.len() as int) =~= hrp@);
    }
    r.push(SEPARATOR);
    proof {
        assert(r@ =~= hrp@ + seq![SEPARATOR]);
    }
    let mut k: usize = 0;
    while k < data5.len()
        invariant
            k <= data5@.len(),
            data5@.len() <= 32768,
            payload == spec_encode_payload(hrp@, data5@),
            payload.len() == data5@.len() + 6,
            cs@ == spec_checksum(hrp@, data5@),
            forall|t: int| 0 <= t < data5@.len() ==> data5@[t] < 32,
            r@.len() == hrp@.len() + 1 + k as int,
            r@.take(hrp@.len() as int + 1) =~= hrp@ + seq![SEPARATOR],
            forall|t: int|
                0 <= t < k as int ==> r@[hrp@.len() + 1 + t] == spec_charset(payload[t]),
        decreases data5@.len() - k,
    {
        r.push(charset_byte(data5[k]));
        k = k + 1;
    }
    let mut c: usize = 0;
    while c < CHECKSUM_LEN
        invariant
            c <= 6,
            payload == spec_encode_payload(hrp@, data5@),
            payload.len() == data5@.len() + 6,
            cs@ == spec_checksum(hrp@, data5@),
            cs@.len() == 6,
            forall|t: int| 0 <= t < 6 ==> cs@[t] < 32,
            r@.len() == hrp@.len() + 1 + data5@.len() + c as int,
            r@.take(hrp@.len() as int + 1) =~= hrp@ + seq![SEPARATOR],
            forall|t: int|
                0 <= t < data5@.len() + c as int ==> r@[hrp@.len() + 1 + t] == spec_charset(
                    payload[t],
                ),
        decreases 6 - c,
    {
        r.push(charset_byte(cs[c]));
        c = c + 1;
    }
    proof {
        assert(r@ =~= spec_encode(hrp@, data5@));
    }
    r
}

/// Encodes data bytes as an address under a prefix.
pub fn encode_address(hrp: &Vec<u8>, data: &Vec<u8>) -> (r: Vec<u8>)
    requires
        hrp@.len() <= 16384,
        data@.len() <= 16384,
    ensures
        r@ == spec_encode_address(hrp@, data@),
{
    let groups = to_base32(data);
    proof {
        lemma_base32_groups_bounded(data@);
        lemma_base32_len_arith(data@.len() as int);
    }
    encode(hrp, &groups)
}

/// Position of the last separator byte of a string, if any.
pub open spec fn last_separator(addr: Seq<u8>) -> Option<int>
    decreases addr.len(),
{
    if addr.len() == 0 {
        None
    } else if addr.last() == SEPARATOR {
        Some(addr.len() - 1)
    } else {
        last_separator(addr.drop_last())
    }
}

proof fn lemma_last_separator_some(addr: Seq<u8>, p: int)
    requires
        0 <= p < addr.len(),
        addr[p] == SEPARATOR,
        forall|j: int| p < j < addr.len() ==> addr[j] != SEPARATOR,
    ensures
        last_separator(addr) == Some(p),
    decreases addr.len(),
{
    if p == addr.len() - 1 {
    } else {
        lemma_last_separator_some(addr.drop_last(), p);
    }
}

proof fn lemma_last_separator_none(addr: Seq<u8>)
    requires
        forall|j: int| 0 <= j < addr.len() ==> addr[j] != SEPARATOR,
    ensures
        last_separator(addr) is None,
    decreases addr.len(),
{
    if addr.len() > 0 {
        lemma_last_separator_none(addr.drop_last());
    }
}

/// Whether every payload byte is a symbol of the alphabet.
pub open spec fn payload_readable(payload: Seq<u8>) -> bool {
    forall|i: int| 0 <= i < payload.len() ==> #[trigger] spec_charset_rev(payload[i]) is Some
}

/// The five-bit values a payload spells.
pub open spec fn payload_values(payload: Seq<u8>) -> Seq<u8> {
    Seq::new(payload.len(), |i: int| spec_charset_rev(payload[i]).unwrap())
}

/// What decoding a string returns: the prefix and the data bytes, or `None`
/// when the string is not a well-formed encoding.
pub open spec fn spec_decode(addr: Seq<u8>) -> Option<(Seq<u8>, Seq<u8>)> {
    match last_separator(addr) {
        None => None,
        Some(p) => {
            let hrp = addr.take(p);
            let payload = addr.skip(p + 1);
            if !valid_hrp(hrp) || payload.len() < 6 || !payload_readable(payload) {
                None
            } else {
                let values = payload_values(payload);
                if spec_polymod(spec_hrp_expand(hrp) + values) != 1u32 {
                    None
                } else {
                    match spec_from_base32(values.take(values.len() - 6)) {
                        None => None,
                        Some(data) => Some((hrp, data)),
                    }
                }
            }
        },
    }
}

/// Decodes an encoded string back into its prefix and data bytes; `None`
/// when the string is not a well-formed encoding (no separator, an invalid
/// prefix, a byte outside the alphabet, a failed checksum, or bad padding).
pub fn decode(addr: &Vec<u8>) -> (r: Option<(Vec<u8>, Vec<u8>)>)
    requires
        addr@.len() <= 1000000,
    ensures
        match r {
            Some(pair) => spec_decode(addr@) == Some((pair.0@, pair.1@)),
            None => spec_decode(addr@) is None,
        },
{
    let n = addr.len();
    let mut q = n;
    while q > 0 && addr[q - 1] != SEPARATOR
        invariant
            n == addr@.len(),
            q <= n,
            forall|j: int| q as int <= j < n as int ==> addr@[j] != SEPARATOR,
        decreases q,
    {
        q = q - 1;
    }
    if q == 0 {
        proof {
            lemma_last_separator_none(addr@);
        }
        return None;
    }
    let p = q - 1;
    proof {
        lemma_last_separator_some(addr@, p as int);
    }
    let ghost spec_hrp = addr@.take(p as int);
    let ghost spec_payload = addr@.skip(p as int + 1);
    if p < 1 || p > 83 {
        return None;
    }
    let mut hrp: Vec<u8> = Vec::new();
    let mut i: usize = 0;
    while i < p
        invariant
            n == addr@.len(),
            p < n,
            i <= p,
            last_separator(addr@) == Some(p as int),
            hrp@ == addr@.take(p as int).take(i as int),
            forall|t: int| 0 <= t < i as int ==> 33 <= #[trigger] addr@[t] <= 126,
        decreases p - i,
    {
        let b = addr[i];
        if b < 33 || b > 126 {
            proof {
                assert(addr@.take(p as int)[i as int] == addr@[i as int]);
                assert(!valid_hrp(addr@.take(p as int)));
            }
            return None;
        }
        hrp.push(b);
        proof {
            assert(addr@.take(p as int).take(i as int + 1) =~= addr@.take(p as int).take(
                i as int,
            ).push(addr@[i as int]));
        }
        i = i + 1;
    }
    proof {
        assert(hrp@ =~= spec_hrp);
        assert(valid_hrp(spec_hrp));
    }
    if n - q < CHECKSUM_LEN {
        return None;
    }
    let mut values: Vec<u8> = Vec::new();
    let mut k = q;
    while k < n
        invariant
            n == addr@.len(),
            q <= k <= n,
            p as int == q as int - 1,
            last_separator(addr@) == Some(p as int),
            spec_payload == addr@.skip(q as int),
            values@.len() == k as int - q as int,
            forall|t: int|
                0 <= t < k as int - q as int ==> #[trigger] spec_charset_rev(spec_payload[t])
                    is Some,
            forall|t: int|
                0 <= t < k as int - q as int ==> values@[t] == spec_charset_rev(
                    spec_payload[t],
                ).unwrap(),
        decreases n - k,
    {
        match charset_index(addr[k]) {
            Some(v) => {
                values.push(v);
            },
            None => {
                proof {
                    assert(spec_payload[k as int - q as int] == addr@[k as int]);
                    assert(!payload_readable(spec_payload));
                }
                return None;
            },
        }
        k = k + 1;
    }
    proof {
        assert(payload_readable(spec_payload));
        assert(values@ =~= payload_values(spec_payload));
    }
    let mut all = hrp_expand(&hrp);
    let mut m: usize = 0;
    while m < values.len()
        invariant
            m <= values@.len(),
            all@ == spec_hrp_expand(spec_hrp) + values@.take(m as int),
            hrp@ == spec_hrp,
        decreases values@.len() - m,
    {
        all.push(values[m]);
        proof {
            assert(spec_hrp_expand(spec_hrp) + values@.take(m as int + 1) =~= (spec_hrp_expand(
                spec_hrp,
            ) + values@.take(m as int)).push(values@[m as int]));
        }
        m = m + 1;
    }
    proof {
        assert(values@.take(values@.len() as int) =~= values@);
    }
    let pm = polymod(&all);
    if pm != 1 {
        return None;
    }
    let data5len = values.len() - CHECKSUM_LEN;
    values.truncate(data5len);
    match from_base32(&values) {
        None => None,
        Some(d) => Some((hrp, d)),
    }
}

/// Decoding an encoded address returns the original prefix and data bytes
/// unchanged: the encoding loses nothing and its checksum always verifies.
pub proof fn lemma_encode_decode_round_trip(hrp: Seq<u8>, data: Seq<u8>)
    requires
        valid_hrp(hrp),
    ensures
        spec_decode(spec_encode_address(hrp, data)) == Some((hrp, data)),
{
    let groups = base32_groups(data);
    let cs = spec_checksum(hrp, groups);
    let payload5 = spec_encode_payload(hrp, groups);
    let addr = spec_encode(hrp, groups);
    let chars = Seq::new(payload5.len(), |i: int| spec_charset(payload5[i]));
    let pn = hrp.len() as int;
    lemma_base32_groups_bounded(data);
    lemma_checksum_words_bounded(spec_polymod(spec_hrp_expand(hrp) + groups + zero_values(6))
        ^ 1u32);
    assert(forall|t: int| 0 <= t < payload5.len() ==> #[trigger] payload5[t] < 32);
    assert(addr[pn] == SEPARATOR);
    assert forall|j: int| pn < j < addr.len() implies addr[j] != SEPARATOR by {
        assert(addr[j] == chars[j - pn - 1]);
        lemma_charset_no_separator(payload5[j - pn - 1]);
    };
    lemma_last_separator_some(addr, pn);
    assert(addr.take(pn) =~= hrp);
    assert(addr.skip(pn + 1) =~= chars);
    assert forall|t: int| 0 <= t < chars.len() implies #[trigger] spec_charset_rev(chars[t])
        == Some(payload5[t]) by {
        lemma_charset_round_trip(payload5[t]);
    };
    assert(payload_readable(chars));
    assert(payload_values(chars) =~= payload5);
    lemma_checksum_verifies(hrp, groups);
    assert(spec_hrp_expand(hrp) + groups + cs =~= spec_hrp_expand(hrp) + payload5);
    assert(payload5.take(payload5.len() - 6) =~= groups);
    lemma_base32_round_trip(data);
}

} // verus!
