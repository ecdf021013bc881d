//! PLAIN encoding of fixed-width values, booleans and length-prefixed byte
//! strings, with the decoders that read them back.

use vstd::prelude::*;
use vstd::utf8::encode_utf8;

verus! {

/// Little-endian bytes of a 32-bit word.
pub open spec fn le32(x: u32) -> Seq<u8> {
    seq![x as u8, (x >> 8u32) as u8, (x >> 16u32) as u8, (x >> 24u32) as u8]
}

/// The 32-bit word whose little-endian bytes are the first four of `b`.
pub open spec fn from_le32(b: Seq<u8>) -> u32 {
    (b[0] as u32) | ((b[1] as u32) << 8u32) | ((b[2] as u32) << 16u32) | ((b[3] as u32) << 24u32)
}

/// Words written one after another, four little-endian bytes each.
pub open spec fn encode_words32(vals: Seq<u32>) -> Seq<u8> {
    Seq::new((4 * vals.len()) as nat, |j: int| le32(vals[j / 4])[j % 4])
}

/// The first `count` words of `buf`.
pub open spec fn decode_words32(buf: Seq<u8>, count: nat) -> Seq<u32> {
    Seq::new(count, |i: int| from_le32(buf.subrange(4 * i, 4 * i + 4)))
}

pub proof fn lemma_le32_roundtrip(x: u32)
    ensures
        from_le32(le32(x)) == x,
{
    let b0 = x as u8;
    let b1 = (x >> 8u32) as u8;
    let b2 = (x >> 16u32) as u8;
    let b3 = (x >> 24u32) as u8;
    assert((b0 as u32) | ((b1 as u32) << 8u32) | ((b2 as u32) << 16u32) | ((b3 as u32) << 24u32) == x)
        by (bit_vector)
        requires
            b0 == x as u8,
            b1 == (x >> 8u32) as u8,
            b2 == (x >> 16u32) as u8,
            b3 == (x >> 24u32) as u8,
    ;
}

proof fn lemma_div_mod_4(i: int, k: int)
    requires
        0 <= k < 4,
    ensures
        (4 * i + k) / 4 == i,
        (4 * i + k) % 4 == k,
{
    assert((4 * i + k) / 4 == i) by (nonlinear_arith)
        requires
            0 <= k < 4,
    ;
    assert((4 * i + k) % 4 == k) by (nonlinear_arith)
        requires
            0 <= k < 4,
    ;
}

/// Writes each word as four little-endian bytes.
pub fn encode_words32_column(values: &[u32]) -> (bytes: Vec<u8>)
    ensures
        bytes@ == encode_words32(values@),
{
    let mut bytes: Vec<u8> = Vec::new();
    let mut i: usize = 0;
    while i < values.len()
        invariant
            i <= values@.len(),
            bytes@.len() == 4 * i,
            forall|j: int| 0 <= j < 4 * i ==> #[trigger] bytes@[j] == le32(values@[j / 4])[j % 4],
        decreases values@.len() - i,
    {
        let v = values[i];
        bytes.push(v as u8);
        bytes.push((v >> 8u32) as u8);
        bytes.push((v >> 16u32) as u8);
        bytes.push((v >> 24u32) as u8);
        proof {
            assert forall|j: int| 0 <= j < 4 * (i + 1) implies #[trigger] bytes@[j] == le32(
                values@[j / 4],
            )[j % 4] by {
                if j >= 4 * i {
                    lemma_div_mod_4(i as int, j - 4 * i);
                }
            }
        }
        i = i + 1;
    }
    assert(bytes@ =~= encode_words32(values@));
    bytes
}

/// Reads `count` little-endian words from the front of `buffer`; fails when
/// the buffer holds fewer than `4 * count` bytes.
pub fn decode_words32_column(buffer: &[u8], count: usize) -> (res: Option<Vec<u32>>)
    ensures
        res is None <==> 4 * count > buffer@.len(),
        res matches Some(v) ==> v@ == decode_words32(buffer@, count as nat),
{
    if count > buffer.len() / 4 {
        return None;
    }
    let mut out: Vec<u32> = Vec::new();
    let mut i: usize = 0;
    while i < count
        invariant
            i <= count,
            4 * count <= buffer@.len(),
            buffer@.len() <= usize::MAX,
            out@ =~= decode_words32(buffer@, i as nat),
        decreases count - i,
    {
        let o = 4 * i;
        let w = (buffer[o] as u32) | ((buffer[o + 1] as u32) << 8u32) | ((buffer[o + 2] as u32)
            << 16u32) | ((buffer[o + 3] as u32) << 24u32);
        out.push(w);
        proof {
            let sub = buffer@.subrange(4 * i as int, 4 * i + 4);
            assert(sub[0] == buffer@[o as int] && sub[1] == buffer@[o + 1] && sub[2] == buffer@[o + 2]
                && sub[3] == buffer@[o + 3]);
        }
        i = i + 1;
    }
    Some(out)
}

/// Reading back what `encode_words32` wrote gives the same words.
pub proof fn lemma_words32_roundtrip(vals: Seq<u32>)
    ensures
        decode_words32(encode_words32(vals), vals.len()) == vals,
{
    let enc = encode_words32(vals);
    assert forall|i: int| 0 <= i < vals.len() implies #[trigger] decode_words32(enc, vals.len())[i]
        == vals[i] by {
        let sub = enc.subrange(4 * i, 4 * i + 4);
        lemma_div_mod_4(i, 0);
        lemma_div_mod_4(i, 1);
        lemma_div_mod_4(i, 2);
        lemma_div_mod_4(i, 3);
        assert(sub =~= le32(vals[i]));
        lemma_le32_roundtrip(vals[i]);
    }
    assert(decode_words32(enc, vals.len()) =~= vals);
}


/// Little-endian bytes of a 64-bit word.
pub open spec fn le64(x: u64) -> Seq<u8> {
    seq![
        x as u8,
        (x >> 8u64) as u8,
        (x >> 16u64) as u8,
        (x >> 24u64) as u8,
        (x >> 32u64) as u8,
        (x >> 40u64) as u8,
        (x >> 48u64) as u8,
        (x >> 56u64) as u8,
    ]
}

/// The 64-bit word whose little-endian bytes are the first eight of `b`.
pub open spec fn from_le64(b: Seq<u8>) -> u64 {
    (b[0] as u64) | ((b[1] as u64) << 8u64) | ((b[2] as u64) << 16u64) | ((b[3] as u64) << 24u64)
        | ((b[4] as u64) << 32u64) | ((b[5] as u64) << 40u64) | ((b[6] as u64) << 48u64) | ((
    b[7] as u64) << 56u64)
}

/// Words written one after another, eight little-endian bytes each.
pub open spec fn encode_words64(vals: Seq<u64>) -> Seq<u8> {
    Seq::new((8 * vals.len()) as nat, |j: int| le64(vals[j / 8])[j % 8])
}

/// The first `count` 64-bit words of `buf`.
pub open spec fn decode_words64(buf: Seq<u8>, count: nat) -> Seq<u64> {
    Seq::new(count, |i: int| from_le64(buf.subrange(8 * i, 8 * i + 8)))
}

pub proof fn lemma_le64_roundtrip(x: u64)
    ensures
        from_le64(le64(x)) == x,
{
    let b0 = x as u8;
    let b1 = (x >> 8u64) as u8;
    let b2 = (x >> 16u64) as u8;
    let b3 = (x >> 24u64) as u8;
    let b4 = (x >> 32u64) as u8;
    let b5 = (x >> 40u64) as u8;
    let b6 = (x >> 48u64) as u8;
    let b7 = (x >> 56u64) as u8;
    assert((b0 as u64) | ((b1 as u64) << 8u64) | ((b2 as u64) << 16u64) | ((b3 as u64) << 24u64)
        | ((b4 as u64) << 32u64) | ((b5 as u64) << 40u64) | ((b6 as u64) << 48u64) | ((b7 as u64)
        << 56u64) == x) by (bit_vector)
        requires
            b0 == x as u8,
            b1 == (x >> 8u64) as u8,
            b2 == (x >> 16u64) as u8,
            b3 == (x >> 24u64) as u8,
            b4 == (x >> 32u64) as u8,
            b5 == (x >> 40u64) as u8,
            b6 == (x >> 48u64) as u8,
            b7 == (x >> 56u64) as u8,
    ;
}

proof fn lemma_div_mod_8(i: int, k: int)
    requires
        0 <= k < 8,
    ensures
        (8 * i + k) / 8 == i,
        (8 * i + k) % 8 == k,
{
    assert((8 * i + k) / 8 == i) by (nonlinear_arith)
        requires
            0 <= k < 8,
    ;
    assert((8 * i + k) % 8 == k) by (nonlinear_arith)
        requires
            0 <= k < 8,
    ;
}

/// Writes each 64-bit word as eight little-endian bytes.
pub fn encode_words64_column(values: &[u64]) -> (bytes: Vec<u8>)
    ensures
        bytes@ == encode_words64(values@),
{
    let mut bytes: Vec<u8> = Vec::new();
    let mut i: usize = 0;
    while i < values.len()
        invariant
            i <= values@.len(),
            bytes@.len() == 8 * i,
            forall|j: int| 0 <= j < 8 * i ==> #[trigger] bytes@[j] == le64(values@[j / 8])[j % 8],
        decreases values@.len() - i,
    {
        let v = values[i];
        bytes.push(v as u8);
        bytes.push((v >> 8u64) as u8);
        bytes.push((v >> 16u64) as u8);
        bytes.push((v >> 24u64) as u8);
        bytes.push((v >> 32u64) as u8);
        bytes.push((v >> 40u64) as u8);
        bytes.push((v >> 48u64) as u8);
        bytes.push((v >> 56u64) as u8);
        proof {
            assert forall|j: int| 0 <= j < 8 * (i + 1) implies #[trigger] bytes@[j] == le64(
                values@[j / 8],
            )[j % 8] by {
                if j >= 8 * i {
                    lemma_div_mod_8(i as int, j - 8 * i);
                }
            }
        }
        i = i + 1;
    }
    assert(bytes@ =~= encode_words64(values@));
    bytes
}

/// Reads `count` little-endian 64-bit words from the front of `buffer`;
/// fails when the buffer holds fewer than `8 * count` bytes.
pub fn decode_words64_column(buffer: &[u8], count: usize) -> (res: Option<Vec<u64>>)
    ensures
        res is None <==> 8 * count > buffer@.len(),
        res matches Some(v) ==> v@ == decode_words64(buffer@, count as nat),
{
    if count > buffer.len() / 8 {
        return None;
    }
    let mut out: Vec<u64> = Vec::new();
    let mut i: usize = 0;
    while i < count
        invariant
            i <= count,
            8 * count <= buffer@.len(),
            buffer@.len() <= usize::MAX,
            out@ =~= decode_words64(buffer@, i as nat),
        decreases count - i,
    {
        let o = 8 * i;
        let w = (buffer[o] as u64) | ((buffer[o + 1] as u64) << 8u64) | ((buffer[o + 2] as u64)
            << 16u64) | ((buffer[o + 3] as u64) << 24u64) | ((buffer[o + 4] as u64) << 32u64) | ((
        buffer[o + 5] as u64) << 40u64) | ((buffer[o + 6] as u64) << 48u64) | ((buffer[o + 7] as u64)
            << 56u64);
        out.push(w);
        proof {
            let sub = buffer@.subrange(8 * i as int, 8 * i + 8);
            assert(sub[0] == buffer@[o as int] && sub[1] == buffer@[o + 1] && sub[2] == buffer@[o + 2]
                && sub[3] == buffer@[o + 3] && sub[4] == buffer@[o + 4] && sub[5] == buffer@[o + 5]
                && sub[6] == buffer@[o + 6] && sub[7] == buffer@[o + 7]);
        }
        i = i + 1;
    }
    Some(out)
}

/// Reading back what `encode_words64` wrote gives the same words.
pub proof fn lemma_words64_roundtrip(vals: Seq<u64>)
    ensures
        decode_words64(encode_words64(vals), vals.len()) == vals,
{
    let enc = encode_words64(vals);
    assert forall|i: int| 0 <= i < vals.len() implies #[trigger] decode_words64(enc, vals.len())[i]
        == vals[i] by {
        let sub = enc.subrange(8 * i, 8 * i + 8);
        lemma_div_mod_8(i, 0);
        lemma_div_mod_8(i, 1);
        lemma_div_mod_8(i, 2);
        lemma_div_mod_8(i, 3);
        lemma_div_mod_8(i, 4);
        lemma_div_mod_8(i, 5);
        lemma_div_mod_8(i, 6);
        lemma_div_mod_8(i, 7);
        assert(sub =~= le64(vals[i]));
        lemma_le64_roundtrip(vals[i]);
    }
    assert(decode_words64(enc, vals.len()) =~= vals);
}


/// Signed 32-bit values as the words that carry their bits.
pub open spec fn i32_words(vals: Seq<i32>) -> Seq<u32> {
    vals.map_values(|v: i32| v as u32)
}

/// Signed 64-bit values as the words that carry their bits.
pub open spec fn i64_words(vals: Seq<i64>) -> Seq<u64> {
    vals.map_values(|v: i64| v as u64)
}

/// PLAIN encoding of INT32 values: four little-endian bytes each.
pub fn encode_int32_column(values: &[i32]) -> (bytes: Vec<u8>)
    ensures
        bytes@ == encode_words32(i32_words(values@)),
        bytes@.len() == 4 * values@.len(),
{
    let mut words: Vec<u32> = Vec::new();
    let mut i: usize = 0;
    while i < values.len()
        invariant
            i <= values@.len(),
            words@ =~= i32_words(values@.subrange(0, i as int)),
        decreases values@.len() - i,
    {
        words.push(values[i] as u32);
        i = i + 1;
    }
    assert(values@.subrange(0, values@.len() as int) =~= values@);
    encode_words32_column(&words)
}

/// PLAIN encoding of INT64 values: eight little-endian bytes each.
pub fn encode_int64_column(values: &[i64]) -> (bytes: Vec<u8>)
    ensures
        bytes@ == encode_words64(i64_words(values@)),
        bytes@.len() == 8 * values@.len(),
{
    let mut words: Vec<u64> = Vec::new();
    let mut i: usize = 0;
    while i < values.len()
        invariant
            i <= values@.len(),
            words@ =~= i64_words(values@.subrange(0, i as int)),
        decreases values@.len() - i,
    {
        words.push(values[i] as u64);
        i = i + 1;
    }
    assert(values@.subrange(0, values@.len() as int) =~= values@);
    encode_words64_column(&words)
}

/// Reads `count` PLAIN INT32 values; `None` when the buffer is too short.
pub fn decode_int32_column(buffer: &[u8], count: usize) -> (res: Option<Vec<i32>>)
    ensures
        res is None <==> 4 * count > buffer@.len(),
        res matches Some(v) ==> v@ == decode_words32(buffer@, count as nat).map_values(
            |w: u32| w as i32,
        ),
{
    match decode_words32_column(buffer, count) {
        None => None,
        Some(words) => {
            let mut out: Vec<i32> = Vec::new();
            let mut i: usize = 0;
            while i < words.len()
                invariant
                    i <= words@.len(),
                    out@ =~= words@.subrange(0, i as int).map_values(|w: u32| w as i32),
                decreases words@.len() - i,
            {
                out.push(words[i] as i32);
                i = i + 1;
            }
            assert(words@.subrange(0, words@.len() as int) =~= words@);
            Some(out)
        },
    }
}

/// Reads `count` PLAIN INT64 values; `None` when the buffer is too short.
pub fn decode_int64_column(buffer: &[u8], count: usize) -> (res: Option<Vec<i64>>)
    ensures
        res is None <==> 8 * count > buffer@.len(),
        res matches Some(v) ==> v@ == decode_words64(buffer@, count as nat).map_values(
            |w: u64| w as i64,
        ),
{
    match decode_words64_column(buffer, count) {
        None => None,
        Some(words) => {
            let mut out: Vec<i64> = Vec::new();
            let mut i: usize = 0;
            while i < words.len()
                invariant
                    i <= words@.len(),
                    out@ =~= words@.subrange(0, i as int).map_values(|w: u64| w as i64),
                decreases words@.len() - i,
            {
                out.push(words[i] as i64);
                i = i + 1;
            }
            assert(words@.subrange(0, words@.len() as int) =~= words@);
            Some(out)
        },
    }
}

/// INT32 values survive an encode and a decode.
pub proof fn lemma_int32_roundtrip(vals: Seq<i32>)
    ensures
        decode_words32(encode_words32(i32_words(vals)), vals.len()).map_values(|w: u32| w as i32)
            == vals,
{
    lemma_words32_roundtrip(i32_words(vals));
    assert forall|i: int| 0 <= i < vals.len() implies ((vals[i] as u32) as i32) == vals[i] by {
        let v = vals[i];
        assert((v as u32) as i32 == v) by (bit_vector);
    }
    assert(decode_words32(encode_words32(i32_words(vals)), vals.len()).map_values(
        |w: u32| w as i32,
    ) =~= vals);
}

/// INT64 values survive an encode and a decode.
pub proof fn lemma_int64_roundtrip(vals: Seq<i64>)
    ensures
        decode_words64(encode_words64(i64_words(vals)), vals.len()).map_values(|w: u64| w as i64)
            == vals,
{
    lemma_words64_roundtrip(i64_words(vals));
    assert forall|i: int| 0 <= i < vals.len() implies ((vals[i] as u64) as i64) == vals[i] by {
        let v = vals[i];
        assert((v as u64) as i64 == v) by (bit_vector);
    }
    assert(decode_words64(encode_words64(i64_words(vals)), vals.len()).map_values(
        |w: u64| w as i64,
    ) =~= vals);
}


/// Bit `i` of a bit-packed buffer, least significant bit first.
pub open spec fn bit_of(bytes: Seq<u8>, i: int) -> bool {
    (bytes[i / 8] >> ((i % 8) as u8)) & 1u8 == 1u8
}

/// 1 when `vals[i]` exists and is true, else 0.
pub open spec fn bool_bit(vals: Seq<bool>, i: int) -> u8 {
    if 0 <= i < vals.len() && vals[i] {
        1u8
    } else {
        0u8
    }
}

/// The byte that packs `vals[8k .. 8k + 8]`, first value in the lowest bit.
pub open spec fn pack_byte(vals: Seq<bool>, k: int) -> u8 {
    bool_bit(vals, 8 * k) | (bool_bit(vals, 8 * k + 1) << 1u8) | (bool_bit(vals, 8 * k + 2)
        << 2u8) | (bool_bit(vals, 8 * k + 3) << 3u8) | (bool_bit(vals, 8 * k + 4) << 4u8) | (
    bool_bit(vals, 8 * k + 5) << 5u8) | (bool_bit(vals, 8 * k + 6) << 6u8) | (bool_bit(
        vals,
        8 * k + 7,
    ) << 7u8)
}

/// Booleans bit-packed into `ceil(n / 8)` bytes, unused high bits zero.
pub open spec fn encode_booleans(vals: Seq<bool>) -> Seq<u8> {
    Seq::new(((vals.len() + 7) / 8) as nat, |k: int| pack_byte(vals, k))
}

proof fn lemma_pack_bits(b0: u8, b1: u8, b2: u8, b3: u8, b4: u8, b5: u8, b6: u8, b7: u8, p: u8)
    requires
        b0 <= 1 && b1 <= 1 && b2 <= 1 && b3 <= 1 && b4 <= 1 && b5 <= 1 && b6 <= 1 && b7 <= 1,
        p == b0 | (b1 << 1u8) | (b2 << 2u8) | (b3 << 3u8) | (b4 << 4u8) | (b5 << 5u8) | (b6 << 6u8)
            | (b7 << 7u8),
    ensures
        (p >> 0u8) & 1u8 == b0,
        (p >> 1u8) & 1u8 == b1,
        (p >> 2u8) & 1u8 == b2,
        (p >> 3u8) & 1u8 == b3,
        (p >> 4u8) & 1u8 == b4,
        (p >> 5u8) & 1u8 == b5,
        (p >> 6u8) & 1u8 == b6,
        (p >> 7u8) & 1u8 == b7,
{
    assert({
        &&& (p >> 0u8) & 1u8 == b0
        &&& (p >> 1u8) & 1u8 == b1
        &&& (p >> 2u8) & 1u8 == b2
        &&& (p >> 3u8) & 1u8 == b3
        &&& (p >> 4u8) & 1u8 == b4
        &&& (p >> 5u8) & 1u8 == b5
        &&& (p >> 6u8) & 1u8 == b6
        &&& (p >> 7u8) & 1u8 == b7
    }) by (bit_vector)
        requires
            b0 <= 1 && b1 <= 1 && b2 <= 1 && b3 <= 1 && b4 <= 1 && b5 <= 1 && b6 <= 1 && b7 <= 1,
            p == b0 | (b1 << 1u8) | (b2 << 2u8) | (b3 << 3u8) | (b4 << 4u8) | (b5 << 5u8) | (b6
                << 6u8) | (b7 << 7u8),
    ;
}

/// Every bit of the packed bytes is the matching boolean (false past the end).
pub proof fn lemma_encode_booleans_bits(vals: Seq<bool>, i: int)
    requires
        0 <= i < 8 * ((vals.len() + 7) / 8),
    ensures
        bit_of(encode_booleans(vals), i) == (0 <= i < vals.len() && vals[i]),
{
    let k = i / 8;
    let r = i % 8;
    assert(i == 8 * k + r && 0 <= r < 8) by (nonlinear_arith)
        requires
            k == i / 8,
            r == i % 8,
            i >= 0,
    ;
    assert(0 <= k < (vals.len() + 7) / 8) by (nonlinear_arith)
        requires
            k == i / 8,
            0 <= i < 8 * ((vals.len() + 7) / 8),
    ;
    let p = pack_byte(vals, k);
    assert(encode_booleans(vals)[k] == p);
    lemma_pack_bits(
        bool_bit(vals, 8 * k),
        bool_bit(vals, 8 * k + 1),
        bool_bit(vals, 8 * k + 2),
        bool_bit(vals, 8 * k + 3),
        bool_bit(vals, 8 * k + 4),
        bool_bit(vals, 8 * k + 5),
        bool_bit(vals, 8 * k + 6),
        bool_bit(vals, 8 * k + 7),
        p,
    );
}

fn bool_bit_exec(values: &[bool], i: usize) -> (b: u8)
    ensures
        b == bool_bit(values@, i as int),
{
    if i < values.len() && values[i] {
        1u8
    } else {
        0u8
    }
}

/// PLAIN encoding of BOOLEAN values: bit-packed, first value in the lowest bit.
pub fn encode_boolean_column(values: &[bool]) -> (bytes: Vec<u8>)
    ensures
        bytes@ == encode_booleans(values@),
{
    let n = values.len();
    let nbytes = n / 8 + if n % 8 == 0 {
        0
    } else {
        1
    };
    assert(nbytes == (n + 7) / 8);
    let mut bytes: Vec<u8> = Vec::new();
    let mut k: usize = 0;
    while k < nbytes
        invariant
            k <= nbytes,
            nbytes == (values@.len() + 7) / 8,
            n == values@.len(),
            bytes@.len() == k,
            forall|j: int| 0 <= j < k ==> #[trigger] bytes@[j] == pack_byte(values@, j),
        decreases nbytes - k,
    {
        assert(8 * k + 7 <= n + 7);
        let base = 8 * k;
        let byte = bool_bit_exec(values, base) | (bool_bit_exec(values, base + 1) << 1u8) | (
        bool_bit_exec(values, base + 2) << 2u8) | (bool_bit_exec(values, base + 3) << 3u8) | (
        bool_bit_exec(values, base + 4) << 4u8) | (bool_bit_exec(values, base + 5) << 5u8) | (
        bool_bit_exec(values, base + 6) << 6u8) | (bool_bit_exec(values, base + 7) << 7u8);
        bytes.push(byte);
        k = k + 1;
    }
    assert(bytes@ =~= encode_booleans(values@));
    bytes
}

/// Reads `count` bit-packed booleans; `None` when the buffer holds fewer
/// than `count` bits.
pub fn decode_boolean_values(buffer: &[u8], count: usize) -> (res: Option<Vec<bool>>)
    ensures
        res is None <==> count > 8 * buffer@.len(),
        res matches Some(v) ==> v@.len() == count && forall|i: int|
            0 <= i < count ==> #[trigger] v@[i] == bit_of(buffer@, i),
{
    let mut out: Vec<bool> = Vec::new();
    let mut i: usize = 0;
    while i < count
        invariant
            i <= count,
            8 * buffer@.len() >= i,
            out@.len() == i,
            forall|j: int| 0 <= j < i ==> #[trigger] out@[j] == bit_of(buffer@, j),
        decreases count - i,
    {
        let byte_idx = i / 8;
        let bit_idx = i % 8;
        if byte_idx >= buffer.len() {
            return None;
        }
        let value = (buffer[byte_idx] >> (bit_idx as u8)) & 1u8 == 1u8;
        out.push(value);
        i = i + 1;
    }
    Some(out)
}

/// Booleans survive an encode and a decode.
pub proof fn lemma_booleans_roundtrip(vals: Seq<bool>)
    ensures
        vals.len() <= 8 * encode_booleans(vals).len(),
        forall|i: int| 0 <= i < vals.len() ==> bit_of(encode_booleans(vals), i) == vals[i],
{
    assert(vals.len() <= 8 * ((vals.len() + 7) / 8)) by (nonlinear_arith);
    assert forall|i: int| 0 <= i < vals.len() implies bit_of(encode_booleans(vals), i)
        == vals[i] by {
        lemma_encode_booleans_bits(vals, i);
    }
}


/// The byte strings that a `Vec<Vec<u8>>` holds.
pub open spec fn byte_strings(v: Seq<Vec<u8>>) -> Seq<Seq<u8>> {
    v.map_values(|x: Vec<u8>| x@)
}

/// One BYTE_ARRAY value: its length as four little-endian bytes, then its bytes.
pub open spec fn binary_chunk(v: Seq<u8>) -> Seq<u8> {
    le32(v.len() as u32) + v
}

/// PLAIN encoding of BYTE_ARRAY values, one chunk after another.
pub open spec fn encode_binary(vals: Seq<Seq<u8>>) -> Seq<u8>
    decreases vals.len(),
{
    if vals.len() == 0 {
        Seq::empty()
    } else {
        encode_binary(vals.drop_last()) + binary_chunk(vals.last())
    }
}

/// Where a BYTE_ARRAY value ran past the end of its buffer.
#[derive(Debug, Clone, Copy, PartialEq, Eq)]
pub enum BinaryError {
    /// Fewer than four bytes were left for a length prefix.
    ShortLength,
    /// The value's bytes run past the end.
    ShortValue,
}

/// Reads `count` BYTE_ARRAY values starting at `offset`, or says where the
/// first one that does not fit ran out.
pub open spec fn parse_binary(buf: Seq<u8>, offset: int, count: nat) -> Result<
    Seq<Seq<u8>>,
    BinaryError,
>
    decreases count,
{
    if count == 0 {
        Ok(Seq::empty())
    } else if offset + 4 > buf.len() {
        Err(BinaryError::ShortLength)
    } else {
        let len = from_le32(buf.subrange(offset, offset + 4)) as int;
        let start = offset + 4;
        if start + len > buf.len() {
            Err(BinaryError::ShortValue)
        } else {
            match parse_binary(buf, start + len, (count - 1) as nat) {
                Ok(rest) => Ok(seq![buf.subrange(start, start + len)] + rest),
                Err(e) => Err(e),
            }
        }
    }
}

/// `r` with `front` put before the values it holds.
pub open spec fn prepend_values(front: Seq<Seq<u8>>, r: Result<Seq<Seq<u8>>, BinaryError>) -> Result<
    Seq<Seq<u8>>,
    BinaryError,
> {
    match r {
        Ok(rest) => Ok(front + rest),
        Err(e) => Err(e),
    }
}

/// Every value is short enough for its length to fit the 32-bit prefix.
pub open spec fn lengths_fit_u32(vals: Seq<Seq<u8>>) -> bool {
    forall|i: int| 0 <= i < vals.len() ==> #[trigger] vals[i].len() <= u32::MAX
}

proof fn lemma_encode_binary_front(v: Seq<u8>, rest: Seq<Seq<u8>>)
    ensures
        encode_binary(seq![v] + rest) == binary_chunk(v) + encode_binary(rest),
    decreases rest.len(),
{
    if rest.len() == 0 {
        assert(seq![v] + rest =~= seq![v]);
        assert(seq![v].drop_last() =~= Seq::<Seq<u8>>::empty());
        assert(binary_chunk(v) + encode_binary(rest) =~= binary_chunk(v));
        assert(encode_binary(seq![v]) == encode_binary(seq![v].drop_last()) + binary_chunk(
            seq![v].last(),
        ));
        assert(Seq::<u8>::empty() + binary_chunk(v) =~= binary_chunk(v));
    } else {
        lemma_encode_binary_front(v, rest.drop_last());
        assert((seq![v] + rest).drop_last() =~= seq![v] + rest.drop_last());
        assert(encode_binary(seq![v] + rest) =~= binary_chunk(v) + encode_binary(rest));
    }
}

proof fn lemma_parse_encoded_binary(pre: Seq<u8>, vals: Seq<Seq<u8>>, post: Seq<u8>)
    requires
        lengths_fit_u32(vals),
    ensures
        parse_binary(pre + encode_binary(vals) + post, pre.len() as int, vals.len()) == Ok::<
            Seq<Seq<u8>>,
            BinaryError,
        >(vals),
    decreases vals.len(),
{
    let buf = pre + encode_binary(vals) + post;
    if vals.len() == 0 {
        assert(Seq::<Seq<u8>>::empty() =~= vals);
    } else {
        let v = vals[0];
        let rest = vals.drop_first();
        assert(vals =~= seq![v] + rest);
        lemma_encode_binary_front(v, rest);
        let off = pre.len() as int;
        let len_bytes = le32(v.len() as u32);
        lemma_le32_roundtrip(v.len() as u32);
        assert(buf =~= pre + (len_bytes + v + encode_binary(rest)) + post);
        assert(buf.subrange(off, off + 4) =~= len_bytes);
        assert(buf.subrange(off + 4, off + 4 + v.len()) =~= v);
        let pre2 = pre + len_bytes + v;
        assert(buf =~= pre2 + encode_binary(rest) + post);
        assert forall|i: int| 0 <= i < rest.len() implies #[trigger] rest[i].len() <= u32::MAX by {
            assert(rest[i] == vals[i + 1]);
        }
        lemma_parse_encoded_binary(pre2, rest, post);
        assert(seq![v] + rest =~= vals);
    }
}

proof fn lemma_parse_past_encoded_binary(pre: Seq<u8>, vals: Seq<Seq<u8>>)
    requires
        lengths_fit_u32(vals),
    ensures
        parse_binary(pre + encode_binary(vals), pre.len() as int, vals.len() + 1) == Err::<
            Seq<Seq<u8>>,
            BinaryError,
        >(BinaryError::ShortLength),
    decreases vals.len(),
{
    let buf = pre + encode_binary(vals);
    if vals.len() == 0 {
        assert(encode_binary(vals) =~= Seq::<u8>::empty());
    } else {
        let v = vals[0];
        let rest = vals.drop_first();
        assert(vals =~= seq![v] + rest);
        lemma_encode_binary_front(v, rest);
        let off = pre.len() as int;
        let len_bytes = le32(v.len() as u32);
        lemma_le32_roundtrip(v.len() as u32);
        assert(buf =~= pre + (len_bytes + v + encode_binary(rest)));
        assert(buf.subrange(off, off + 4) =~= len_bytes);
        let pre2 = pre + len_bytes + v;
        assert(buf =~= pre2 + encode_binary(rest));
        assert forall|i: int| 0 <= i < rest.len() implies #[trigger] rest[i].len() <= u32::MAX by {
            assert(rest[i] == vals[i + 1]);
        }
        lemma_parse_past_encoded_binary(pre2, rest);
    }
}

/// Reading back what `encode_binary` wrote gives the same byte strings, and
/// asking for one more fails at its length.
pub proof fn lemma_binary_roundtrip(vals: Seq<Seq<u8>>)
    requires
        lengths_fit_u32(vals),
    ensures
        parse_binary(encode_binary(vals), 0, vals.len()) == Ok::<Seq<Seq<u8>>, BinaryError>(vals),
        parse_binary(encode_binary(vals), 0, vals.len() + 1) == Err::<Seq<Seq<u8>>, BinaryError>(
            BinaryError::ShortLength,
        ),
{
    let e = encode_binary(vals);
    assert(Seq::<u8>::empty() + e + Seq::<u8>::empty() =~= e);
    assert(Seq::<u8>::empty() + e =~= e);
    lemma_parse_encoded_binary(Seq::empty(), vals, Seq::empty());
    lemma_parse_past_encoded_binary(Seq::empty(), vals);
}

/// PLAIN encoding of byte strings: each one prefixed with its length.
pub fn encode_byte_strings(values: &[Vec<u8>]) -> (bytes: Vec<u8>)
    ensures
        bytes@ == encode_binary(byte_strings(values@)),
{
    let mut bytes: Vec<u8> = Vec::new();
    let mut i: usize = 0;
    while i < values.len()
        invariant
            i <= values@.len(),
            bytes@ == encode_binary(byte_strings(values@.subrange(0, i as int))),
        decreases values@.len() - i,
    {
        let ghost before = bytes@;
        let v = &values[i];
        let n = v.len() as u32;
        bytes.push(n as u8);
        bytes.push((n >> 8u32) as u8);
        bytes.push((n >> 16u32) as u8);
        bytes.push((n >> 24u32) as u8);
        let mut j: usize = 0;
        while j < v.len()
            invariant
                j <= v@.len(),
                bytes@ == before + le32(n) + v@.subrange(0, j as int),
            decreases v@.len() - j,
        {
            bytes.push(v[j]);
            assert(v@.subrange(0, j + 1) =~= v@.subrange(0, j as int).push(v@[j as int]));
            j = j + 1;
        }
        proof {
            assert(v@.subrange(0, v@.len() as int) =~= v@);
            let s1 = byte_strings(values@.subrange(0, i + 1));
            assert(s1.drop_last() =~= byte_strings(values@.subrange(0, i as int)));
            assert(s1.last() == v@);
            assert(bytes@ =~= encode_binary(s1));
        }
        i = i + 1;
    }
    assert(values@.subrange(0, values@.len() as int) =~= values@);
    bytes
}

/// Reads `count` length-prefixed byte strings from the front of `buffer`, or
/// says where the first one that does not fit ran out.
pub fn decode_byte_strings(buffer: &[u8], count: usize) -> (res: Result<Vec<Vec<u8>>, BinaryError>)
    ensures
        match res {
            Ok(v) => parse_binary(buffer@, 0, count as nat) == Ok::<Seq<Seq<u8>>, BinaryError>(
                byte_strings(v@),
            ),
            Err(e) => parse_binary(buffer@, 0, count as nat) == Err::<Seq<Seq<u8>>, BinaryError>(e),
        },
{
    let mut out: Vec<Vec<u8>> = Vec::new();
    let mut offset: usize = 0;
    let mut i: usize = 0;
    assert(Seq::<Seq<u8>>::empty() + Seq::<Seq<u8>>::empty() =~= Seq::<Seq<u8>>::empty());
    proof {
        let o = parse_binary(buffer@, 0, count as nat);
        if let Ok(r) = o {
            assert(Seq::<Seq<u8>>::empty() + r =~= r);
        }
        assert(byte_strings(out@) =~= Seq::<Seq<u8>>::empty());
    }
    while i < count
        invariant
            i <= count,
            offset <= buffer@.len(),
            parse_binary(buffer@, 0, count as nat) == prepend_values(
                byte_strings(out@),
                parse_binary(buffer@, offset as int, (count - i) as nat),
            ),
        decreases count - i,
    {
        if buffer.len() - offset < 4 {
            return Err(BinaryError::ShortLength);
        }
        let len = (buffer[offset] as u32) | ((buffer[offset + 1] as u32) << 8u32) | ((buffer[offset
            + 2] as u32) << 16u32) | ((buffer[offset + 3] as u32) << 24u32);
        proof {
            let sub = buffer@.subrange(offset as int, offset + 4);
            assert(sub[0] == buffer@[offset as int] && sub[1] == buffer@[offset + 1] && sub[2]
                == buffer@[offset + 2] && sub[3] == buffer@[offset + 3]);
            assert(len == from_le32(sub));
        }
        let start = offset + 4;
        if (len as usize) > buffer.len() - start {
            return Err(BinaryError::ShortValue);
        }
        let end = start + len as usize;
        let mut value: Vec<u8> = Vec::new();
        let mut j: usize = start;
        while j < end
            invariant
                start <= j <= end,
                end <= buffer@.len(),
                value@ == buffer@.subrange(start as int, j as int),
            decreases end - j,
        {
            value.push(buffer[j]);
            assert(buffer@.subrange(start as int, j + 1) =~= buffer@.subrange(
                start as int,
                j as int,
            ).push(buffer@[j as int]));
            j = j + 1;
        }
        let ghost old_out = byte_strings(out@);
        proof {
            let rest = parse_binary(buffer@, end as int, (count - i - 1) as nat);
            assert((count - i) as nat - 1 == (count - i - 1) as nat);
            match rest {
                Ok(r) => {
                    assert(old_out + (seq![value@] + r) =~= (old_out + seq![value@]) + r);
                },
                Err(_) => {},
            }
        }
        out.push(value);
        assert(byte_strings(out@) =~= old_out + seq![value@]);
        offset = end;
        i = i + 1;
    }
    Ok(out)
}


/// The UTF-8 bytes of each string.
pub open spec fn utf8_strings(v: Seq<String>) -> Seq<Seq<u8>> {
    v.map_values(|s: String| encode_utf8(s@))
}

/// PLAIN encoding of UTF-8 strings as BYTE_ARRAY values.
pub fn encode_string_column(values: &[String]) -> (bytes: Vec<u8>)
    ensures
        bytes@ == encode_binary(utf8_strings(values@)),
{
    let mut raw: Vec<Vec<u8>> = Vec::new();
    let mut i: usize = 0;
    while i < values.len()
        invariant
            i <= values@.len(),
            byte_strings(raw@) =~= utf8_strings(values@.subrange(0, i as int)),
        decreases values@.len() - i,
    {
        let st = values[i].as_str();
        let b = st.as_bytes_vec();
        assert(b@ == encode_utf8(values@[i as int]@));
        let ghost prev = raw@;
        raw.push(b);
        assert(byte_strings(raw@) =~= byte_strings(prev).push(b@));
        assert(utf8_strings(values@.subrange(0, i + 1)) =~= utf8_strings(
            values@.subrange(0, i as int),
        ).push(encode_utf8(values@[i as int]@)));
        assert(values@.subrange(0, i + 1) =~= values@.subrange(0, i as int).push(values@[i as int]));
        i = i + 1;
    }
    assert(values@.subrange(0, values@.len() as int) =~= values@);
    encode_byte_strings(&raw)
}

/// Reads `count` values of `size` bytes each; `None` when the buffer holds
/// fewer than `count * size` bytes.
pub fn decode_fixed_len_byte_array(buffer: &[u8], count: usize, size: usize) -> (res: Option<
    Vec<Vec<u8>>,
>)
    ensures
        res is None <==> count * size > buffer@.len(),
        res matches Some(v) ==> v@.len() == count && forall|i: int|
            0 <= i < count ==> #[trigger] v@[i]@ == buffer@.subrange(i * size, i * size + size),
{
    let mut out: Vec<Vec<u8>> = Vec::new();
    let mut i: usize = 0;
    let mut start: usize = 0;
    while i < count
        invariant
            i <= count,
            start == i * size,
            start <= buffer@.len(),
            out@.len() == i,
            forall|k: int|
                0 <= k < i ==> #[trigger] out@[k]@ == buffer@.subrange(k * size, k * size + size),
        decreases count - i,
    {
        if size > buffer.len() - start {
            proof {
                assert(count * size >= (i + 1) * size) by (nonlinear_arith)
                    requires
                        i < count,
                ;
                assert((i + 1) * size == i * size + size) by (nonlinear_arith);
            }
            return None;
        }
        let end = start + size;
        let mut value: Vec<u8> = Vec::new();
        let mut j: usize = start;
        while j < end
            invariant
                start <= j <= end,
                end <= buffer@.len(),
                value@ == buffer@.subrange(start as int, j as int),
            decreases end - j,
        {
            value.push(buffer[j]);
            assert(buffer@.subrange(start as int, j + 1) =~= buffer@.subrange(
                start as int,
                j as int,
            ).push(buffer@[j as int]));
            j = j + 1;
        }
        out.push(value);
        assert((i + 1) * size == i * size + size) by (nonlinear_arith);
        start = end;
        i = i + 1;
    }
    proof {
        assert(count * size <= buffer@.len());
    }
    Some(out)
}

/// Why values of a fixed width could not be decoded: the buffer ends
/// before them, or a value could not be converted.
#[derive(Debug, PartialEq, Eq)]
pub enum FixedWidthError<E> {
    ShortBuffer,
    Convert(E),
}

/// Whether `r` is what `convert` may give for the `k`-th slice of `width`
/// bytes of `buffer`.
pub open spec fn converted_slice<T, E, F: Fn(&[u8]) -> Result<T, E>>(
    convert: F,
    buffer: Seq<u8>,
    width: nat,
    k: int,
    r: Result<T, E>,
) -> bool {
    exists|s: &[u8]| s@ == buffer.subrange(k * width, (k + 1) * width) && #[trigger] call_ensures(convert, (s,), r)
}

/// Decodes `count` values of `width` bytes each, converting each slice of
/// the buffer in order: fails where the buffer ends before a value, or
/// with the first conversion that fails.
pub fn decode_fixed_width_values<T, E, F: Fn(&[u8]) -> Result<T, E>>(
    buffer: &[u8],
    count: usize,
    width: usize,
    convert: F,
) -> (res: Result<Vec<T>, FixedWidthError<E>>)
    requires
        forall|s: &[u8]| s@.len() == width ==> #[trigger] call_requires(convert, (s,)),
    ensures
        res matches Ok(v) ==> v@.len() == count && count * width <= buffer@.len() && forall|k: int|
            0 <= k < count ==> #[trigger] converted_slice(convert, buffer@, width as nat, k, Ok::<T, E>(v@[k])),
        res matches Err(FixedWidthError::ShortBuffer) ==> count * width > buffer@.len(),
        (forall|s: &[u8], r: Result<T, E>| #[trigger] call_ensures(convert, (s,), r) ==> r is Ok) ==> (res is Ok
            <==> count * width <= buffer@.len()),
{
    let mut result: Vec<T> = Vec::new();
    let mut offset: usize = 0;
    let mut i: usize = 0;
    while i < count
        invariant
            i <= count,
            offset == i * width,
            offset <= buffer@.len(),
            result@.len() == i,
            forall|s: &[u8]| s@.len() == width ==> #[trigger] call_requires(convert, (s,)),
            forall|k: int| 0 <= k < i ==> #[trigger] converted_slice(convert, buffer@, width as nat, k, Ok::<T, E>(result@[k])),
        decreases count - i,
    {
        if width > buffer.len() - offset {
            proof {
                assert((i + 1) * width <= count * width) by (nonlinear_arith)
                    requires
                        i + 1 <= count,
                ;
                assert((i + 1) * width == i * width + width) by (nonlinear_arith);
            }
            return Err(FixedWidthError::ShortBuffer);
        }
        let piece = vstd::slice::slice_subrange(buffer, offset, offset + width);
        assert((i + 1) * width == i * width + width) by (nonlinear_arith);
        let value = match convert(piece) {
            Ok(x) => x,
            Err(e) => return Err(FixedWidthError::Convert(e)),
        };
        proof {
            assert(call_ensures(convert, (piece,), Ok::<T, E>(value)));
        }
        result.push(value);
        proof {
            assert forall|k: int| 0 <= k < i + 1 implies #[trigger] converted_slice(
                convert,
                buffer@,
                width as nat,
                k,
                Ok::<T, E>(result@[k]),
            ) by {
                if k == i {
                    assert(piece@ == buffer@.subrange(k * width, (k + 1) * width));
                }
            }
        }
        offset = offset + width;
        i = i + 1;
    }
    Ok(result)
}

} // verus!
