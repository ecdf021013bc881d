//! Repetition and definition levels, and dictionary indices: values stored
//! with the RLE/bit-packing hybrid encoding.

use vstd::prelude::*;
use crate::pq::{first_run, packed_bit, packed_bits_value, unpack_u32, unpacked_value, RleRun};
use vstd::arithmetic::power2::pow2;

verus! {

/// Number of bits in the binary notation of `n` (0 for 0).
pub open spec fn bit_len(n: nat) -> nat
    decreases n,
{
    if n == 0 {
        0
    } else {
        1 + bit_len(n / 2)
    }
}

/// Bits needed to store levels up to `max_level`: its bit length, or 16
/// for a negative level.
pub open spec fn level_bit_width(max_level: i16) -> nat {
    if max_level < 0 {
        16
    } else {
        bit_len(max_level as nat)
    }
}

proof fn lemma_bit_len_le(n: nat, k: nat)
    requires
        n < vstd::arithmetic::power2::pow2(k),
    ensures
        bit_len(n) <= k,
    decreases n,
{
    if n > 0 {
        if k == 0 {
            vstd::arithmetic::power2::lemma2_to64();
        } else {
            vstd::arithmetic::power2::lemma_pow2_unfold(k);
            lemma_bit_len_le(n / 2, (k - 1) as nat);
        }
    }
}

/// Bits needed to store levels up to `max_level`.
pub fn get_bit_width(max_level: i16) -> (r: u32)
    ensures
        r == level_bit_width(max_level),
        r <= 16,
        (r == 0) == (max_level == 0),
{
    if max_level < 0 {
        return 16;
    }
    let mut n: u16 = max_level as u16;
    let mut count: u32 = 0;
    proof {
        vstd::arithmetic::power2::lemma2_to64();
        lemma_bit_len_le(max_level as nat, 15);
    }
    while n > 0
        invariant
            count + bit_len(n as nat) == bit_len(max_level as nat),
            bit_len(max_level as nat) <= 15,
        decreases n,
    {
        n = n / 2;
        count = count + 1;
    }
    count
}


/// The little-endian number in the bytes of an RLE run, each byte shifted by
/// `8 * i` bits taken modulo 32.
pub open spec fn rle_raw(bytes: Seq<u8>) -> u32
    decreases bytes.len(),
{
    if bytes.len() == 0 {
        0
    } else {
        rle_raw(bytes.drop_last()) | ((bytes.last() as u32) << (((8 * (bytes.len() - 1)) % 32) as u32))
    }
}

/// The value of an RLE run: its number cut to the low `bit_width` bits
/// (kept whole from 32 bits on).
pub open spec fn rle_value(bytes: Seq<u8>, bit_width: nat) -> u32 {
    if bit_width >= 32 {
        rle_raw(bytes)
    } else {
        rle_raw(bytes) & (((1u32 << (bit_width as u32)) - 1) as u32)
    }
}

/// The value repeated by an RLE run.
pub fn decode_rle_value(bytes: &[u8], bit_width: usize) -> (v: u32)
    ensures
        v == rle_value(bytes@, bit_width as nat),
        bit_width < 32 ==> v < vstd::arithmetic::power2::pow2(bit_width as nat),
{
    let mut value: u32 = 0;
    let mut i: usize = 0;
    while i < bytes.len()
        invariant
            i <= bytes@.len(),
            value == rle_raw(bytes@.take(i as int)),
        decreases bytes@.len() - i,
    {
        let shift = ((i % 4) * 8) as u32;
        value = value | (bytes[i] as u32).wrapping_shl(shift);
        proof {
            let t = bytes@.take(i + 1);
            assert(t.drop_last() =~= bytes@.take(i as int));
            assert((8 * i) % 32 == (i % 4) * 8) by (nonlinear_arith);
        }
        i = i + 1;
    }
    assert(bytes@.take(bytes@.len() as int) =~= bytes@);
    if bit_width >= 32 {
        value
    } else {
        let bw = bit_width as u32;
        assert((1u32 << bw) >= 1) by (bit_vector)
            requires
                bw < 32,
        ;
        let mask = (1u32 << bw) - 1;
        proof {
            assert((value & mask) < (1u32 << bw)) by (bit_vector)
                requires
                    bw < 32,
                    mask == (1u32 << bw) - 1,
            ;
            vstd::arithmetic::power2::lemma2_to64();
            vstd::arithmetic::power2::lemma_pow2_strictly_increases(bw as nat, 32);
            vstd::bits::lemma_u32_shl_is_mul(1u32, bw);
        }
        value & mask
    }
}

/// `128^k`.
pub open spec fn p128(k: nat) -> int
    decreases k,
{
    if k == 0 {
        1
    } else {
        128 * p128((k - 1) as nat)
    }
}

/// The number held by the first `k` bytes of a ULEB128 number: the low
/// seven bits of each byte, least significant group first.
pub open spec fn uleb_prefix(b: Seq<u8>, k: nat) -> int
    decreases k,
{
    if k == 0 {
        0
    } else {
        uleb_prefix(b, (k - 1) as nat) + (b[k - 1] % 128) * p128((k - 1) as nat)
    }
}

/// How many bytes the ULEB128 number at position `k` on takes: up to and
/// including the first byte below 128, or to the end.
pub open spec fn uleb_len_from(b: Seq<u8>, k: nat) -> nat
    decreases b.len() - k,
{
    if k >= b.len() {
        b.len()
    } else if b[k as int] < 128 {
        k + 1
    } else {
        uleb_len_from(b, k + 1)
    }
}

/// How many bytes the ULEB128 number at the start of `b` takes.
pub open spec fn uleb_len(b: Seq<u8>) -> nat {
    uleb_len_from(b, 0)
}

/// The ULEB128 number at the start of `b`.
pub open spec fn uleb_value(b: Seq<u8>) -> int {
    uleb_prefix(b, uleb_len(b))
}

/// A ULEB128 number that does not fit in 64 bits: nine bytes that go on,
/// then a tenth above 1.
pub open spec fn uleb_too_long(b: Seq<u8>) -> bool {
    b.len() >= 10 && (forall|j: int| 0 <= j < 9 ==> b[j] >= 128) && b[9] > 1
}

/// `ceil(n / 8)`.
pub open spec fn ceil8(n: nat) -> nat {
    (n + 7) / 8
}

/// The run at the head of an RLE/bit-packing hybrid stream of `num_bits`-bit
/// values: (bit-packed?, its bytes, its RLE repeat count, the stream after
/// it). A ULEB128 header whose lowest bit marks a bit-packed run of
/// `header / 2` groups of eight values (`header / 2 * num_bits` bytes, or
/// what is left), or an RLE run of `header / 2` repeats of one value in
/// `ceil(num_bits / 8)` bytes. No run for 0 bits, at the end of the stream,
/// or when nothing follows the header.
pub open spec fn head_run(b: Seq<u8>, num_bits: nat) -> Option<(bool, Seq<u8>, nat, Seq<u8>)> {
    let c = uleb_len(b);
    let v = uleb_value(b);
    let after = b.skip(c as int);
    if num_bits == 0 || b.len() == 0 || after.len() == 0 {
        None
    } else if v % 2 == 1 {
        let want = ((v as usize) / 2) * num_bits;
        let n = if want < after.len() {
            want
        } else {
            after.len() as int
        };
        Some((true, after.take(n), 0, after.skip(n)))
    } else {
        let k = ceil8(num_bits);
        Some((false, after.take(k as int), ((v as usize) / 2) as nat, after.skip(k as int)))
    }
}

/// Whether reading the run at the head of `b` panics in `parquet2`: a
/// header too long for 64 bits, a bit-packed byte count past `usize`, or an
/// RLE value cut short.
pub open spec fn head_panics(b: Seq<u8>, num_bits: nat) -> bool {
    let c = uleb_len(b);
    let v = uleb_value(b);
    let after = b.skip(c as int);
    num_bits != 0 && b.len() > 0 && (uleb_too_long(b) || (after.len() > 0 && (if v % 2 == 1 {
        ((v as usize) / 2) * num_bits > usize::MAX
    } else {
        after.len() < ceil8(num_bits)
    })))
}

/// Why the values of a hybrid stream could not be had.
#[derive(Debug, Clone, Copy, PartialEq, Eq, Structural)]
pub enum RunFault {
    /// A run header that cannot be read.
    Malformed,
    /// A bit-packed run of more than 32 bits per value.
    BitWidthTooLarge,
    /// More bits asked of a bit-packed run than `usize` counts.
    TooManyBits,
    /// A bit-packed run shorter than the values asked of it.
    Unpack,
}

/// The first `wanted` values (or fewer, where the stream ends) of an
/// RLE/bit-packing hybrid stream of `num_bits`-bit values, run by run: a
/// bit-packed run gives all that are still wanted, an RLE run its repeats.
pub open spec fn hybrid_values(b: Seq<u8>, num_bits: nat, wanted: nat) -> Result<Seq<u32>, RunFault>
    decreases b.len(),
{
    if wanted == 0 {
        Ok(Seq::empty())
    } else if head_panics(b, num_bits) {
        Err(RunFault::Malformed)
    } else {
        match head_run(b, num_bits) {
            None => Ok(Seq::empty()),
            Some((packed, bytes, n, rest)) => if packed {
                if num_bits > 32 {
                    Err(RunFault::BitWidthTooLarge)
                } else if wanted * num_bits > usize::MAX {
                    Err(RunFault::TooManyBits)
                } else if bytes.len() * 8 < wanted * num_bits {
                    Err(RunFault::Unpack)
                } else {
                    Ok(Seq::new(wanted, |i: int| unpacked_value(bytes, num_bits, i) as u32))
                }
            } else {
                let k = if n < wanted {
                    n
                } else {
                    wanted
                };
                let more = Seq::new(k, |i: int| rle_value(bytes, num_bits));
                if k == wanted || rest.len() >= b.len() {
                    Ok(more)
                } else {
                    match hybrid_values(rest, num_bits, (wanted - k) as nat) {
                        Ok(m) => Ok(more + m),
                        Err(f) => Err(f),
                    }
                }
            },
        }
    }
}

/// `acc` before what `r` holds, or the fault of `r`.
pub open spec fn after_values(acc: Seq<u32>, r: Result<Seq<u32>, RunFault>) -> Result<Seq<u32>, RunFault> {
    match r {
        Ok(m) => Ok(acc + m),
        Err(f) => Err(f),
    }
}

pub proof fn lemma_uleb_len_from(b: Seq<u8>, k: nat)
    requires
        k <= b.len(),
    ensures
        k <= uleb_len_from(b, k) <= b.len(),
        k < b.len() ==> k < uleb_len_from(b, k),
    decreases b.len() - k,
{
    if k < b.len() && b[k as int] >= 128 {
        lemma_uleb_len_from(b, k + 1);
    }
}

/// The ULEB128 number at the start of `b`, with the bytes it takes; `None`
/// where it does not fit in 64 bits.
pub(crate) fn read_uleb(b: &[u8]) -> (r: Option<(u128, usize)>)
    ensures
        r is None <==> uleb_too_long(b@),
        r matches Some((v, c)) ==> c == uleb_len(b@) && v == uleb_value(b@) && v < 0x1_0000_0000_0000_0000
            && c <= b@.len(),
{
    let mut k: usize = 0;
    let mut acc: u128 = 0;
    let mut mult: u128 = 1;
    while k < b.len()
        invariant
            k <= b@.len(),
            k <= 9,
            forall|j: int| 0 <= j < k ==> b@[j] >= 128,
            acc == uleb_prefix(b@, k as nat),
            mult == p128(k as nat),
            0 <= acc < mult,
            mult <= 0x8000_0000_0000_0000,
            uleb_len_from(b@, 0) == uleb_len_from(b@, k as nat),
        decreases b@.len() - k,
    {
        if k == 9 && b[9] > 1 {
            return None;
        }
        let byte = b[k];
        let low = (byte % 128) as u128;
        assert(low * mult <= 127 * mult) by (nonlinear_arith)
            requires
                low <= 127,
                mult >= 0,
        ;
        let ghost old_acc = acc;
        acc = acc + low * mult;
        if byte < 128 {
            proof {
                assert(!uleb_too_long(b@));
                if k < 9 {
                    assert(p128(8) == 0x100_0000_0000_0000) by {
                        reveal_with_fuel(p128, 9);
                    }
                    lemma_p128_mono(k as nat, 8);
                    assert(low * mult <= 127 * 0x100_0000_0000_0000) by (nonlinear_arith)
                        requires
                            low <= 127,
                            mult <= 0x100_0000_0000_0000,
                    ;
                } else {
                    assert(low <= 1);
                    assert(low * mult <= mult) by (nonlinear_arith)
                        requires
                            low <= 1,
                            mult >= 0,
                    ;
                }
            }
            return Some((acc, k + 1));
        }
        assert(k < 9);
        k = k + 1;
        mult = mult * 128;
        proof {
            assert(p128(9) == 0x8000_0000_0000_0000) by {
                reveal_with_fuel(p128, 10);
            }
            lemma_p128_mono(k as nat, 9);
        }
    }
    proof {
        lemma_uleb_len_from(b@, 0);
    }
    Some((acc, k))
}

proof fn lemma_p128_mono(a: nat, b: nat)
    requires
        a <= b,
    ensures
        1 <= p128(a) <= p128(b),
    decreases b,
{
    if a < b {
        lemma_p128_mono(a, (b - 1) as nat);
    } else if a > 0 {
        lemma_p128_mono((a - 1) as nat, (a - 1) as nat);
    }
}

/// Whether reading the run at the head of `b` is safe, and the bytes its
/// header takes when there is a run.
fn check_head(b: &[u8], num_bits: usize) -> (r: Option<usize>)
    ensures
        r is None <==> head_panics(b@, num_bits as nat),
        r matches Some(c) ==> (num_bits != 0 && b@.len() > 0 ==> c == uleb_len(b@)),
{
    if num_bits == 0 || b.len() == 0 {
        return Some(0);
    }
    let (v, c) = match read_uleb(b) {
        None => return None,
        Some(x) => x,
    };
    proof {
        lemma_uleb_len_from(b@, 0);
    }
    let left = b.len() - c;
    assert(b@.skip(c as int).len() == left);
    if left == 0 {
        return Some(c);
    }
    #[verifier::truncate]
    let half = (v as usize) / 2;
    assert(half == (v as usize) / 2);
    if v % 2 == 1 {
        match half.checked_mul(num_bits) {
            None => None,
            Some(_) => Some(c),
        }
    } else {
        let k = num_bits / 8 + if num_bits % 8 != 0 { 1 } else { 0 };
        assert(k == ceil8(num_bits as nat));
        if left < k {
            None
        } else {
            Some(c)
        }
    }
}

/// Why a hybrid-encoded stream could not be read.
#[derive(Debug)]
pub enum RunsError {
    /// A run header that cannot be read (see [`head_panics`]).
    Malformed,
    /// A bit-packed run with more than 32 bits per value.
    BitWidthTooLarge(usize),
    /// More bits asked of a bit-packed run than `usize` counts.
    TooManyBits,
    /// A bit-packed run cannot give the values asked of it.
    Bitpacked(parquet2::error::Error),
}

/// Whether `e` is the error for the fault `f` of a stream of
/// `bit_width`-bit values.
pub open spec fn runs_error_is(e: RunsError, f: RunFault, bit_width: nat) -> bool {
    match f {
        RunFault::Malformed => e is Malformed,
        RunFault::BitWidthTooLarge => e matches RunsError::BitWidthTooLarge(w) && w == bit_width,
        RunFault::TooManyBits => e is TooManyBits,
        RunFault::Unpack => e is Bitpacked,
    }
}

/// Whether `res` is what reading a stream gives when its values are `spec`.
pub open spec fn runs_outcome(res: Result<Vec<u32>, RunsError>, spec: Result<Seq<u32>, RunFault>, bit_width: nat) -> bool {
    match spec {
        Ok(s) => res matches Ok(v) && v@ == s,
        Err(f) => res matches Err(e) && runs_error_is(e, f, bit_width),
    }
}

/// A stream gives no more values than are wanted.
pub proof fn lemma_hybrid_len(b: Seq<u8>, num_bits: nat, wanted: nat)
    ensures
        hybrid_values(b, num_bits, wanted) matches Ok(s) ==> s.len() <= wanted,
    decreases b.len(),
{
    if wanted > 0 && !head_panics(b, num_bits) {
        if let Some((packed, bytes, n, rest)) = head_run(b, num_bits) {
            if !packed {
                let k = if n < wanted {
                    n
                } else {
                    wanted
                };
                if k < wanted && rest.len() < b.len() {
                    lemma_hybrid_len(rest, num_bits, (wanted - k) as nat);
                }
            }
        }
    }
}

/// Reads the runs of a hybrid-encoded stream until `total` values are in
/// hand or the runs end: the values of [`hybrid_values`], or the error of
/// its fault.
pub fn collect_runs(data: &[u8], bit_width: usize, total: usize) -> (res: Result<
    Vec<u32>,
    RunsError,
>)
    ensures
        runs_outcome(res, hybrid_values(data@, bit_width as nat, total as nat), bit_width as nat),
{
    let mut levels: Vec<u32> = Vec::new();
    if total == 0 {
        return Ok(levels);
    }
    let ghost bw = bit_width as nat;
    let data_len = data.len();
    let mut pos: usize = 0;
    proof {
        assert(data@.skip(0) =~= data@);
        if let Ok(m) = hybrid_values(data@, bw, total as nat) {
            assert(Seq::<u32>::empty() + m =~= m);
        }
    }
    loop
        invariant
            pos <= data@.len(),
            data_len == data@.len(),
            levels@.len() < total,
            bw == bit_width as nat,
            hybrid_values(data@, bw, total as nat) == after_values(
                levels@,
                hybrid_values(data@.skip(pos as int), bw, (total - levels@.len()) as nat),
            ),
        decreases data@.len() - pos,
    {
        let rest = slice_from(data, pos);
        assert(rest@ =~= data@.skip(pos as int));
        let ghost prev = levels@;
        let wanted = total - levels.len();
        let c = match check_head(rest, bit_width) {
            None => return Err(RunsError::Malformed),
            Some(c) => c,
        };
        let run = match first_run(rest, bit_width) {
            None => {
                assert(prev + Seq::<u32>::empty() =~= prev);
                return Ok(levels);
            },
            Some(Err(_)) => return Err(RunsError::Malformed),
            Some(Ok(run)) => run,
        };
        match run {
            RleRun::Bitpacked(values) => {
                if bit_width > 32 {
                    return Err(RunsError::BitWidthTooLarge(bit_width));
                }
                if wanted.checked_mul(bit_width).is_none() {
                    return Err(RunsError::TooManyBits);
                }
                let unpacked = match unpack_u32(values.as_slice(), bit_width, wanted) {
                    Ok(u) => u,
                    Err(e) => return Err(RunsError::Bitpacked(e)),
                };
                let mut j: usize = 0;
                while j < unpacked.len()
                    invariant
                        j <= unpacked@.len(),
                        levels@ == prev + unpacked@.take(j as int),
                    decreases unpacked@.len() - j,
                {
                    levels.push(unpacked[j]);
                    assert(unpacked@.take(j + 1) =~= unpacked@.take(j as int).push(unpacked@[j as int]));
                    j = j + 1;
                }
                proof {
                    assert(unpacked@.take(unpacked@.len() as int) =~= unpacked@);
                    assert(unpacked@ =~= Seq::new(
                        wanted as nat,
                        |i: int| unpacked_value(values@, bw, i) as u32,
                    ));
                }
                return Ok(levels);
            },
            RleRun::Rle(bytes, run_len) => {
                let value = decode_rle_value(bytes.as_slice(), bit_width);
                let take = if run_len < wanted {
                    run_len
                } else {
                    wanted
                };
                let mut j: usize = 0;
                while j < take
                    invariant
                        j <= take,
                        levels@ == prev + Seq::new(j as nat, |i: int| value),
                    decreases take - j,
                {
                    levels.push(value);
                    assert(Seq::new((j + 1) as nat, |i: int| value) =~= Seq::new(
                        j as nat,
                        |i: int| value,
                    ).push(value));
                    j = j + 1;
                }
                if take == wanted {
                    return Ok(levels);
                }
                proof {
                    lemma_uleb_len_from(rest@, 0);
                    let after = rest@.skip(c as int);
                    assert(!head_panics(rest@, bw));
                    assert(c == uleb_len(rest@));
                    assert(after.len() == rest@.len() - c);
                    assert(after.len() >= ceil8(bw));
                    assert(bytes@.len() == ceil8(bw));
                    assert(c + bytes@.len() <= rest@.len());
                    assert(rest@.len() == data@.len() - pos);
                    assert(pos + c + bytes@.len() <= data@.len());
                    assert(data@.skip((pos + c + bytes@.len()) as int) =~= after.skip(ceil8(bw) as int));
                    let more = Seq::new(take as nat, |i: int| value);
                    let r2 = hybrid_values(after.skip(ceil8(bw) as int), bw, (wanted - take) as nat);
                    assert(after_values(prev, after_values(more, r2)) == after_values(prev + more, r2)) by {
                        if let Ok(m) = r2 {
                            assert(prev + (more + m) =~= (prev + more) + m);
                        }
                    }
                }
                pos = pos + c + bytes.len();
            },
        }
    }
}

/// The ULEB128 bytes of `x`: seven bits a byte, least significant first,
/// each byte but the last marked by its top bit.
pub open spec fn uleb_encode(x: nat) -> Seq<u8>
    decreases x,
{
    if x < 128 {
        seq![x as u8]
    } else {
        seq![(x % 128 + 128) as u8] + uleb_encode(x / 128)
    }
}

/// Bit `k` of the values `levels` laid end to end, `num_bits` bits each,
/// least significant first.
pub open spec fn level_bit(levels: Seq<u32>, num_bits: nat, k: int) -> nat {
    ((levels[k / (num_bits as int)] as nat) / pow2((k % (num_bits as int)) as nat)) % 2
}

/// Whether `b` holds the values `levels` as one bit-packed run of the
/// hybrid encoding, as a writer lays them out: a ULEB128 header counting
/// groups of eight values and marking the run bit-packed, then
/// `ceil(n * num_bits / 8)` bytes whose first `n * num_bits` bits, least
/// significant first, are the values' bits in turn.
pub open spec fn is_bitpacked_run(b: Seq<u8>, levels: Seq<u32>, num_bits: nat) -> bool {
    let e = uleb_encode(2 * ceil8(levels.len()) + 1);
    let p = b.skip(e.len() as int);
    &&& b.len() >= e.len()
    &&& b.take(e.len() as int) == e
    &&& p.len() == ceil8(levels.len() * num_bits)
    &&& forall|k: int|
        0 <= k < levels.len() * num_bits ==> #[trigger] packed_bit(p, k) == level_bit(levels, num_bits, k)
}

proof fn lemma_uleb_len_shift(b: Seq<u8>, k: nat)
    requires
        k < b.len(),
    ensures
        uleb_len_from(b, k + 1) == 1 + uleb_len_from(b.drop_first(), k),
    decreases b.len() - k,
{
    if k + 1 < b.len() && b[(k + 1) as int] >= 128 {
        lemma_uleb_len_shift(b, k + 1);
    }
}

proof fn lemma_uleb_prefix_shift(b: Seq<u8>, k: nat)
    requires
        k + 1 <= b.len(),
    ensures
        uleb_prefix(b, k + 1) == (b[0] % 128) + 128 * uleb_prefix(b.drop_first(), k),
    decreases k,
{
    if k > 0 {
        lemma_uleb_prefix_shift(b, (k - 1) as nat);
        let pp = uleb_prefix(b.drop_first(), (k - 1) as nat);
        let c = (b[k as int] % 128) as int;
        let q = p128((k - 1) as nat);
        assert(b.drop_first()[k - 1] == b[k as int]);
        assert(p128(k) == 128 * q);
        assert(uleb_prefix(b, k + 1) == uleb_prefix(b, k) + c * p128(k));
        assert(uleb_prefix(b.drop_first(), k) == pp + c * q);
        assert(128 * (pp + c * q) == 128 * pp + c * (128 * q)) by (nonlinear_arith);
    } else {
        assert(uleb_prefix(b, 1) == uleb_prefix(b, 0) + (b[0] % 128) * p128(0));
        assert(uleb_prefix(b.drop_first(), 0) == 0);
    }
}

/// The ULEB128 bytes of a number read back as that number.
pub proof fn lemma_uleb_encode(x: nat, rest: Seq<u8>)
    ensures
        uleb_encode(x).len() >= 1,
        uleb_len(uleb_encode(x) + rest) == uleb_encode(x).len(),
        uleb_value(uleb_encode(x) + rest) == x,
        uleb_encode(x)[uleb_encode(x).len() - 1] < 128,
    decreases x,
{
    let e = uleb_encode(x);
    let b = e + rest;
    if x < 128 {
        assert(b[0] == x as u8);
        assert(uleb_prefix(b, 1) == uleb_prefix(b, 0) + (b[0] % 128) * p128(0));
    } else {
        let e2 = uleb_encode(x / 128);
        lemma_uleb_encode(x / 128, rest);
        assert(b.drop_first() =~= e2 + rest);
        assert(b[0] >= 128);
        lemma_uleb_len_shift(b, 0);
        let l2 = uleb_len(e2 + rest);
        lemma_uleb_len_from(e2 + rest, 0);
        lemma_uleb_prefix_shift(b, l2);
        assert(e[e.len() - 1] == e2[e2.len() - 1]);
    }
}

/// A number below `128^m` takes at most `m` ULEB128 bytes.
proof fn lemma_uleb_encode_len(x: nat, m: nat)
    requires
        m >= 1,
        x < p128(m),
    ensures
        uleb_encode(x).len() <= m,
    decreases x,
{
    if x >= 128 {
        if m == 1 {
            assert(p128(1) == 128) by {
                reveal_with_fuel(p128, 2);
            }
        } else {
            assert(p128(m) == 128 * p128((m - 1) as nat));
            lemma_uleb_encode_len(x / 128, (m - 1) as nat);
        }
    }
}

/// The number held by `m` bits of a value laid out at bit `start` is the
/// value taken modulo `2^m`.
proof fn lemma_run_value_bits(p: Seq<u8>, levels: Seq<u32>, num_bits: nat, i: int, m: nat)
    requires
        1 <= num_bits,
        m <= num_bits,
        0 <= i < levels.len(),
        forall|k: int|
            0 <= k < levels.len() * num_bits ==> #[trigger] packed_bit(p, k) == level_bit(levels, num_bits, k),
    ensures
        packed_bits_value(p, i * num_bits, m) == (levels[i] as nat) % pow2(m),
    decreases m,
{
    let x = levels[i] as nat;
    if m == 0 {
        vstd::arithmetic::power2::lemma2_to64();
    } else {
        lemma_run_value_bits(p, levels, num_bits, i, (m - 1) as nat);
        let k = i * num_bits + m - 1;
        assert(0 <= k < levels.len() * num_bits) by (nonlinear_arith)
            requires
                0 <= i < levels.len(),
                1 <= m <= num_bits,
                k == i * num_bits + m - 1,
        ;
        vstd::arithmetic::div_mod::lemma_fundamental_div_mod_converse(k, num_bits as int, i, m - 1);
        assert(packed_bit(p, k) == (x / pow2((m - 1) as nat)) % 2);
        vstd::arithmetic::power2::lemma_pow2_unfold(m);
        vstd::arithmetic::power2::lemma_pow2_pos((m - 1) as nat);
        vstd::arithmetic::div_mod::lemma_mod_breakdown(x as int, pow2((m - 1) as nat) as int, 2);
        assert(pow2((m - 1) as nat) * 2 == pow2(m));
    }
}

/// One bit-packed run, read with the width it was written with, gives
/// back its values.
pub proof fn lemma_bitpacked_run_read_back(b: Seq<u8>, levels: Seq<u32>, num_bits: nat)
    requires
        1 <= num_bits <= 32,
        levels.len() >= 1,
        forall|i: int| 0 <= i < levels.len() ==> (#[trigger] levels[i] as nat) < pow2(num_bits),
        is_bitpacked_run(b, levels, num_bits),
        levels.len() * num_bits <= usize::MAX,
    ensures
        hybrid_values(b, num_bits, levels.len()) == Ok::<Seq<u32>, RunFault>(levels),
{
    let n = levels.len();
    let x = 2 * ceil8(n) + 1;
    let e = uleb_encode(x);
    let p = b.skip(e.len() as int);
    assert(b =~= e + p);
    assert(ceil8(n) * num_bits <= n * num_bits) by (nonlinear_arith)
        requires
            n >= 1,
            ceil8(n) == (n + 7) / 8,
    ;
    lemma_uleb_encode(x, p);
    assert(n <= usize::MAX) by (nonlinear_arith)
        requires
            n * num_bits <= usize::MAX,
            num_bits >= 1,
    ;
    assert(x <= usize::MAX);
    assert(x < 0x8000_0000_0000_0000);
    assert(p128(9) == 0x8000_0000_0000_0000) by {
        reveal_with_fuel(p128, 10);
    }
    lemma_uleb_encode_len(x, 9);
    assert(!uleb_too_long(b)) by {
        if uleb_too_long(b) {
            assert(b[e.len() - 1] == e[e.len() - 1]);
        }
    }
    assert(b.skip(uleb_len(b) as int) =~= p);
    assert(x % 2 == 1);
    assert((x as usize) == x);
    assert((x as usize) / 2 == ceil8(n));
    assert(n * num_bits >= 1) by (nonlinear_arith)
        requires
            n >= 1,
            num_bits >= 1,
    ;
    assert(p.len() > 0);
    assert(ceil8(n * num_bits) <= ceil8(n) * num_bits) by (nonlinear_arith)
        requires
            num_bits >= 1,
    ;
    assert(!head_panics(b, num_bits));
    assert(p.take(p.len() as int) =~= p);
    assert(head_run(b, num_bits) == Some((true, p, 0nat, p.skip(p.len() as int))));
    assert(p.len() * 8 >= n * num_bits);
    assert forall|i: int| 0 <= i < n implies #[trigger] (unpacked_value(p, num_bits, i) as u32) == levels[i] by {
        lemma_run_value_bits(p, levels, num_bits, i, num_bits);
        vstd::arithmetic::div_mod::lemma_small_mod(levels[i] as nat, pow2(num_bits));
    }
    assert(Seq::new(n, |i: int| unpacked_value(p, num_bits, i) as u32) =~= levels);
}

/// A maximum level is below two to the power of its bit width.
pub proof fn lemma_level_fits_width(max_level: nat)
    ensures
        max_level < pow2(bit_len(max_level)),
    decreases max_level,
{
    if max_level == 0 {
        vstd::arithmetic::power2::lemma2_to64();
    } else {
        lemma_level_fits_width(max_level / 2);
        vstd::arithmetic::power2::lemma_pow2_unfold(bit_len(max_level));
    }
}

/// Levels that an encoder writes as one bit-packed run, with the width of
/// their maximum, are read back as those levels.
pub proof fn lemma_levels_round_trip(b: Seq<u8>, levels: Seq<u32>, max_level: i16)
    requires
        max_level > 0,
        levels.len() >= 1,
        forall|i: int| 0 <= i < levels.len() ==> #[trigger] levels[i] <= max_level,
        is_bitpacked_run(b, levels, level_bit_width(max_level)),
        levels.len() * 16 <= usize::MAX,
    ensures
        levels_from_stream(b, max_level, levels.len(), levels),
{
    let nb = level_bit_width(max_level);
    lemma_level_fits_width(max_level as nat);
    vstd::arithmetic::power2::lemma2_to64();
    assert(nb <= 16) by {
        vstd::arithmetic::power2::lemma2_to64();
        lemma_bit_len_le(max_level as nat, 15);
    }
    assert(nb >= 1);
    assert forall|i: int| 0 <= i < levels.len() implies (#[trigger] levels[i] as nat) < pow2(nb) by {}
    assert(levels.len() * nb <= levels.len() * 16) by (nonlinear_arith)
        requires
            nb <= 16,
    ;
    lemma_bitpacked_run_read_back(b, levels, nb);
    let e = uleb_encode(2 * ceil8(levels.len()) + 1);
    lemma_uleb_encode(2 * ceil8(levels.len()) + 1, Seq::empty());
    assert(b.len() > 0);
    assert(pad_levels(levels, levels.len(), max_level as u32) == levels);
}

/// `acc`, filled up to `total` entries with `fill`.
pub open spec fn pad_levels(acc: Seq<u32>, total: nat, fill: u32) -> Seq<u32> {
    if acc.len() < total {
        acc + Seq::new((total - acc.len()) as nat, |i: int| fill)
    } else {
        acc
    }
}

/// Whether `levels` are the levels that the stream `data` holds for `total`
/// values: all at the maximum for an empty stream, otherwise the stream's
/// values (see [`hybrid_values`]), filled up with the maximum.
pub open spec fn levels_from_stream(data: Seq<u8>, max_level: i16, total: nat, levels: Seq<u32>) -> bool {
    &&& levels.len() == total
    &&& data.len() == 0 ==> levels == Seq::new(total, |i: int| max_level as u32)
    &&& data.len() > 0 ==> (hybrid_values(data, level_bit_width(max_level), total) matches Ok(acc)
        && levels == pad_levels(acc, total, max_level as u32))
}

/// Which levels a stream holds, for error messages.
#[derive(Debug, Clone, Copy, PartialEq, Eq)]
pub enum LevelKind {
    Definition,
    Repetition,
}

/// A level stream that could not be read, and which levels it held.
#[derive(Debug)]
pub struct LevelError {
    pub kind: LevelKind,
    pub cause: RunsError,
}

/// The levels a stream holds for `total` values (see [`decode_levels`]):
/// none when there is no level to store, all at the maximum for an empty
/// stream, otherwise the stream's values filled up with the maximum.
pub open spec fn levels_decoded(data: Seq<u8>, max_level: i16, total: nat) -> Result<Option<Seq<u32>>, ()> {
    if max_level == 0 || total == 0 {
        Ok(None)
    } else if data.len() == 0 {
        Ok(Some(Seq::new(total, |i: int| max_level as u32)))
    } else {
        match hybrid_values(data, level_bit_width(max_level), total) {
            Ok(acc) => Ok(Some(pad_levels(acc, total, max_level as u32))),
            Err(_) => Err(()),
        }
    }
}

/// Decodes `total_values` levels of at most `max_level` from a hybrid stream.
/// No levels are stored (`None`) when `max_level` or `total_values` is 0; an
/// empty stream means every value sits at `max_level`; a stream that ends
/// early is filled up with `max_level`.
pub fn decode_levels(data: &[u8], max_level: i16, total_values: usize, kind: LevelKind) -> (res:
    Result<Option<Vec<u32>>, LevelError>)
    ensures
        (res matches Ok(None)) <==> (max_level == 0 || total_values == 0),
        res matches Ok(Some(v)) ==> v@.len() == total_values,
        max_level != 0 && total_values != 0 && data@.len() == 0 ==> (res matches Ok(Some(v)) && v@
            == Seq::new(total_values as nat, |i: int| max_level as u32)),
        max_level != 0 && total_values != 0 && data@.len() > 0 ==> match hybrid_values(
            data@,
            level_bit_width(max_level),
            total_values as nat,
        ) {
            Ok(acc) => res matches Ok(Some(v)) && v@ == pad_levels(acc, total_values as nat, max_level as u32),
            Err(f) => res matches Err(e) && e.kind == kind && runs_error_is(
                e.cause,
                f,
                level_bit_width(max_level),
            ),
        },
        res matches Err(e) ==> e.kind == kind && data@.len() > 0 && max_level != 0 && total_values
            != 0,
        res matches Ok(Some(v)) ==> levels_from_stream(data@, max_level, total_values as nat, v@),
        match levels_decoded(data@, max_level, total_values as nat) {
            Ok(None) => res matches Ok(None),
            Ok(Some(l)) => res matches Ok(Some(v)) && v@ == l,
            Err(_) => res is Err,
        },
{
    if max_level == 0 || total_values == 0 {
        return Ok(None);
    }
    let bit_width = get_bit_width(max_level);
    if bit_width == 0 {
        let mut zeros: Vec<u32> = Vec::new();
        let mut i: usize = 0;
        while i < total_values
            invariant
                i <= total_values,
                zeros@ == Seq::new(i as nat, |j: int| 0u32),
            decreases total_values - i,
        {
            zeros.push(0);
            assert(Seq::new((i + 1) as nat, |j: int| 0u32) =~= Seq::new(i as nat, |j: int| 0u32).push(0));
            i = i + 1;
        }
        return Ok(Some(zeros));
    }
    let fill = max_level as u32;
    if data.len() == 0 {
        let mut all: Vec<u32> = Vec::new();
        let mut i: usize = 0;
        while i < total_values
            invariant
                i <= total_values,
                all@ == Seq::new(i as nat, |j: int| fill),
            decreases total_values - i,
        {
            all.push(fill);
            assert(Seq::new((i + 1) as nat, |j: int| fill) =~= Seq::new(i as nat, |j: int| fill).push(fill));
            i = i + 1;
        }
        return Ok(Some(all));
    }
    let mut levels = match collect_runs(data, bit_width as usize, total_values) {
        Ok(v) => v,
        Err(cause) => return Err(LevelError { kind, cause }),
    };
    let ghost acc = levels@;
    proof {
        lemma_hybrid_len(data@, bit_width as nat, total_values as nat);
    }
    let n = levels.len();
    let mut i: usize = n;
    while i < total_values
        invariant
            n == acc.len(),
            n <= i <= total_values,
            levels@ == acc + Seq::new((i - n) as nat, |j: int| fill),
        decreases total_values - i,
    {
        levels.push(fill);
        assert(acc + Seq::new((i + 1 - n) as nat, |j: int| fill) =~= (acc + Seq::new(
            (i - n) as nat,
            |j: int| fill,
        )).push(fill));
        i = i + 1;
    }
    proof {
        if n == total_values {
            assert(acc + Seq::new(0nat, |j: int| fill) =~= acc);
        }
    }
    Ok(Some(levels))
}

/// Whether `indices` are the indices that the values section of a
/// dictionary-encoded page holds for `present` values: none for an empty
/// section, all zero for a bit width of 0, otherwise the values of the
/// hybrid stream after the bit-width byte (see [`hybrid_values`]).
pub open spec fn indices_from_section(values: Seq<u8>, present: nat, indices: Seq<usize>) -> bool {
    &&& values.len() == 0 ==> indices.len() == 0
    &&& values.len() > 0 && values[0] == 0 ==> indices == Seq::new(present, |i: int| 0usize)
    &&& values.len() > 0 && values[0] != 0 ==> (hybrid_values(values.skip(1), values[0] as nat, present)
        matches Ok(acc) && indices == acc.map_values(|x: u32| x as usize))
}

/// Why the dictionary indices of a page could not be read.
#[derive(Debug)]
pub enum IndexError {
    Runs(RunsError),
}

/// Decodes `present_values` dictionary indices from the values section of a
/// dictionary-encoded page: one byte of bit width, then a hybrid stream.
/// An empty section gives no indices; a bit width of 0 gives all zeros; a
/// stream that ends early gives fewer indices.
pub fn decode_dictionary_indices(values_buffer: &[u8], present_values: usize) -> (res: Result<
    Vec<usize>,
    IndexError,
>)
    ensures
        values_buffer@.len() == 0 ==> (res matches Ok(v) && v@.len() == 0),
        values_buffer@.len() > 0 && values_buffer@[0] == 0 ==> (res matches Ok(v) && v@ == Seq::new(
            present_values as nat,
            |i: int| 0usize,
        )),
        values_buffer@.len() > 0 && values_buffer@[0] != 0 ==> match hybrid_values(
            values_buffer@.skip(1),
            values_buffer@[0] as nat,
            present_values as nat,
        ) {
            Ok(acc) => res matches Ok(v) && v@ == acc.map_values(|x: u32| x as usize),
            Err(f) => res matches Err(IndexError::Runs(e)) && runs_error_is(
                e,
                f,
                values_buffer@[0] as nat,
            ),
        },
        res matches Ok(v) ==> indices_from_section(values_buffer@, present_values as nat, v@),
{
    if values_buffer.len() == 0 {
        return Ok(Vec::new());
    }
    let bit_width = values_buffer[0] as usize;
    if bit_width == 0 {
        let mut zeros: Vec<usize> = Vec::new();
        let mut i: usize = 0;
        while i < present_values
            invariant
                i <= present_values,
                zeros@ == Seq::new(i as nat, |j: int| 0usize),
            decreases present_values - i,
        {
            zeros.push(0);
            assert(Seq::new((i + 1) as nat, |j: int| 0usize) =~= Seq::new(i as nat, |j: int| 0usize).push(0));
            i = i + 1;
        }
        return Ok(zeros);
    }
    let rest = slice_from(values_buffer, 1);
    assert(rest@ =~= values_buffer@.skip(1));
    let raw = match collect_runs(rest, bit_width, present_values) {
        Ok(v) => v,
        Err(e) => return Err(IndexError::Runs(e)),
    };
    let mut indices: Vec<usize> = Vec::new();
    let mut i: usize = 0;
    while i < raw.len()
        invariant
            i <= raw@.len(),
            indices@ =~= raw@.take(i as int).map_values(|x: u32| x as usize),
        decreases raw@.len() - i,
    {
        indices.push(raw[i] as usize);
        assert(raw@.take(i + 1) =~= raw@.take(i as int).push(raw@[i as int]));
        i = i + 1;
    }
    assert(raw@.take(raw@.len() as int) =~= raw@);
    Ok(indices)
}

/// The bytes of `s` from position `start` on.
pub fn slice_from(s: &[u8], start: usize) -> (r: &[u8])
    requires
        start <= s@.len(),
    ensures
        r@ == s@.subrange(start as int, s@.len() as int),
{
    vstd::slice::slice_subrange(s, start, s.len())
}

} // verus!
