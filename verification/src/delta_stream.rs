//! The DELTA_BINARY_PACKED stream of integers, and the length and prefix
//! streams built on it: a header (block size, mini-blocks per block, value
//! count, first value), then blocks of a minimum delta, one bit width per
//! mini-block and the bit-packed mini-blocks. Bits are unpacked by
//! `parquet2`; the stream's structure is read here, so that every input is
//! either decoded or refused.

use vstd::prelude::*;
use crate::levels::{read_uleb, uleb_len, uleb_too_long, uleb_value};
use crate::pq::{unpack_u64, unpacked_value};

verus! {

/// A zigzag-encoded number: even numbers for the non-negative ones, odd
/// numbers for the negative ones.
pub open spec fn zigzag(u: int) -> int {
    if u % 2 == 0 {
        u / 2
    } else {
        -((u + 1) / 2)
    }
}

/// Whether `x` fits in an `i64`.
pub open spec fn fits_i64(x: int) -> bool {
    i64::MIN <= x <= i64::MAX
}

/// A 64-bit word read as a signed number.
pub open spec fn word_as_i64(u: int) -> int {
    if u < 0x8000_0000_0000_0000 {
        u
    } else {
        u - 0x1_0000_0000_0000_0000
    }
}

/// `ceil(n / 8)`.
pub open spec fn bytes_for(bits: nat) -> nat {
    (bits + 7) / 8
}

/// The `i`-th delta of a mini-block of width `w` whose packed bits are
/// `packed`: the block's minimum delta plus the unpacked value, read as a
/// signed 64-bit number (0 for width 0).
pub open spec fn mini_delta_at(packed: Seq<u8>, w: nat, min_delta: int, i: int) -> int {
    min_delta + (if w == 0 {
        0
    } else {
        word_as_i64(unpacked_value(packed, w, i) as int)
    })
}

/// The first `take` deltas of a mini-block (see [`mini_delta_at`]); `None`
/// where one leaves the `i64` range.
pub open spec fn mini_block_deltas(packed: Seq<u8>, w: nat, take: nat, min_delta: int) -> Option<Seq<i64>> {
    if forall|i: int| 0 <= i < take ==> fits_i64(#[trigger] mini_delta_at(packed, w, min_delta, i)) {
        Some(Seq::new(take, |i: int| mini_delta_at(packed, w, min_delta, i) as i64))
    } else {
        None
    }
}

/// The deltas that the mini-blocks of a block, from the `m`-th on, give
/// when `rem` more are wanted, the first starting at byte `q`; with the
/// byte after the last mini-block read. `None` for a width above 64, a
/// mini-block past the end, or a delta out of range.
pub open spec fn mini_deltas(
    b: Seq<u8>,
    widths: Seq<u8>,
    m: nat,
    q: nat,
    vpm: nat,
    rem: nat,
    min_delta: int,
) -> Option<(Seq<i64>, nat)>
    decreases rem,
{
    if rem == 0 {
        Some((Seq::empty(), q))
    } else if vpm == 0 || m >= widths.len() {
        None
    } else {
        let w = widths[m as int] as nat;
        let take = if rem < vpm {
            rem
        } else {
            vpm
        };
        let mlen = if w == 0 {
            0
        } else {
            bytes_for(vpm * w)
        };
        if w > 64 || vpm * w > usize::MAX || q + mlen > b.len() {
            None
        } else {
            match mini_block_deltas(b.subrange(q as int, (q + mlen) as int), w, take, min_delta) {
                None => None,
                Some(here) => if take == rem {
                    Some((here, q + mlen))
                } else {
                    match mini_deltas(b, widths, m + 1, q + mlen, vpm, (rem - take) as nat, min_delta) {
                        None => None,
                        Some((more, e)) => Some((here + more, e)),
                    }
                },
            }
        }
    }
}

/// The deltas that the blocks from byte `pos` on give when `need` more are
/// wanted, each block giving up to `nmb * vpm`; with the byte after the
/// last mini-block read.
pub open spec fn block_deltas(b: Seq<u8>, pos: nat, nmb: nat, vpm: nat, need: nat) -> Option<(Seq<i64>, nat)>
    decreases need,
{
    if need == 0 {
        Some((Seq::empty(), pos))
    } else {
        let cap = nmb * vpm;
        let len = if need < cap {
            need
        } else {
            cap
        };
        let hb = b.skip(pos as int);
        let p1 = pos + uleb_len(hb);
        if cap > usize::MAX || len == 0 || pos > b.len() || uleb_too_long(hb) || p1 + nmb > b.len() {
            None
        } else {
            let widths = b.subrange(p1 as int, (p1 + nmb) as int);
            match mini_deltas(b, widths, 0, p1 + nmb, vpm, len, zigzag(uleb_value(hb))) {
                None => None,
                Some((ds, e)) => if len == need {
                    Some((ds, e))
                } else {
                    match block_deltas(b, e, nmb, vpm, (need - len) as nat) {
                        None => None,
                        Some((more, e2)) => Some((ds + more, e2)),
                    }
                },
            }
        }
    }
}

/// `first`, then the running sums of `ds` onto it; `None` where one leaves
/// the `i64` range.
pub open spec fn running_values(first: int, ds: Seq<i64>) -> Option<Seq<i64>>
    decreases ds.len(),
{
    if ds.len() == 0 {
        if fits_i64(first) {
            Some(seq![first as i64])
        } else {
            None
        }
    } else {
        match running_values(first, ds.drop_last()) {
            None => None,
            Some(vs) => {
                let next = vs.last() + ds.last();
                if fits_i64(next) {
                    Some(vs.push(next as i64))
                } else {
                    None
                }
            },
        }
    }
}

/// The header fields of a DELTA_BINARY_PACKED stream: block size,
/// mini-blocks per block, value count, first value, and the byte after the
/// header; `None` for a number too long for 64 bits.
pub open spec fn delta_header(b: Seq<u8>) -> Option<(int, nat, nat, int, nat)> {
    let p1 = uleb_len(b);
    let b2 = b.skip(p1 as int);
    let p2 = p1 + uleb_len(b2);
    let b3 = b.skip(p2 as int);
    let p3 = p2 + uleb_len(b3);
    let b4 = b.skip(p3 as int);
    let p4 = p3 + uleb_len(b4);
    if uleb_too_long(b) || uleb_too_long(b2) || uleb_too_long(b3) || uleb_too_long(b4) {
        None
    } else {
        Some(
            (
                uleb_value(b),
                (uleb_value(b2) as usize) as nat,
                (uleb_value(b3) as usize) as nat,
                zigzag(uleb_value(b4)),
                p4,
            ),
        )
    }
}

/// The integers of a DELTA_BINARY_PACKED stream and the bytes they take:
/// the first value, then each previous value plus the next delta. `None`
/// for a block size that is not a multiple of 128, no mini-blocks, mini-blocks
/// of a size that is not a multiple of 8 (or empty ones with deltas to
/// give), a malformed block, or a value out of range.
pub open spec fn delta_packed(b: Seq<u8>) -> Option<(Seq<i64>, nat)> {
    match delta_header(b) {
        None => None,
        Some((block_size, nmb, total, first, p4)) => {
            let vpm = if nmb == 0 {
                0
            } else {
                ((block_size as usize) as nat) / nmb
            };
            if block_size % 128 != 0 || nmb == 0 || vpm % 8 != 0 {
                None
            } else if total == 0 {
                Some((Seq::empty(), p4))
            } else if total == 1 {
                Some((seq![first as i64], p4))
            } else {
                match block_deltas(b, p4, nmb, vpm, (total - 1) as nat) {
                    None => None,
                    Some((ds, e)) => match running_values(first, ds) {
                        None => None,
                        Some(vs) => Some((vs, e)),
                    },
                }
            }
        },
    }
}

/// The integers of a DELTA_BINARY_PACKED stream (see [`delta_packed`]).
pub open spec fn delta_binary_packed(b: Seq<u8>) -> Option<Seq<i64>> {
    match delta_packed(b) {
        Some((vs, _)) => Some(vs),
        None => None,
    }
}

/// The `i`-th value of a run that starts at `first` and grows by `step`.
pub open spec fn stepped(first: int, step: int, i: int) -> int {
    first + i * step
}

/// Mini-blocks of width 0 hold no bits: every delta they give, in whichever
/// mini-block of the block it lies, is the block's minimum delta.
pub proof fn lemma_zero_width_mini_blocks(
    b: Seq<u8>,
    widths: Seq<u8>,
    m: nat,
    q: nat,
    vpm: nat,
    rem: nat,
    min_delta: int,
)
    requires
        vpm > 0,
        fits_i64(min_delta),
        q <= b.len(),
        m <= widths.len(),
        forall|j: int| m <= j < widths.len() ==> #[trigger] widths[j] == 0,
        rem <= (widths.len() - m) * vpm,
    ensures
        mini_deltas(b, widths, m, q, vpm, rem, min_delta) == Some(
            (Seq::new(rem, |i: int| min_delta as i64), q),
        ),
    decreases rem,
{
    if rem > 0 {
        let len = widths.len();
        assert(m < len) by (nonlinear_arith)
            requires
                rem <= (len - m) * vpm,
                rem > 0,
                vpm > 0,
                m <= len,
        ;
        assert(widths[m as int] == 0);
        let take = if rem < vpm {
            rem
        } else {
            vpm
        };
        let packed = b.subrange(q as int, q as int);
        assert forall|i: int| 0 <= i < take implies fits_i64(#[trigger] mini_delta_at(packed, 0, min_delta, i)) by {
        }
        assert(Seq::new(take, |i: int| mini_delta_at(packed, 0, min_delta, i) as i64) =~= Seq::new(
            take,
            |i: int| min_delta as i64,
        ));
        if take < rem {
            assert(rem - vpm <= (len - (m + 1)) * vpm) by (nonlinear_arith)
                requires
                    rem <= (len - m) * vpm,
            ;
            lemma_zero_width_mini_blocks(b, widths, m + 1, q, vpm, (rem - take) as nat, min_delta);
            assert(Seq::new(take, |i: int| min_delta as i64) + Seq::new((rem - take) as nat, |i: int| min_delta as i64)
                =~= Seq::new(rem, |i: int| min_delta as i64));
        }
    }
}

proof fn lemma_running_steps(first: int, step: int, k: nat)
    requires
        fits_i64(step),
        forall|i: int| 0 <= i <= k ==> fits_i64(#[trigger] stepped(first, step, i)),
    ensures
        running_values(first, Seq::new(k, |i: int| step as i64)) == Some(
            Seq::new(k + 1, |i: int| stepped(first, step, i) as i64),
        ),
    decreases k,
{
    let ds = Seq::new(k, |i: int| step as i64);
    if k == 0 {
        assert(fits_i64(stepped(first, step, 0)));
        assert(seq![first as i64] =~= Seq::new(1, |i: int| stepped(first, step, i) as i64));
    } else {
        assert(ds.drop_last() =~= Seq::new((k - 1) as nat, |i: int| step as i64));
        lemma_running_steps(first, step, (k - 1) as nat);
        let vs = Seq::new(k, |i: int| stepped(first, step, i) as i64);
        assert(fits_i64(stepped(first, step, k - 1)));
        assert(fits_i64(stepped(first, step, k as int)));
        assert(vs.last() == stepped(first, step, k - 1));
        assert(stepped(first, step, k - 1) + step == stepped(first, step, k as int)) by (nonlinear_arith);
        assert(vs.push(stepped(first, step, k as int) as i64) =~= Seq::new(
            k + 1,
            |i: int| stepped(first, step, i) as i64,
        ));
    }
}

/// A stream whose values fit one block, all of whose mini-blocks have width
/// 0, holds its first value and then each value the block's minimum delta
/// more than the one before: `f, f + d, ..., f + (n - 1) d`, however many
/// mini-blocks the values span.
pub proof fn lemma_constant_step_stream(
    b: Seq<u8>,
    block_size: int,
    mini_blocks: nat,
    n: nat,
    first: int,
    p4: nat,
    d: int,
)
    requires
        delta_header(b) == Some((block_size, mini_blocks, n, first, p4)),
        block_size % 128 == 0,
        mini_blocks > 0,
        ((block_size as usize) as nat) >= mini_blocks,
        (((block_size as usize) as nat) / mini_blocks) % 8 == 0,
        n <= mini_blocks * (((block_size as usize) as nat) / mini_blocks) + 1,
        !uleb_too_long(b.skip(p4 as int)),
        zigzag(uleb_value(b.skip(p4 as int))) == d,
        fits_i64(d),
        p4 + uleb_len(b.skip(p4 as int)) + mini_blocks <= b.len(),
        forall|j: int|
            p4 + uleb_len(b.skip(p4 as int)) <= j < p4 + uleb_len(b.skip(p4 as int)) + mini_blocks ==> #[trigger] b[j]
                == 0,
        forall|i: int| 0 <= i < n ==> fits_i64(#[trigger] stepped(first, d, i)),
    ensures
        delta_binary_packed(b) == Some(Seq::new(n, |i: int| stepped(first, d, i) as i64)),
{
    let bsu = (block_size as usize) as nat;
    let vpm = bsu / mini_blocks;
    assert(vpm > 0) by (nonlinear_arith)
        requires
            bsu >= mini_blocks,
            mini_blocks > 0,
            vpm == bsu / mini_blocks,
    ;
    assert(mini_blocks * vpm <= bsu) by (nonlinear_arith)
        requires
            mini_blocks > 0,
            vpm == bsu / mini_blocks,
    ;
    if n == 0 {
        assert(Seq::<i64>::empty() =~= Seq::new(0, |i: int| stepped(first, d, i) as i64));
    } else if n == 1 {
        assert(fits_i64(stepped(first, d, 0)));
        assert(seq![first as i64] =~= Seq::new(1, |i: int| stepped(first, d, i) as i64));
    } else {
        let hb = b.skip(p4 as int);
        let p1 = p4 + uleb_len(hb);
        let widths = b.subrange(p1 as int, (p1 + mini_blocks) as int);
        assert forall|j: int| 0 <= j < widths.len() implies #[trigger] widths[j] == 0 by {
            assert(widths[j] == b[p1 + j]);
        }
        lemma_zero_width_mini_blocks(b, widths, 0, p1 + mini_blocks, vpm, (n - 1) as nat, d);
        lemma_running_steps(first, d, (n - 1) as nat);
        assert(block_deltas(b, p4, mini_blocks, vpm, (n - 1) as nat) == Some(
            (Seq::new((n - 1) as nat, |i: int| d as i64), p1 + mini_blocks),
        ));
    }
}

/// The bytes a mini-block of width `w` takes when it holds `vpm` values.
pub open spec fn mini_len(w: nat, vpm: nat) -> nat {
    if w == 0 {
        0
    } else {
        bytes_for(vpm * w)
    }
}

/// Where mini-block `m + j` of a block begins, mini-block `m` beginning at
/// byte `q`: each mini-block follows the one before.
pub open spec fn mini_start(widths: Seq<u8>, m: nat, q: nat, vpm: nat, j: nat) -> nat
    decreases j,
{
    if j == 0 {
        q
    } else {
        mini_start(widths, m, q, vpm, (j - 1) as nat) + mini_len(widths[m + j - 1] as nat, vpm)
    }
}

proof fn lemma_mini_start_shift(widths: Seq<u8>, m: nat, q: nat, vpm: nat, j: nat)
    requires
        j >= 1,
    ensures
        mini_start(widths, m + 1, q + mini_len(widths[m as int] as nat, vpm), vpm, (j - 1) as nat)
            == mini_start(widths, m, q, vpm, j),
    decreases j,
{
    let q2 = q + mini_len(widths[m as int] as nat, vpm);
    if j == 1 {
        assert(mini_start(widths, m, q, vpm, 1) == mini_start(widths, m, q, vpm, 0) + mini_len(
            widths[m as int] as nat,
            vpm,
        ));
    } else {
        lemma_mini_start_shift(widths, m, q, vpm, (j - 1) as nat);
        assert(mini_start(widths, m + 1, q2, vpm, (j - 1) as nat) == mini_start(
            widths,
            m + 1,
            q2,
            vpm,
            (j - 2) as nat,
        ) + mini_len(widths[(m + j - 1) as int] as nat, vpm));
        assert(mini_start(widths, m, q, vpm, j) == mini_start(widths, m, q, vpm, (j - 1) as nat) + mini_len(
            widths[(m + j - 1) as int] as nat,
            vpm,
        ));
    }
}

proof fn lemma_sub_div(i: int, v: int)
    requires
        v > 0,
        i >= v,
    ensures
        (i - v) / v == i / v - 1,
        (i - v) % v == i % v,
{
    vstd::arithmetic::div_mod::lemma_mod_add_multiples_vanish(i - v, v);
    vstd::arithmetic::div_mod::lemma_fundamental_div_mod(i, v);
    vstd::arithmetic::div_mod::lemma_fundamental_div_mod(i - v, v);
    let a = i / v;
    let c = (i - v) / v;
    assert(v * a == v * c + v);
    assert(a == c + 1) by (nonlinear_arith)
        requires
            v * a == v * c + v,
            v > 0,
    ;
}

/// Delta `i` of a block read from mini-block `m` on: the block's minimum
/// delta plus the value unpacked at place `i % vpm` of mini-block
/// `i / vpm` (nothing for width 0), each mini-block's bits following the
/// one before.
pub open spec fn block_delta_at(
    b: Seq<u8>,
    widths: Seq<u8>,
    m: nat,
    q: nat,
    vpm: nat,
    min_delta: int,
    i: int,
) -> int {
    let j = (i / (vpm as int)) as nat;
    let w = widths[(m + j) as int] as nat;
    let s = mini_start(widths, m, q, vpm, j);
    min_delta + (if w == 0 {
        0
    } else {
        word_as_i64(unpacked_value(b.subrange(s as int, (s + mini_len(w, vpm)) as int), w, i % (vpm as int)) as int)
    })
}

/// Every delta of a block, in whichever mini-block it lies, is the block's
/// minimum delta plus the value unpacked at its place in that mini-block
/// (see [`block_delta_at`]).
pub proof fn lemma_mini_deltas_each(
    b: Seq<u8>,
    widths: Seq<u8>,
    m: nat,
    q: nat,
    vpm: nat,
    rem: nat,
    min_delta: int,
)
    requires
        mini_deltas(b, widths, m, q, vpm, rem, min_delta) is Some,
    ensures
        mini_deltas(b, widths, m, q, vpm, rem, min_delta).unwrap().0.len() == rem,
        forall|i: int|
            0 <= i < rem ==> #[trigger] mini_deltas(b, widths, m, q, vpm, rem, min_delta).unwrap().0[i] as int
                == block_delta_at(b, widths, m, q, vpm, min_delta, i),
    decreases rem,
{
    if rem > 0 {
        let w = widths[m as int] as nat;
        let take = if rem < vpm {
            rem
        } else {
            vpm
        };
        let mlen = mini_len(w, vpm);
        let here = mini_block_deltas(b.subrange(q as int, (q + mlen) as int), w, take, min_delta).unwrap();
        let ds = mini_deltas(b, widths, m, q, vpm, rem, min_delta).unwrap().0;
        assert forall|i: int| 0 <= i < take implies #[trigger] ds[i] as int == block_delta_at(
            b,
            widths,
            m,
            q,
            vpm,
            min_delta,
            i,
        ) by {
            vstd::arithmetic::div_mod::lemma_small_mod(i as nat, vpm);
            vstd::arithmetic::div_mod::lemma_basic_div(i, vpm as int);
            assert(ds[i] == here[i]);
            assert(fits_i64(mini_delta_at(b.subrange(q as int, (q + mlen) as int), w, min_delta, i)));
        }
        if take < rem {
            let more = mini_deltas(b, widths, m + 1, q + mlen, vpm, (rem - take) as nat, min_delta).unwrap().0;
            lemma_mini_deltas_each(b, widths, m + 1, q + mlen, vpm, (rem - take) as nat, min_delta);
            assert forall|i: int| take <= i < rem implies #[trigger] ds[i] as int == block_delta_at(
                b,
                widths,
                m,
                q,
                vpm,
                min_delta,
                i,
            ) by {
                let k = i - vpm;
                lemma_sub_div(i, vpm as int);
                assert(ds[i] == more[k]);
                assert(more[k] as int == block_delta_at(b, widths, m + 1, q + mlen, vpm, min_delta, k));
                let j = (i / (vpm as int)) as nat;
                vstd::arithmetic::div_mod::lemma_div_pos_is_pos(k, vpm as int);
                lemma_mini_start_shift(widths, m, q, vpm, j);
                assert(((k / (vpm as int)) as nat) == (j - 1) as nat);
                assert(widths[((m + 1) + ((j - 1) as nat)) as int] == widths[(m + j) as int]);
            }
        }
    }
}

/// `acc` before what `r` holds, with the end of `r`.
pub open spec fn after_deltas(acc: Seq<i64>, r: Option<(Seq<i64>, nat)>) -> Option<(Seq<i64>, nat)> {
    match r {
        Some((m, e)) => Some((acc + m, e)),
        None => None,
    }
}

/// A zigzag-encoded ULEB128 number at the start of `b`, with the bytes it
/// takes; `None` where it does not fit in 64 bits.
fn read_zigzag(b: &[u8]) -> (r: Option<(i64, usize)>)
    ensures
        r is None <==> uleb_too_long(b@),
        r matches Some((v, c)) ==> c == uleb_len(b@) && v == zigzag(uleb_value(b@)) && c <= b@.len(),
{
    match read_uleb(b) {
        None => None,
        Some((u, c)) => {
            if u % 2 == 0 {
                Some(((u / 2) as i64, c))
            } else {
                let h = ((u - 1) / 2) as i64;
                Some((-h - 1, c))
            }
        },
    }
}

/// The first `take` deltas of a mini-block of width `w` (see
/// [`mini_block_deltas`]).
fn mini_block(mini: &[u8], w: usize, take: usize, min_delta: i64) -> (r: Option<Vec<i64>>)
    requires
        w <= 64,
        take * w <= usize::MAX,
        w > 0 ==> mini@.len() * 8 >= take * w,
    ensures
        match mini_block_deltas(mini@, w as nat, take as nat, min_delta as int) {
            None => r is None,
            Some(h) => r matches Some(v) && v@ == h,
        },
{
    let ghost packed = mini@;
    let mut out: Vec<i64> = Vec::new();
    let mut k: usize = 0;
    if w == 0 {
        while k < take
            invariant
                k <= take,
                w == 0,
                out@.len() == k,
                forall|i: int| 0 <= i < k ==> #[trigger] out@[i] == min_delta,
            decreases take - k,
        {
            out.push(min_delta);
            k = k + 1;
        }
        proof {
            assert forall|i: int| 0 <= i < take implies fits_i64(
                #[trigger] mini_delta_at(packed, w as nat, min_delta as int, i),
            ) by {}
            let hs = Seq::new(take as nat, |i: int| mini_delta_at(packed, w as nat, min_delta as int, i) as i64);
            assert(out@ =~= hs);
        }
        return Some(out);
    }
    let words = match unpack_u64(mini, w, take) {
        Err(_) => return None,
        Ok(v) => v,
    };
    while k < take
        invariant
            k <= take,
            words@.len() == take,
            w > 0,
            packed == mini@,
            forall|i: int|
                0 <= i < take ==> #[trigger] words@[i] as nat == unpacked_value(packed, w as nat, i),
            out@.len() == k,
            forall|i: int|
                0 <= i < k ==> #[trigger] out@[i] == mini_delta_at(packed, w as nat, min_delta as int, i),
            forall|i: int| 0 <= i < k ==> fits_i64(#[trigger] mini_delta_at(packed, w as nat, min_delta as int, i)),
        decreases take - k,
    {
        let u = words[k];
        let s: i128 = if u < 0x8000_0000_0000_0000 {
            u as i128
        } else {
            u as i128 - 0x1_0000_0000_0000_0000
        };
        let d: i128 = min_delta as i128 + s;
        assert(d == mini_delta_at(packed, w as nat, min_delta as int, k as int));
        if d < i64::MIN as i128 || d > i64::MAX as i128 {
            proof {
                assert(!fits_i64(mini_delta_at(packed, w as nat, min_delta as int, k as int)));
            }
            return None;
        }
        out.push(d as i64);
        k = k + 1;
    }
    proof {
        let hs = Seq::new(take as nat, |i: int| mini_delta_at(packed, w as nat, min_delta as int, i) as i64);
        assert(out@ =~= hs);
    }
    Some(out)
}

/// The deltas of one block's mini-blocks (see [`mini_deltas`]), from
/// mini-block 0 at byte `q`.
fn read_mini_blocks(
    b: &[u8],
    widths: &[u8],
    q: usize,
    vpm: usize,
    len: usize,
    min_delta: i64,
) -> (r: Option<(Vec<i64>, usize)>)
    requires
        q <= b@.len(),
    ensures
        match mini_deltas(b@, widths@, 0, q as nat, vpm as nat, len as nat, min_delta as int) {
            None => r is None,
            Some((ds, e)) => r matches Some((v, c)) && v@ == ds && c == e,
        },
        r matches Some((_, c)) ==> c <= b@.len(),
{
    let mut out: Vec<i64> = Vec::new();
    let mut m: usize = 0;
    let mut pos: usize = q;
    let mut rem: usize = len;
    let ghost whole = mini_deltas(b@, widths@, 0, q as nat, vpm as nat, len as nat, min_delta as int);
    proof {
        if let Some((ds, e)) = whole {
            assert(Seq::<i64>::empty() + ds =~= ds);
        }
    }
    while rem > 0
        invariant
            pos <= b@.len(),
            whole == mini_deltas(b@, widths@, 0, q as nat, vpm as nat, len as nat, min_delta as int),
            whole == after_deltas(
                out@,
                mini_deltas(b@, widths@, m as nat, pos as nat, vpm as nat, rem as nat, min_delta as int),
            ),
        decreases rem,
    {
        if vpm == 0 || m >= widths.len() {
            return None;
        }
        let w = widths[m] as usize;
        let take = if rem < vpm {
            rem
        } else {
            vpm
        };
        if w > 64 {
            return None;
        }
        let bits = match vpm.checked_mul(w) {
            None => return None,
            Some(x) => x,
        };
        let mlen = if w == 0 {
            0
        } else {
            bits / 8 + if bits % 8 != 0 {
                1
            } else {
                0
            }
        };
        assert(mlen == (if w == 0 { 0 } else { bytes_for(vpm as nat * w as nat) }));
        if mlen > b.len() - pos {
            return None;
        }
        let ghost packed = b@.subrange(pos as int, (pos + mlen) as int);
        let ghost before = out@;
        let mini = vstd::slice::slice_subrange(b, pos, pos + mlen);
        assert(mini@ =~= packed);
        assert(take * w <= vpm * w) by (nonlinear_arith)
            requires
                take <= vpm,
        ;
        assert(w > 0 ==> mini@.len() * 8 >= take * w) by (nonlinear_arith)
            requires
                w > 0 ==> mini@.len() == bytes_for(vpm as nat * w as nat),
                take * w <= vpm * w,
        ;
        let ghost here = mini_block_deltas(packed, w as nat, take as nat, min_delta as int);
        let mut block = match mini_block(mini, w, take, min_delta) {
            None => return None,
            Some(v) => v,
        };
        out.append(&mut block);
        proof {
            let h = here->Some_0;
            assert(out@ =~= before + h);
            let r2 = mini_deltas(b@, widths@, (m + 1) as nat, (pos + mlen) as nat, vpm as nat, (rem - take) as nat, min_delta as int);
            if take < rem {
                assert(after_deltas(before, after_deltas(h, r2)) == after_deltas(before + h, r2)) by {
                    if let Some((mm, e)) = r2 {
                        assert(before + (h + mm) =~= (before + h) + mm);
                    }
                }
            } else {
                assert(mini_deltas(b@, widths@, (m + 1) as nat, (pos + mlen) as nat, vpm as nat, 0, min_delta as int)
                    == Some((Seq::<i64>::empty(), (pos + mlen) as nat)));
                assert(out@ + Seq::<i64>::empty() =~= out@);
            }
        }
        pos = pos + mlen;
        rem = rem - take;
        m = m + 1;
    }
    proof {
        assert(out@ + Seq::<i64>::empty() =~= out@);
    }
    Some((out, pos))
}

/// The deltas of the blocks from byte `pos0` on (see [`block_deltas`]).
fn read_blocks(b: &[u8], pos0: usize, nmb: usize, vpm: usize, need0: usize) -> (r: Option<(Vec<i64>, usize)>)
    requires
        pos0 <= b@.len(),
    ensures
        match block_deltas(b@, pos0 as nat, nmb as nat, vpm as nat, need0 as nat) {
            None => r is None,
            Some((ds, e)) => r matches Some((v, c)) && v@ == ds && c == e,
        },
        r matches Some((_, c)) ==> c <= b@.len(),
{
    let n = b.len();
    let mut out: Vec<i64> = Vec::new();
    let mut pos: usize = pos0;
    let mut need: usize = need0;
    let ghost whole = block_deltas(b@, pos0 as nat, nmb as nat, vpm as nat, need0 as nat);
    proof {
        if let Some((ds, e)) = whole {
            assert(Seq::<i64>::empty() + ds =~= ds);
        }
    }
    while need > 0
        invariant
            pos <= b@.len(),
            n == b@.len(),
            whole == block_deltas(b@, pos0 as nat, nmb as nat, vpm as nat, need0 as nat),
            whole == after_deltas(out@, block_deltas(b@, pos as nat, nmb as nat, vpm as nat, need as nat)),
        decreases need,
    {
        let cap = match nmb.checked_mul(vpm) {
            None => return None,
            Some(c) => c,
        };
        let len = if need < cap {
            need
        } else {
            cap
        };
        if len == 0 {
            return None;
        }
        let hb = crate::levels::slice_from(b, pos);
        assert(hb@ =~= b@.skip(pos as int));
        let (md, c) = match read_zigzag(hb) {
            None => return None,
            Some(x) => x,
        };
        let p1 = pos + c;
        if nmb > b.len() - p1 {
            return None;
        }
        let widths = vstd::slice::slice_subrange(b, p1, p1 + nmb);
        let ghost before = out@;
        let (mut ds, e) = match read_mini_blocks(b, widths, p1 + nmb, vpm, len, md) {
            None => return None,
            Some(x) => x,
        };
        let ghost h = ds@;
        out.append(&mut ds);
        proof {
            assert(out@ =~= before + h);
            let r2 = block_deltas(b@, e as nat, nmb as nat, vpm as nat, (need - len) as nat);
            if len < need {
                assert(after_deltas(before, after_deltas(h, r2)) == after_deltas(before + h, r2)) by {
                    if let Some((mm, e2)) = r2 {
                        assert(before + (h + mm) =~= (before + h) + mm);
                    }
                }
            } else {
                assert(out@ + Seq::<i64>::empty() =~= out@);
            }
        }
        pos = e;
        need = need - len;
    }
    proof {
        assert(out@ + Seq::<i64>::empty() =~= out@);
    }
    Some((out, pos))
}

/// A prefix whose running sums leave the `i64` range spoils every longer
/// one.
proof fn lemma_running_prefix(first: int, ds: Seq<i64>, k: int)
    requires
        0 <= k <= ds.len(),
        running_values(first, ds.take(k)) is None,
    ensures
        running_values(first, ds) is None,
    decreases ds.len() - k,
{
    if k == ds.len() {
        assert(ds.take(k) =~= ds);
    } else {
        assert(ds.take(k + 1).drop_last() =~= ds.take(k));
        lemma_running_prefix(first, ds, k + 1);
    }
}

/// `first` and the running sums of `ds` onto it (see [`running_values`]).
fn running(first: i64, ds: &[i64]) -> (r: Option<Vec<i64>>)
    ensures
        match running_values(first as int, ds@) {
            None => r is None,
            Some(vs) => r matches Some(v) && v@ == vs,
        },
{
    let mut out: Vec<i64> = Vec::new();
    out.push(first);
    let mut cur: i64 = first;
    let mut i: usize = 0;
    assert(ds@.take(0) =~= Seq::<i64>::empty());
    while i < ds.len()
        invariant
            i <= ds@.len(),
            running_values(first as int, ds@.take(i as int)) == Some(out@),
            out@.len() > 0,
            cur == out@.last(),
        decreases ds@.len() - i,
    {
        assert(ds@.take(i + 1).drop_last() =~= ds@.take(i as int));
        assert(ds@.take(i + 1).last() == ds@[i as int]);
        let next: i128 = cur as i128 + ds[i] as i128;
        if next < i64::MIN as i128 || next > i64::MAX as i128 {
            proof {
                lemma_running_prefix(first as int, ds@, i + 1);
            }
            return None;
        }
        cur = next as i64;
        out.push(cur);
        i = i + 1;
    }
    assert(ds@.take(ds@.len() as int) =~= ds@);
    Some(out)
}

/// The header of a DELTA_BINARY_PACKED stream (see [`delta_header`]).
fn read_delta_header(b: &[u8]) -> (r: Option<(u128, usize, usize, i64, usize)>)
    ensures
        match delta_header(b@) {
            None => r is None,
            Some((bs, nmb, total, first, p4)) => r matches Some((rbs, rnmb, rtotal, rfirst, rp4)) && rbs
                == bs && rnmb == nmb && rtotal == total && rfirst == first && rp4 == p4,
        },
        r matches Some((_, _, _, _, c)) ==> c <= b@.len(),
{
    let n = b.len();
    let (bs, c1) = match read_uleb(b) {
        None => return None,
        Some(x) => x,
    };
    let b2 = crate::levels::slice_from(b, c1);
    assert(b2@ =~= b@.skip(c1 as int));
    let (nmb_raw, c2) = match read_uleb(b2) {
        None => return None,
        Some(x) => x,
    };
    let b3 = crate::levels::slice_from(b, c1 + c2);
    assert(b3@ =~= b@.skip((c1 + c2) as int));
    let (total_raw, c3) = match read_uleb(b3) {
        None => return None,
        Some(x) => x,
    };
    let b4 = crate::levels::slice_from(b, c1 + c2 + c3);
    assert(b4@ =~= b@.skip((c1 + c2 + c3) as int));
    let (first, c4) = match read_zigzag(b4) {
        None => return None,
        Some(x) => x,
    };
    #[verifier::truncate]
    let nmb = nmb_raw as usize;
    #[verifier::truncate]
    let total = total_raw as usize;
    Some((bs, nmb, total, first, c1 + c2 + c3 + c4))
}

/// The integers of a DELTA_BINARY_PACKED stream and the bytes they take
/// (see [`delta_packed`]).
pub fn decode_delta_packed(b: &[u8]) -> (r: Option<(Vec<i64>, usize)>)
    ensures
        match delta_packed(b@) {
            None => r is None,
            Some((vs, e)) => r matches Some((v, c)) && v@ == vs && c == e,
        },
        r matches Some((_, c)) ==> c <= b@.len(),
{
    let (bs, nmb, total, first, p4) = match read_delta_header(b) {
        None => return None,
        Some(x) => x,
    };
    #[verifier::truncate]
    let bsu = bs as usize;
    if bs % 128 != 0 || nmb == 0 {
        return None;
    }
    let vpm = bsu / nmb;
    if vpm % 8 != 0 {
        return None;
    }
    if total == 0 {
        return Some((Vec::new(), p4));
    }
    if total == 1 {
        let mut v: Vec<i64> = Vec::new();
        v.push(first);
        assert(v@ =~= seq![first]);
        return Some((v, p4));
    }
    let (ds, e) = match read_blocks(b, p4, nmb, vpm, total - 1) {
        None => return None,
        Some(x) => x,
    };
    let vs = match running(first, ds.as_slice()) {
        None => return None,
        Some(v) => v,
    };
    Some((vs, e))
}

/// The sum of `vs`, each read as a 32-bit unsigned length.
pub open spec fn length_total(vs: Seq<i64>) -> nat
    decreases vs.len(),
{
    if vs.len() == 0 {
        0
    } else {
        length_total(vs.drop_last()) + (vs.last() as u32) as nat
    }
}

proof fn lemma_length_total_prefix(vs: Seq<i64>, k: int)
    requires
        0 <= k <= vs.len(),
    ensures
        length_total(vs.take(k)) <= length_total(vs),
    decreases vs.len() - k,
{
    if k == vs.len() {
        assert(vs.take(k) =~= vs);
    } else {
        assert(vs.take(k + 1).drop_last() =~= vs.take(k));
        lemma_length_total_prefix(vs, k + 1);
    }
}

/// The lengths and concatenated bytes of DELTA_LENGTH_BYTE_ARRAY data: the
/// lengths are a DELTA_BINARY_PACKED stream (each read as an `i32`), the
/// bytes are the sum of the lengths (each read as a `u32`) that follow it.
/// `None` where the lengths cannot be read, or add up past `u32` or past the
/// end.
pub open spec fn delta_length_parts(b: Seq<u8>) -> Option<(Seq<i32>, Seq<u8>)> {
    match delta_packed(b) {
        None => None,
        Some((vs, e)) => {
            let t = length_total(vs);
            if t > u32::MAX || e + t > b.len() {
                None
            } else {
                Some((vs.map_values(|x: i64| x as i32), b.subrange(e as int, (e + t) as int)))
            }
        },
    }
}

/// Which part of DELTA_BYTE_ARRAY data could not be decoded.
#[derive(Debug, Clone, Copy, PartialEq, Eq, Structural)]
pub enum DeltaStage {
    /// The prefix lengths.
    Prefixes,
    /// The suffix lengths.
    Lengths,
    /// The suffix bytes: their lengths add up past `u32` or past the end.
    Suffixes,
}

/// The prefix lengths (each read as a `u32`), suffix lengths and suffix
/// bytes of DELTA_BYTE_ARRAY data: a DELTA_BINARY_PACKED stream of prefix
/// lengths, then DELTA_LENGTH_BYTE_ARRAY data of the suffixes; or the part
/// that failed.
pub open spec fn delta_prefix_parts(b: Seq<u8>) -> Result<(Seq<u32>, Seq<i32>, Seq<u8>), DeltaStage> {
    match delta_packed(b) {
        None => Err(DeltaStage::Prefixes),
        Some((ps, e)) => {
            let rest = b.skip(e as int);
            match delta_packed(rest) {
                None => Err(DeltaStage::Lengths),
                Some((ls, e2)) => {
                    let t = length_total(ls);
                    if t > u32::MAX || e2 + t > rest.len() {
                        Err(DeltaStage::Suffixes)
                    } else {
                        Ok(
                            (
                                ps.map_values(|x: i64| x as u32),
                                ls.map_values(|x: i64| x as i32),
                                rest.subrange(e2 as int, (e2 + t) as int),
                            ),
                        )
                    }
                },
            }
        },
    }
}

/// The integers of DELTA_BINARY_PACKED data (see [`delta_binary_packed`]).
pub fn decode_delta_binary_packed(buf: &[u8]) -> (r: Option<Vec<i64>>)
    ensures
        match delta_binary_packed(buf@) {
            None => r is None,
            Some(vs) => r matches Some(v) && v@ == vs,
        },
{
    match decode_delta_packed(buf) {
        None => None,
        Some((v, _)) => Some(v),
    }
}

/// The sum of the lengths `vs` (see [`length_total`]); `None` past `u32`.
fn total_of_lengths(vs: &[i64]) -> (r: Option<usize>)
    ensures
        length_total(vs@) > u32::MAX ==> r is None,
        length_total(vs@) <= u32::MAX ==> r == Some(length_total(vs@) as usize),
{
    let mut t: u64 = 0;
    let mut i: usize = 0;
    assert(vs@.take(0) =~= Seq::<i64>::empty());
    while i < vs.len()
        invariant
            i <= vs@.len(),
            t == length_total(vs@.take(i as int)),
            t <= u32::MAX,
        decreases vs@.len() - i,
    {
        assert(vs@.take(i + 1).drop_last() =~= vs@.take(i as int));
        #[verifier::truncate]
        let l = vs[i] as u32;
        t = t + l as u64;
        if t > u32::MAX as u64 {
            proof {
                lemma_length_total_prefix(vs@, i + 1);
            }
            return None;
        }
        i = i + 1;
    }
    assert(vs@.take(vs@.len() as int) =~= vs@);
    Some(t as usize)
}

/// Each integer cut to its low 32 bits, as an `i32`.
fn as_i32_lengths(vs: &[i64]) -> (r: Vec<i32>)
    ensures
        r@ == vs@.map_values(|x: i64| x as i32),
{
    let mut out: Vec<i32> = Vec::new();
    let mut i: usize = 0;
    while i < vs.len()
        invariant
            i <= vs@.len(),
            out@ =~= vs@.take(i as int).map_values(|x: i64| x as i32),
        decreases vs@.len() - i,
    {
        #[verifier::truncate]
        let l = vs[i] as i32;
        out.push(l);
        assert(vs@.take(i + 1) =~= vs@.take(i as int).push(vs@[i as int]));
        i = i + 1;
    }
    assert(vs@.take(vs@.len() as int) =~= vs@);
    out
}

/// Each integer cut to its low 32 bits, as a `u32`.
fn as_u32_lengths(vs: &[i64]) -> (r: Vec<u32>)
    ensures
        r@ == vs@.map_values(|x: i64| x as u32),
{
    let mut out: Vec<u32> = Vec::new();
    let mut i: usize = 0;
    while i < vs.len()
        invariant
            i <= vs@.len(),
            out@ =~= vs@.take(i as int).map_values(|x: i64| x as u32),
        decreases vs@.len() - i,
    {
        #[verifier::truncate]
        let l = vs[i] as u32;
        out.push(l);
        assert(vs@.take(i + 1) =~= vs@.take(i as int).push(vs@[i as int]));
        i = i + 1;
    }
    assert(vs@.take(vs@.len() as int) =~= vs@);
    out
}

/// The lengths and bytes of DELTA_LENGTH_BYTE_ARRAY data (see
/// [`delta_length_parts`]).
pub fn decode_delta_length_byte_array(buf: &[u8]) -> (r: Option<(Vec<i32>, Vec<u8>)>)
    ensures
        match delta_length_parts(buf@) {
            None => r is None,
            Some((lens, bytes)) => r matches Some((l, v)) && l@ == lens && v@ == bytes,
        },
{
    let n = buf.len();
    let (vs, e) = match decode_delta_packed(buf) {
        None => return None,
        Some(x) => x,
    };
    let t = match total_of_lengths(vs.as_slice()) {
        None => return None,
        Some(t) => t,
    };
    if t > n - e {
        return None;
    }
    let bytes = crate::delta::copy_range(buf, e, e + t);
    Some((as_i32_lengths(vs.as_slice()), bytes))
}

/// The prefix lengths, suffix lengths and suffix bytes of DELTA_BYTE_ARRAY
/// data, or the part that failed (see [`delta_prefix_parts`]).
pub fn decode_delta_byte_array(buf: &[u8]) -> (r: Result<(Vec<u32>, Vec<i32>, Vec<u8>), DeltaStage>)
    ensures
        match delta_prefix_parts(buf@) {
            Err(stage) => r == Err::<(Vec<u32>, Vec<i32>, Vec<u8>), DeltaStage>(stage),
            Ok((p, l, v)) => r matches Ok((rp, rl, rv)) && rp@ == p && rl@ == l && rv@ == v,
        },
{
    let (ps, e) = match decode_delta_packed(buf) {
        None => return Err(DeltaStage::Prefixes),
        Some(x) => x,
    };
    let rest = crate::levels::slice_from(buf, e);
    assert(rest@ =~= buf@.skip(e as int));
    let n = rest.len();
    let (ls, e2) = match decode_delta_packed(rest) {
        None => return Err(DeltaStage::Lengths),
        Some(x) => x,
    };
    let t = match total_of_lengths(ls.as_slice()) {
        None => return Err(DeltaStage::Suffixes),
        Some(t) => t,
    };
    if t > n - e2 {
        return Err(DeltaStage::Suffixes);
    }
    let bytes = crate::delta::copy_range(rest, e2, e2 + t);
    Ok((as_u32_lengths(ps.as_slice()), as_i32_lengths(ls.as_slice()), bytes))
}

} // verus!
