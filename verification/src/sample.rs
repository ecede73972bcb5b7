//! The two samplers: uniform rejection sampling of NTT-domain elements from
//! a SHAKE128 stream, and centered-binomial sampling of small noise from a
//! fixed-length byte string.

use vstd::prelude::*;
use crate::ring::{Ring, RingRepresentation, ring_wf};
use crate::crypt::{shake128, shake128_byte};

verus! {

/// The number of three-byte groups the rejection sampler is willing to draw
/// before giving up; the chance of ever needing this many is astronomically
/// small.
pub const SAMPLE_MAX_GROUPS: usize = 16384;

/// The low twelve-bit candidate of a three-byte group.
pub open spec fn cand_lo(b1: u8, b2: u8) -> u16 {
    (b1 as u16) | (((b2 & 0xf) as u16) << 8)
}

/// The high twelve-bit candidate of a three-byte group.
pub open spec fn cand_hi(b2: u8, b3: u8) -> u16 {
    ((b2 >> 4) as u16) | ((b3 as u16) << 4)
}

/// The accepted candidates — those below `Q` — among the first `g`
/// three-byte groups of the SHAKE128 stream for `input`, in stream order.
pub open spec fn accepted_upto(input: Seq<u8>, g: int) -> Seq<u16>
    decreases g,
{
    if g <= 0 {
        Seq::empty()
    } else {
        let prev = accepted_upto(input, g - 1);
        let d1 = cand_lo(shake128_byte(input, 3 * (g - 1)), shake128_byte(input, 3 * (g - 1) + 1));
        let d2 = cand_hi(
            shake128_byte(input, 3 * (g - 1) + 1),
            shake128_byte(input, 3 * (g - 1) + 2),
        );
        let w = if d1 < 3329 {
            prev.push(d1)
        } else {
            prev
        };
        if d2 < 3329 {
            w.push(d2)
        } else {
            w
        }
    }
}

/// Every accepted candidate is below `Q`.
pub proof fn lemma_accepted_below_q(input: Seq<u8>, g: int)
    ensures
        forall|i: int|
            0 <= i < accepted_upto(input, g).len() ==> #[trigger] accepted_upto(input, g)[i]
                < 3329,
    decreases g,
{
    if g > 0 {
        lemma_accepted_below_q(input, g - 1);
        let prev = accepted_upto(input, g - 1);
        let cur = accepted_upto(input, g);
        assert forall|i: int| 0 <= i < cur.len() implies cur[i] < 3329 by {
            if i < prev.len() {
                assert(cur[i] == prev[i]);
            }
        }
    }
}

/// Sampling more groups only extends the accepted sequence.
pub proof fn lemma_accepted_prefix(input: Seq<u8>, g1: int, g2: int)
    requires
        0 <= g1 <= g2,
    ensures
        accepted_upto(input, g1).len() <= accepted_upto(input, g2).len(),
        accepted_upto(input, g1) == accepted_upto(input, g2).take(
            accepted_upto(input, g1).len() as int,
        ),
    decreases g2 - g1,
{
    if g1 < g2 {
        lemma_accepted_prefix(input, g1, g2 - 1);
        let a1 = accepted_upto(input, g1);
        let a2 = accepted_upto(input, g2 - 1);
        let a3 = accepted_upto(input, g2);
        assert(a1 =~= a3.take(a1.len() as int));
    }
}

/// What the rejection sampler produces for a seed and a matrix position:
/// the first 256 accepted candidates of the stream, padded with zeros in
/// the never-reached case that the draw bound runs out first.
pub open spec fn sampled_ring(seed: Seq<u8>, row: u8, col: u8) -> Seq<u16> {
    let acc = accepted_upto(seed.push(row).push(col), SAMPLE_MAX_GROUPS as int);
    if acc.len() >= 256 {
        acc.take(256)
    } else {
        acc + Seq::new((256 - acc.len()) as nat, |i: int| 0u16)
    }
}

/// Draws 256 coefficients below `Q` from the SHAKE128 stream keyed by the
/// seed and the matrix position, twelve bits at a time, discarding
/// candidates of `Q` or more.  The result is exactly the first 256 accepted
/// candidates of the stream; should the stream fail to yield that many
/// within the draw bound — which never happens in practice — the remaining
/// slots stay zero.
pub fn sample_ntt(seed: &Vec<u8>, row: u8, col: u8) -> (r: Ring)
    ensures
        r.t == RingRepresentation::NTT,
        r.wf(),
        r.data@ == sampled_ring(seed@, row, col),
{
    let mut inp: Vec<u8> = Vec::new();
    let mut i: usize = 0;
    while i < seed.len()
        invariant
            i <= seed@.len(),
            inp@ == seed@.take(i as int),
        decreases seed@.len() - i,
    {
        inp.push(seed[i]);
        i += 1;
    }
    proof {
        assert(seed@.take(seed@.len() as int) =~= seed@);
    }
    inp.push(row);
    inp.push(col);
    let ghost stream_input = seed@.push(row).push(col);
    proof {
        assert(inp@ =~= stream_input);
    }

    let mut ring = Ring::new(RingRepresentation::NTT);
    let mut buf: Vec<u8> = Vec::new();
    let mut j: usize = 0;
    let mut g: usize = 0;
    while j < 256 && g < SAMPLE_MAX_GROUPS
        invariant
            j <= 256,
            g <= SAMPLE_MAX_GROUPS,
            inp@ == stream_input,
            ring.t == RingRepresentation::NTT,
            ring.data@.len() == 256,
            ring_wf(ring.data@),
            buf@.len() >= 3 * g || buf@.len() == 0,
            forall|p: int| 0 <= p < buf@.len() ==> buf@[p] == shake128_byte(stream_input, p),
            accepted_upto(stream_input, g as int).len() >= j,
            j < 256 ==> accepted_upto(stream_input, g as int).len() == j,
            ring.data@.take(j as int) == accepted_upto(stream_input, g as int).take(j as int),
            forall|p: int| j <= p < 256 ==> ring.data@[p] == 0,
        decreases 256 - j + (SAMPLE_MAX_GROUPS - g),
    {
        if 3 * g + 3 > buf.len() {
            buf = shake128(&inp, 3 * g + 504);
        }
        let ghost acc0 = accepted_upto(stream_input, g as int);
        let b1 = buf[3 * g];
        let b2 = buf[3 * g + 1];
        let b3 = buf[3 * g + 2];
        let d1: u16 = (b1 as u16) | (((b2 & 0xf) as u16) << 8);
        let d2: u16 = ((b2 >> 4) as u16) | ((b3 as u16) << 4);
        let ghost jg = j as int;
        if d1 < 3329 {
            ring.data.set(j, d1);
            j += 1;
        }
        if d2 < 3329 && j < 256 {
            ring.data.set(j, d2);
            j += 1;
        }
        g += 1;
        proof {
            let gi = g as int;
            let acc1 = accepted_upto(stream_input, gi);
            assert(b1 == shake128_byte(stream_input, 3 * (gi - 1)));
            assert(b2 == shake128_byte(stream_input, 3 * (gi - 1) + 1));
            assert(b3 == shake128_byte(stream_input, 3 * (gi - 1) + 2));
            assert(acc1 == (if d2 < 3329 {
                (if d1 < 3329 {
                    acc0.push(d1)
                } else {
                    acc0
                }).push(d2)
            } else {
                if d1 < 3329 {
                    acc0.push(d1)
                } else {
                    acc0
                }
            }));
            assert(acc0.len() == jg);
            assert(acc0.take(jg) =~= acc0);
            assert(ring.data@.take(j as int) =~= acc1.take(j as int));
        }
    }
    proof {
        let acc_end = accepted_upto(stream_input, g as int);
        let acc_max = accepted_upto(stream_input, SAMPLE_MAX_GROUPS as int);
        lemma_accepted_prefix(stream_input, g as int, SAMPLE_MAX_GROUPS as int);
        if j == 256 {
            assert(ring.data@ =~= acc_end.take(256));
            assert(acc_end.len() >= 256);
            assert forall|i: int| 0 <= i < 256 implies acc_end[i] == acc_max[i] by {
                assert(acc_end[i] == acc_max.take(acc_end.len() as int)[i]);
            }
            assert(acc_end.take(256) =~= acc_max.take(256));
        } else {
            assert(g == SAMPLE_MAX_GROUPS);
            assert(ring.data@.take(acc_max.len() as int) == acc_max);
            assert forall|p: int| 0 <= p < acc_max.len() implies ring.data@[p] == acc_max[p] by {
                assert(ring.data@.take(acc_max.len() as int)[p] == ring.data@[p]);
            }
            assert(ring.data@ =~= acc_max + Seq::new(
                (256 - acc_max.len()) as nat,
                |i: int| 0u16,
            ));
        }
    }
    ring
}

/// One bit of a byte string, least significant bit of each byte first.
pub open spec fn bit_of(bytes: Seq<u8>, i: int) -> u16 {
    ((bytes[i / 8] >> ((i % 8) as u8)) & 1) as u16
}

/// The sum of `n` consecutive bits starting at `from`.
pub open spec fn bit_sum(bytes: Seq<u8>, from: int, n: int) -> int
    decreases n,
{
    if n <= 0 {
        0
    } else {
        bit_sum(bytes, from, n - 1) + bit_of(bytes, from + n - 1)
    }
}

/// Coefficient `i` of a centered-binomial sample: the difference of two
/// `eta`-bit sums, taken modulo `Q`.
pub open spec fn cbd_coef(bytes: Seq<u8>, i: int, eta: int) -> u16 {
    (((bit_sum(bytes, 2 * i * eta, eta) + 3329) - bit_sum(bytes, 2 * i * eta + eta, eta)) % 3329) as u16
}

/// The full centered-binomial sample of 256 coefficients.
pub open spec fn cbd_spec(bytes: Seq<u8>, eta: int) -> Seq<u16> {
    Seq::new(256, |i: int| cbd_coef(bytes, i, eta))
}

/// A single extracted bit is zero or one.
pub proof fn lemma_bit_le_one(b: u8, sh: u8)
    by (bit_vector)
    ensures
        ((b >> sh) & 1) <= 1,
{
}

/// Draws one coefficient per window of `2 * eta` bits: the sum of the first
/// `eta` bits minus the sum of the next `eta`, modulo `Q`.  Deterministic
/// and fixed-length, with no rejection.
pub fn sample_poly_cbd(bytes: &Vec<u8>, eta: usize) -> (r: Ring)
    requires
        eta == 2 || eta == 3,
        bytes@.len() == 64 * eta,
    ensures
        r.t == RingRepresentation::Degree255,
        r.wf(),
        r.data@ == cbd_spec(bytes@, eta as int),
{
    let mut ring = Ring::new(RingRepresentation::Degree255);
    let mut i: usize = 0;
    while i < 256
        invariant
            i <= 256,
            eta == 2 || eta == 3,
            bytes@.len() == 64 * eta,
            ring.t == RingRepresentation::Degree255,
            ring.data@.len() == 256,
            ring_wf(ring.data@),
            forall|p: int| 0 <= p < i ==> #[trigger] ring.data@[p] == cbd_spec(bytes@, eta as int)[p],
        decreases 256 - i,
    {
        let mut x: u16 = 0;
        let mut y: u16 = 0;
        let base = i * 2 * eta;
        let mut t: usize = 0;
        while t < eta
            invariant
                t <= eta,
                eta == 2 || eta == 3,
                i < 256,
                base == i * 2 * eta,
                bytes@.len() == 64 * eta,
                x <= t,
                x == bit_sum(bytes@, base as int, t as int),
            decreases eta - t,
        {
            let idx = base + t;
            let sh: u8 = (idx % 8) as u8;
            let b = bytes[idx / 8];
            proof {
                lemma_bit_le_one(b, sh);
            }
            x = x + ((b >> sh) & 1) as u16;
            t += 1;
        }
        let mut t: usize = 0;
        while t < eta
            invariant
                t <= eta,
                eta == 2 || eta == 3,
                i < 256,
                base == i * 2 * eta,
                bytes@.len() == 64 * eta,
                y <= t,
                y == bit_sum(bytes@, base + eta, t as int),
            decreases eta - t,
        {
            let idx = base + eta + t;
            let sh: u8 = (idx % 8) as u8;
            let b = bytes[idx / 8];
            proof {
                lemma_bit_le_one(b, sh);
            }
            y = y + ((b >> sh) & 1) as u16;
            t += 1;
        }
        ring.data.set(i, (x + 3329 - y) % 3329);
        i += 1;
    }
    proof {
        assert(ring.data@ =~= cbd_spec(bytes@, eta as int));
    }
    ring
}

} // verus!
