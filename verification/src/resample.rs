//! Sample-rate conversion by linear interpolation.
//!
//! Positions and weights are exact fractions of the two rates; no filter is
//! applied before samples are dropped.

use vstd::prelude::*;
use vstd::slice::slice_to_vec;
use crate::arith::trunc_div;
use crate::error::AudioError;
use crate::processor::AudioProcessor;

verus! {

/// The number of samples that `len` samples at `from_rate` become at `to_rate`:
/// `len * to_rate / from_rate`, rounded down. No samples stay no samples,
/// whatever the rates.
pub open spec fn resampled_len(len: nat, from_rate: u32, to_rate: u32) -> nat {
    if from_rate == to_rate {
        len
    } else if len == 0 {
        0
    } else {
        (len * to_rate / (from_rate as int)) as nat
    }
}

/// Output sample `i`. Its place in the input is `i * from_rate / to_rate`; the
/// whole part picks the input sample, and the rest weighs the step to the next
/// one. The weighted value is rounded toward zero. The last input sample has
/// no next one and is taken as it is.
pub open spec fn resampled_sample(input: Seq<i16>, from_rate: u32, to_rate: u32, i: int) -> i16 {
    let place = i * from_rate;
    let at = place / (to_rate as int);
    let rest = place % (to_rate as int);
    if at + 1 < input.len() {
        trunc_div(input[at] * to_rate + (input[at + 1] - input[at]) * rest, to_rate as int) as i16
    } else {
        input[at]
    }
}

/// `input`, converted from `from_rate` to `to_rate`. Equal rates change nothing.
pub open spec fn resampled(input: Seq<i16>, from_rate: u32, to_rate: u32) -> Seq<i16> {
    if from_rate == to_rate {
        input
    } else {
        Seq::new(
            resampled_len(input.len(), from_rate, to_rate),
            |i: int| resampled_sample(input, from_rate, to_rate, i),
        )
    }
}

/// Whether `len` samples can be converted: the rates are equal, or there are
/// no samples, or the source rate is not zero and the length of the result
/// fits in `usize`.
pub open spec fn can_resample(len: nat, from_rate: u32, to_rate: u32) -> bool {
    from_rate == to_rate || len == 0 || (from_rate > 0 && len * to_rate / (from_rate as int)
        <= usize::MAX)
}

proof fn lemma_place_in_input(i: int, out_len: int, total: int, len: int, from: int, to: int)
    by (nonlinear_arith)
    requires
        0 <= i < out_len,
        0 < from,
        0 <= len,
        0 <= to,
        total == len * to,
        out_len == total / from,
    ensures
        to > 0,
        0 <= i * from,
        i * from < len * to,
        0 <= (i * from) / to < len,
{
    assert(out_len * from <= total);
    assert((i + 1) * from <= out_len * from);
}

proof fn lemma_weighted_between(a: int, b: int, rest: int, to: int)
    by (nonlinear_arith)
    requires
        0 <= rest < to,
    ensures
        a <= b ==> a <= trunc_div(a * to + (b - a) * rest, to) <= b,
        b <= a ==> b <= trunc_div(a * to + (b - a) * rest, to) <= a,
{
    let num = a * to + (b - a) * rest;
    if a <= b {
        assert(a * to <= num <= b * to);
    } else {
        assert(b * to <= num <= a * to);
    }
    if num >= 0 {
        assert(a <= b ==> a * to <= num ==> a <= num / to);
        assert(num <= b * to ==> num / to <= b);
        assert(b <= a ==> b * to <= num ==> b <= num / to);
        assert(num <= a * to ==> num / to <= a);
    } else {
        assert(a <= b ==> -num <= (-a) * to ==> (-num) / to <= -a);
        assert((-b) * to <= -num ==> -b <= (-num) / to);
        assert(b <= a ==> -num <= (-b) * to ==> (-num) / to <= -b);
        assert((-a) * to <= -num ==> -a <= (-num) / to);
    }
}

impl AudioProcessor {
    /// Converts `input` from `from_rate` to `to_rate` by linear interpolation.
    ///
    /// The result has `input.len() * to_rate / from_rate` samples, rounded down.
    /// The place of every one of them lies within the input, so none is left
    /// out and none is made up.
    pub fn simple_resample(&self, input: &[i16], from_rate: u32, to_rate: u32) -> (out: Vec<i16>)
        requires
            can_resample(input@.len(), from_rate, to_rate),
        ensures
            out@ == resampled(input@, from_rate, to_rate),
    {
        if from_rate == to_rate {
            return slice_to_vec(input);
        }
        let n = input.len();
        if n == 0 {
            let none: Vec<i16> = Vec::new();
            assert(none@ =~= resampled(input@, from_rate, to_rate));
            return none;
        }
        assert(n * to_rate < 0x1_0000_0000_0000_0000_0000_0000) by (nonlinear_arith)
            requires
                n <= 0xffff_ffff_ffff_ffff,
                to_rate <= 0xffff_ffff,
        ;
        let total: u128 = n as u128 * to_rate as u128;
        let out_len: usize = (total / from_rate as u128) as usize;
        let mut out: Vec<i16> = Vec::new();
        let mut i: usize = 0;
        while i < out_len
            invariant
                i <= out_len,
                n == input@.len(),
                n > 0,
                from_rate > 0,
                from_rate != to_rate,
                total == n * to_rate,
                out_len == total / (from_rate as u128),
                out@.len() == i,
                forall|k: int| 0 <= k < i ==> out@[k] == resampled_sample(input@, from_rate, to_rate, k),
            decreases out_len - i,
        {
            proof {
                lemma_place_in_input(
                    i as int,
                    out_len as int,
                    total as int,
                    n as int,
                    from_rate as int,
                    to_rate as int,
                );
            }
            let place: u128 = i as u128 * from_rate as u128;
            let at: usize = (place / to_rate as u128) as usize;
            let rest: i64 = (place % to_rate as u128) as i64;
            if at + 1 < n {
                let a: i64 = input[at] as i64;
                let b: i64 = input[at + 1] as i64;
                let to: i64 = to_rate as i64;
                proof {
                    lemma_weighted_between(a as int, b as int, rest as int, to as int);
                    assert(-0x8000 * 0x1_0000_0000 <= a * to <= 0x8000 * 0x1_0000_0000)
                        by (nonlinear_arith)
                        requires
                            -0x8000 <= a <= 0x8000,
                            0 <= to <= 0x1_0000_0000,
                    ;
                    assert(-0x1_0000 * 0x1_0000_0000 <= (b - a) * rest <= 0x1_0000 * 0x1_0000_0000)
                        by (nonlinear_arith)
                        requires
                            -0x1_0000 <= b - a <= 0x1_0000,
                            0 <= rest <= 0x1_0000_0000,
                    ;
                }
                let weighted: i64 = (a * to + (b - a) * rest) / to;
                out.push(weighted as i16);
            } else {
                out.push(input[at]);
            }
            i += 1;
        }
        assert(out@ =~= resampled(input@, from_rate, to_rate));
        out
    }

    /// Converts `input` from `from_rate` to `to_rate`, where that can be done.
    ///
    /// Fails with `ResampleFailure` exactly when there are samples, the rates
    /// differ, and the source rate is zero or the result would be longer than
    /// `usize` can count.
    pub fn resample_audio(&self, input: &[i16], from_rate: u32, to_rate: u32) -> (r: Result<
        Vec<i16>,
        AudioError,
    >)
        ensures
            can_resample(input@.len(), from_rate, to_rate) ==> r is Ok && r->Ok_0@ == resampled(
                input@,
                from_rate,
                to_rate,
            ),
            !can_resample(input@.len(), from_rate, to_rate) ==> r == Err::<Vec<i16>, AudioError>(
                AudioError::ResampleFailure,
            ),
    {
        if from_rate != to_rate && input.len() > 0 {
            if from_rate == 0 {
                return Err(AudioError::ResampleFailure);
            }
            let n = input.len();
            assert(n * to_rate < 0x1_0000_0000_0000_0000_0000_0000) by (nonlinear_arith)
                requires
                    n <= 0xffff_ffff_ffff_ffff,
                    to_rate <= 0xffff_ffff,
            ;
            let total: u128 = n as u128 * to_rate as u128;
            if total / from_rate as u128 > usize::MAX as u128 {
                return Err(AudioError::ResampleFailure);
            }
        }
        Ok(self.simple_resample(input, from_rate, to_rate))
    }
}

/// Conversion between equal rates gives the input back.
pub proof fn lemma_resample_identity(input: Seq<i16>, rate: u32)
    ensures
        resampled(input, rate, rate) == input,
{
}

/// The length of the result is `len * to_rate / from_rate`, rounded down, and so
/// within one of the exact quotient.
pub proof fn lemma_resample_length(input: Seq<i16>, from_rate: u32, to_rate: u32)
    requires
        from_rate > 0,
    ensures
        resampled(input, from_rate, to_rate).len() == input.len() * to_rate / (from_rate as int),
        resampled(input, from_rate, to_rate).len() * from_rate <= input.len() * to_rate,
        input.len() * to_rate < (resampled(input, from_rate, to_rate).len() + 1) * from_rate,
{
    let len = input.len() as int;
    let f = from_rate as int;
    let t = to_rate as int;
    assert(0 <= len * t) by (nonlinear_arith)
        requires
            0 <= len,
            0 <= t,
    ;
    if from_rate == to_rate {
        assert(len * t / f == len) by (nonlinear_arith)
            requires
                f == t,
                f > 0,
        ;
    }
    let q = len * t / f;
    assert(q * f <= len * t < (q + 1) * f) by (nonlinear_arith)
        requires
            f > 0,
            q == (len * t) / f,
    ;
    assert(q >= 0) by (nonlinear_arith)
        requires
            f > 0,
            0 <= len * t,
            q == (len * t) / f,
    ;
}

/// Every output sample lies between the two input samples around its place.
pub proof fn lemma_resample_between(input: Seq<i16>, from_rate: u32, to_rate: u32, i: int)
    requires
        from_rate > 0,
        from_rate != to_rate,
        0 <= i < resampled_len(input.len(), from_rate, to_rate),
    ensures
        ({
            let at = i * from_rate / (to_rate as int);
            let v = resampled(input, from_rate, to_rate)[i];
            &&& 0 <= at < input.len()
            &&& at + 1 < input.len() ==> (input[at] <= v <= input[at + 1] || input[at + 1] <= v
                <= input[at])
            &&& at + 1 == input.len() ==> v == input[at]
        }),
{
    let len = input.len() as int;
    let total = len * to_rate;
    lemma_place_in_input(i, total / (from_rate as int), total, len, from_rate as int, to_rate as int);
    let place = i * from_rate;
    let at = place / (to_rate as int);
    let rest = place % (to_rate as int);
    if at + 1 < len {
        lemma_weighted_between(input[at] as int, input[at + 1] as int, rest, to_rate as int);
    }
}

} // verus!
