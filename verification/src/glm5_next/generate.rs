//! Decisions of a generation loop.

use vstd::prelude::*;

use crate::float::F64;

verus! {

/// What follows a sampled token: whether generation stops, and where the tokens begin
/// that the next step penalises for repetition.
///
/// `seen` tokens of prompt and continuation are there, `generated` of them sampled, the
/// last of which is `token`. Generation stops at an end token or after `sample_len`
/// sampled tokens; the last `repeat_last_n` tokens are penalised.
pub fn decode_step(
    seen: usize,
    generated: usize,
    sample_len: usize,
    eos: &Vec<usize>,
    token: u32,
    repeat_last_n: usize,
) -> (r: (bool, usize))
    ensures
        r.0 == (generated >= sample_len || eos@.contains(token as usize)),
        r.1 == if seen > repeat_last_n {
            seen - repeat_last_n
        } else {
            0
        },
{
    let mut stop: bool = generated >= sample_len;
    let mut i: usize = 0;
    while i < eos.len()
        invariant
            i <= eos@.len(),
            stop == (generated >= sample_len || exists|a: int|
                0 <= a < i && #[trigger] eos@[a] == token as usize),
        decreases eos@.len() - i,
    {
        if eos[i] == token as usize {
            stop = true;
        }
        i = i + 1;
    }
    let start: usize = if seen > repeat_last_n {
        seen - repeat_last_n
    } else {
        0
    };
    (stop, start)
}

/// How tokens are sampled from logits.
#[derive(Debug, Clone, Copy, PartialEq, Eq, Structural)]
pub enum SamplingMode {
    /// The most likely token.
    ArgMax,
    /// Among all tokens.
    All { temperature: F64 },
    /// Among the `k` most likely tokens.
    TopK { k: usize, temperature: F64 },
    /// Among the most likely tokens that reach the probability `p` together.
    TopP { p: F64, temperature: F64 },
    /// Among the `k` most likely tokens, and of them by `p`.
    TopKThenTopP { k: usize, p: F64, temperature: F64 },
}

/// The number is a zero of either sign or below zero.
pub open spec fn at_most_zero(v: F64) -> bool {
    let rest = v.bits % 0x8000_0000_0000_0000;
    rest == 0 || v.bits >= 0x8000_0000_0000_0000 && rest <= 0x7FF0_0000_0000_0000
}

/// Chooses the mode: greedy where the temperature is at most zero, else by the options
/// that are given.
pub fn sampling_mode(temperature: F64, top_k: Option<usize>, top_p: Option<F64>) -> (r: SamplingMode)
    ensures
        r is ArgMax <==> at_most_zero(temperature),
        !at_most_zero(temperature) ==> r == (match (top_k, top_p) {
            (None, None) => SamplingMode::All { temperature },
            (Some(k), None) => SamplingMode::TopK { k, temperature },
            (None, Some(p)) => SamplingMode::TopP { p, temperature },
            (Some(k), Some(p)) => SamplingMode::TopKThenTopP { k, p, temperature },
        }),
{
    let rest: u64 = temperature.bits % 0x8000_0000_0000_0000;
    if rest == 0 || (temperature.bits >= 0x8000_0000_0000_0000 && rest <= 0x7FF0_0000_0000_0000) {
        return SamplingMode::ArgMax;
    }
    match (top_k, top_p) {
        (None, None) => SamplingMode::All { temperature },
        (Some(k), None) => SamplingMode::TopK { k, temperature },
        (None, Some(p)) => SamplingMode::TopP { p, temperature },
        (Some(k), Some(p)) => SamplingMode::TopKThenTopP { k, p, temperature },
    }
}

/// Of a number other than zero and its opposite exactly one is at most zero, unless it is
/// no number; both zeros are.
pub proof fn law_at_most_zero(v: F64, w: F64)
    requires
        v.bits < 0x8000_0000_0000_0000,
        w.bits == v.bits + 0x8000_0000_0000_0000,
    ensures
        v.bits == 0 ==> at_most_zero(v) && at_most_zero(w),
        0 < v.bits <= 0x7FF0_0000_0000_0000 ==> !at_most_zero(v) && at_most_zero(w),
        v.bits > 0x7FF0_0000_0000_0000 ==> !at_most_zero(v) && !at_most_zero(w),
{
    assert(v.bits % 0x8000_0000_0000_0000 == v.bits);
    assert(w.bits % 0x8000_0000_0000_0000 == v.bits);
}

} // verus!
