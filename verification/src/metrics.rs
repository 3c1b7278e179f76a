//! What a sample holds, and what is known of the machine.

use crate::ieee::{exactly, fit, is_zero, one, quotient, whole, Double, Num, Single, Width};
use vstd::arithmetic::mul::*;
use vstd::prelude::*;

verus! {

/// Memory figures, in bytes.
#[derive(Clone, Copy, Debug)]
pub struct MemMetrics {
    pub ram_total: u64,
    pub ram_usage: u64,
    pub swap_total: u64,
    pub swap_usage: u64,
}

/// Average temperatures, in degrees Celsius; zero where no sensor answers.
#[derive(Clone, Copy, Debug)]
pub struct TempMetrics {
    pub cpu_temp_avg: Single,
    pub gpu_temp_avg: Single,
}

/// One sample. A usage is a frequency in megahertz and a load between zero and one; powers are in
/// watts.
#[derive(Clone, Copy, Debug)]
pub struct Metrics {
    pub temp: TempMetrics,
    pub memory: MemMetrics,
    pub ecpu_usage: (u32, Single),
    pub pcpu_usage: (u32, Single),
    pub gpu_usage: (u32, Single),
    pub cpu_usage_pct: Single,
    pub cpu_power: Single,
    pub gpu_power: Single,
    pub ane_power: Single,
    pub all_power: Single,
    pub sys_power: Single,
}

/// The machine. The frequencies of each cluster ascend, in megahertz.
#[derive(Clone, Debug)]
pub struct SocInfo {
    pub chip_name: String,
    pub mac_model: String,
    pub memory_gb: u16,
    pub ecpu_cores: u8,
    pub ecpu_label: String,
    pub ecpu_freqs: Vec<u32>,
    pub pcpu_cores: u8,
    pub pcpu_label: String,
    pub pcpu_freqs: Vec<u32>,
    pub gpu_cores: u8,
    pub gpu_freqs: Vec<u32>,
}

/// An integer as a `binary64` value.
pub open spec fn as_double(n: nat) -> Num {
    fit(Width::Double, exactly(whole(n)))
}

/// `a / b`, and zero where `b` is zero.
pub open spec fn quotient_or_zero(a: Num, b: Num) -> Num {
    if is_zero(b) {
        whole(0)
    } else {
        fit(Width::Double, quotient(a, b))
    }
}

/// The first frequency, or `other` where there is none.
pub open spec fn first_or(freqs: Seq<u32>, other: u32) -> u32 {
    if freqs.len() > 0 {
        freqs[0]
    } else {
        other
    }
}

/// The last frequency, or `other` where there is none.
pub open spec fn last_or(freqs: Seq<u32>, other: u32) -> u32 {
    if freqs.len() > 0 {
        freqs.last()
    } else {
        other
    }
}

/// A division by zero gives zero, whatever is divided, and every other one the quotient, rounded.
pub proof fn law_quotient_or_zero(a: Num, b: Num)
    ensures
        is_zero(b) ==> is_zero(quotient_or_zero(a, b)),
        !is_zero(b) ==> quotient_or_zero(a, b) == fit(Width::Double, quotient(a, b)),
{
    lemma_mul_basics(one() as int);
}

/// `a / b`, and zero where `b` is zero.
pub fn zero_div(a: Double, b: Double) -> (r: Double)
    ensures
        r.num() == quotient_or_zero(a.num(), b.num()),
{
    if b.is_zero() {
        Double::from_u64(0)
    } else {
        a.over(b)
    }
}

/// The lowest frequency, or `other` where there is none.
pub fn lowest_freq(freqs: &Vec<u32>, other: u32) -> (r: u32)
    ensures
        r == first_or(freqs@, other),
{
    if freqs.len() > 0 {
        freqs[0]
    } else {
        other
    }
}

/// The highest frequency, or `other` where there is none.
pub fn highest_freq(freqs: &Vec<u32>, other: u32) -> (r: u32)
    ensures
        r == last_or(freqs@, other),
{
    if freqs.len() > 0 {
        freqs[freqs.len() - 1]
    } else {
        other
    }
}

} // verus!
