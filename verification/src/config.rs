//! Configuration types and checks for the synthesizer.

use crate::error::ConfigError;
use vstd::prelude::*;

verus! {

/// The sample interpolation algorithm used inside the GPU render kernels.
#[derive(Debug, Clone, Copy, PartialEq, Eq, Structural)]
pub enum InterpolationMode {
    /// Linear interpolation between adjacent samples (the default).
    Linear,
    /// High quality 64-point windowed sinc interpolation.
    Point64Sinc,
}

impl Default for InterpolationMode {
    fn default() -> (r: Self)
        ensures
            r == InterpolationMode::Linear,
    {
        InterpolationMode::Linear
    }
}

/// Output channel layout.
#[derive(Debug, Clone, Copy, PartialEq, Eq, Structural)]
pub enum ChannelMode {
    /// Stereo output (interleaved L/R samples; the default).
    Stereo,
    /// Mono output (sum of both channels is down-mixed).
    Mono,
}

impl Default for ChannelMode {
    fn default() -> (r: Self)
        ensures
            r == ChannelMode::Stereo,
    {
        ChannelMode::Stereo
    }
}

impl ChannelMode {
    /// Number of interleaved output channels: 2 for stereo, 1 for mono.
    pub fn channel_count(&self) -> (r: usize)
        ensures
            r == (if *self == ChannelMode::Stereo { 2usize } else { 1usize }),
    {
        match self {
            ChannelMode::Stereo => 2,
            ChannelMode::Mono => 1,
        }
    }
}

/// `n` is a power of two.
pub open spec fn is_pow2(n: nat) -> bool
    decreases n,
{
    if n == 1 {
        true
    } else if n == 0 || n % 2 == 1 {
        false
    } else {
        is_pow2(n / 2)
    }
}

/// Whether `n` is a power of two.
pub fn is_power_of_two(n: usize) -> (r: bool)
    ensures
        r == is_pow2(n as nat),
{
    let mut m = n;
    while m > 1 && m % 2 == 0
        invariant
            m > 0 || n == 0,
            m <= n,
            is_pow2(m as nat) == is_pow2(n as nat),
        decreases m,
    {
        m = m / 2;
    }
    m == 1
}

/// Largest supported voice pool.
pub const MAX_VOICE_POOL: usize = 65536;

/// Smallest supported block size.
pub const MIN_BLOCK_SIZE: usize = 16;

/// Why the integer settings of a configuration are unusable, if they are:
/// checked in the order sample rate, voice pool, block size.
pub open spec fn dimensions_error(sample_rate: u32, max_voices: usize, block_size: usize) -> Option<ConfigError> {
    if sample_rate == 0 {
        Some(ConfigError::ZeroSampleRate)
    } else if max_voices == 0 || max_voices > MAX_VOICE_POOL {
        Some(ConfigError::MaxVoices(max_voices))
    } else if !is_pow2(block_size as nat) || block_size < MIN_BLOCK_SIZE {
        Some(ConfigError::BlockSize(block_size))
    } else {
        None
    }
}

/// Checks the sample rate (non-zero), the voice pool size (`1..=65536`)
/// and the block size (a power of two, at least 16).
pub fn check_dimensions(sample_rate: u32, max_voices: usize, block_size: usize) -> (r: Result<(), ConfigError>)
    ensures
        match dimensions_error(sample_rate, max_voices, block_size) {
            None => r is Ok,
            Some(e) => r == Err::<(), ConfigError>(e),
        },
{
    if sample_rate == 0 {
        return Err(ConfigError::ZeroSampleRate);
    }
    if max_voices == 0 || max_voices > MAX_VOICE_POOL {
        return Err(ConfigError::MaxVoices(max_voices));
    }
    if !is_power_of_two(block_size) || block_size < MIN_BLOCK_SIZE {
        return Err(ConfigError::BlockSize(block_size));
    }
    Ok(())
}

/// `s` is ascending with no value twice.
pub open spec fn ascending_distinct(s: Seq<u32>) -> bool {
    forall|i: int, j: int| 0 <= i < j < s.len() ==> s[i] < s[j]
}

/// The sample rates of `rates`, ascending, each once.
pub fn distinct_rates(rates: &Vec<u32>) -> (r: Vec<u32>)
    ensures
        ascending_distinct(r@),
        forall|x: u32| r@.contains(x) <==> rates@.contains(x),
{
    let mut out: Vec<u32> = Vec::new();
    let mut k: usize = 0;
    while k < rates.len()
        invariant
            k <= rates@.len(),
            ascending_distinct(out@),
            forall|x: u32| out@.contains(x) <==> rates@.subrange(0, k as int).contains(x),
        decreases rates.len() - k,
    {
        let x = rates[k];
        insert_rate(&mut out, x);
        proof {
            let a = rates@.subrange(0, k as int);
            let b = rates@.subrange(0, k + 1);
            assert(b == a.push(x));
            assert forall|y: u32| b.contains(y) <==> (a.contains(y) || y == x) by {
                if b.contains(y) && y != x {
                    let j = choose|j: int| 0 <= j < b.len() && #[trigger] b[j] == y;
                    assert(a[j] == y);
                }
                if a.contains(y) {
                    let j = choose|j: int| 0 <= j < a.len() && #[trigger] a[j] == y;
                    assert(b[j] == y);
                }
                assert(b[k as int] == x);
            }
        }
        k = k + 1;
    }
    proof {
        assert(rates@.subrange(0, rates@.len() as int) == rates@);
    }
    out
}

/// Inserts `x` into the ascending `v` unless it is already there.
fn insert_rate(v: &mut Vec<u32>, x: u32)
    requires
        ascending_distinct(old(v)@),
    ensures
        ascending_distinct(final(v)@),
        forall|y: u32| final(v)@.contains(y) <==> (old(v)@.contains(y) || y == x),
{
    let mut p: usize = 0;
    while p < v.len() && v[p] < x
        invariant
            p <= v@.len(),
            v@ == old(v)@,
            ascending_distinct(v@),
            forall|i: int| 0 <= i < p ==> v@[i] < x,
        decreases v.len() - p,
    {
        p = p + 1;
    }
    if p < v.len() && v[p] == x {
        return;
    }
    let ghost before = v@;
    v.insert(p, x);
    proof {
        let s = v@;
        assert(s == before.subrange(0, p as int).push(x) + before.subrange(p as int, before.len() as int));
        assert forall|i: int, j: int| 0 <= i < j < s.len() implies s[i] < s[j] by {
            if j < p {
                assert(s[i] == before[i] && s[j] == before[j]);
            } else if j == p {
                assert(s[i] == before[i]);
            } else if i < p {
                assert(s[i] == before[i] && s[j] == before[j - 1]);
            } else if i == p {
                assert(s[j] == before[j - 1]);
                assert(before[p as int] >= x);
            } else {
                assert(s[i] == before[i - 1] && s[j] == before[j - 1]);
            }
        }
        assert forall|y: u32| s.contains(y) <==> (before.contains(y) || y == x) by {
            if s.contains(y) {
                let i = choose|i: int| 0 <= i < s.len() && s[i] == y;
                if i < p {
                    assert(before[i] == y);
                } else if i > p {
                    assert(before[i - 1] == y);
                }
            }
            if before.contains(y) {
                let i = choose|i: int| 0 <= i < before.len() && before[i] == y;
                if i < p {
                    assert(s[i] == y);
                } else {
                    assert(s[i + 1] == y);
                }
            }
            if y == x {
                assert(s[p as int] == x);
            }
        }
    }
}

} // verus!
