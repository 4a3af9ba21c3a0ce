use vstd::prelude::*;

use crate::error::{ConfigError, LenError};

verus! {

/// Minimum segment length, inclusive.
pub const MIN_SEG_LEN: u32 = 8;

/// Maximum segment length, inclusive.
pub const MAX_SEG_LEN: u32 = 65536;

/// Minimum buffer length, inclusive.
pub const MIN_BUF_LEN: u32 = 8;

/// Maximum buffer length, inclusive.
pub const MAX_BUF_LEN: u32 = 65536;

/// Is `n` a power of two?
pub open spec fn is_pow2(n: nat) -> bool
    decreases n,
{
    if n <= 1 {
        n == 1
    } else {
        n % 2 == 0 && is_pow2(n / 2)
    }
}

/// A power of two divides every power of two that is not smaller.
pub proof fn lemma_pow2_divides(a: nat, b: nat)
    requires
        is_pow2(a),
        is_pow2(b),
        a <= b,
    ensures
        b % a == 0,
    decreases b,
{
    if a == 1 {
        assert(b % 1 == 0);
    } else {
        lemma_pow2_divides(a / 2, b / 2);
        let q = (b / 2) / (a / 2);
        assert(b / 2 == q * (a / 2)) by {
            vstd::arithmetic::div_mod::lemma_fundamental_div_mod((b / 2) as int, (a / 2) as int);
        }
        assert(b == q * a) by (nonlinear_arith)
            requires
                b / 2 == q * (a / 2),
                b % 2 == 0,
                a % 2 == 0,
                b == 2 * (b / 2),
                a == 2 * (a / 2),
        ;
        assert(b % a == 0) by {
            vstd::arithmetic::div_mod::lemma_mod_multiples_basic(q as int, a as int);
        }
    }
}

/// The verdict on one configured length.
pub open spec fn len_check(n: u32, min: u32, max: u32) -> Option<LenError> {
    if n < min {
        Some(LenError::TooSmall)
    } else if n > max {
        Some(LenError::TooLarge)
    } else if !is_pow2(n as nat) {
        Some(LenError::NotPow2)
    } else {
        None
    }
}

#[derive(Clone, Copy, Debug)]
pub struct Config {
    /// Segment length in the inner store, checksum included.
    pub seg_len: u32,
    /// Length of the scratch buffer used for inner reads.
    pub buf_len: u32,
    /// Validate checksums on read? Reserved: reads refuse when it is set.
    pub validate_on_read: bool,
}

impl Config {
    /// What `validate` returns: the segment length is judged first.
    pub open spec fn check(&self) -> Result<(), ConfigError> {
        match len_check(self.seg_len, MIN_SEG_LEN, MAX_SEG_LEN) {
            Some(e) => Err(ConfigError::Seg(e)),
            None => match len_check(self.buf_len, MIN_BUF_LEN, MAX_BUF_LEN) {
                Some(e) => Err(ConfigError::Buf(e)),
                None => Ok(()),
            },
        }
    }

    pub open spec fn is_valid(&self) -> bool {
        self.check() is Ok
    }

    /// Validate the configuration.
    pub fn validate(&self) -> (r: Result<(), ConfigError>)
        ensures
            r == self.check(),
    {
        match check_len(self.seg_len, MIN_SEG_LEN, MAX_SEG_LEN) {
            Some(e) => Err(ConfigError::Seg(e)),
            None => match check_len(self.buf_len, MIN_BUF_LEN, MAX_BUF_LEN) {
                Some(e) => Err(ConfigError::Buf(e)),
                None => Ok(()),
            },
        }
    }
}

fn check_len(n: u32, min: u32, max: u32) -> (r: Option<LenError>)
    ensures
        r == len_check(n, min, max),
{
    if n < min {
        Some(LenError::TooSmall)
    } else if n > max {
        Some(LenError::TooLarge)
    } else if !is_power_of_two(n) {
        Some(LenError::NotPow2)
    } else {
        None
    }
}

/// Is `n` a power of two?
pub fn is_power_of_two(n: u32) -> (r: bool)
    ensures
        r == is_pow2(n as nat),
{
    let mut v: u32 = n;
    while v > 1 && v % 2 == 0
        invariant
            is_pow2(v as nat) == is_pow2(n as nat),
        decreases v,
    {
        v = v / 2;
    }
    v == 1
}

} // verus!
