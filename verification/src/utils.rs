//! Time conversions, rounding and size units.
use vstd::prelude::*;

verus! {

/// The number of microseconds that `ticks` of a clock running at `hz` make:
/// the clock's rate is counted in whole ticks per microsecond.
pub fn micros(ticks: u64, hz: u64) -> (r: u64)
    requires
        hz / 1000 / 1000 > 0,
    ensures
        r == ticks / (hz / 1000 / 1000),
{
    ticks / (hz / 1000 / 1000)
}

/// Splits a number of microseconds into seconds, milliseconds and the
/// microseconds left over.
pub fn time_parts(micros: u64) -> (r: (u64, u64, u64))
    ensures
        r.0 == micros / 1_000_000,
        r.1 == micros % 1_000_000 / 1000,
        r.2 == micros % 1_000_000 % 1000,
        r.0 * 1_000_000 + r.1 * 1000 + r.2 == micros,
{
    let seconds = micros / (1000 * 1000);
    let micros_left = micros % (1000 * 1000);
    let millis = micros_left / 1000;
    let micros = micros_left % 1000;
    (seconds, millis, micros)
}

/// The number of ticks of a clock running at `hz` in `target_us`
/// microseconds.
pub fn ticks_per_us(target_us: u64, hz: u64) -> (r: u64)
    requires
        (hz / 1000 / 1000) * target_us <= u64::MAX,
    ensures
        r == (hz / 1000 / 1000) * target_us,
{
    (hz / 1000 / 1000) * target_us
}

/// Whether `n` is a power of two.
pub open spec fn is_pow2(n: u64) -> bool {
    exists|k: u64| k < 64 && n == 1u64 << k
}

/// `n` rounded up to the next multiple of `size`, a power of two.
pub fn round_up_to_next(n: u64, size: u64) -> (r: u64)
    requires
        is_pow2(size),
        n % size == 0 || n - n % size + size <= u64::MAX,
    ensures
        r % size == 0,
        r >= n,
        r - n < size,
        r == (if n % size == 0 { n as int } else { n - n % size + size }),
{
    let ghost k = choose|k: u64| k < 64 && size == 1u64 << k;
    proof {
        crate::bits::lemma_pow2_mask(n, k);
        let q = n / size;
        assert(n - n % size + size == size * (q + 1) && (size * (q + 1)) % (size as int) == 0)
            by (nonlinear_arith)
            requires
                size > 0,
                q == n / size,
        ;
    }
    if n % size == 0 {
        n
    } else {
        (n & !(size - 1)) + size
    }
}

/// Sizes counted in units of 1024.
pub trait Units: Sized {
    /// Whether the value times 1024 to the power `times` fits the type.
    spec fn scaled_fits(self, times: nat) -> bool;

    /// The value times 1024.
    fn kib(self) -> Self
        requires
            self.scaled_fits(1),
    ;

    /// The value times 1024 squared.
    fn mib(self) -> Self
        requires
            self.scaled_fits(2),
    ;

    /// The value times 1024 cubed.
    fn gib(self) -> Self
        requires
            self.scaled_fits(3),
    ;
}

impl Units for u64 {
    open spec fn scaled_fits(self, times: nat) -> bool {
        if times == 1 {
            self * 1024 <= u64::MAX
        } else if times == 2 {
            self * 1024 * 1024 <= u64::MAX
        } else {
            self * 1024 * 1024 * 1024 <= u64::MAX
        }
    }

    fn kib(self) -> (r: u64)
        ensures
            r == self * 1024,
    {
        self * 1024
    }

    fn mib(self) -> (r: u64)
        ensures
            r == self * 1024 * 1024,
    {
        self * 1024 * 1024
    }

    fn gib(self) -> (r: u64)
        ensures
            r == self * 1024 * 1024 * 1024,
    {
        self * 1024 * 1024 * 1024
    }
}

} // verus!
