//! The seed sequences that fill row 0 of a wall.

use vstd::prelude::*;

verus! {

/// Which seed sequence fills row 0 of a wall.
#[derive(Clone, Copy, Debug, PartialEq, Eq, Structural)]
pub enum Function {
    Square,
    DeBruijn,
    Rueppel,
    Rook,
    Knight,
}

/// The repeating binary pattern of period 16 behind the de Bruijn seed.
pub open spec fn debruijn_pattern() -> Seq<int> {
    seq![1int, 1, 1, 1, 0, 0, 0, 0, 1, 1, 0, 1, 0, 0, 1, 0]
}

pub open spec fn square_spec(n: int) -> int {
    n * n
}

/// The pattern read at `n` modulo 16, with a non-negative remainder.
pub open spec fn debruijn_spec(n: int) -> int {
    debruijn_pattern()[n % 16]
}

/// `2` raised to `k`.
pub open spec fn two_to(k: nat) -> nat
    decreases k,
{
    if k == 0 {
        1
    } else {
        2 * two_to((k - 1) as nat)
    }
}

/// Whether `n` is 1, 2, 4, 8, ...
pub open spec fn is_power_of_two(n: int) -> bool
    decreases n,
{
    if n <= 0 {
        false
    } else if n == 1 {
        true
    } else if n % 2 != 0 {
        false
    } else {
        is_power_of_two(n / 2)
    }
}

pub open spec fn rueppel_spec(n: int) -> int {
    if is_power_of_two(n) {
        1
    } else {
        0
    }
}

pub open spec fn rook_measure(n: int) -> int {
    if n < 0 {
        -2 * n + 1
    } else {
        2 * n
    }
}

pub open spec fn rook_spec(n: int) -> int
    decreases rook_measure(n),
{
    if n == 0 {
        0
    } else if n < 0 {
        1 - rook_spec(-n)
    } else if n % 2 == 0 {
        rook_spec(n / 2)
    } else {
        ((n - 1) / 2) % 2
    }
}

/// Every rook value is 0 or 1.
pub proof fn lemma_rook_bit(n: int)
    ensures
        0 <= rook_spec(n) <= 1,
    decreases rook_measure(n),
{
    if n < 0 {
        lemma_rook_bit(-n);
    } else if n > 0 && n % 2 == 0 {
        lemma_rook_bit(n / 2);
    }
}

pub open spec fn knight_spec(n: int) -> int {
    rook_spec(n + 1) - rook_spec(n - 1)
}

/// The value that `f` puts at column `n` of row 0.
pub open spec fn seed(f: Function, n: int) -> int {
    match f {
        Function::Square => square_spec(n),
        Function::DeBruijn => debruijn_spec(n),
        Function::Rueppel => rueppel_spec(n),
        Function::Rook => rook_spec(n),
        Function::Knight => knight_spec(n),
    }
}

/// Every seed value at an `i32` column fits in `i128`.
pub proof fn lemma_seed_fits(f: Function, n: int)
    requires
        i32::MIN <= n <= i32::MAX,
    ensures
        i128::MIN <= seed(f, n) <= i128::MAX,
{
    assert(0 <= n * n <= 0x4000_0000_0000_0000) by (nonlinear_arith)
        requires
            -0x8000_0000 <= n <= 0x7fff_ffff,
    ;
    lemma_rook_bit(n);
    lemma_rook_bit(n + 1);
    lemma_rook_bit(n - 1);
}

pub fn square(n: i32) -> (r: i128)
    ensures
        r == square_spec(n as int),
{
    let w = n as i128;
    assert(0 <= w * w <= 0x4000_0000_0000_0000) by (nonlinear_arith)
        requires
            -0x8000_0000 <= w <= 0x7fff_ffff,
    ;
    w * w
}

pub fn binary(n: i32) -> (r: i128)
    ensures
        r == debruijn_spec(n as int),
{
    let s: Vec<i128> = vec![1, 1, 1, 1, 0, 0, 0, 0, 1, 1, 0, 1, 0, 0, 1, 0];
    // 2^31 is a multiple of 16, so the shift keeps the residue.
    let shifted = (n as i64 + 0x8000_0000) as u64;
    let i = (shifted % 16) as usize;
    proof {
        assert(s@ =~= seq![1i128, 1, 1, 1, 0, 0, 0, 0, 1, 1, 0, 1, 0, 0, 1, 0]);
        assert((n as int + 0x8000_0000) % 16 == (n as int) % 16) by (nonlinear_arith);
    }
    s[i]
}

pub fn rueppel(n: i32) -> (r: i128)
    ensures
        r == rueppel_spec(n as int),
{
    if n <= 0 {
        return 0;
    }
    let mut x: i32 = n;
    while x % 2 == 0
        invariant
            x > 0,
            is_power_of_two(x as int) == is_power_of_two(n as int),
        decreases x,
    {
        x = x / 2;
    }
    if x == 1 {
        1
    } else {
        0
    }
}

fn rook_wide(n: i64) -> (r: i128)
    requires
        -0x1_0000_0000 <= n <= 0x1_0000_0000,
    ensures
        r == rook_spec(n as int),
    decreases rook_measure(n as int),
{
    if n == 0 {
        0
    } else if n < 0 {
        proof {
            lemma_rook_bit(-n as int);
        }
        1 - rook_wide(-n)
    } else if n % 2 == 0 {
        rook_wide(n / 2)
    } else {
        (((n - 1) / 2) % 2) as i128
    }
}

pub fn rook(n: i32) -> (r: i128)
    ensures
        r == rook_spec(n as int),
{
    rook_wide(n as i64)
}

pub fn knight(n: i32) -> (r: i128)
    ensures
        r == knight_spec(n as int),
{
    proof {
        lemma_rook_bit(n as int + 1);
        lemma_rook_bit(n as int - 1);
    }
    rook_wide(n as i64 + 1) - rook_wide(n as i64 - 1)
}

impl Function {
    /// The value this seed puts at column `n` of row 0.
    pub fn seed_at(&self, n: i32) -> (r: i128)
        ensures
            r == seed(*self, n as int),
    {
        match self {
            Function::Square => square(n),
            Function::DeBruijn => binary(n),
            Function::Rueppel => rueppel(n),
            Function::Rook => rook(n),
            Function::Knight => knight(n),
        }
    }
}

/// Rook values mirror around 0: `rook(-n) == 1 - rook(n)` for `n != 0`.
pub proof fn lemma_rook_mirror(n: int)
    requires
        n != 0,
    ensures
        rook_spec(-n) == 1 - rook_spec(n),
{
    if n < 0 {
        assert(rook_spec(n) == 1 - rook_spec(-n));
    }
}

proof fn lemma_power_of_two_at(k: nat)
    ensures
        is_power_of_two(two_to(k) as int),
    decreases k,
{
    if k > 0 {
        lemma_power_of_two_at((k - 1) as nat);
        assert(two_to(k) >= 2) by {
            lemma_two_to_positive((k - 1) as nat);
        }
    }
}

proof fn lemma_two_to_positive(k: nat)
    ensures
        two_to(k) >= 1,
    decreases k,
{
    if k > 0 {
        lemma_two_to_positive((k - 1) as nat);
    }
}

proof fn lemma_power_of_two_witness(n: int) -> (k: nat)
    requires
        is_power_of_two(n),
    ensures
        two_to(k) == n,
    decreases n,
{
    if n == 1 {
        0
    } else {
        let j = lemma_power_of_two_witness(n / 2);
        assert(two_to(j + 1) == 2 * two_to(j));
        j + 1
    }
}

/// The Rueppel seed is 1 at every power of two, `2^k` with `k >= 0`.
pub proof fn lemma_rueppel_at_powers(k: nat)
    ensures
        rueppel_spec(two_to(k) as int) == 1,
{
    lemma_power_of_two_at(k);
}

/// The Rueppel seed is 0 at every `n` that is no power of two, which takes
/// in every `n <= 0`.
pub proof fn lemma_rueppel_elsewhere(n: int)
    requires
        forall|k: nat| two_to(k) != n,
    ensures
        rueppel_spec(n) == 0,
{
    if is_power_of_two(n) {
        let k = lemma_power_of_two_witness(n);
        assert(two_to(k) != n);
    }
}

} // verus!
