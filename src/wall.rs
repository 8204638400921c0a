//! The wall itself: lazy, memoised evaluation of the recurrence, with the
//! search for zero windows that the degenerate cases need.

use std::collections::HashMap;
use vstd::prelude::*;

use crate::generator::{lemma_seed_fits, seed, Function};
use crate::text::{decimal, to_decimal};

verus! {

broadcast use vstd::std_specs::hash::group_hash_axioms;

/// Why an entry of the wall could not be produced.
#[derive(Clone, Copy, Debug, PartialEq, Eq, Structural)]
pub enum EvalError {
    /// A division that the recurrence needs left a remainder, or had a zero
    /// divisor: the wall is not what the recurrence promises.
    DivisionNotExact,
    /// A column (or row) that the evaluation needs lies outside `i32`.
    GeneratorArgumentOverflow,
    /// The evaluation needs more nested steps than the wall's limit allows.
    RecursionDepthExceeded,
    /// An entry, or an intermediate product, does not fit in `i128`.
    ValueOverflow,
}

/// The depth limit that `Wall::new` configures.
pub const DEFAULT_DEPTH_LIMIT: u32 = 1000;

/// A number wall seeded by one `Function`, with the entries computed so far.
#[derive(Debug)]
pub struct Wall {
    memo: HashMap<i64, i128>,
    function: Function,
    depth_limit: u32,
}

/// The memo key of row `m`, column `n`.
pub open spec fn key(m: int, n: int) -> int {
    m * 0x1_0000_0000 + n
}

pub open spec fn in_coord_range(x: int) -> bool {
    i32::MIN <= x <= i32::MAX
}

pub open spec fn fits_i128(x: int) -> bool {
    i128::MIN <= x <= i128::MAX
}

/// One step of the primary recurrence on `i128` values: `(a * a - b * c) / d`
/// for `d != 0`, failing where a product, the numerator or the quotient does
/// not fit, or where the division leaves a remainder.
pub open spec fn somos_step(a: int, b: int, c: int, d: int) -> Result<i128, EvalError> {
    let num = a * a - b * c;
    if !(fits_i128(a * a) && fits_i128(b * c) && fits_i128(num)) {
        Err(EvalError::ValueOverflow)
    } else if num % d != 0 {
        Err(EvalError::DivisionNotExact)
    } else if !fits_i128(num / d) {
        Err(EvalError::ValueOverflow)
    } else {
        Ok((num / d) as i128)
    }
}

/// An exact division on `i128` values: `num / den` when `den` divides
/// `num`, `DivisionNotExact` when it does not (or is zero), `ValueOverflow`
/// when the quotient does not fit.
pub open spec fn exact_div_spec(num: int, den: int) -> Result<i128, EvalError> {
    if den == 0 || num % den != 0 {
        Err(EvalError::DivisionNotExact)
    } else if !fits_i128(num / den) {
        Err(EvalError::ValueOverflow)
    } else {
        Ok((num / den) as i128)
    }
}

/// The zero-window value when the entries one and two rows up are both
/// zero: `b * c / a`, negated when `negate`, on `i128` values.
pub open spec fn double_step(a: int, b: int, c: int, negate: bool) -> Result<i128, EvalError> {
    if !fits_i128(b * c) {
        Err(EvalError::ValueOverflow)
    } else {
        match exact_div_spec(b * c, a) {
            Ok(q) => if !negate {
                Ok(q)
            } else if fits_i128(-q) {
                Ok((-q) as i128)
            } else {
                Err(EvalError::ValueOverflow)
            },
            Err(e) => Err(e),
        }
    }
}

/// The correction formula on `i128` values, from the border entries
/// `k = [d, e, a, f, b, g, c, rn, rd, qn, qd, pn, pd, tn, td]` and
/// `i = right - n`: `ValueOverflow` if any product or sum it forms does not
/// fit, else the exact division of `xn*yd*zd + yn*xd*zd + zn*xd*yd` by
/// `xd*yd*zd`.
pub open spec fn correction_step(k: Seq<int>, i: int) -> Result<i128, EvalError> {
    let (d, e, a, f, b, g, c) = (k[0], k[1], k[2], k[3], k[4], k[5], k[6]);
    let (rn, rd, qn, qd, pn, pd, tn, td) = (k[7], k[8], k[9], k[10], k[11], k[12], k[13], k[14]);
    let drd = d * rd;
    let xn = qn * e * drd;
    let xd = rn * a * qd;
    let yn = if (i + 1) % 2 == 0 {
        pn * f * drd
    } else {
        -(pn * f * drd)
    };
    let yd = pd * rn * b;
    let zn = if (i + 1) % 2 == 0 {
        -(tn * g * drd)
    } else {
        tn * g * drd
    };
    let zd = td * rn * c;
    let fits = fits_i128(drd) && fits_i128(qn * e) && fits_i128(xn) && fits_i128(rn * a)
        && fits_i128(xd) && fits_i128(pn * f) && fits_i128(pn * f * drd) && fits_i128(yn)
        && fits_i128(pd * rn) && fits_i128(yd) && fits_i128(tn * g) && fits_i128(tn * g * drd)
        && fits_i128(zn) && fits_i128(td * rn) && fits_i128(zd) && fits_i128(yd * zd) && fits_i128(
        xd * zd,
    ) && fits_i128(xd * yd) && fits_i128(xn * (yd * zd)) && fits_i128(yn * (xd * zd))
        && fits_i128(xn * (yd * zd) + yn * (xd * zd)) && fits_i128(zn * (xd * yd)) && fits_i128(
        xn * (yd * zd) + yn * (xd * zd) + zn * (xd * yd),
    ) && fits_i128(xd * (yd * zd));
    if !fits {
        Err(EvalError::ValueOverflow)
    } else {
        exact_div_spec(xn * (yd * zd) + yn * (xd * zd) + zn * (xd * yd), xd * (yd * zd))
    }
}

/// The fifteen border entries that the correction formula reads, in the
/// order `d, e, a, f, b, g, c, rn, rd, qn, qd, pn, pd, tn, td`.
pub open spec fn correction_coords(m: int, n: int, top: int, left: int, right: int) -> Seq<
    (int, int),
> {
    let i = right - n;
    seq![
        (m - 1, n),
        (top - 2, left + i),
        (top - 1, left + i),
        (top + i, left - 2),
        (top + i, left - 1),
        (m - 2 - i, right + 2),
        (m - 2 - i, right + 1),
        (top, right + 1),
        (top + 1, right + 1),
        (top + 1, left - 1),
        (top, left - 1),
        (top - 1, left + 1),
        (top - 1, left),
        (m - 1, left - 1),
        (m - 1, left),
    ]
}

proof fn lemma_key_injective(m1: int, n1: int, m2: int, n2: int)
    requires
        0 <= m1 <= i32::MAX,
        0 <= m2 <= i32::MAX,
        in_coord_range(n1),
        in_coord_range(n2),
        key(m1, n1) == key(m2, n2),
    ensures
        m1 == m2,
        n1 == n2,
{
    assert(m1 == m2) by (nonlinear_arith)
        requires
            m1 * 0x1_0000_0000 + n1 == m2 * 0x1_0000_0000 + n2,
            -0x8000_0000 <= n1 < 0x8000_0000,
            -0x8000_0000 <= n2 < 0x8000_0000,
    ;
}

fn key_of(m: i32, n: i32) -> (r: i64)
    requires
        m >= 0,
    ensures
        r == key(m as int, n as int),
{
    assert(0 <= m * 0x1_0000_0000 <= 0x7fff_ffff_0000_0000) by (nonlinear_arith)
        requires
            0 <= m <= 0x7fff_ffff,
    ;
    m as i64 * 0x1_0000_0000 + n as i64
}

impl Wall {
    /// The seed of row 0.
    pub closed spec fn kind(&self) -> Function {
        self.function
    }

    /// The largest number of nested steps one evaluation may take.
    pub closed spec fn limit(&self) -> nat {
        self.depth_limit as nat
    }

    /// The memoised entry at row `m`, column `n`, if there is one.
    pub closed spec fn cached(&self, m: int, n: int) -> Option<int> {
        if 0 <= m <= i32::MAX && in_coord_range(n) && self.memo@.contains_key(key(m, n) as i64) {
            Some(self.memo@[key(m, n) as i64] as int)
        } else {
            None
        }
    }

    /// The entry at (`m`, `n`) as far as it is known: the fixed rows below 0,
    /// and the memo elsewhere.
    pub open spec fn known(&self, m: int, n: int) -> Option<int> {
        if m < -1 {
            Some(0)
        } else if m == -1 {
            Some(1)
        } else {
            self.cached(m, n)
        }
    }

    /// `v` may stand at (`m`, `n`) given what is known: row 0 holds the seed,
    /// and wherever the entry two rows up is non-zero, the Somos identity
    /// `v * d == a * a - b * c` holds with known neighbours.
    #[verifier::opaque]
    pub open spec fn admissible(&self, m: int, n: int, v: int) -> bool {
        if m == 0 {
            v == seed(self.kind(), n)
        } else if m > 0 {
            match self.known(m - 2, n) {
                None => false,
                Some(d) => if d != 0 {
                    match (
                        self.known(m - 1, n),
                        self.known(m - 1, n - 1),
                        self.known(m - 1, n + 1),
                    ) {
                        (Some(a), Some(b), Some(c)) => v * d == a * a - b * c,
                        _ => false,
                    }
                } else {
                    self.degenerate_admissible(m, n, v)
                },
            }
        } else {
            false
        }
    }

    /// `v` is what the zero-window branch gives at (`m`, `n`) for some
    /// window that the search reports there.
    #[verifier::opaque]
    pub open spec fn degenerate_admissible(&self, m: int, n: int, v: int) -> bool {
        exists|inside: bool, top: int, left: int, right: int|
            #[trigger] self.window_result(m, n, inside, top, left, right) && self.degenerate_value(
                m,
                n,
                inside,
                top,
                left,
                right,
                v,
            )
    }

    /// The zero-window branch at (`m`, `n`) with the window (`inside`,
    /// `top`, `left`, `right`) gives `v`: 0 inside the window; with a zero
    /// one row up as well, `v * a == ± b * c`, negative when `right - left + 1`
    /// and `i + 1` are both odd (`i = right - n`); otherwise the correction
    /// formula over the window's border.
    pub open spec fn degenerate_value(
        &self,
        m: int,
        n: int,
        inside: bool,
        top: int,
        left: int,
        right: int,
        v: int,
    ) -> bool {
        let i = right - n;
        if inside {
            v == 0
        } else if self.known(m - 1, n) == Some(0int) {
            match (
                self.known(top + i, left - 1),
                self.known(m - 1 - i, right + 1),
                self.known(top - 1, left + i),
            ) {
                (Some(b), Some(c), Some(a)) => a != 0 && v * a == (if (right - left + 1) % 2 == 0
                    || (i + 1) % 2 == 0 {
                    b * c
                } else {
                    -(b * c)
                }),
                _ => false,
            }
        } else {
            self.correction_holds(m, n, top, left, right, v)
        }
    }

    /// The correction formula: with `i = right - n` and the border entries
    /// named as below, `v * (xd * yd * zd) == xn * yd * zd + yn * xd * zd +
    /// zn * xd * yd`, the divisor being non-zero.
    pub open spec fn correction_holds(
        &self,
        m: int,
        n: int,
        top: int,
        left: int,
        right: int,
        v: int,
    ) -> bool {
        let i = right - n;
        let ks = seq![
            self.known(m - 1, n),
            self.known(top - 2, left + i),
            self.known(top - 1, left + i),
            self.known(top + i, left - 2),
            self.known(top + i, left - 1),
            self.known(m - 2 - i, right + 2),
            self.known(m - 2 - i, right + 1),
            self.known(top, right + 1),
            self.known(top + 1, right + 1),
            self.known(top + 1, left - 1),
            self.known(top, left - 1),
            self.known(top - 1, left + 1),
            self.known(top - 1, left),
            self.known(m - 1, left - 1),
            self.known(m - 1, left),
        ];
        let (d, e, a, f, b, g, c) = (ks[0]->0, ks[1]->0, ks[2]->0, ks[3]->0, ks[4]->0, ks[5]->0, ks[6]->0);
        let (rn, rd, qn, qd, pn, pd, tn, td) = (
            ks[7]->0,
            ks[8]->0,
            ks[9]->0,
            ks[10]->0,
            ks[11]->0,
            ks[12]->0,
            ks[13]->0,
            ks[14]->0,
        );
        let xn = qn * e * (d * rd);
        let xd = rn * a * qd;
        let yn = if (i + 1) % 2 == 0 {
            pn * f * (d * rd)
        } else {
            -(pn * f * (d * rd))
        };
        let yd = pd * rn * b;
        let zn = if (i + 1) % 2 == 0 {
            -(tn * g * (d * rd))
        } else {
            tn * g * (d * rd)
        };
        let zd = td * rn * c;
        &&& forall|j: int| 0 <= j < 15 ==> #[trigger] ks[j] is Some
        &&& xd * (yd * zd) != 0
        &&& v * (xd * (yd * zd)) == xn * (yd * zd) + yn * (xd * zd) + zn * (xd * yd)
    }

    /// The entry two rows above (`m`, `n`) is known and non-zero, and the
    /// three entries above it and beside those are known.
    pub open spec fn primary_ready(&self, m: int, n: int) -> bool {
        &&& m >= 1
        &&& self.known(m - 2, n) matches Some(d) && d != 0
        &&& self.known(m - 1, n) is Some
        &&& self.known(m - 1, n - 1) is Some
        &&& self.known(m - 1, n + 1) is Some
    }

    /// The outcome of the primary recurrence at (`m`, `n`) from the known
    /// entries around it.
    pub open spec fn primary_step(&self, m: int, n: int) -> Result<i128, EvalError> {
        somos_step(
            self.known(m - 1, n)->0,
            self.known(m - 1, n - 1)->0,
            self.known(m - 1, n + 1)->0,
            self.known(m - 2, n)->0,
        )
    }

    /// (`m`, `n`) lies in the `i32` range and its entry is known.
    pub open spec fn ready_at(&self, m: int, n: int) -> bool {
        in_coord_range(m) && in_coord_range(n) && self.known(m, n) is Some
    }

    /// The entry at (`m`, `n`) is known and non-zero.
    pub open spec fn nonzero_at(&self, m: int, n: int) -> bool {
        self.known(m, n) matches Some(x) && x != 0
    }

    /// Rows `top` to `bottom` of column `n` are known zeros, and the entry
    /// just above `top` is known and non-zero: `top` is the top of the band.
    pub open spec fn zero_column(&self, top: int, bottom: int, n: int) -> bool {
        &&& 0 <= top <= bottom
        &&& forall|k: int| top <= k <= bottom ==> #[trigger] self.known(k, n) == Some(0int)
        &&& self.nonzero_at(top - 1, n)
    }

    /// Columns `lo` to `hi` of row `row` are known zeros.
    pub open spec fn zero_run(&self, row: int, lo: int, hi: int) -> bool {
        forall|k: int| lo <= k <= hi ==> #[trigger] self.known(row, k) == Some(0int)
    }

    /// (`top`, `left`, `right`) bounds the zero window through (`m`, `n`):
    /// `top` tops the zeros of column `n` down to row `m`, and on row `top`
    /// the zeros run from `left` to `right` with non-zero entries just beyond.
    pub open spec fn window(&self, m: int, n: int, top: int, left: int, right: int) -> bool {
        &&& self.zero_column(top, m, n)
        &&& left <= n <= right
        &&& self.zero_run(top, left, right)
        &&& self.nonzero_at(top, left - 1)
        &&& self.nonzero_at(top, right + 1)
    }

    /// The diamond-bounded window above (`m`, `n`) when the entries one and
    /// two rows up are both zero: with `d = m - top + 1`, the zeros of row
    /// `top` spread at most `d` columns either side of `n`, and `inside`
    /// says whether they span at least `d` columns.
    pub open spec fn diamond(
        &self,
        m: int,
        n: int,
        inside: bool,
        top: int,
        left: int,
        right: int,
    ) -> bool {
        let d = m - top + 1;
        &&& self.zero_column(top, m - 1, n)
        &&& n - d <= left <= n <= right <= n + d
        &&& self.zero_run(top, left, right)
        &&& (self.nonzero_at(top, left - 1) || left + d <= n)
        &&& (self.nonzero_at(top, right + 1) || right - d >= n)
        &&& inside == (right - left + 1 >= d)
    }

    /// What the zero-window search reports for (`m`, `n`): with a non-zero
    /// entry one row up, never inside and the window through (`m - 2`, `n`);
    /// otherwise the diamond.
    pub open spec fn window_result(
        &self,
        m: int,
        n: int,
        inside: bool,
        top: int,
        left: int,
        right: int,
    ) -> bool {
        if self.nonzero_at(m - 1, n) {
            !inside && self.window(m - 2, n, top, left, right)
        } else {
            self.known(m - 1, n) == Some(0int) && self.diamond(m, n, inside, top, left, right)
        }
    }

    /// Every memoised entry is admissible.
    pub open spec fn wf(&self) -> bool {
        forall|m: int, n: int| #[trigger]
            self.cached(m, n) is Some ==> self.admissible(m, n, self.cached(m, n)->0)
    }

    /// `self` holds everything `earlier` knew, with the same values, seed
    /// and limit.
    pub open spec fn extends(&self, earlier: &Wall) -> bool {
        &&& self.kind() == earlier.kind()
        &&& self.limit() == earlier.limit()
        &&& forall|m: int, n: int|
            #[trigger] earlier.known(m, n) is Some ==> self.known(m, n) == earlier.known(m, n)
    }
}

proof fn lemma_admissible_grows(pre: Wall, post: Wall, m: int, n: int, v: int)
    requires
        post.extends(&pre),
        pre.admissible(m, n, v),
    ensures
        post.admissible(m, n, v),
{
    reveal(Wall::admissible);
    if m > 0 && pre.known(m - 2, n) == Some(0int) {
        lemma_degenerate_grows(pre, post, m, n, v);
    }
}

proof fn lemma_correction(
    w: Wall,
    m: int,
    n: int,
    top: int,
    left: int,
    right: int,
    v: int,
    d: int,
    e: int,
    a: int,
    f: int,
    b: int,
    g: int,
    c: int,
    rn: int,
    rd: int,
    qn: int,
    qd: int,
    pn: int,
    pd: int,
    tn: int,
    td: int,
)
    requires
        d != 0,
        w.known(m - 1, n) == Some(d),
        w.known(top - 2, left + (right - n)) == Some(e),
        w.known(top - 1, left + (right - n)) == Some(a),
        w.known(top + (right - n), left - 2) == Some(f),
        w.known(top + (right - n), left - 1) == Some(b),
        w.known(m - 2 - (right - n), right + 2) == Some(g),
        w.known(m - 2 - (right - n), right + 1) == Some(c),
        w.known(top, right + 1) == Some(rn),
        w.known(top + 1, right + 1) == Some(rd),
        w.known(top + 1, left - 1) == Some(qn),
        w.known(top, left - 1) == Some(qd),
        w.known(top - 1, left + 1) == Some(pn),
        w.known(top - 1, left) == Some(pd),
        w.known(m - 1, left - 1) == Some(tn),
        w.known(m - 1, left) == Some(td),
        ({
            let i = right - n;
            let xn = qn * e * (d * rd);
            let xd = rn * a * qd;
            let yn = if (i + 1) % 2 == 0 {
            pn * f * (d * rd)
        } else {
            -(pn * f * (d * rd))
        };
            let yd = pd * rn * b;
            let zn = if (i + 1) % 2 == 0 {
            -(tn * g * (d * rd))
        } else {
            tn * g * (d * rd)
        };
            let zd = td * rn * c;
            &&& xd * (yd * zd) != 0
            &&& v * (xd * (yd * zd)) == xn * (yd * zd) + yn * (xd * zd) + zn * (xd * yd)
        }),
    ensures
        w.degenerate_value(m, n, false, top, left, right, v),
{
    let i = right - n;
    let ks = seq![
        w.known(m - 1, n),
        w.known(top - 2, left + i),
        w.known(top - 1, left + i),
        w.known(top + i, left - 2),
        w.known(top + i, left - 1),
        w.known(m - 2 - i, right + 2),
        w.known(m - 2 - i, right + 1),
        w.known(top, right + 1),
        w.known(top + 1, right + 1),
        w.known(top + 1, left - 1),
        w.known(top, left - 1),
        w.known(top - 1, left + 1),
        w.known(top - 1, left),
        w.known(m - 1, left - 1),
        w.known(m - 1, left),
    ];
    assert forall|j: int| 0 <= j < 15 implies #[trigger] ks[j] is Some by {}
    assert(w.correction_holds(m, n, top, left, right, v));
}

proof fn lemma_window_result_grows(
    pre: Wall,
    post: Wall,
    m: int,
    n: int,
    inside: bool,
    top: int,
    left: int,
    right: int,
)
    requires
        post.extends(&pre),
        pre.window_result(m, n, inside, top, left, right),
    ensures
        post.window_result(m, n, inside, top, left, right),
{
    if pre.nonzero_at(m - 1, n) {
        lemma_zero_column_grows(pre, post, top, m - 2, n);
    } else {
        lemma_zero_column_grows(pre, post, top, m - 1, n);
    }
    lemma_zero_run_grows(pre, post, top, left, right);
    assert(pre.known(m - 1, n) is Some);
    if pre.nonzero_at(top, left - 1) {
        assert(pre.known(top, left - 1) is Some);
    }
    if pre.nonzero_at(top, right + 1) {
        assert(pre.known(top, right + 1) is Some);
    }
}

proof fn lemma_degenerate_grows(pre: Wall, post: Wall, m: int, n: int, v: int)
    requires
        post.extends(&pre),
        pre.degenerate_admissible(m, n, v),
    ensures
        post.degenerate_admissible(m, n, v),
{
    reveal(Wall::degenerate_admissible);
    let (inside, top, left, right) = choose|inside: bool, top: int, left: int, right: int|
        #[trigger] pre.window_result(m, n, inside, top, left, right) && pre.degenerate_value(
            m,
            n,
            inside,
            top,
            left,
            right,
            v,
        );
    lemma_window_result_grows(pre, post, m, n, inside, top, left, right);
    lemma_degenerate_value_grows(pre, post, m, n, inside, top, left, right, v);
}

proof fn lemma_degenerate_value_grows(
    pre: Wall,
    post: Wall,
    m: int,
    n: int,
    inside: bool,
    top: int,
    left: int,
    right: int,
    v: int,
)
    requires
        post.extends(&pre),
        pre.degenerate_value(m, n, inside, top, left, right, v),
    ensures
        post.degenerate_value(m, n, inside, top, left, right, v),
{
    let i = right - n;
    if !inside && pre.known(m - 1, n) != Some(0int) {
        assert(pre.known(m - 1, n) is Some);
        let ks = seq![
            pre.known(m - 1, n),
            pre.known(top - 2, left + i),
            pre.known(top - 1, left + i),
            pre.known(top + i, left - 2),
            pre.known(top + i, left - 1),
            pre.known(m - 2 - i, right + 2),
            pre.known(m - 2 - i, right + 1),
            pre.known(top, right + 1),
            pre.known(top + 1, right + 1),
            pre.known(top + 1, left - 1),
            pre.known(top, left - 1),
            pre.known(top - 1, left + 1),
            pre.known(top - 1, left),
            pre.known(m - 1, left - 1),
            pre.known(m - 1, left),
        ];
        assert forall|j: int| 0 <= j < 15 implies #[trigger] ks[j] is Some by {}
        assert(ks[0] is Some && ks[1] is Some && ks[2] is Some && ks[3] is Some && ks[4] is Some);
        assert(ks[5] is Some && ks[6] is Some && ks[7] is Some && ks[8] is Some && ks[9] is Some);
        assert(ks[10] is Some && ks[11] is Some && ks[12] is Some && ks[13] is Some && ks[14]
            is Some);
    }
}

proof fn lemma_extends_trans(a: Wall, b: Wall, c: Wall)
    requires
        b.extends(&a),
        c.extends(&b),
    ensures
        c.extends(&a),
{
    assert forall|m: int, n: int| #[trigger] a.known(m, n) is Some implies c.known(m, n)
        == a.known(m, n) by {
        assert(b.known(m, n) == a.known(m, n));
    }
}

proof fn lemma_zero_run_grows(pre: Wall, post: Wall, row: int, lo: int, hi: int)
    requires
        post.extends(&pre),
        pre.zero_run(row, lo, hi),
    ensures
        post.zero_run(row, lo, hi),
{
    assert forall|k: int| lo <= k <= hi implies #[trigger] post.known(row, k) == Some(0int) by {
        assert(pre.known(row, k) == Some(0int));
    }
}

proof fn lemma_zero_column_grows(pre: Wall, post: Wall, top: int, bottom: int, n: int)
    requires
        post.extends(&pre),
        pre.zero_column(top, bottom, n),
    ensures
        post.zero_column(top, bottom, n),
{
    assert forall|k: int| top <= k <= bottom implies #[trigger] post.known(k, n) == Some(0int) by {
        assert(pre.known(k, n) == Some(0int));
    }
    assert(pre.known(top - 1, n) is Some);
}

proof fn lemma_diamond_found(w: Wall, m: int, n: int, top: int, left: int, right: int)
    requires
        w.known(m - 1, n) == Some(0int),
        w.zero_column(top, m - 2, n),
        n - (m - top + 1) <= left <= n <= right <= n + (m - top + 1),
        w.zero_run(top, left, n),
        w.zero_run(top, n, right),
        w.nonzero_at(top, left - 1) || left + (m - top + 1) <= n,
        w.nonzero_at(top, right + 1) || right - (m - top + 1) >= n,
    ensures
        w.window_result(m, n, right - left + 1 >= m - top + 1, top, left, right),
{
    assert forall|k: int| top <= k <= m - 1 implies #[trigger] w.known(k, n) == Some(0int) by {
        if k <= m - 2 {
            assert(w.known(k, n) == Some(0int));
        }
    }
    assert forall|k: int| left <= k <= right implies #[trigger] w.known(top, k) == Some(0int) by {
        if k <= n {
            assert(w.known(top, k) == Some(0int));
        } else {
            assert(w.known(top, k) == Some(0int));
        }
    }
}

/// Storing a fresh, admissible entry keeps the wall well formed.
proof fn lemma_store(pre: Wall, post: Wall, m0: int, n0: int, v: i128)
    requires
        pre.wf(),
        0 <= m0 <= i32::MAX,
        in_coord_range(n0),
        pre.cached(m0, n0) is None,
        pre.admissible(m0, n0, v as int),
        post.memo@ == pre.memo@.insert(key(m0, n0) as i64, v),
        post.function == pre.function,
        post.depth_limit == pre.depth_limit,
    ensures
        post.wf(),
        post.extends(&pre),
        post.known(m0, n0) == Some(v as int),
{
    reveal(Wall::admissible);
    assert forall|m: int, n: int| #[trigger]
        post.cached(m, n) == (if m == m0 && n == n0 {
            Some(v as int)
        } else {
            pre.cached(m, n)
        }) by {
        if 0 <= m <= i32::MAX && in_coord_range(n) && key(m, n) as i64 == key(m0, n0) as i64 {
            assert(0 <= m * 0x1_0000_0000 <= 0x7fff_ffff_0000_0000) by (nonlinear_arith)
                requires
                    0 <= m <= 0x7fff_ffff,
            ;
            assert(0 <= m0 * 0x1_0000_0000 <= 0x7fff_ffff_0000_0000) by (nonlinear_arith)
                requires
                    0 <= m0 <= 0x7fff_ffff,
            ;
            lemma_key_injective(m, n, m0, n0);
        }
    }
    assert(post.extends(&pre));
    assert forall|m: int, n: int| #[trigger] post.cached(m, n) is Some implies post.admissible(
        m,
        n,
        post.cached(m, n)->0,
    ) by {
        if m == m0 && n == n0 {
            lemma_admissible_grows(pre, post, m, n, v as int);
        } else {
            assert(pre.cached(m, n) is Some);
            lemma_admissible_grows(pre, post, m, n, pre.cached(m, n)->0);
        }
    }
}

fn coord(x: i64) -> (r: Result<i32, EvalError>)
    ensures
        in_coord_range(x as int) <==> r is Ok,
        r matches Ok(c) ==> c == x,
        r is Err ==> r == Err::<i32, EvalError>(EvalError::GeneratorArgumentOverflow),
{
    if x < i32::MIN as i64 || x > i32::MAX as i64 {
        Err(EvalError::GeneratorArgumentOverflow)
    } else {
        Ok(x as i32)
    }
}

fn times(a: i128, b: i128) -> (r: Result<i128, EvalError>)
    ensures
        r matches Ok(p) ==> p == a * b,
        r is Ok <==> fits_i128(a * b),
        r is Err ==> r == Err::<i128, EvalError>(EvalError::ValueOverflow),
{
    match a.checked_mul(b) {
        Some(p) => Ok(p),
        None => Err(EvalError::ValueOverflow),
    }
}

fn plus(a: i128, b: i128) -> (r: Result<i128, EvalError>)
    ensures
        r matches Ok(p) ==> p == a + b,
        r is Ok <==> fits_i128(a + b),
        r is Err ==> r == Err::<i128, EvalError>(EvalError::ValueOverflow),
{
    match a.checked_add(b) {
        Some(p) => Ok(p),
        None => Err(EvalError::ValueOverflow),
    }
}

fn minus(a: i128, b: i128) -> (r: Result<i128, EvalError>)
    ensures
        r matches Ok(p) ==> p == a - b,
        r is Ok <==> fits_i128(a - b),
        r is Err ==> r == Err::<i128, EvalError>(EvalError::ValueOverflow),
{
    match a.checked_sub(b) {
        Some(p) => Ok(p),
        None => Err(EvalError::ValueOverflow),
    }
}

/// `num / den` when the division is exact.
pub fn exact_div(num: i128, den: i128) -> (r: Result<i128, EvalError>)
    ensures
        r == exact_div_spec(num as int, den as int),
        r matches Ok(q) ==> q * den == num,
        r matches Err(e) ==> (e == EvalError::DivisionNotExact || e == EvalError::ValueOverflow),
        r == Err::<i128, EvalError>(EvalError::DivisionNotExact) <==> (den == 0 || num % den != 0),
        r == Err::<i128, EvalError>(EvalError::ValueOverflow) <==> (den != 0 && num % den == 0
            && !(i128::MIN <= num / den <= i128::MAX)),
{
    if den == 0 {
        return Err(EvalError::DivisionNotExact);
    }
    proof {
        assert(num == den * (num / den) + num % den) by (nonlinear_arith)
            requires
                den != 0,
        ;
    }
    if num == i128::MIN && den == -1 {
        proof {
            assert(num % den == 0) by (nonlinear_arith)
                requires
                    num == i128::MIN,
                    den == -1,
            ;
            assert(num / den == -num) by (nonlinear_arith)
                requires
                    num == i128::MIN,
                    den == -1,
                    num == den * (num / den) + num % den,
                    num % den == 0,
            ;
        }
        return Err(EvalError::ValueOverflow);
    }
    match num.checked_rem_euclid(den) {
        Some(rem) => {
            if rem != 0 {
                return Err(EvalError::DivisionNotExact);
            }
        },
        None => {
            return Err(EvalError::DivisionNotExact);
        },
    }
    match num.checked_div_euclid(den) {
        Some(q) => {
            proof {
                assert(q * den == den * q) by (nonlinear_arith);
            }
            Ok(q)
        },
        None => Err(EvalError::ValueOverflow),
    }
}

impl Wall {
    /// An empty wall seeded by `function`, with the default depth limit.
    pub fn new(function: Function) -> (r: Wall)
        ensures
            r.wf(),
            r.kind() == function,
            r.limit() == DEFAULT_DEPTH_LIMIT,
            r.cache_size() == 0,
            forall|m: int, n: int| #[trigger] r.cached(m, n) is None,
    {
        Wall::with_depth_limit(function, DEFAULT_DEPTH_LIMIT)
    }

    /// An empty wall seeded by `function` whose evaluations take at most
    /// `depth_limit` nested steps.
    pub fn with_depth_limit(function: Function, depth_limit: u32) -> (r: Wall)
        ensures
            r.wf(),
            r.kind() == function,
            r.limit() == depth_limit,
            r.cache_size() == 0,
            forall|m: int, n: int| #[trigger] r.cached(m, n) is None,
    {
        Wall { memo: HashMap::new(), function, depth_limit }
    }

    /// The seed of row 0.
    pub fn function(&self) -> (r: Function)
        ensures
            r == self.kind(),
    {
        self.function
    }

    /// The depth limit this wall was made with.
    pub fn depth_limit(&self) -> (r: u32)
        ensures
            r == self.limit(),
    {
        self.depth_limit
    }

    /// Records `v` at a fresh coordinate.
    fn remember(&mut self, m: i32, n: i32, v: i128)
        requires
            old(self).wf(),
            m >= 0,
            old(self).cached(m as int, n as int) is None,
            old(self).admissible(m as int, n as int, v as int),
        ensures
            final(self).wf(),
            final(self).extends(&*old(self)),
            final(self).known(m as int, n as int) == Some(v as int),
    {
        let k = key_of(m, n);
        self.memo.insert(k, v);
        proof {
            lemma_store(*old(self), *self, m as int, n as int, v);
        }
    }

    /// The entry at (`m`, `n`), from the memo or computed with at most
    /// `fuel` nested steps; computed entries of rows 0 and up are memoised.
    fn get_within(&mut self, m: i32, n: i32, fuel: u32) -> (r: Result<i128, EvalError>)
        requires
            old(self).wf(),
        ensures
            final(self).wf(),
            final(self).extends(&*old(self)),
            r matches Ok(v) ==> final(self).known(m as int, n as int) == Some(v as int),
            old(self).known(m as int, n as int) matches Some(v) ==> r == Ok::<i128, EvalError>(
                v as i128,
            ) && *final(self) == *old(self),
            m == 0 ==> r == Ok::<i128, EvalError>(seed(old(self).kind(), n as int) as i128),
            old(self).known(m as int, n as int) is None && old(self).primary_ready(
                m as int,
                n as int,
            ) && fuel >= 1 ==> r == old(self).primary_step(m as int, n as int),
            m >= 1 && old(self).known(m as int, n as int) is None && fuel == 0 ==> r == Err::<
                i128,
                EvalError,
            >(EvalError::RecursionDepthExceeded),
        decreases fuel, 0nat,
    {
        proof {
            reveal(Wall::admissible);
        }
        if m < -1 {
            return Ok(0);
        }
        if m == -1 {
            return Ok(1);
        }
        let k = key_of(m, n);
        match self.memo.get(&k) {
            Some(v) => {
                return Ok(*v);
            },
            None => {},
        }
        if m == 0 {
            let v = self.function.seed_at(n);
            self.remember(m, n, v);
            return Ok(v);
        }
        if fuel == 0 {
            return Err(EvalError::RecursionDepthExceeded);
        }
        let v = match self.get_item(m, n, fuel - 1) {
            Ok(v) => v,
            Err(e) => {
                return Err(e);
            },
        };
        // The evaluation may have reached this coordinate by another path.
        match self.memo.get(&k) {
            Some(w) => Ok(*w),
            None => {
                self.remember(m, n, v);
                Ok(v)
            },
        }
    }

    /// `get_within` at coordinates given as `i64`, refusing those outside `i32`.
    fn get_at(&mut self, m: i64, n: i64, fuel: u32) -> (r: Result<i128, EvalError>)
        requires
            old(self).wf(),
        ensures
            final(self).wf(),
            final(self).extends(&*old(self)),
            r matches Ok(v) ==> final(self).known(m as int, n as int) == Some(v as int),
            in_coord_range(m as int) && in_coord_range(n as int) ==> (old(self).known(
                m as int,
                n as int,
            ) matches Some(v) ==> r == Ok::<i128, EvalError>(v as i128) && *final(self) == *old(
                self,
            )),
        decreases fuel, 1nat,
    {
        let row = match coord(m) {
            Ok(c) => c,
            Err(e) => {
                return Err(e);
            },
        };
        let col = match coord(n) {
            Ok(c) => c,
            Err(e) => {
                return Err(e);
            },
        };
        self.get_within(row, col, fuel)
    }
}

impl Wall {
    /// Computes the entry at (`m`, `n`), `m >= 1`, from the rows above it.
    fn get_item(&mut self, m: i32, n: i32, fuel: u32) -> (r: Result<i128, EvalError>)
        requires
            old(self).wf(),
            m >= 1,
        ensures
            final(self).wf(),
            final(self).extends(&*old(self)),
            r matches Ok(v) ==> final(self).admissible(m as int, n as int, v as int),
            old(self).primary_ready(m as int, n as int) ==> r == old(self).primary_step(
                m as int,
                n as int,
            ) && *final(self) == *old(self),
        decreases fuel, 6nat,
    {
        let m64 = m as i64;
        let n64 = n as i64;
        let d = match self.get_at(m64 - 2, n64, fuel) {
            Ok(v) => v,
            Err(e) => {
                return Err(e);
            },
        };
        let ghost s0 = *self;
        if d == 0 {
            let r = self.get_degenerate(m, n, fuel);
            proof {
                reveal(Wall::admissible);
                assert(self.known(m as int - 2, n as int) == Some(0int));
            }
            return r;
        }
        let a = match self.get_at(m64 - 1, n64, fuel) {
            Ok(v) => v,
            Err(e) => {
                return Err(e);
            },
        };
        let ghost s1 = *self;
        let b = match self.get_at(m64 - 1, n64 - 1, fuel) {
            Ok(v) => v,
            Err(e) => {
                proof {
                    lemma_extends_trans(*old(self), s0, s1);
                    lemma_extends_trans(*old(self), s1, *self);
                }
                return Err(e);
            },
        };
        let ghost s2 = *self;
        let c = match self.get_at(m64 - 1, n64 + 1, fuel) {
            Ok(v) => v,
            Err(e) => {
                proof {
                    lemma_extends_trans(*old(self), s0, s1);
                    lemma_extends_trans(*old(self), s1, s2);
                    lemma_extends_trans(*old(self), s2, *self);
                }
                return Err(e);
            },
        };
        proof {
            lemma_extends_trans(*old(self), s0, s1);
            lemma_extends_trans(*old(self), s1, s2);
            lemma_extends_trans(*old(self), s2, *self);
            lemma_extends_trans(s0, s1, s2);
            lemma_extends_trans(s0, s2, *self);
            lemma_extends_trans(s1, s2, *self);
        }
        let aa = match times(a, a) {
            Ok(v) => v,
            Err(e) => {
                return Err(e);
            },
        };
        let bc = match times(b, c) {
            Ok(v) => v,
            Err(e) => {
                return Err(e);
            },
        };
        let num = match minus(aa, bc) {
            Ok(v) => v,
            Err(e) => {
                return Err(e);
            },
        };
        let r = exact_div(num, d);
        proof {
            reveal(Wall::admissible);
            if old(self).primary_ready(m as int, n as int) {
                assert(in_coord_range(n as int - 1) && in_coord_range(n as int + 1));
            }
            if let Ok(q) = r {
                assert(q == num / d) by (nonlinear_arith)
                    requires
                        q * d == num,
                        d != 0,
                ;
            }
            if r is Ok {
                assert(self.known(m as int - 2, n as int) == Some(d as int));
                assert(self.known(m as int - 1, n as int) == Some(a as int));
                assert(self.known(m as int - 1, n as int - 1) == Some(b as int));
                assert(self.known(m as int - 1, n as int + 1) == Some(c as int));
            }
        }
        r
    }

    /// The entry at (`m`, `n`) when the entry two rows up is zero: zero
    /// inside a zero window, else a formula over the window's border.
    fn get_degenerate(&mut self, m: i32, n: i32, fuel: u32) -> (r: Result<i128, EvalError>)
        requires
            old(self).wf(),
            m >= 2,
            old(self).known(m - 2, n as int) == Some(0int),
        ensures
            final(self).wf(),
            final(self).extends(&*old(self)),
            r matches Ok(v) ==> final(self).degenerate_admissible(m as int, n as int, v as int),
        decreases fuel, 5nat,
    {
        let (inside, (t, lo, hi)) = self.window_check(m, n, fuel)?;
        let ghost sw = *self;
        let ghost (mi, ni, ti, li, ri) = (m as int, n as int, t as int, lo as int, hi as int);
        let r = self.get_in_window(m as i64, n as i64, inside, t as i64, lo as i64, hi as i64, fuel);
        proof {
            if let Ok(v) = r {
                lemma_window_result_grows(sw, *self, mi, ni, inside, ti, li, ri);
                reveal(Wall::degenerate_admissible);
                assert(self.window_result(mi, ni, inside, ti, li, ri));
            }
        }
        r
    }

    /// The entry at (`m`, `n`) given the zero window (`inside`, `top`,
    /// `left`, `right`) that the search reported for it: 0 inside; else the
    /// double-zero formula when the entry one row up is zero too, the
    /// correction formula when it is not. Once the entries a formula reads
    /// are known, its outcome is owed exactly and the wall is left as it was.
    fn get_in_window(
        &mut self,
        m: i64,
        n: i64,
        inside: bool,
        top: i64,
        left: i64,
        right: i64,
        fuel: u32,
    ) -> (r: Result<i128, EvalError>)
        requires
            old(self).wf(),
            0 <= top <= i32::MAX,
            in_coord_range(n as int),
            in_coord_range(left as int),
            in_coord_range(right as int),
            1 <= m <= i32::MAX,
        ensures
            final(self).wf(),
            final(self).extends(&*old(self)),
            r matches Ok(v) ==> final(self).degenerate_value(
                m as int,
                n as int,
                inside,
                top as int,
                left as int,
                right as int,
                v as int,
            ),
            inside ==> r == Ok::<i128, EvalError>(0) && *final(self) == *old(self),
            !inside && old(self).known(m - 1, n as int) == Some(0int) && old(self).ready_at(
                top + (right - n),
                left - 1,
            ) && old(self).ready_at(m - 1 - (right - n), right + 1) && old(self).ready_at(
                top - 1,
                left + (right - n),
            ) ==> r == double_step(
                old(self).known(top - 1, left + (right - n))->0,
                old(self).known(top + (right - n), left - 1)->0,
                old(self).known(m - 1 - (right - n), right + 1)->0,
                !((right - left + 1) % 2 == 0 || (right - n + 1) % 2 == 0),
            ) && *final(self) == *old(self),
            !inside && old(self).nonzero_at(m - 1, n as int) && (forall|j: int|
                0 <= j < 15 ==> old(self).ready_at(
                    #[trigger] correction_coords(
                        m as int,
                        n as int,
                        top as int,
                        left as int,
                        right as int,
                    )[j].0,
                    correction_coords(m as int, n as int, top as int, left as int, right as int)[j].1,
                )) ==> r == correction_step(
                correction_coords(m as int, n as int, top as int, left as int, right as int).map_values(
                    |p: (int, int)| old(self).known(p.0, p.1)->0,
                ),
                right - n,
            ) && *final(self) == *old(self),
        decreases fuel, 4nat,
    {
        if inside {
            return Ok(0);
        }
        let d = self.get_at(m - 1, n, fuel)?;
        let ghost s1 = *self;
        let r = if d == 0 {
            self.get_double(m, n, top, left, right, fuel)
        } else {
            self.get_correction(m, n, top, left, right, fuel)
        };
        proof {
            lemma_extends_trans(*old(self), s1, *self);
            if r is Ok && d != 0 {
                assert(s1.nonzero_at(m - 1, n as int));
            }
        }
        r
    }

    /// The zero-window value when the entries one and two rows up are both
    /// zero: `± b * c / a`.
    fn get_double(&mut self, m: i64, n: i64, top: i64, left: i64, right: i64, fuel: u32) -> (r:
        Result<i128, EvalError>)
        requires
            old(self).wf(),
            0 <= top <= i32::MAX,
            in_coord_range(n as int),
            in_coord_range(left as int),
            in_coord_range(right as int),
            0 <= m <= i32::MAX,
        ensures
            final(self).wf(),
            final(self).extends(&*old(self)),
            r matches Ok(v) ==> (old(self).known(m - 1, n as int) == Some(0int)
                ==> final(self).degenerate_value(
                m as int,
                n as int,
                false,
                top as int,
                left as int,
                right as int,
                v as int,
            )),
            old(self).ready_at(top + (right - n), left - 1) && old(self).ready_at(
                m - 1 - (right - n),
                right + 1,
            ) && old(self).ready_at(top - 1, left + (right - n)) ==> r == double_step(
                old(self).known(top - 1, left + (right - n))->0,
                old(self).known(top + (right - n), left - 1)->0,
                old(self).known(m - 1 - (right - n), right + 1)->0,
                !((right - left + 1) % 2 == 0 || (right - n + 1) % 2 == 0),
            ) && *final(self) == *old(self),
        decreases fuel, 2nat,
    {
        let ghost s1 = *self;
        let ghost (mi, ni, ti, li, ri) = (m as int, n as int, top as int, left as int, right as int);
        let i = right - n;
        let width = right - left + 1;
        let b = self.get_at(top + i, left - 1, fuel)?;
        let ghost s2 = *self;
        let c = self.get_at(m - 1 - i, right + 1, fuel)?;
        let ghost s3 = *self;
        proof {
            lemma_extends_trans(s1, s2, s3);
        }
        let a = self.get_at(top - 1, left + i, fuel)?;
        let ghost s4 = *self;
        proof {
            lemma_extends_trans(s1, s3, s4);
        }
        let bc = times(b, c)?;
        let q = exact_div(bc, a)?;
        let r = if is_even(width) || is_even(i + 1) {
            Ok(q)
        } else {
            minus(0, q)
        };
        proof {
            if let Ok(v) = r {
                assert(self.known(top + i, left - 1) == Some(b as int));
                assert(self.known(m - 1 - i, right + 1) == Some(c as int));
                assert(self.known(top - 1, left + i) == Some(a as int));
                assert(a != 0);
                if (ri - li + 1) % 2 == 0 || (ri - ni + 1) % 2 == 0 {
                    assert(v == q);
                    assert(v * a == b * c);
                } else {
                    assert(v == -q);
                    assert(v * a == -(b * c)) by (nonlinear_arith)
                        requires
                            v == -q,
                            q * a == b * c,
                    ;
                }
                if old(self).known(m - 1, n as int) == Some(0int) {
                    assert(self.known(m - 1, n as int) == Some(0int));
                    assert(self.degenerate_value(mi, ni, false, ti, li, ri, v as int));
                }
            }
        }
        r
    }

    /// The entries at `coords`, in order.
    fn get_many(&mut self, coords: &Vec<(i64, i64)>, fuel: u32) -> (r: Result<Vec<i128>, EvalError>)
        requires
            old(self).wf(),
        ensures
            final(self).wf(),
            final(self).extends(&*old(self)),
            r matches Ok(vs) ==> vs@.len() == coords@.len() && forall|j: int|
                0 <= j < coords@.len() ==> final(self).known(
                    coords@[j].0 as int,
                    coords@[j].1 as int,
                ) == Some(#[trigger] vs@[j] as int),
            (forall|j: int|
                0 <= j < coords@.len() ==> old(self).ready_at(
                    #[trigger] coords@[j].0 as int,
                    coords@[j].1 as int,
                )) ==> r is Ok && *final(self) == *old(self),
        decreases fuel, 2nat,
    {
        let mut vs: Vec<i128> = Vec::new();
        let mut j: usize = 0;
        while j < coords.len()
            invariant
                self.wf(),
                self.extends(&*old(self)),
                j <= coords@.len(),
                vs@.len() == j,
                forall|k: int|
                    0 <= k < j ==> self.known(coords@[k].0 as int, coords@[k].1 as int) == Some(
                        #[trigger] vs@[k] as int,
                    ),
                (forall|k: int|
                    0 <= k < coords@.len() ==> old(self).ready_at(
                        #[trigger] coords@[k].0 as int,
                        coords@[k].1 as int,
                    )) ==> *self == *old(self),
            decreases coords@.len() - j,
        {
            let (row, col) = coords[j];
            let ghost prev = *self;
            let v = self.get_at(row, col, fuel)?;
            proof {
                assert forall|k: int| 0 <= k < j implies self.known(
                    coords@[k].0 as int,
                    coords@[k].1 as int,
                ) == Some(#[trigger] vs@[k] as int) by {
                    assert(prev.known(coords@[k].0 as int, coords@[k].1 as int) == Some(
                        vs@[k] as int,
                    ));
                }
            }
            vs.push(v);
            j = j + 1;
        }
        Ok(vs)
    }

    /// The zero-window value when only the entry two rows up is zero: the
    /// correction formula over the window's border.
    fn get_correction(&mut self, m: i64, n: i64, top: i64, left: i64, right: i64, fuel: u32) -> (r:
        Result<i128, EvalError>)
        requires
            old(self).wf(),
            0 <= top <= i32::MAX,
            in_coord_range(n as int),
            in_coord_range(left as int),
            in_coord_range(right as int),
            0 <= m <= i32::MAX,
        ensures
            final(self).wf(),
            final(self).extends(&*old(self)),
            r matches Ok(v) ==> (old(self).nonzero_at(m - 1, n as int) ==> final(self).degenerate_value(
                m as int,
                n as int,
                false,
                top as int,
                left as int,
                right as int,
                v as int,
            )),
            (forall|j: int|
                0 <= j < 15 ==> old(self).ready_at(
                    #[trigger] correction_coords(m as int, n as int, top as int, left as int, right as int)[j].0,
                    correction_coords(m as int, n as int, top as int, left as int, right as int)[j].1,
                )) ==> r == correction_step(
                correction_coords(m as int, n as int, top as int, left as int, right as int).map_values(
                    |p: (int, int)| old(self).known(p.0, p.1)->0,
                ),
                right - n,
            ) && *final(self) == *old(self),
        decreases fuel, 3nat,
    {
        let ghost (mi, ni, ti, li, ri) = (m as int, n as int, top as int, left as int, right as int);
        let i = right - n;
        let mut coords: Vec<(i64, i64)> = Vec::new();
        coords.push((m - 1, n));
        coords.push((top - 2, left + i));
        coords.push((top - 1, left + i));
        coords.push((top + i, left - 2));
        coords.push((top + i, left - 1));
        coords.push((m - 2 - i, right + 2));
        coords.push((m - 2 - i, right + 1));
        coords.push((top, right + 1));
        coords.push((top + 1, right + 1));
        coords.push((top + 1, left - 1));
        coords.push((top, left - 1));
        coords.push((top - 1, left + 1));
        coords.push((top - 1, left));
        coords.push((m - 1, left - 1));
        coords.push((m - 1, left));
        let ghost cs = correction_coords(mi, ni, ti, li, ri);
        proof {
            assert forall|j: int| 0 <= j < 15 implies #[trigger] coords@[j].0 as int == cs[j].0
                && coords@[j].1 as int == cs[j].1 by {}
        }
        let k = self.get_many(&coords, fuel)?;
        let ghost kv = cs.map_values(|p: (int, int)| self.known(p.0, p.1)->0);
        proof {
            assert forall|j: int| 0 <= j < 15 implies #[trigger] kv[j] == k@[j] as int by {
                assert(self.known(coords@[j].0 as int, coords@[j].1 as int) == Some(k@[j] as int));
            }
        }
        let r = correction_arith(&k, i);
        proof {
            let kk = k@.map_values(|x: i128| x as int);
            assert(kv =~= kk);
            if r is Ok && self.nonzero_at(m - 1, n as int) {
                let v = r->Ok_0;
                lemma_correction_value(kk, right - n, v as int);
                lemma_correction(
                    *self, mi, ni, ti, li, ri, v as int,
                    kk[0], kk[1], kk[2], kk[3], kk[4], kk[5], kk[6],
                    kk[7], kk[8], kk[9], kk[10], kk[11], kk[12], kk[13], kk[14],
                );
            }
        }
        r
    }

    /// The topmost row of the run of zeros that goes up from (`start`, `n`),
    /// found by climbing while the entry above is zero.
    fn find_top(&mut self, start: i64, n: i64, fuel: u32) -> (r: Result<i64, EvalError>)
        requires
            old(self).wf(),
            0 <= start <= i32::MAX,
            in_coord_range(n as int),
            old(self).known(start as int, n as int) == Some(0int),
        ensures
            final(self).wf(),
            final(self).extends(&*old(self)),
            r matches Ok(t) ==> final(self).zero_column(t as int, start as int, n as int),
        decreases fuel, 2nat,
    {
        let mut top: i64 = start;
        loop
            invariant
                self.wf(),
                self.extends(&*old(self)),
                0 <= top <= start,
                in_coord_range(n as int),
                forall|k: int| top <= k <= start ==> #[trigger] self.known(k, n as int) == Some(0int),
            ensures
                self.wf(),
                self.extends(&*old(self)),
                self.zero_column(top as int, start as int, n as int),
            decreases top,
        {
            let ghost prev = *self;
            let above = self.get_at(top - 1, n, fuel)?;
            proof {
                assert forall|k: int| top <= k <= start implies #[trigger] self.known(k, n as int)
                    == Some(0int) by {
                    assert(prev.known(k, n as int) == Some(0int));
                }
            }
            if above != 0 {
                break;
            }
            top = top - 1;
        }
        Ok(top)
    }

    /// Bounds the zero window whose bottom centre is (`m`, `n`): its top row
    /// and the columns where the zeros of that row end on either side. Each
    /// sideways scan takes at most `depth_limit` steps.
    fn get_window(&mut self, m: i64, n: i64, fuel: u32) -> (r: Result<(i32, i32, i32), EvalError>)
        requires
            old(self).wf(),
            0 <= m <= i32::MAX,
            in_coord_range(n as int),
            old(self).known(m as int, n as int) == Some(0int),
        ensures
            final(self).wf(),
            final(self).extends(&*old(self)),
            r matches Ok((t, lo, hi)) ==> final(self).window(
                m as int,
                n as int,
                t as int,
                lo as int,
                hi as int,
            ),
        decreases fuel, 3nat,
    {
        let top = self.find_top(m, n, fuel)?;
        let cap = self.depth_limit;
        let mut left: i64 = n;
        let mut steps: u32 = 0;
        loop
            invariant
                self.wf(),
                self.extends(&*old(self)),
                steps <= cap,
                left == n - steps,
                in_coord_range(n as int),
                self.zero_column(top as int, m as int, n as int),
                self.zero_run(top as int, left as int, n as int),
            ensures
                self.wf(),
                self.extends(&*old(self)),
                left <= n,
                self.zero_column(top as int, m as int, n as int),
                self.zero_run(top as int, left as int, n as int),
                self.nonzero_at(top as int, left - 1),
            decreases cap - steps,
        {
            let ghost prev = *self;
            let v = self.get_at(top, left - 1, fuel)?;
            proof {
                lemma_zero_column_grows(prev, *self, top as int, m as int, n as int);
                lemma_zero_run_grows(prev, *self, top as int, left as int, n as int);
            }
            if v != 0 {
                break;
            }
            if steps == cap {
                return Err(EvalError::RecursionDepthExceeded);
            }
            steps = steps + 1;
            left = left - 1;
        }
        let mut right: i64 = n;
        let mut steps: u32 = 0;
        loop
            invariant
                self.wf(),
                self.extends(&*old(self)),
                steps <= cap,
                right == n + steps,
                left <= n,
                in_coord_range(n as int),
                self.zero_column(top as int, m as int, n as int),
                self.zero_run(top as int, left as int, right as int),
                self.nonzero_at(top as int, left - 1),
            ensures
                self.wf(),
                self.extends(&*old(self)),
                self.window(m as int, n as int, top as int, left as int, right as int),
            decreases cap - steps,
        {
            let ghost prev = *self;
            let v = self.get_at(top, right + 1, fuel)?;
            proof {
                lemma_zero_column_grows(prev, *self, top as int, m as int, n as int);
                lemma_zero_run_grows(prev, *self, top as int, left as int, right as int);
            }
            if v != 0 {
                break;
            }
            if steps == cap {
                return Err(EvalError::RecursionDepthExceeded);
            }
            steps = steps + 1;
            right = right + 1;
        }
        Ok((coord(top)?, coord(left)?, coord(right)?))
    }

    /// Walks row `top` from column `n` in direction `step` (-1 or 1) while
    /// the next entry is zero and the walk stays under `d` columns; returns
    /// the last column reached.
    fn diamond_edge(&mut self, top: i64, n: i64, d: i64, step: i64, fuel: u32) -> (r: Result<
        i64,
        EvalError,
    >)
        requires
            old(self).wf(),
            0 <= top <= i32::MAX,
            in_coord_range(n as int),
            1 <= d <= 0x8000_0001,
            step == -1 || step == 1,
            old(self).known(top as int, n as int) == Some(0int),
        ensures
            final(self).wf(),
            final(self).extends(&*old(self)),
            r matches Ok(e) ==> {
                let dist = if step == 1 { e - n } else { n - e };
                &&& 0 <= dist <= d
                &&& (step == -1 ==> final(self).zero_run(top as int, e as int, n as int))
                &&& (step == 1 ==> final(self).zero_run(top as int, n as int, e as int))
                &&& (final(self).nonzero_at(top as int, e + step) || dist >= d)
            },
        decreases fuel, 2nat,
    {
        let mut e: i64 = n;
        let mut dist: i64 = 0;
        loop
            invariant
                self.wf(),
                self.extends(&*old(self)),
                0 <= dist <= d,
                step == 1 ==> e == n + dist,
                step == -1 ==> e == n - dist,
                step == -1 || step == 1,
                in_coord_range(n as int),
                1 <= d <= 0x8000_0001,
                step == -1 ==> self.zero_run(top as int, e as int, n as int),
                step == 1 ==> self.zero_run(top as int, n as int, e as int),
            ensures
                self.wf(),
                self.extends(&*old(self)),
                0 <= dist <= d,
                step == 1 ==> e == n + dist,
                step == -1 ==> e == n - dist,
                step == -1 ==> self.zero_run(top as int, e as int, n as int),
                step == 1 ==> self.zero_run(top as int, n as int, e as int),
                self.nonzero_at(top as int, e + step) || dist >= d,
            decreases d - dist,
        {
            let ghost prev = *self;
            let v = self.get_at(top, e + step, fuel)?;
            proof {
                if step == 1 {
                    lemma_zero_run_grows(prev, *self, top as int, n as int, e as int);
                } else {
                    lemma_zero_run_grows(prev, *self, top as int, e as int, n as int);
                }
            }
            if v != 0 || dist >= d {
                break;
            }
            dist = dist + 1;
            e = e + step;
        }
        Ok(e)
    }

    /// Whether (`m`, `n`) lies inside a diamond of zeros, and the bounds of
    /// the zero window above it.
    fn window_check(&mut self, m: i32, n: i32, fuel: u32) -> (r: Result<
        (bool, (i32, i32, i32)),
        EvalError,
    >)
        requires
            old(self).wf(),
            m >= 2,
            old(self).known(m - 2, n as int) == Some(0int),
        ensures
            final(self).wf(),
            final(self).extends(&*old(self)),
            r matches Ok((inside, (t, lo, hi))) ==> final(self).window_result(
                m as int,
                n as int,
                inside,
                t as int,
                lo as int,
                hi as int,
            ),
        decreases fuel, 4nat,
    {
        let (m, n) = (m as i64, n as i64);
        let ghost s0 = *self;
        let above = self.get_at(m - 1, n, fuel)?;
        let ghost sa = *self;
        if above != 0 {
            let w = self.get_window(m - 2, n, fuel)?;
            proof {
                assert(self.nonzero_at(m - 1, n as int));
            }
            return Ok((false, w));
        }
        proof {
            lemma_extends_trans(s0, sa, *self);
        }
        let top = self.find_top(m - 2, n, fuel)?;
        let d = m - top + 1;
        let ghost s1 = *self;
        proof {
            lemma_extends_trans(s0, sa, s1);
            assert(s1.known(m - 1, n as int) == Some(0int));
        }
        let left = self.diamond_edge(top, n, d, -1, fuel)?;
        let ghost s2 = *self;
        let right = self.diamond_edge(top, n, d, 1, fuel)?;
        proof {
            lemma_zero_column_grows(s1, s2, top as int, m - 2, n as int);
            lemma_zero_column_grows(s2, *self, top as int, m - 2, n as int);
            lemma_zero_run_grows(s2, *self, top as int, left as int, n as int);
            lemma_extends_trans(s0, s1, s2);
            lemma_extends_trans(s0, s2, *self);
            assert(self.known(m - 1, n as int) == Some(0int));
        }
        let t = coord(top)?;
        let lo = coord(left)?;
        let hi = coord(right)?;
        let inside = right - left + 1 >= d;
        proof {
            lemma_diamond_found(*self, m as int, n as int, top as int, left as int, right as int);
        }
        Ok((inside, (t, lo, hi)))
    }
}

/// The correction formula on `i128` values, from the fifteen border entries.
fn correction_arith(k: &Vec<i128>, i: i64) -> (r: Result<i128, EvalError>)
    requires
        k@.len() == 15,
        -0x1_0000_0000 <= i <= 0x1_0000_0000,
    ensures
        r == correction_step(k@.map_values(|x: i128| x as int), i as int),
{
    let ghost kk = k@.map_values(|x: i128| x as int);
    let (d, e, a, f, b, g, c) = (k[0], k[1], k[2], k[3], k[4], k[5], k[6]);
    let (rn, rd, qn, qd, pn, pd, tn, td) = (k[7], k[8], k[9], k[10], k[11], k[12], k[13], k[14]);
    proof {
        assert(kk[0] == d && kk[1] == e && kk[2] == a && kk[3] == f && kk[4] == b);
        assert(kk[5] == g && kk[6] == c && kk[7] == rn && kk[8] == rd && kk[9] == qn);
        assert(kk[10] == qd && kk[11] == pn && kk[12] == pd && kk[13] == tn && kk[14] == td);
    }
    let drd = times(d, rd)?;
    let xn = times(times(qn, e)?, drd)?;
    let xd = times(times(rn, a)?, qd)?;
    let y_mag = times(times(pn, f)?, drd)?;
    let yn = if is_even(i + 1) {
        y_mag
    } else {
        minus(0, y_mag)?
    };
    let yd = times(times(pd, rn)?, b)?;
    let z_mag = times(times(tn, g)?, drd)?;
    let zn = if is_even(i + 1) {
        minus(0, z_mag)?
    } else {
        z_mag
    };
    let zd = times(times(td, rn)?, c)?;
    let yzd = times(yd, zd)?;
    let xzd = times(xd, zd)?;
    let xyd = times(xd, yd)?;
    let num = plus(plus(times(xn, yzd)?, times(yn, xzd)?)?, times(zn, xyd)?)?;
    let den = times(xd, yzd)?;
    exact_div(num, den)
}

/// A successful correction step satisfies the formula with a non-zero
/// divisor.
proof fn lemma_correction_value(k: Seq<int>, i: int, v: int)
    requires
        k.len() == 15,
        correction_step(k, i) matches Ok(q) && q == v,
    ensures
        ({
            let (d, e, a, f, b, g, c) = (k[0], k[1], k[2], k[3], k[4], k[5], k[6]);
            let (rn, rd, qn, qd, pn, pd, tn, td) = (
                k[7],
                k[8],
                k[9],
                k[10],
                k[11],
                k[12],
                k[13],
                k[14],
            );
            let xn = qn * e * (d * rd);
            let xd = rn * a * qd;
            let yn = if (i + 1) % 2 == 0 {
            pn * f * (d * rd)
        } else {
            -(pn * f * (d * rd))
        };
            let yd = pd * rn * b;
            let zn = if (i + 1) % 2 == 0 {
            -(tn * g * (d * rd))
        } else {
            tn * g * (d * rd)
        };
            let zd = td * rn * c;
            &&& xd * (yd * zd) != 0
            &&& v * (xd * (yd * zd)) == xn * (yd * zd) + yn * (xd * zd) + zn * (xd * yd)
        }),
{
    let (d, e, a, f, b, g, c) = (k[0], k[1], k[2], k[3], k[4], k[5], k[6]);
    let (rn, rd, qn, qd, pn, pd, tn, td) = (k[7], k[8], k[9], k[10], k[11], k[12], k[13], k[14]);
    let xd = rn * a * qd;
    let yd = pd * rn * b;
    let zd = td * rn * c;
    let drd = d * rd;
    let yn = if (i + 1) % 2 == 0 {
        pn * f * drd
    } else {
        -(pn * f * drd)
    };
    let zn = if (i + 1) % 2 == 0 {
        -(tn * g * drd)
    } else {
        tn * g * drd
    };
    let num = qn * e * drd * (yd * zd) + yn * (xd * zd) + zn * (xd * yd);
    let den = xd * (yd * zd);
    assert(den != 0 && num % den == 0 && v == num / den);
    assert(v * den == num) by (nonlinear_arith)
        requires
            den != 0,
            num % den == 0,
            v == num / den,
    ;
}

fn is_even(x: i64) -> (r: bool)
    ensures
        r == (x % 2 == 0),
{
    match x.checked_rem_euclid(2) {
        Some(rem) => rem == 0,
        None => false,
    }
}

impl Wall {
    /// How many entries the memo holds.
    pub closed spec fn cache_size(&self) -> nat {
        self.memo@.len()
    }

    /// The entry at row `m`, column `n`. Rows below -1 are 0, row -1 is 1,
    /// row 0 is the seed; further rows come from the recurrence. A memoised
    /// entry is returned as it is, with no work and no change to the wall.
    /// An evaluation that needs more than `depth_limit` nested steps, or a
    /// sideways scan for a zero window longer than `depth_limit` columns,
    /// stops with `RecursionDepthExceeded`.
    pub fn get(&mut self, m: i32, n: i32) -> (r: Result<i128, EvalError>)
        requires
            old(self).wf(),
        ensures
            final(self).wf(),
            final(self).extends(&*old(self)),
            r matches Ok(v) ==> final(self).known(m as int, n as int) == Some(v as int),
            r matches Ok(v) ==> (m < 0 || final(self).admissible(m as int, n as int, v as int)),
            old(self).known(m as int, n as int) matches Some(v) ==> r == Ok::<i128, EvalError>(
                v as i128,
            ) && *final(self) == *old(self),
            m < -1 ==> r == Ok::<i128, EvalError>(0),
            m == -1 ==> r == Ok::<i128, EvalError>(1),
            m == 0 ==> r == Ok::<i128, EvalError>(seed(old(self).kind(), n as int) as i128),
            old(self).known(m as int, n as int) is None && old(self).primary_ready(
                m as int,
                n as int,
            ) && old(self).limit() >= 1 ==> r == old(self).primary_step(m as int, n as int),
            m >= 1 && old(self).known(m as int, n as int) is None && old(self).limit() == 0 ==> r
                == Err::<i128, EvalError>(EvalError::RecursionDepthExceeded),
    {
        let fuel = self.depth_limit;
        let r = self.get_within(m, n, fuel);
        proof {
            if r is Ok && m >= 0 {
                assert(self.cached(m as int, n as int) is Some);
            }
        }
        r
    }

    /// The entry at row `m`, column `n` as decimal text, the lossless form
    /// in which entries leave the library.
    pub fn get_text(&mut self, m: i32, n: i32) -> (r: Result<Vec<u8>, EvalError>)
        requires
            old(self).wf(),
        ensures
            final(self).wf(),
            final(self).extends(&*old(self)),
            r matches Ok(t) ==> final(self).known(m as int, n as int) matches Some(v) && t@
                == decimal(v),
            old(self).known(m as int, n as int) matches Some(v) ==> (r matches Ok(t) && t@
                == decimal(v) && *final(self) == *old(self)),
            m < -1 ==> (r matches Ok(t) && t@ == decimal(0)),
            m == -1 ==> (r matches Ok(t) && t@ == decimal(1)),
            m == 0 ==> (r matches Ok(t) && t@ == decimal(seed(old(self).kind(), n as int))),
    {
        proof {
            lemma_seed_fits(self.kind(), n as int);
        }
        match self.get(m, n) {
            Ok(v) => Ok(to_decimal(v)),
            Err(e) => Err(e),
        }
    }

    /// The number of entries memoised so far.
    pub fn cached_count(&self) -> (r: usize)
        ensures
            r == self.cache_size(),
    {
        self.memo.len()
    }
}

/// An entry once known keeps its value in every later state of the wall,
/// so asking for it again gives the same value.
pub proof fn lemma_known_stays(earlier: Wall, later: Wall, m: int, n: int)
    requires
        later.extends(&earlier),
        earlier.known(m, n) is Some,
    ensures
        later.known(m, n) == earlier.known(m, n),
{
}

proof fn lemma_top_unique(w: Wall, t1: int, t2: int, bottom: int, n: int)
    requires
        w.zero_column(t1, bottom, n),
        w.zero_column(t2, bottom, n),
    ensures
        t1 == t2,
{
    if t1 < t2 {
        assert(w.known(t2 - 1, n) == Some(0int));
    } else if t2 < t1 {
        assert(w.known(t1 - 1, n) == Some(0int));
    }
}

/// The window that the zero-window search reports at (`m`, `n`) is fixed
/// by the known entries.
proof fn lemma_window_unique(
    w: Wall,
    m: int,
    n: int,
    i1: bool,
    t1: int,
    l1: int,
    r1: int,
    i2: bool,
    t2: int,
    l2: int,
    r2: int,
)
    requires
        w.window_result(m, n, i1, t1, l1, r1),
        w.window_result(m, n, i2, t2, l2, r2),
    ensures
        i1 == i2 && t1 == t2 && l1 == l2 && r1 == r2,
{
    if w.nonzero_at(m - 1, n) {
        lemma_top_unique(w, t1, t2, m - 2, n);
    } else {
        lemma_top_unique(w, t1, t2, m - 1, n);
    }
    if l1 < l2 {
        assert(w.known(t1, l2 - 1) == Some(0int));
    } else if l2 < l1 {
        assert(w.known(t1, l1 - 1) == Some(0int));
    }
    if r1 < r2 {
        assert(w.known(t1, r1 + 1) == Some(0int));
    } else if r2 < r1 {
        assert(w.known(t1, r2 + 1) == Some(0int));
    }
}

/// Wherever the entry two rows up is zero, a known entry is what its
/// zero window gives: 0 when the search reports it inside the window,
/// `± b * c / a` when the entry one row up is zero too, the correction
/// formula otherwise. This holds for any window the search may report.
pub proof fn lemma_zero_window_entry(
    w: Wall,
    m: int,
    n: int,
    inside: bool,
    top: int,
    left: int,
    right: int,
)
    requires
        w.wf(),
        m >= 1,
        w.known(m, n) is Some,
        w.known(m - 2, n) == Some(0int),
        w.window_result(m, n, inside, top, left, right),
    ensures
        w.degenerate_value(m, n, inside, top, left, right, w.known(m, n)->0),
{
    reveal(Wall::admissible);
    reveal(Wall::degenerate_admissible);
    assert(w.cached(m, n) is Some);
    let v = w.known(m, n)->0;
    let (i2, t2, l2, r2) = choose|i2: bool, t2: int, l2: int, r2: int|
        #[trigger] w.window_result(m, n, i2, t2, l2, r2) && w.degenerate_value(
            m,
            n,
            i2,
            t2,
            l2,
            r2,
            v,
        );
    lemma_window_unique(w, m, n, inside, top, left, right, i2, t2, l2, r2);
}

/// Wherever the entry two rows up is known and non-zero, a known entry
/// satisfies the Somos identity with its known neighbours:
/// `v * d == a * a - b * c`.
pub proof fn lemma_recurrence(w: Wall, m: int, n: int)
    requires
        w.wf(),
        w.known(m, n) is Some,
        w.known(m - 2, n) is Some,
        w.known(m - 2, n)->0 != 0,
    ensures
        w.known(m - 1, n) is Some,
        w.known(m - 1, n - 1) is Some,
        w.known(m - 1, n + 1) is Some,
        w.known(m, n)->0 * w.known(m - 2, n)->0 == w.known(m - 1, n)->0 * w.known(m - 1, n)->0
            - w.known(m - 1, n - 1)->0 * w.known(m - 1, n + 1)->0,
{
    reveal(Wall::admissible);
    assert(w.cached(m, n) is Some);
}

} // verus!
