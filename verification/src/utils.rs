//! Power-of-two arithmetic helpers shared by the range algorithms, and the
//! [`MathLog2`] trait giving base-two logarithms on the address-width
//! integer types.

use vstd::prelude::*;
use crate::{IpRange, Ipv4Range, Ipv6Range};
use vstd::arithmetic::power2::{
    pow2, lemma_pow2_adds, lemma_pow2_pos, lemma_pow2_strictly_increases, lemma2_to64,
};
use vstd::arithmetic::div_mod::{
    lemma_fundamental_div_mod, lemma_mod_multiples_basic,
};
use vstd::arithmetic::mul::{lemma_mul_inequality, lemma_mul_is_commutative};

verus! {

/// `pow2(128)` is one past `u128::MAX`.
pub proof fn lemma_pow2_128()
    ensures
        pow2(128) == 0x100000000000000000000000000000000,
{
    lemma_pow2_adds(64, 64);
    lemma2_to64();
}

/// `pow2(32)` is one past `u32::MAX`.
pub proof fn lemma_pow2_32()
    ensures
        pow2(32) == 0x100000000,
{
    lemma2_to64();
}

/// Powers of two are monotone in the exponent.
pub proof fn lemma_pow2_le(e1: nat, e2: nat)
    requires
        e1 <= e2,
    ensures
        pow2(e1) <= pow2(e2),
{
    if e1 < e2 {
        lemma_pow2_strictly_increases(e1, e2);
    }
}

/// A multiple of a larger power of two is a multiple of a smaller one.
pub proof fn lemma_pow2_divides(k: nat, t: nat, x: int)
    requires
        k <= t,
        x >= 0,
        x % (pow2(t) as int) == 0,
    ensures
        x % (pow2(k) as int) == 0,
{
    lemma_pow2_pos(k);
    lemma_pow2_pos(t);
    lemma_pow2_adds(k, (t - k) as nat);
    lemma_fundamental_div_mod(x, pow2(t) as int);
    let q = x / (pow2(t) as int);
    assert(x == pow2(t) * q);
    assert(pow2(t) * q == pow2(k) as int * (pow2((t - k) as nat) as int * q)) by (nonlinear_arith)
        requires pow2(t) == pow2(k) * pow2((t - k) as nat),
    ;
    lemma_mod_multiples_basic(pow2((t - k) as nat) as int * q, pow2(k) as int);
    assert((pow2(k) as int * (pow2((t - k) as nat) as int * q)) % (pow2(k) as int) == 0) by {
        lemma_mul_is_commutative(pow2(k) as int, pow2((t - k) as nat) as int * q);
    }
}

/// An aligned block starting inside the address space stays inside it:
/// if `x` is a multiple of `pow2(k)` and below `pow2(w)`, the whole block
/// `[x, x + pow2(k) - 1]` is below `pow2(w)`.
pub proof fn lemma_aligned_block_fits(x: int, k: nat, w: nat)
    requires
        k <= w,
        0 <= x < pow2(w),
        x % (pow2(k) as int) == 0,
    ensures
        x + pow2(k) <= pow2(w),
{
    lemma_pow2_pos(k);
    lemma_pow2_pos((w - k) as nat);
    lemma_pow2_adds(k, (w - k) as nat);
    lemma_fundamental_div_mod(x, pow2(k) as int);
    let q = x / (pow2(k) as int);
    assert(x == pow2(k) * q);
    assert(q >= 0) by (nonlinear_arith)
        requires pow2(k) * q >= 0, pow2(k) >= 1,
    ;
    assert(pow2(k) * q < pow2(k) * pow2((w - k) as nat));
    assert(q < pow2((w - k) as nat)) by (nonlinear_arith)
        requires pow2(k) * q < pow2(k) * (pow2((w - k) as nat) as int), pow2(k) >= 1,
    ;
    assert(q + 1 <= pow2((w - k) as nat));
    assert(pow2(k) * (q + 1) <= pow2(k) * pow2((w - k) as nat)) by (nonlinear_arith)
        requires q + 1 <= pow2((w - k) as nat) as int, pow2(k) >= 1,
    ;
    assert(x + pow2(k) == pow2(k) * (q + 1)) by (nonlinear_arith)
        requires x == pow2(k) * q,
    ;
}

/// Computes `pow2(k)` as a `u128`.
pub fn exec_pow2(k: u32) -> (r: u128)
    requires
        k <= 127,
    ensures
        r as nat == pow2(k as nat),
{
    let mut i: u32 = 0;
    let mut p: u128 = 1;
    proof {
        lemma2_to64();
    }
    while i < k
        invariant
            i <= k,
            k <= 127,
            p as nat == pow2(i as nat),
        decreases k - i,
    {
        proof {
            lemma_pow2_adds(i as nat, 1);
            lemma2_to64();
            lemma_pow2_strictly_increases((i + 1) as nat, 128);
            lemma_pow2_128();
        }
        p = p * 2;
        i = i + 1;
    }
    p
}

/// The base-two logarithm of `x`, rounded down.
pub fn floor_log2(x: u128) -> (r: u32)
    requires
        x >= 1,
    ensures
        r <= 127,
        pow2(r as nat) <= x < pow2((r + 1) as nat),
{
    let mut k: u32 = 0;
    let mut p: u128 = 1;
    proof {
        lemma2_to64();
    }
    while k < 127
        invariant_except_break
            k <= 127,
            p as nat == pow2(k as nat),
            p <= x,
        ensures
            k <= 127,
            p as nat == pow2(k as nat),
            p <= x,
            k == 127 || x < 2 * p,
        decreases 127 - k,
    {
        proof {
            lemma_pow2_adds(k as nat, 1);
            lemma2_to64();
            lemma_pow2_strictly_increases((k + 1) as nat, 128);
            lemma_pow2_128();
        }
        if x - p < p {
            break;
        }
        p = p + p;
        k = k + 1;
    }
    proof {
        lemma_pow2_128();
        lemma_pow2_adds(k as nat, 1);
        lemma2_to64();
        if k == 127 {
            assert(x < pow2(128));
        }
    }
    k
}

/// The number of trailing zero bits of `x`: exactly how many times two
/// divides `x` — `pow2(r)` divides it, `pow2(r + 1)` does not.
pub fn u128_trailing_zeros(x: u128) -> (r: u32)
    requires
        x >= 1,
    ensures
        r <= 127,
        x as int % (pow2(r as nat) as int) == 0,
        x as int % (pow2((r + 1) as nat) as int) != 0,
        pow2(r as nat) <= x,
{
    let mut t: u32 = 0;
    let mut y: u128 = x;
    proof {
        lemma2_to64();
    }
    while y % 2 == 0
        invariant
            1 <= y <= x,
            x as int == y as int * (pow2(t as nat) as int),
            t <= 127,
        decreases y,
    {
        proof {
            lemma_pow2_adds(t as nat, 1);
            lemma2_to64();
            assert(y == 2 * (y / 2));
            assert((y / 2) as int * (pow2((t + 1) as nat) as int) == y as int * (pow2(t as nat) as int))
                by (nonlinear_arith)
                requires
                    y as int == 2 * ((y / 2) as int),
                    pow2((t + 1) as nat) == 2 * pow2(t as nat),
            ;
            // t + 1 stays in bounds: pow2(t + 1) divides x, which is below pow2(128)
            lemma_pow2_128();
            if t + 1 > 127 {
                lemma_pow2_le(128, (t + 1) as nat);
                lemma_mul_inequality(1, (y / 2) as int, pow2((t + 1) as nat) as int);
            }
        }
        y = y / 2;
        t = t + 1;
    }
    proof {
        lemma_mod_multiples_basic(y as int, pow2(t as nat) as int);
        lemma_mul_is_commutative(y as int, pow2(t as nat) as int);
        lemma_mul_inequality(1, y as int, pow2(t as nat) as int);
        // maximality: y is odd here, so one more factor of two cannot divide x
        lemma_pow2_adds(t as nat, 1);
        lemma2_to64();
        lemma_pow2_pos((t + 1) as nat);
        if x as int % (pow2((t + 1) as nat) as int) == 0 {
            lemma_fundamental_div_mod(x as int, pow2((t + 1) as nat) as int);
            let q = x as int / (pow2((t + 1) as nat) as int);
            assert(x as int == pow2((t + 1) as nat) * q);
            assert(y as int == 2 * q) by (nonlinear_arith)
                requires
                    y as int * (pow2(t as nat) as int) == (pow2((t + 1) as nat) as int) * q,
                    pow2((t + 1) as nat) == 2 * pow2(t as nat),
                    pow2(t as nat) >= 1,
            ;
            assert(false);
        }
    }
    t
}

/// Base-two logarithms on an unsigned integer type, with the value of
/// `self` visible to specifications through [`MathLog2::val`].
pub trait MathLog2: Sized + Copy {
    /// The numeric value of `self`, as a mathematical integer.
    spec fn val(self) -> int;

    /// The base-two logarithm of `self`, rounded down.
    fn log2(self) -> (r: u32)
        requires
            self.val() >= 1,
        ensures
            pow2(r as nat) <= self.val() < pow2((r + 1) as nat),
    ;

    /// `Some(k)` when `self` is exactly `pow2(k)`, `None` otherwise.
    fn checked_log2(self) -> (r: Option<u32>)
        ensures
            match r {
                Some(k) => self.val() == pow2(k as nat),
                None => forall|k: nat| self.val() != pow2(k),
            },
    ;
}

impl MathLog2 for u32 {
    open spec fn val(self) -> int {
        self as int
    }

    fn log2(self) -> (r: u32) {
        floor_log2(self as u128)
    }

    fn checked_log2(self) -> (r: Option<u32>) {
        checked_log2_u128(self as u128)
    }
}

impl MathLog2 for u128 {
    open spec fn val(self) -> int {
        self as int
    }

    fn log2(self) -> (r: u32) {
        floor_log2(self)
    }

    fn checked_log2(self) -> (r: Option<u32>) {
        checked_log2_u128(self)
    }
}

/// `Some(k)` when `x` is exactly `pow2(k)`, `None` otherwise.
pub fn checked_log2_u128(x: u128) -> (r: Option<u32>)
    ensures
        match r {
            Some(k) => x == pow2(k as nat),
            None => forall|k: nat| x != pow2(k),
        },
{
    if x == 0 {
        proof {
            assert forall|k: nat| x != pow2(k) by {
                lemma_pow2_pos(k);
            }
        }
        return None;
    }
    let k = floor_log2(x);
    let p = exec_pow2(k);
    if p == x {
        Some(k)
    } else {
        proof {
            assert forall|k2: nat| x != pow2(k2) by {
                if k2 < k as nat {
                    lemma_pow2_strictly_increases(k2, k as nat);
                } else if k2 > k as nat {
                    lemma_pow2_le((k + 1) as nat, k2);
                }
            }
        }
        None
    }
}

/// The IPv4 ranges reserved for special use, already aggregated.
pub open spec fn ipv4_reserved_seq() -> Seq<Ipv4Range> {
    seq![
        Ipv4Range(0, 16777215),
        Ipv4Range(167772160, 184549375),
        Ipv4Range(1681915904, 1686110207),
        Ipv4Range(2130706432, 2147483647),
        Ipv4Range(2851995648, 2852061183),
        Ipv4Range(2886729728, 2887778303),
        Ipv4Range(3221225472, 3221225727),
        Ipv4Range(3221225984, 3221226239),
        Ipv4Range(3227017984, 3227018239),
        Ipv4Range(3232235520, 3232301055),
        Ipv4Range(3323068416, 3323199487),
        Ipv4Range(3325256704, 3325256959),
        Ipv4Range(3405803776, 3405804031),
        Ipv4Range(3758096384, 4294967295),
    ]
}

/// Builds the reserved table of this family.
pub fn ipv4_reserved() -> (r: Vec<Ipv4Range>)
    ensures
        r@ == ipv4_reserved_seq(),
{
    let mut r: Vec<Ipv4Range> = Vec::new();
    r.push(Ipv4Range(0, 16777215));
    r.push(Ipv4Range(167772160, 184549375));
    r.push(Ipv4Range(1681915904, 1686110207));
    r.push(Ipv4Range(2130706432, 2147483647));
    r.push(Ipv4Range(2851995648, 2852061183));
    r.push(Ipv4Range(2886729728, 2887778303));
    r.push(Ipv4Range(3221225472, 3221225727));
    r.push(Ipv4Range(3221225984, 3221226239));
    r.push(Ipv4Range(3227017984, 3227018239));
    r.push(Ipv4Range(3232235520, 3232301055));
    r.push(Ipv4Range(3323068416, 3323199487));
    r.push(Ipv4Range(3325256704, 3325256959));
    r.push(Ipv4Range(3405803776, 3405804031));
    r.push(Ipv4Range(3758096384, 4294967295));
    proof {
        assert(r@ =~= ipv4_reserved_seq());
    }
    r
}

/// The reserved table is well formed and pre-aggregated: each entry is a
/// non-empty interval inside the address space, and the entries ascend
/// with a gap of at least one address between any two of them.
pub proof fn lemma_ipv4_reserved_wf()
    ensures
        forall|i: int|
            0 <= i < ipv4_reserved_seq().len() ==> 0 <= #[trigger] ipv4_reserved_seq()[i].first_spec()
                <= ipv4_reserved_seq()[i].last_spec() < pow2(Ipv4Range::width_spec()),
        forall|i: int, j: int|
            0 <= i < j < ipv4_reserved_seq().len() ==> #[trigger] ipv4_reserved_seq()[i].last_spec() + 1
                < #[trigger] ipv4_reserved_seq()[j].first_spec(),
{
    lemma_pow2_32();
}

/// The IPv6 ranges reserved for special use, already aggregated.
pub open spec fn ipv6_reserved_seq() -> Seq<Ipv6Range> {
    seq![
        Ipv6Range(0x0, 0x1),
        Ipv6Range(0xffff00000000, 0xffffffffffff),
        Ipv6Range(0xffff000000000000, 0xffff0000ffffffff),
        Ipv6Range(0x64ff9b000000000000000000000000, 0x64ff9b0000000000000000ffffffff),
        Ipv6Range(0x1000000000000000000000000000000, 0x100000000000000ffffffffffffffff),
        Ipv6Range(0x20010000000000000000000000000000, 0x20010000ffffffffffffffffffffffff),
        Ipv6Range(0x20010020000000000000000000000000, 0x2001002fffffffffffffffffffffffff),
        Ipv6Range(0x20010db8000000000000000000000000, 0x20010db8ffffffffffffffffffffffff),
        Ipv6Range(0x20020000000000000000000000000000, 0x2002ffffffffffffffffffffffffffff),
        Ipv6Range(0xfc000000000000000000000000000000, 0xfdffffffffffffffffffffffffffffff),
        Ipv6Range(0xfe800000000000000000000000000000, 0xfebfffffffffffffffffffffffffffff),
        Ipv6Range(0xff000000000000000000000000000000, 0xffffffffffffffffffffffffffffffff),
    ]
}

/// Builds the reserved table of this family.
pub fn ipv6_reserved() -> (r: Vec<Ipv6Range>)
    ensures
        r@ == ipv6_reserved_seq(),
{
    let mut r: Vec<Ipv6Range> = Vec::new();
    r.push(Ipv6Range(0x0, 0x1));
    r.push(Ipv6Range(0xffff00000000, 0xffffffffffff));
    r.push(Ipv6Range(0xffff000000000000, 0xffff0000ffffffff));
    r.push(Ipv6Range(0x64ff9b000000000000000000000000, 0x64ff9b0000000000000000ffffffff));
    r.push(Ipv6Range(0x1000000000000000000000000000000, 0x100000000000000ffffffffffffffff));
    r.push(Ipv6Range(0x20010000000000000000000000000000, 0x20010000ffffffffffffffffffffffff));
    r.push(Ipv6Range(0x20010020000000000000000000000000, 0x2001002fffffffffffffffffffffffff));
    r.push(Ipv6Range(0x20010db8000000000000000000000000, 0x20010db8ffffffffffffffffffffffff));
    r.push(Ipv6Range(0x20020000000000000000000000000000, 0x2002ffffffffffffffffffffffffffff));
    r.push(Ipv6Range(0xfc000000000000000000000000000000, 0xfdffffffffffffffffffffffffffffff));
    r.push(Ipv6Range(0xfe800000000000000000000000000000, 0xfebfffffffffffffffffffffffffffff));
    r.push(Ipv6Range(0xff000000000000000000000000000000, 0xffffffffffffffffffffffffffffffff));
    proof {
        assert(r@ =~= ipv6_reserved_seq());
    }
    r
}

/// The reserved table is well formed and pre-aggregated: each entry is a
/// non-empty interval inside the address space, and the entries ascend
/// with a gap of at least one address between any two of them.
pub proof fn lemma_ipv6_reserved_wf()
    ensures
        forall|i: int|
            0 <= i < ipv6_reserved_seq().len() ==> 0 <= #[trigger] ipv6_reserved_seq()[i].first_spec()
                <= ipv6_reserved_seq()[i].last_spec() < pow2(Ipv6Range::width_spec()),
        forall|i: int, j: int|
            0 <= i < j < ipv6_reserved_seq().len() ==> #[trigger] ipv6_reserved_seq()[i].last_spec() + 1
                < #[trigger] ipv6_reserved_seq()[j].first_spec(),
{
    lemma_pow2_128();
}

/// The base-two logarithm of `n`, rounded down, as specification data
/// (zero below two).
pub open spec fn spec_log2(n: int) -> nat
    decreases n,
{
    if n < 2 {
        0
    } else {
        spec_log2(n / 2) + 1
    }
}

/// How many times two divides `n`, as specification data (zero for odd
/// or non-positive `n`).
pub open spec fn spec_tz(n: int) -> nat
    decreases n,
{
    if n <= 0 || n % 2 == 1 {
        0
    } else {
        spec_tz(n / 2) + 1
    }
}

/// `spec_log2` is the exponent that sandwiches `n` between two powers.
pub proof fn lemma_spec_log2_bounds(n: int)
    requires
        n >= 1,
    ensures
        pow2(spec_log2(n)) <= n < pow2(spec_log2(n) + 1),
    decreases n,
{
    lemma2_to64();
    if n >= 2 {
        lemma_spec_log2_bounds(n / 2);
        let s = spec_log2(n / 2);
        lemma_pow2_adds(s, 1);
        lemma_pow2_adds(s + 1, 1);
        assert(n == 2 * (n / 2) + n % 2);
    }
}

/// The sandwich determines `spec_log2` uniquely.
pub proof fn lemma_spec_log2_unique(n: int, k: nat)
    requires
        n >= 1,
        pow2(k) <= n < pow2(k + 1),
    ensures
        spec_log2(n) == k,
{
    lemma_spec_log2_bounds(n);
    let s = spec_log2(n);
    if s < k {
        lemma_pow2_le(s + 1, k);
        assert(false);
    }
    if s > k {
        lemma_pow2_le(k + 1, s);
        assert(false);
    }
}

/// `spec_tz` is the exponent of the exact power of two dividing `n`.
pub proof fn lemma_spec_tz_bounds(n: int)
    requires
        n >= 1,
    ensures
        n % (pow2(spec_tz(n)) as int) == 0,
        n % (pow2(spec_tz(n) + 1) as int) != 0,
    decreases n,
{
    lemma2_to64();
    if n % 2 == 1 {
        lemma_mod_multiples_basic(n, 1);
    } else {
        let m = n / 2;
        lemma_spec_tz_bounds(m);
        let u = spec_tz(m);
        lemma_pow2_adds(u, 1);
        lemma_pow2_adds(u + 1, 1);
        lemma_pow2_pos(u);
        lemma_pow2_pos(u + 1);
        lemma_pow2_pos(u + 2);
        assert(n == 2 * m);
        lemma_fundamental_div_mod(m, pow2(u) as int);
        let qm = m / (pow2(u) as int);
        assert(m == pow2(u) * qm);
        assert(n == (pow2(u + 1) as int) * qm) by (nonlinear_arith)
            requires
                n == 2 * m,
                m == (pow2(u) as int) * qm,
                pow2(u + 1) == 2 * pow2(u),
        ;
        lemma_mul_is_commutative(pow2(u + 1) as int, qm);
        lemma_mod_multiples_basic(qm, pow2(u + 1) as int);
        if n % (pow2(u + 2) as int) == 0 {
            lemma_fundamental_div_mod(n, pow2(u + 2) as int);
            let q = n / (pow2(u + 2) as int);
            assert(n == pow2(u + 2) * q);
            assert(m == (pow2(u + 1) as int) * q) by (nonlinear_arith)
                requires
                    n == 2 * m,
                    n == (pow2(u + 2) as int) * q,
                    pow2(u + 2) == 2 * pow2(u + 1),
            ;
            lemma_mul_is_commutative(pow2(u + 1) as int, q);
            lemma_mod_multiples_basic(q, pow2(u + 1) as int);
            assert(false);
        }
    }
}

/// Exact divisibility determines `spec_tz` uniquely.
pub proof fn lemma_spec_tz_unique(n: int, t: nat)
    requires
        n >= 1,
        n % (pow2(t) as int) == 0,
        n % (pow2(t + 1) as int) != 0,
    ensures
        spec_tz(n) == t,
{
    lemma_spec_tz_bounds(n);
    let u = spec_tz(n);
    if u < t {
        lemma_pow2_divides(u + 1, t, n);
        assert(false);
    }
    if u > t {
        lemma_pow2_divides(t + 1, u, n);
        assert(false);
    }
}

} // verus!
