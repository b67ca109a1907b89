//! Set algebra on collections of IP address ranges.
//!
//! A range is a closed interval `[first, last]` of addresses of one fixed
//! bit width (32 for IPv4, 128 for IPv6), held as unsigned integers.  The
//! algorithms in [`aggregator`] merge, complement, normalize and subtract
//! ordered collections of such ranges; [`laws`] proves the algebraic laws
//! that relate those operations.  Textual parsing and rendering of
//! CIDR notation is left to the callers, who exchange plain `(first, last)`
//! or `(base, prefix-length)` pairs with this crate.

use vstd::prelude::*;
use vstd::arithmetic::div_mod::{lemma_mod_self_0, lemma_small_mod};
use vstd::arithmetic::power2::{pow2, lemma_pow2_pos, lemma_pow2_strictly_increases};

pub mod aggregator;
pub mod laws;
pub mod utils;

use crate::aggregator::{is_cidr_block, rng_inv};
use crate::utils::{
    checked_log2_u128, exec_pow2, floor_log2, lemma_aligned_block_fits, lemma_pow2_128,
    lemma_pow2_32, lemma_pow2_le,
};

verus! {

/// One closed interval `[first, last]` of IPv4 addresses, both ends
/// inclusive, as 32-bit unsigned integers.
#[derive(Debug, Copy, Clone, PartialEq, Eq, PartialOrd, Ord, Structural)]
pub struct Ipv4Range(pub u32, pub u32);

/// One closed interval `[first, last]` of IPv6 addresses, both ends
/// inclusive, as 128-bit unsigned integers.
#[derive(Debug, Copy, Clone, PartialEq, Eq, PartialOrd, Ord, Structural)]
pub struct Ipv6Range(pub u128, pub u128);

/// A range of either address family.
#[derive(Debug, Copy, Clone, PartialEq, Eq, PartialOrd, Ord, Structural)]
pub enum EitherIpRange {
    V4(Ipv4Range),
    V6(Ipv6Range),
}

impl EitherIpRange {
    /// The IPv4 range held, if this is an IPv4 range.
    pub fn into_v4(self) -> (r: Option<Ipv4Range>)
        ensures
            r == match self {
                EitherIpRange::V4(x) => Some(x),
                EitherIpRange::V6(_) => None::<Ipv4Range>,
            },
    {
        match self {
            EitherIpRange::V4(r) => Some(r),
            _ => None,
        }
    }

    /// The IPv6 range held, if this is an IPv6 range.
    pub fn into_v6(self) -> (r: Option<Ipv6Range>)
        ensures
            r == match self {
                EitherIpRange::V6(x) => Some(x),
                EitherIpRange::V4(_) => None::<Ipv6Range>,
            },
    {
        match self {
            EitherIpRange::V6(r) => Some(r),
            _ => None,
        }
    }

    /// Whether this is an IPv4 range.
    pub fn is_v4(self) -> (r: bool)
        ensures
            r == (self is V4),
    {
        self.into_v4().is_some()
    }

    /// Whether this is an IPv6 range.
    pub fn is_v6(self) -> (r: bool)
        ensures
            r == (self is V6),
    {
        self.into_v6().is_some()
    }
}

/// A copyable range type of one fixed address width.
///
/// The two implementors, [`Ipv4Range`] and [`Ipv6Range`], expose their
/// bounds to specifications through [`IpRange::first_spec`] and
/// [`IpRange::last_spec`]; every algorithm of [`aggregator`] is stated
/// and proved once, generically, against those.
pub trait IpRange: Sized + Copy {
    /// The first address of the range, as a mathematical integer.
    spec fn first_spec(&self) -> int;

    /// The last address of the range, as a mathematical integer.
    spec fn last_spec(&self) -> int;

    /// The bit width of the address family.
    spec fn width_spec() -> nat;

    /// The table of reserved ranges of this family, as specification data.
    spec fn reserved_spec() -> Seq<Self>;

    /// The width is one of the two supported address widths.
    proof fn lemma_width()
        ensures
            Self::width_spec() == 32 || Self::width_spec() == 128,
    ;

    /// Two ranges with equal bounds are the same value.
    proof fn lemma_bounds_injective(a: Self, b: Self)
        requires
            a.first_spec() == b.first_spec(),
            a.last_spec() == b.last_spec(),
        ensures
            a == b,
    ;

    /// The reserved table is well formed and pre-aggregated.
    /// (The two clauses spell out `aggregator::all_inv` and
    /// `aggregator::is_aggregated` of the table.)
    proof fn lemma_reserved_wf()
        ensures
            forall|i: int|
                0 <= i < Self::reserved_spec().len() ==> 0 <= #[trigger] Self::reserved_spec()[i].first_spec()
                    <= Self::reserved_spec()[i].last_spec() < pow2(Self::width_spec()),
            forall|i: int, j: int|
                0 <= i < j < Self::reserved_spec().len()
                    ==> #[trigger] Self::reserved_spec()[i].last_spec() + 1
                    < #[trigger] Self::reserved_spec()[j].first_spec(),
    ;

    /// The bit width of the address family.
    fn width() -> (w: u32)
        ensures
            w as nat == Self::width_spec(),
    ;

    /// The largest address of the family.
    fn max_value() -> (m: u128)
        ensures
            m as int == pow2(Self::width_spec()) - 1,
    ;

    /// The first address, widened to 128 bits.
    fn first_address_as_decimal(&self) -> (r: u128)
        ensures
            r as int == self.first_spec(),
    ;

    /// The last address, widened to 128 bits.
    fn last_address_as_decimal(&self) -> (r: u128)
        ensures
            r as int == self.last_spec(),
    ;

    /// The number of addresses in the range, wrapped at the address-space
    /// size, so that the full range reports zero.
    fn length(&self) -> (r: u128)
        requires
            0 <= self.first_spec() <= self.last_spec() < pow2(Self::width_spec()),
        ensures
            r as int == (self.last_spec() - self.first_spec() + 1) % (pow2(Self::width_spec())
                as int),
    ;

    /// Builds the range `[pair.0, pair.1]` from its two bounds.
    fn from_cidr_pair_decimal(pair: (u128, u128)) -> (r: Self)
        requires
            pair.0 <= pair.1,
            (pair.1 as int) < pow2(Self::width_spec()),
        ensures
            r.first_spec() == pair.0 as int,
            r.last_spec() == pair.1 as int,
    ;

    /// The two bounds of the range.
    fn into_cidr_pair_decimal(self) -> (r: (u128, u128))
        ensures
            r.0 as int == self.first_spec(),
            r.1 as int == self.last_spec(),
    ;

    /// Builds the CIDR block `base/prefix` from `pair = (base, prefix)`.
    /// A prefix length of zero denotes the full address space.
    fn from_cidr_pair(pair: (u128, u8)) -> (r: Self)
        requires
            pair.1 as nat <= Self::width_spec(),
            (pair.0 as int) < pow2(Self::width_spec()),
            pair.0 as int % (pow2((Self::width_spec() - pair.1 as nat) as nat) as int) == 0,
        ensures
            r.first_spec() == pair.0 as int,
            r.last_spec() == pair.0 as int + pow2((Self::width_spec() - pair.1 as nat) as nat)
                - 1,
    ;

    /// The `(base, prefix-length)` pair of a CIDR-aligned range.
    fn into_cidr_pair(self) -> (r: (u128, u8))
        requires
            0 <= self.first_spec() <= self.last_spec() < pow2(Self::width_spec()),
            exists|k: nat|
                k <= Self::width_spec() && self.last_spec() - self.first_spec() + 1
                    == #[trigger] pow2(k) && self.first_spec() % (pow2(k) as int) == 0,
        ensures
            r.0 as int == self.first_spec(),
            r.1 as nat <= Self::width_spec(),
            self.last_spec() - self.first_spec() + 1 == pow2(
                (Self::width_spec() - r.1 as nat) as nat,
            ),
            r.0 as int % (pow2((Self::width_spec() - r.1 as nat) as nat) as int) == 0,
    ;

    /// The range spanning the entire address space.
    fn full() -> (r: Self)
        ensures
            r.first_spec() == 0,
            r.last_spec() == pow2(Self::width_spec()) - 1,
    ;

    /// The table of address ranges reserved for special use, aggregated.
    fn reserved() -> (r: Vec<Self>)
        ensures
            r@ == Self::reserved_spec(),
    ;
}

impl IpRange for Ipv4Range {
    open spec fn first_spec(&self) -> int {
        self.0 as int
    }

    open spec fn last_spec(&self) -> int {
        self.1 as int
    }

    open spec fn width_spec() -> nat {
        32
    }

    open spec fn reserved_spec() -> Seq<Ipv4Range> {
        crate::utils::ipv4_reserved_seq()
    }

    proof fn lemma_width() {
    }

    proof fn lemma_bounds_injective(a: Self, b: Self) {
    }

    proof fn lemma_reserved_wf() {
        crate::utils::lemma_ipv4_reserved_wf();
    }

    fn width() -> (w: u32) {
        32
    }

    fn max_value() -> (m: u128) {
        proof {
            lemma_pow2_32();
        }
        0xffff_ffff
    }

    fn first_address_as_decimal(&self) -> (r: u128) {
        self.0 as u128
    }

    fn last_address_as_decimal(&self) -> (r: u128) {
        self.1 as u128
    }

    fn length(&self) -> (r: u128) {
        proof {
            lemma_pow2_32();
        }
        if self.0 == 0 && self.1 == u32::MAX {
            proof {
                lemma_mod_self_0(pow2(32) as int);
            }
            0
        } else {
            proof {
                lemma_small_mod((self.1 - self.0 + 1) as nat, pow2(32));
            }
            (self.1 - self.0) as u128 + 1
        }
    }

    fn from_cidr_pair_decimal(pair: (u128, u128)) -> (r: Self) {
        proof {
            lemma_pow2_32();
        }
        Ipv4Range(pair.0 as u32, pair.1 as u32)
    }

    fn into_cidr_pair_decimal(self) -> (r: (u128, u128)) {
        (self.0 as u128, self.1 as u128)
    }

    fn from_cidr_pair(pair: (u128, u8)) -> (r: Self) {
        proof {
            lemma_pow2_32();
        }
        if pair.1 == 0 {
            proof {
                lemma_small_mod(pair.0 as nat, pow2(32));
            }
            Ipv4Range(0, u32::MAX)
        } else {
            let size = exec_pow2(32 - pair.1 as u32);
            proof {
                lemma_pow2_pos((32 - pair.1) as nat);
                lemma_aligned_block_fits(pair.0 as int, (32 - pair.1) as nat, 32);
            }
            Ipv4Range(pair.0 as u32, (pair.0 + (size - 1)) as u32)
        }
    }

    fn into_cidr_pair(self) -> (r: (u128, u8)) {
        proof {
            lemma_pow2_32();
        }
        if self.0 == 0 && self.1 == u32::MAX {
            (0, 0)
        } else {
            let len: u128 = (self.1 - self.0) as u128 + 1;
            let k = floor_log2(len);
            proof {
                let k0 = choose|k0: nat|
                    k0 <= Self::width_spec() && self.last_spec() - self.first_spec() + 1
                        == #[trigger] pow2(k0) && self.first_spec() % (pow2(k0) as int) == 0;
                if k0 < k as nat {
                    lemma_pow2_strictly_increases(k0, k as nat);
                }
                if k0 > k as nat {
                    lemma_pow2_le((k + 1) as nat, k0);
                }
                assert(k0 == k as nat);
            }
            (self.0 as u128, (32 - k) as u8)
        }
    }

    fn full() -> (r: Self) {
        proof {
            lemma_pow2_32();
        }
        Ipv4Range(0, u32::MAX)
    }

    fn reserved() -> (r: Vec<Self>) {
        crate::utils::ipv4_reserved()
    }
}

impl IpRange for Ipv6Range {
    open spec fn first_spec(&self) -> int {
        self.0 as int
    }

    open spec fn last_spec(&self) -> int {
        self.1 as int
    }

    open spec fn width_spec() -> nat {
        128
    }

    open spec fn reserved_spec() -> Seq<Ipv6Range> {
        crate::utils::ipv6_reserved_seq()
    }

    proof fn lemma_width() {
    }

    proof fn lemma_bounds_injective(a: Self, b: Self) {
    }

    proof fn lemma_reserved_wf() {
        crate::utils::lemma_ipv6_reserved_wf();
    }

    fn width() -> (w: u32) {
        128
    }

    fn max_value() -> (m: u128) {
        proof {
            lemma_pow2_128();
        }
        u128::MAX
    }

    fn first_address_as_decimal(&self) -> (r: u128) {
        self.0
    }

    fn last_address_as_decimal(&self) -> (r: u128) {
        self.1
    }

    fn length(&self) -> (r: u128) {
        proof {
            lemma_pow2_128();
        }
        if self.0 == 0 && self.1 == u128::MAX {
            proof {
                lemma_mod_self_0(pow2(128) as int);
            }
            0
        } else {
            proof {
                lemma_small_mod((self.1 - self.0 + 1) as nat, pow2(128));
            }
            self.1 - self.0 + 1
        }
    }

    fn from_cidr_pair_decimal(pair: (u128, u128)) -> (r: Self) {
        Ipv6Range(pair.0, pair.1)
    }

    fn into_cidr_pair_decimal(self) -> (r: (u128, u128)) {
        (self.0, self.1)
    }

    fn from_cidr_pair(pair: (u128, u8)) -> (r: Self) {
        proof {
            lemma_pow2_128();
        }
        if pair.1 == 0 {
            proof {
                lemma_small_mod(pair.0 as nat, pow2(128));
            }
            Ipv6Range(0, u128::MAX)
        } else {
            let size = exec_pow2(128 - pair.1 as u32);
            proof {
                lemma_pow2_pos((128 - pair.1) as nat);
                lemma_aligned_block_fits(pair.0 as int, (128 - pair.1) as nat, 128);
            }
            Ipv6Range(pair.0, pair.0 + (size - 1))
        }
    }

    fn into_cidr_pair(self) -> (r: (u128, u8)) {
        proof {
            lemma_pow2_128();
        }
        if self.0 == 0 && self.1 == u128::MAX {
            (0, 0)
        } else {
            let len: u128 = self.1 - self.0 + 1;
            let k = floor_log2(len);
            proof {
                let k0 = choose|k0: nat|
                    k0 <= Self::width_spec() && self.last_spec() - self.first_spec() + 1
                        == #[trigger] pow2(k0) && self.first_spec() % (pow2(k0) as int) == 0;
                if k0 < k as nat {
                    lemma_pow2_strictly_increases(k0, k as nat);
                }
                if k0 > k as nat {
                    lemma_pow2_le((k + 1) as nat, k0);
                }
                assert(k0 == k as nat);
            }
            (self.0, (128 - k) as u8)
        }
    }

    fn full() -> (r: Self) {
        proof {
            lemma_pow2_128();
        }
        Ipv6Range(0, u128::MAX)
    }

    fn reserved() -> (r: Vec<Self>) {
        crate::utils::ipv6_reserved()
    }
}

/// The `(base, prefix-length)` pair of a range that is renderable as a
/// single CIDR block, or `None` when it is not (its length is not a
/// power of two, or its first address is not aligned to that length).
pub fn checked_into_cidr_pair<R: IpRange>(r: R) -> (res: Option<(u128, u8)>)
    ensures
        res is Some <==> (rng_inv(r) && is_cidr_block(r)),
        match res {
            Some(p) => {
                &&& p.0 as int == r.first_spec()
                &&& p.1 as nat <= R::width_spec()
                &&& r.last_spec() - r.first_spec() + 1 == pow2(
                    (R::width_spec() - p.1 as nat) as nat,
                )
                &&& r.first_spec() % (pow2((R::width_spec() - p.1 as nat) as nat) as int) == 0
            },
            None => true,
        },
{
    proof {
        lemma_pow2_pos(R::width_spec());
    }
    let w = R::width();
    let maxv = R::max_value();
    let f = r.first_address_as_decimal();
    let l = r.last_address_as_decimal();
    if f > l || l > maxv {
        return None;
    }
    if f == 0 && l == maxv {
        proof {
            assert(is_cidr_block(r)) by {
                assert(r.last_spec() - r.first_spec() + 1 == pow2(R::width_spec()));
                assert(r.first_spec() % (pow2(R::width_spec()) as int) == 0);
            }
        }
        return Some((0, 0));
    }
    let len = l - f + 1;
    match checked_log2_u128(len) {
        Some(k) => {
            proof {
                R::lemma_width();
                assert((len as int) < pow2(R::width_spec())) by {
                    if f == 0 {
                        assert(l as int <= pow2(R::width_spec()) - 2);
                    }
                }
                if k as nat >= R::width_spec() {
                    lemma_pow2_le(R::width_spec(), k as nat);
                }
                assert((k as nat) < R::width_spec());
            }
            let size = exec_pow2(k);
            if f % size == 0 {
                proof {
                    assert(is_cidr_block(r)) by {
                        assert(r.last_spec() - r.first_spec() + 1 == pow2(k as nat));
                        assert(r.first_spec() % (pow2(k as nat) as int) == 0);
                    }
                }
                Some((f, (w - k) as u8))
            } else {
                proof {
                    if is_cidr_block(r) {
                        let k0 = choose|k0: nat|
                            k0 <= R::width_spec() && r.last_spec() - r.first_spec() + 1
                                == #[trigger] pow2(k0) && r.first_spec() % (pow2(k0) as int) == 0;
                        if k0 < k as nat {
                            lemma_pow2_strictly_increases(k0, k as nat);
                        }
                        if k0 > k as nat {
                            lemma_pow2_strictly_increases(k as nat, k0);
                        }
                        assert(k0 == k as nat);
                        assert(false);
                    }
                }
                None
            }
        }
        None => {
            proof {
                if is_cidr_block(r) {
                    let k0 = choose|k0: nat|
                        k0 <= R::width_spec() && r.last_spec() - r.first_spec() + 1
                            == #[trigger] pow2(k0) && r.first_spec() % (pow2(k0) as int) == 0;
                    assert(len as int == pow2(k0));
                    assert(false);
                }
            }
            None
        }
    }
}

} // verus!
