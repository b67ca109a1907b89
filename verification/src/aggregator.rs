//! The range-algebra engine: ordered collections of ranges are merged
//! (`aggregated`), complemented (`reversed`), decomposed into CIDR-aligned
//! blocks (`normalized`) and subtracted (`differenced`).
//!
//! All contracts are stated over the set of covered addresses: an address
//! `a` is covered by a collection when some range of it contains `a`
//! (see [`covers`]).

use vstd::prelude::*;
use vstd::arithmetic::power2::pow2;

use crate::IpRange;
use crate::utils::{
    exec_pow2, floor_log2, lemma_pow2_le, lemma_spec_log2_unique, lemma_spec_tz_unique,
    spec_log2, spec_tz, u128_trailing_zeros,
};

verus! {

/// `a` lies inside the closed interval of `r`.
pub open spec fn in_range<R: IpRange>(r: R, a: int) -> bool {
    r.first_spec() <= a <= r.last_spec()
}

/// A single range is well formed: a non-empty closed interval inside the
/// address space of its width.
pub open spec fn rng_inv<R: IpRange>(r: R) -> bool {
    0 <= r.first_spec() && r.first_spec() <= r.last_spec() && r.last_spec() < pow2(
        R::width_spec(),
    )
}

/// Every range of the collection is well formed.
pub open spec fn all_inv<R: IpRange>(s: Seq<R>) -> bool {
    forall|i: int| 0 <= i < s.len() ==> rng_inv(#[trigger] s[i])
}

/// Some range of the collection contains the address `a`.
pub open spec fn covers<R: IpRange>(s: Seq<R>, a: int) -> bool {
    exists|i: int| 0 <= i < s.len() && in_range(#[trigger] s[i], a)
}

/// `s` and `x` cover exactly the same addresses.
pub open spec fn covers_exactly<R: IpRange>(s: Seq<R>, x: Seq<R>) -> bool {
    forall|a: int| covers(s, a) <==> covers(x, a)
}

/// Ascending by first address.
pub open spec fn sorted_by_first<R: IpRange>(s: Seq<R>) -> bool {
    forall|i: int, j: int|
        0 <= i < j < s.len() ==> #[trigger] s[i].first_spec() <= #[trigger] s[j].first_spec()
}

/// Ascending and pairwise disjoint: each range ends strictly before any
/// later range begins.
pub open spec fn disjoint_sorted<R: IpRange>(s: Seq<R>) -> bool {
    forall|i: int, j: int|
        0 <= i < j < s.len() ==> #[trigger] s[i].last_spec() < #[trigger] s[j].first_spec()
}

/// Aggregated: ascending, disjoint, and non-adjacent — between each range
/// and any later one at least one address is left out.
pub open spec fn is_aggregated<R: IpRange>(s: Seq<R>) -> bool {
    forall|i: int, j: int|
        0 <= i < j < s.len() ==> #[trigger] s[i].last_spec() + 1 < #[trigger] s[j].first_spec()
}

/// The range is renderable as a CIDR block: its length is a power of two
/// and its first address is a multiple of that length.
pub open spec fn is_cidr_block<R: IpRange>(r: R) -> bool {
    exists|k: nat|
        k <= R::width_spec() && r.last_spec() - r.first_spec() + 1 == #[trigger] pow2(k)
            && r.first_spec() % (pow2(k) as int) == 0
}

/// `r` is the aggregation of `x`: aggregated, covering exactly the same
/// addresses, and empty when `x` is empty.
pub open spec fn is_aggregation_of<R: IpRange>(r: Seq<R>, x: Seq<R>) -> bool {
    &&& all_inv(r)
    &&& is_aggregated(r)
    &&& covers_exactly(r, x)
    &&& x.len() == 0 ==> r.len() == 0
}

/// `c` covers exactly the addresses of the full space not covered by `x`.
pub open spec fn covers_complement_of<R: IpRange>(c: Seq<R>, x: Seq<R>) -> bool {
    forall|a: int| covers(c, a) <==> (0 <= a < pow2(R::width_spec()) && !covers(x, a))
}

/// `c` is the complement of `x` within the full address space of the width.
pub open spec fn is_complement_of<R: IpRange>(c: Seq<R>, x: Seq<R>) -> bool {
    &&& all_inv(c)
    &&& is_aggregated(c)
    &&& covers_complement_of(c, x)
}

/// `r` is the normalization of `x`: ordered, disjoint, CIDR-aligned blocks
/// covering exactly the addresses of `x` — and exactly the blocks of the
/// greedy decomposition ([`greedy_decomposition`]), which carves the
/// largest aligned block at each step and is therefore minimal.
pub open spec fn is_normalization_of<R: IpRange>(r: Seq<R>, x: Seq<R>) -> bool {
    &&& all_inv(r)
    &&& disjoint_sorted(r)
    &&& forall|i: int| 0 <= i < r.len() ==> is_cidr_block(#[trigger] r[i])
    &&& covers_exactly(r, x)
    &&& matches_pairs(r, greedy_decomposition(x))
}

/// `d` covers exactly the addresses of `a` that are not in `b`.
pub open spec fn covers_difference_of<R: IpRange>(d: Seq<R>, a: Seq<R>, b: Seq<R>) -> bool {
    forall|x: int| covers(d, x) <==> (covers(a, x) && !covers(b, x))
}

/// `d` is the difference `a \ b`: ordered, disjoint, covering exactly the
/// addresses of `a` not in `b`.
pub open spec fn is_difference_of<R: IpRange>(d: Seq<R>, a: Seq<R>, b: Seq<R>) -> bool {
    &&& all_inv(d)
    &&& disjoint_sorted(d)
    &&& covers_difference_of(d, a, b)
}

/// The emitted ranges together with the pending interval `[cf, cl]` cover
/// exactly the addresses of `pre` (the merge loop's invariant).
spec fn merge_cov<R: IpRange>(out: Seq<R>, cf: int, cl: int, pre: Seq<R>) -> bool {
    forall|a: int| (covers(out, a) || (cf <= a <= cl)) <==> covers(pre, a)
}

/// Every range of `out` ends at least two below `b`.
spec fn gap_above<R: IpRange>(out: Seq<R>, b: int) -> bool {
    forall|t: int| 0 <= t < out.len() ==> #[trigger] out[t].last_spec() + 1 < b
}

/// Appending a range extends the covered set by exactly that interval.
pub proof fn lemma_covers_push<R: IpRange>(s: Seq<R>, x: R)
    ensures
        forall|a: int| covers(s.push(x), a) <==> covers(s, a) || in_range(x, a),
{
    assert forall|a: int| covers(s.push(x), a) implies covers(s, a) || in_range(x, a) by {
        let i = choose|i: int| 0 <= i < s.push(x).len() && in_range(#[trigger] s.push(x)[i], a);
        if i < s.len() {
            assert(s.push(x)[i] == s[i]);
            assert(covers(s, a));
        } else {
            assert(s.push(x)[i] == x);
        }
    }
    assert forall|a: int| covers(s, a) || in_range(x, a) implies covers(s.push(x), a) by {
        if covers(s, a) {
            let i = choose|i: int| 0 <= i < s.len() && in_range(#[trigger] s[i], a);
            assert(s.push(x)[i] == s[i]);
            assert(in_range(s.push(x)[i], a));
        } else {
            assert(in_range(s.push(x)[s.len() as int], a));
        }
    }
}

/// Every range of `s` begins at or below `b`.
spec fn firsts_at_most<R: IpRange>(s: Seq<R>, b: int) -> bool {
    forall|t: int| 0 <= t < s.len() ==> #[trigger] s[t].first_spec() <= b
}

/// `s` covers exactly the union of the addresses of `x` and `y`.
spec fn covers_union<R: IpRange>(s: Seq<R>, x: Seq<R>, y: Seq<R>) -> bool {
    forall|a: int| covers(s, a) <==> (covers(x, a) || covers(y, a))
}

/// Splitting a collection splits its covered set.
proof fn lemma_covers_split<R: IpRange>(s: Seq<R>, m: int)
    requires
        0 <= m <= s.len(),
    ensures
        forall|a: int|
            covers(s, a) <==> (covers(s.subrange(0, m), a) || covers(
                s.subrange(m, s.len() as int),
                a,
            )),
{
    let lo = s.subrange(0, m);
    let hi = s.subrange(m, s.len() as int);
    assert forall|a: int| covers(s, a) implies covers(lo, a) || covers(hi, a) by {
        let i = choose|i: int| 0 <= i < s.len() && in_range(#[trigger] s[i], a);
        if i < m {
            assert(lo[i] == s[i]);
            assert(in_range(lo[i], a));
        } else {
            assert(hi[i - m] == s[i]);
            assert(in_range(hi[i - m], a));
        }
    }
    assert forall|a: int| covers(lo, a) || covers(hi, a) implies covers(s, a) by {
        if covers(lo, a) {
            let i = choose|i: int| 0 <= i < lo.len() && in_range(#[trigger] lo[i], a);
            assert(s[i] == lo[i]);
            assert(in_range(s[i], a));
        } else {
            let i = choose|i: int| 0 <= i < hi.len() && in_range(#[trigger] hi[i], a);
            assert(s[i + m] == hi[i]);
            assert(in_range(s[i + m], a));
        }
    }
}

/// Merges two collections sorted by first address into one, keeping the
/// union of the covered sets.
#[verifier::loop_isolation(false)]
fn merge_sorted<R: IpRange>(left: &Vec<R>, right: &Vec<R>) -> (r: Vec<R>)
    requires
        all_inv(left@),
        all_inv(right@),
        sorted_by_first(left@),
        sorted_by_first(right@),
    ensures
        all_inv(r@),
        sorted_by_first(r@),
        r@.len() == left@.len() + right@.len(),
        covers_union(r@, left@, right@),
{
    let mut out: Vec<R> = Vec::new();
    let mut i: usize = 0;
    let mut j: usize = 0;
    while i < left.len() || j < right.len()
        invariant
            i <= left@.len(),
            j <= right@.len(),
            out@.len() == i + j,
            all_inv(out@),
            sorted_by_first(out@),
            i < left@.len() ==> firsts_at_most(out@, left@[i as int].first_spec()),
            j < right@.len() ==> firsts_at_most(out@, right@[j as int].first_spec()),
            covers_union(out@, left@.take(i as int), right@.take(j as int)),
        decreases left@.len() - i + (right@.len() - j),
    {
        let take_left: bool = if i < left.len() {
            if j < right.len() {
                left[i].first_address_as_decimal() <= right[j].first_address_as_decimal()
            } else {
                true
            }
        } else {
            false
        };
        if take_left {
            let x = left[i];
            let ghost out0 = out@;
            out.push(x);
            proof {
                lemma_covers_push(out0, x);
                assert(left@.take(i as int + 1) =~= left@.take(i as int).push(x));
                lemma_covers_push(left@.take(i as int), x);
                assert(covers_union(out0, left@.take(i as int), right@.take(j as int)));
                assert forall|a: int| covers(out@, a) <==> (covers(left@.take(i as int + 1), a)
                    || covers(right@.take(j as int), a)) by {
                    assert(covers(out@, a) <==> covers(out0, a) || in_range(x, a));
                    assert(covers(out0, a) <==> (covers(left@.take(i as int), a) || covers(
                        right@.take(j as int),
                        a,
                    )));
                    assert(covers(left@.take(i as int + 1), a) <==> covers(left@.take(i as int), a)
                        || in_range(x, a));
                }
                assert(covers_union(out@, left@.take(i as int + 1), right@.take(j as int)));
            }
            i = i + 1;
        } else {
            let x = right[j];
            let ghost out0 = out@;
            out.push(x);
            proof {
                lemma_covers_push(out0, x);
                assert(right@.take(j as int + 1) =~= right@.take(j as int).push(x));
                lemma_covers_push(right@.take(j as int), x);
                assert(covers_union(out0, left@.take(i as int), right@.take(j as int)));
                assert forall|a: int| covers(out@, a) <==> (covers(left@.take(i as int), a)
                    || covers(right@.take(j as int + 1), a)) by {
                    assert(covers(out@, a) <==> covers(out0, a) || in_range(x, a));
                    assert(covers(out0, a) <==> (covers(left@.take(i as int), a) || covers(
                        right@.take(j as int),
                        a,
                    )));
                    assert(covers(right@.take(j as int + 1), a) <==> covers(
                        right@.take(j as int),
                        a,
                    ) || in_range(x, a));
                }
                assert(covers_union(out@, left@.take(i as int), right@.take(j as int + 1)));
            }
            j = j + 1;
        }
    }
    proof {
        assert(left@.take(left@.len() as int) =~= left@);
        assert(right@.take(right@.len() as int) =~= right@);
    }
    out
}

/// Sorts the ranges ascending by first address by merge sort, keeping
/// the covered set.
#[verifier::loop_isolation(false)]
fn sort_by_first<R: IpRange>(ranges: &Vec<R>) -> (r: Vec<R>)
    requires
        all_inv(ranges@),
    ensures
        all_inv(r@),
        sorted_by_first(r@),
        r@.len() == ranges@.len(),
        covers_exactly(r@, ranges@),
    decreases ranges@.len(),
{
    let n = ranges.len();
    if n <= 1 {
        let mut out: Vec<R> = Vec::new();
        if n == 1 {
            out.push(ranges[0]);
        }
        proof {
            assert(out@ =~= ranges@);
        }
        return out;
    }
    let mid = n / 2;
    let mut left: Vec<R> = Vec::new();
    let mut idx: usize = 0;
    while idx < mid
        invariant
            idx <= mid,
            mid <= n == ranges@.len(),
            left@ == ranges@.subrange(0, idx as int),
        decreases mid - idx,
    {
        let ghost left0 = left@;
        left.push(ranges[idx]);
        proof {
            assert(left0.push(ranges@[idx as int]) =~= ranges@.subrange(0, idx as int + 1));
        }
        idx = idx + 1;
    }
    let mut right: Vec<R> = Vec::new();
    idx = mid;
    while idx < n
        invariant
            mid <= idx <= n,
            n == ranges@.len(),
            right@ == ranges@.subrange(mid as int, idx as int),
        decreases n - idx,
    {
        let ghost right0 = right@;
        right.push(ranges[idx]);
        proof {
            assert(right0.push(ranges@[idx as int]) =~= ranges@.subrange(
                mid as int,
                idx as int + 1,
            ));
        }
        idx = idx + 1;
    }
    proof {
        assert forall|t: int| 0 <= t < left@.len() implies rng_inv(#[trigger] left@[t]) by {
            assert(left@[t] == ranges@[t]);
        }
        assert forall|t: int| 0 <= t < right@.len() implies rng_inv(#[trigger] right@[t]) by {
            assert(right@[t] == ranges@[mid + t]);
        }
    }
    let ls = sort_by_first(&left);
    let rs = sort_by_first(&right);
    let out = merge_sorted(&ls, &rs);
    proof {
        lemma_covers_split(ranges@, mid as int);
        assert forall|a: int| covers(out@, a) <==> covers(ranges@, a) by {
            assert(covers(out@, a) <==> (covers(ls@, a) || covers(rs@, a)));
            assert(covers(ls@, a) <==> covers(left@, a));
            assert(covers(rs@, a) <==> covers(right@, a));
            assert(covers(ranges@, a) <==> (covers(ranges@.subrange(0, mid as int), a) || covers(
                ranges@.subrange(mid as int, ranges@.len() as int),
                a,
            )));
        }
        assert(covers_exactly(out@, ranges@));
    }
    out
}

/// Merges a collection of possibly overlapping or adjacent ranges into
/// the minimal ordered collection of disjoint, non-adjacent ranges that
/// covers exactly the same addresses.  An empty input yields an empty
/// result.
#[verifier::loop_isolation(false)]
pub fn aggregated<R: IpRange>(ranges: Vec<R>) -> (r: Vec<R>)
    requires
        all_inv(ranges@),
    ensures
        is_aggregation_of(r@, ranges@),
{
    let sorted = sort_by_first(&ranges);
    let mut out: Vec<R> = Vec::new();
    if sorted.len() == 0 {
        proof {
            assert forall|a: int| covers(out@, a) <==> covers(ranges@, a) by {
                assert(covers(sorted@, a) <==> covers(ranges@, a));
            }
            assert(covers_exactly(out@, ranges@));
        }
        return out;
    }
    let mut cur_first: u128 = sorted[0].first_address_as_decimal();
    let mut cur_last: u128 = sorted[0].last_address_as_decimal();
    proof {
        assert(sorted@.take(1) =~= Seq::empty().push(sorted@[0]));
        lemma_covers_push(Seq::<R>::empty(), sorted@[0]);
        assert forall|a: int|
            (covers(out@, a) || (cur_first as int <= a <= cur_last as int)) <==> covers(
                sorted@.take(1),
                a,
            ) by {
            assert(covers(sorted@.take(1), a) <==> covers(Seq::<R>::empty(), a) || in_range(
                sorted@[0],
                a,
            ));
            assert(!covers(Seq::<R>::empty(), a));
            assert(!covers(out@, a));
        }
        assert(merge_cov(out@, cur_first as int, cur_last as int, sorted@.take(1)));
    }
    let mut i: usize = 1;
    while i < sorted.len()
        invariant
            1 <= i <= sorted@.len(),
            cur_first <= cur_last,
            cur_last as int <= pow2(R::width_spec()) - 1,
            cur_first as int <= sorted@[i - 1].first_spec(),
            all_inv(out@),
            is_aggregated(out@),
            gap_above(out@, cur_first as int),
            merge_cov(out@, cur_first as int, cur_last as int, sorted@.take(i as int)),
        decreases sorted@.len() - i,
    {
        let rf = sorted[i].first_address_as_decimal();
        let rl = sorted[i].last_address_as_decimal();
        proof {
            assert(sorted@.take(i as int + 1) =~= sorted@.take(i as int).push(sorted@[i as int]));
            lemma_covers_push(sorted@.take(i as int), sorted@[i as int]);
            assert(sorted@[i - 1].first_spec() <= sorted@[i as int].first_spec());
        }
        if rf <= cur_last || rf - 1 <= cur_last {
            let ghost old_last = cur_last as int;
            if rl > cur_last {
                cur_last = rl;
            }
            proof {
                assert(merge_cov(out@, cur_first as int, old_last, sorted@.take(i as int)));
                assert forall|a: int|
                    (covers(out@, a) || (cur_first as int <= a <= cur_last as int)) <==> covers(
                        sorted@.take(i as int + 1),
                        a,
                    ) by {
                    assert((covers(out@, a) || (cur_first as int <= a <= old_last)) <==> covers(
                        sorted@.take(i as int),
                        a,
                    ));
                    assert(covers(sorted@.take(i as int + 1), a) <==> covers(
                        sorted@.take(i as int),
                        a,
                    ) || in_range(sorted@[i as int], a));
                }
                assert(merge_cov(
                    out@,
                    cur_first as int,
                    cur_last as int,
                    sorted@.take(i as int + 1),
                ));
            }
        } else {
            let merged = R::from_cidr_pair_decimal((cur_first, cur_last));
            let ghost out0 = out@;
            out.push(merged);
            proof {
                lemma_covers_push(out0, merged);
                assert(merge_cov(out0, cur_first as int, cur_last as int, sorted@.take(i as int)));
                assert forall|a: int|
                    (covers(out@, a) || (rf as int <= a <= rl as int)) <==> covers(
                        sorted@.take(i as int + 1),
                        a,
                    ) by {
                    assert(covers(out@, a) <==> covers(out0, a) || in_range(merged, a));
                    assert((covers(out0, a) || (cur_first as int <= a <= cur_last as int)) <==>
                        covers(sorted@.take(i as int), a));
                    assert(covers(sorted@.take(i as int + 1), a) <==> covers(
                        sorted@.take(i as int),
                        a,
                    ) || in_range(sorted@[i as int], a));
                }
                assert(merge_cov(out@, rf as int, rl as int, sorted@.take(i as int + 1)));
                assert(gap_above(out0, cur_first as int));
                assert forall|t: int| 0 <= t < out@.len() implies #[trigger] out@[t].last_spec() + 1
                    < rf as int by {
                    if t < out0.len() {
                        assert(out@[t] == out0[t]);
                    } else {
                        assert(out@[t] == merged);
                    }
                }
                assert(gap_above(out@, rf as int));
            }
            cur_first = rf;
            cur_last = rl;
        }
        i = i + 1;
    }
    let merged = R::from_cidr_pair_decimal((cur_first, cur_last));
    let ghost out0 = out@;
    out.push(merged);
    proof {
        lemma_covers_push(out0, merged);
        assert(merge_cov(
            out0,
            cur_first as int,
            cur_last as int,
            sorted@.take(sorted@.len() as int),
        ));
        assert(sorted@.take(sorted@.len() as int) =~= sorted@);
        assert forall|a: int| covers(out@, a) <==> covers(ranges@, a) by {
            assert(covers(out@, a) <==> covers(out0, a) || in_range(merged, a));
            assert((covers(out0, a) || (cur_first as int <= a <= cur_last as int)) <==> covers(
                sorted@,
                a,
            ));
            assert(covers(sorted@, a) <==> covers(ranges@, a));
        }
        assert(covers_exactly(out@, ranges@));
        assert(gap_above(out0, cur_first as int));
        assert forall|p: int, q: int| 0 <= p < q < out@.len() implies #[trigger] out@[p].last_spec()
            + 1 < #[trigger] out@[q].first_spec() by {
            if q < out0.len() {
                assert(out@[p] == out0[p]);
                assert(out@[q] == out0[q]);
            } else {
                assert(out@[p] == out0[p]);
                assert(out@[q] == merged);
            }
        }
    }
    out
}

/// The gap-emitting loop's invariant: the emitted gaps cover exactly the
/// addresses below `gb` that `pre` leaves uncovered.
spec fn rev_cov<R: IpRange>(out: Seq<R>, gb: int, pre: Seq<R>) -> bool {
    forall|a: int| covers(out, a) <==> (0 <= a < gb && !covers(pre, a))
}

/// Every range of `s` ends strictly below `b`.
spec fn lasts_below<R: IpRange>(s: Seq<R>, b: int) -> bool {
    forall|t: int| 0 <= t < s.len() ==> #[trigger] s[t].last_spec() < b
}

/// Computes the complement of an aggregated collection within the full
/// address space: the returned collection is aggregated and covers
/// exactly the addresses the input leaves uncovered.  The complement of
/// an empty collection is the full address space.
#[verifier::loop_isolation(false)]
pub fn reversed<R: IpRange>(ranges: Vec<R>) -> (r: Vec<R>)
    requires
        all_inv(ranges@),
        is_aggregated(ranges@),
    ensures
        is_complement_of(r@, ranges@),
{
    let mut out: Vec<R> = Vec::new();
    proof {
        vstd::arithmetic::power2::lemma_pow2_pos(R::width_spec());
    }
    if ranges.len() == 0 {
        let f = R::full();
        let ghost out0 = out@;
        out.push(f);
        proof {
            lemma_covers_push(out0, f);
            assert forall|a: int| covers(out@, a) <==> (0 <= a < pow2(R::width_spec())
                && !covers(ranges@, a)) by {
                assert(covers(out@, a) <==> covers(out0, a) || in_range(f, a));
                assert(!covers(out0, a));
                assert(!covers(ranges@, a));
            }
            assert(covers_complement_of(out@, ranges@));
        }
        return out;
    }
    let maxv = R::max_value();
    let mut bound: u128 = 0;
    let ghost mut gb: int = 0;
    let mut i: usize = 0;
    while i < ranges.len()
        invariant
            0 <= i <= ranges@.len(),
            gb == if i == 0 { 0int } else { ranges@[i - 1].last_spec() + 1 },
            0 <= gb <= pow2(R::width_spec()),
            gb < pow2(R::width_spec()) ==> bound as int == gb,
            gb == pow2(R::width_spec()) ==> bound == 0,
            all_inv(out@),
            is_aggregated(out@),
            gap_above(out@, gb),
            lasts_below(ranges@.take(i as int), gb),
            rev_cov(out@, gb, ranges@.take(i as int)),
        decreases ranges@.len() - i,
    {
        proof {
            assert(rng_inv(ranges@[i as int]));
            if i > 0 {
                assert(ranges@[i - 1].last_spec() + 1 < ranges@[i as int].first_spec());
            }
            assert(ranges@.take(i as int + 1) =~= ranges@.take(i as int).push(ranges@[i as int]));
            lemma_covers_push(ranges@.take(i as int), ranges@[i as int]);
            lemma_greedy_decomposition_push(ranges@.take(i as int), ranges@[i as int]);
        }
        let rf = ranges[i].first_address_as_decimal();
        let rl = ranges[i].last_address_as_decimal();
        let ghost gb0 = gb;
        let ghost out_pre = out@;
        if rf > bound {
            let gap = R::from_cidr_pair_decimal((bound, rf - 1));
            let ghost out0 = out@;
            out.push(gap);
            proof {
                lemma_covers_push(out0, gap);
                assert(rev_cov(out0, gb0, ranges@.take(i as int)));
                assert forall|a: int| covers(out@, a) <==> (0 <= a < rf as int && !covers(
                    ranges@.take(i as int),
                    a,
                )) by {
                    assert(covers(out@, a) <==> covers(out0, a) || in_range(gap, a));
                    assert(covers(out0, a) <==> (0 <= a < gb0 && !covers(ranges@.take(i as int), a)));
                    if gb0 <= a < rf as int {
                        assert(!covers(ranges@.take(i as int), a)) by {
                            if covers(ranges@.take(i as int), a) {
                                let t = choose|t: int| 0 <= t < ranges@.take(i as int).len()
                                    && in_range(#[trigger] ranges@.take(i as int)[t], a);
                                assert(ranges@.take(i as int)[t].last_spec() < gb0);
                            }
                        }
                    }
                }
                assert(rev_cov(out@, rf as int, ranges@.take(i as int)));
                assert forall|t: int| 0 <= t < out@.len() implies #[trigger] out@[t].last_spec() + 1
                    < rl as int + 1 by {
                    if t < out0.len() {
                        assert(out@[t] == out0[t]);
                    } else {
                        assert(out@[t] == gap);
                    }
                }
                assert(gap_above(out@, rl as int + 1));
                assert forall|p: int, q: int| 0 <= p < q < out@.len() implies
                    #[trigger] out@[p].last_spec() + 1 < #[trigger] out@[q].first_spec() by {
                    if q < out0.len() {
                        assert(out@[p] == out0[p]);
                        assert(out@[q] == out0[q]);
                    } else {
                        assert(out@[p] == out0[p]);
                        assert(out@[q] == gap);
                    }
                }
            }
        } else {
            proof {
                assert(rf as int == gb);
                assert forall|t: int| 0 <= t < out@.len() implies #[trigger] out@[t].last_spec() + 1
                    < rl as int + 1 by {
                    assert(out@[t].last_spec() + 1 < gb);
                }
                assert(gap_above(out@, rl as int + 1));
            }
        }
        proof {
            gb = rl as int + 1;
            assert(rev_cov(out_pre, gb0, ranges@.take(i as int)));
            assert forall|a: int| covers(out@, a) <==> (0 <= a < gb && !covers(
                ranges@.take(i as int + 1),
                a,
            )) by {
                assert(covers(ranges@.take(i as int + 1), a) <==> covers(ranges@.take(i as int), a)
                    || in_range(ranges@[i as int], a));
                if rf > bound {
                    assert(covers(out@, a) <==> (0 <= a < rf as int && !covers(
                        ranges@.take(i as int),
                        a,
                    )));
                } else {
                    assert(covers(out@, a) <==> (0 <= a < gb0 && !covers(ranges@.take(i as int), a)));
                }
            }
            assert(rev_cov(out@, gb, ranges@.take(i as int + 1)));
            assert forall|t: int| 0 <= t < ranges@.take(i as int + 1).len() implies
                #[trigger] ranges@.take(i as int + 1)[t].last_spec() < gb by {
                if t < i as int {
                    assert(ranges@.take(i as int + 1)[t] == ranges@.take(i as int)[t]);
                    assert(ranges@.take(i as int)[t].last_spec() < gb0);
                    assert(gb0 <= rl as int + 1);
                } else {
                    assert(ranges@.take(i as int + 1)[t] == ranges@[i as int]);
                }
            }
            assert(lasts_below(ranges@.take(i as int + 1), gb));
        }
        if rl == maxv {
            bound = 0;
        } else {
            bound = rl + 1;
        }
        i = i + 1;
    }
    proof {
        assert(ranges@.take(ranges@.len() as int) =~= ranges@);
    }
    if bound != 0 {
        let gap = R::from_cidr_pair_decimal((bound, maxv));
        let ghost out0 = out@;
        out.push(gap);
        proof {
            lemma_covers_push(out0, gap);
            assert(rev_cov(out0, gb, ranges@));
            assert forall|a: int| covers(out@, a) <==> (0 <= a < pow2(R::width_spec())
                && !covers(ranges@, a)) by {
                assert(covers(out@, a) <==> covers(out0, a) || in_range(gap, a));
                assert(covers(out0, a) <==> (0 <= a < gb && !covers(ranges@, a)));
                if gb <= a < pow2(R::width_spec()) {
                    assert(!covers(ranges@, a)) by {
                        if covers(ranges@, a) {
                            let t = choose|t: int| 0 <= t < ranges@.len() && in_range(
                                #[trigger] ranges@[t],
                                a,
                            );
                            assert(ranges@.take(ranges@.len() as int)[t] == ranges@[t]);
                            assert(ranges@[t].last_spec() < gb);
                        }
                    }
                }
            }
            assert(covers_complement_of(out@, ranges@));
            assert forall|p: int, q: int| 0 <= p < q < out@.len() implies
                #[trigger] out@[p].last_spec() + 1 < #[trigger] out@[q].first_spec() by {
                if q < out0.len() {
                    assert(out@[p] == out0[p]);
                    assert(out@[q] == out0[q]);
                } else {
                    assert(out@[p] == out0[p]);
                    assert(out@[q] == gap);
                }
            }
        }
    } else {
        proof {
            assert(gb == pow2(R::width_spec())) by {
                if gb < pow2(R::width_spec()) {
                    assert(bound as int == gb);
                    assert(rng_inv(ranges@[ranges@.len() - 1]));
                }
            }
            assert(rev_cov(out@, gb, ranges@));
            assert forall|a: int| covers(out@, a) <==> (0 <= a < pow2(R::width_spec())
                && !covers(ranges@, a)) by {
                assert(covers(out@, a) <==> (0 <= a < gb && !covers(ranges@, a)));
            }
            assert(covers_complement_of(out@, ranges@));
        }
    }
    out
}

/// Every range of the collection is a CIDR-aligned block.
spec fn all_cidr<R: IpRange>(s: Seq<R>) -> bool {
    forall|i: int| 0 <= i < s.len() ==> is_cidr_block(#[trigger] s[i])
}

/// The block-carving loop's invariant: the emitted blocks cover exactly
/// the addresses of `pre` plus the half-open interval `[lo, hi)`.
spec fn norm_cov<R: IpRange>(out: Seq<R>, pre: Seq<R>, lo: int, hi: int) -> bool {
    forall|a: int| covers(out, a) <==> (covers(pre, a) || (lo <= a < hi))
}

/// Decomposes each range of an ordered, disjoint collection into the
/// minimal run of power-of-two-aligned blocks, in ascending order,
/// covering exactly the same addresses: precisely the greedy
/// decomposition, block for block.  A range spanning the whole address
/// space is emitted as one block of prefix length zero.
#[verifier::loop_isolation(false)]
pub fn normalized<R: IpRange>(ranges: Vec<R>) -> (r: Vec<R>)
    requires
        all_inv(ranges@),
        disjoint_sorted(ranges@),
    ensures
        is_normalization_of(r@, ranges@),
{
    let w = R::width();
    let maxv = R::max_value();
    let mut out: Vec<R> = Vec::new();
    let ghost mut bnd: int = 0;
    let mut i: usize = 0;
    proof {
        vstd::arithmetic::power2::lemma_pow2_pos(R::width_spec());
    }
    while i < ranges.len()
        invariant
            0 <= i <= ranges@.len(),
            bnd == if i == 0 { 0int } else { ranges@[i - 1].last_spec() + 1 },
            all_inv(out@),
            disjoint_sorted(out@),
            all_cidr(out@),
            lasts_below(out@, bnd),
            covers_exactly(out@, ranges@.take(i as int)),
            matches_pairs(out@, greedy_decomposition(ranges@.take(i as int))),
        decreases ranges@.len() - i,
    {
        proof {
            assert(rng_inv(ranges@[i as int]));
            if i > 0 {
                assert(ranges@[i - 1].last_spec() < ranges@[i as int].first_spec());
            }
            assert(ranges@.take(i as int + 1) =~= ranges@.take(i as int).push(ranges@[i as int]));
            lemma_covers_push(ranges@.take(i as int), ranges@[i as int]);
            lemma_greedy_decomposition_push(ranges@.take(i as int), ranges@[i as int]);
        }
        let rf = ranges[i].first_address_as_decimal();
        let rl = ranges[i].last_address_as_decimal();
        let ghost pre = ranges@.take(i as int);
        if rf == 0 && rl == maxv {
            proof {
                assert(out@.len() == 0) by {
                    if out@.len() > 0 {
                        assert(in_range(out@[0], out@[0].first_spec()));
                        assert(covers(out@, out@[0].first_spec()));
                    }
                }
            }
            let f = R::full();
            let ghost out0 = out@;
            out.push(f);
            proof {
                lemma_covers_push(out0, f);
                assert(is_cidr_block(f)) by {
                    assert(f.last_spec() - f.first_spec() + 1 == pow2(R::width_spec()));
                    assert(f.first_spec() % (pow2(R::width_spec()) as int) == 0);
                }
                assert(all_cidr(out@));
                assert forall|a: int| covers(out@, a) <==> covers(
                    ranges@.take(i as int + 1),
                    a,
                ) by {
                    assert(covers(out@, a) <==> covers(out0, a) || in_range(f, a));
                    assert(covers(ranges@.take(i as int + 1), a) <==> covers(pre, a) || in_range(
                        ranges@[i as int],
                        a,
                    ));
                    assert(!covers(out0, a));
                    if covers(pre, a) {
                        let t = choose|t: int| 0 <= t < pre.len() && in_range(#[trigger] pre[t], a);
                        assert(covers(out@, a));
                    }
                }
                assert(covers_exactly(out@, ranges@.take(i as int + 1)));
                assert(lasts_below(out@, rl as int + 1));
                // the greedy decomposition of the full space is the one block
                assert(spec_log2(pow2(R::width_spec()) as int) == R::width_spec()) by {
                    vstd::arithmetic::power2::lemma_pow2_strictly_increases(
                        R::width_spec(),
                        R::width_spec() + 1,
                    );
                    lemma_spec_log2_unique(pow2(R::width_spec()) as int, R::width_spec());
                }
                assert(block_exp(0, rl as int + 1, R::width_spec()) == R::width_spec());
                assert(greedy_pairs(0, rl as int, R::width_spec()) == seq![(0int, rl as int)]);
                assert(matches_pairs(out@, greedy_decomposition(ranges@.take(i as int + 1)))) by {
                    assert(greedy_decomposition(ranges@.take(i as int + 1))
                        == greedy_decomposition(pre) + greedy_pairs(
                        ranges@[i as int].first_spec(),
                        ranges@[i as int].last_spec(),
                        R::width_spec(),
                    ));
                    assert(greedy_decomposition(pre).len() == 0);
                    assert(greedy_decomposition(pre) + seq![(0int, rl as int)] =~= seq![
                        (0int, rl as int),
                    ]);
                    assert(out@[0] == f);
                }
            }
        } else {
            let mut cur: u128 = rf;
            let mut remaining: u128 = rl - rf + 1;
            let ghost mut cur_g: int = rf as int;
            let ghost mut done: Seq<(int, int)> = greedy_decomposition(pre);
            let ghost mut gtail: Seq<(int, int)> = greedy_pairs(
                rf as int,
                rl as int,
                R::width_spec(),
            );
            proof {
                assert(norm_cov(out@, pre, rf as int, cur_g)) by {
                    assert forall|a: int| covers(out@, a) <==> (covers(pre, a) || (rf as int <= a
                        < cur_g)) by {
                        assert(covers(out@, a) <==> covers(pre, a));
                    }
                }
                assert(lasts_below(out@, cur_g)) by {
                    assert forall|t: int| 0 <= t < out@.len() implies #[trigger] out@[t].last_spec()
                        < cur_g by {
                        assert(out@[t].last_spec() < bnd);
                    }
                }
            }
            while remaining > 0
                invariant
                    cur_g + remaining as int == rl as int + 1,
                    rf as int <= cur_g,
                    remaining > 0 ==> cur as int == cur_g,
                    all_inv(out@),
                    disjoint_sorted(out@),
                    all_cidr(out@),
                    lasts_below(out@, cur_g),
                    norm_cov(out@, pre, rf as int, cur_g),
                    matches_pairs(out@, done),
                    done + gtail == greedy_decomposition(pre) + greedy_pairs(
                        rf as int,
                        rl as int,
                        R::width_spec(),
                    ),
                    remaining > 0 ==> gtail == greedy_pairs(cur_g, rl as int, R::width_spec()),
                    remaining == 0 ==> gtail == Seq::<(int, int)>::empty(),
                decreases remaining,
            {
                let k_len = floor_log2(remaining);
                let k_tz: u32 = if cur == 0 {
                    w
                } else {
                    u128_trailing_zeros(cur)
                };
                let k: u32 = if k_len < k_tz {
                    k_len
                } else {
                    k_tz
                };
                proof {
                    vstd::arithmetic::power2::lemma_pow2_pos(k as nat);
                    lemma_pow2_le(k as nat, k_len as nat);
                    if cur != 0 {
                        crate::utils::lemma_pow2_divides(k as nat, k_tz as nat, cur as int);
                        if k_tz as nat >= R::width_spec() {
                            lemma_pow2_le(R::width_spec(), k_tz as nat);
                        }
                    }
                    assert(k as nat <= R::width_spec());
                    assert(cur as int % (pow2(k as nat) as int) == 0);
                    // the exec exponent agrees with the specification's
                    assert(spec_log2(remaining as int) == k_len as nat) by {
                        lemma_spec_log2_unique(remaining as int, k_len as nat);
                    }
                    if cur != 0 {
                        assert(spec_tz(cur as int) == k_tz as nat) by {
                            lemma_spec_tz_unique(cur as int, k_tz as nat);
                        }
                    }
                    assert(block_exp(cur_g, remaining as int, R::width_spec()) == k as nat);
                }
                let b = exec_pow2(k);
                let blk = R::from_cidr_pair_decimal((cur, cur + (b - 1)));
                let ghost out0 = out@;
                out.push(blk);
                proof {
                    lemma_covers_push(out0, blk);
                    assert(is_cidr_block(blk)) by {
                        assert(blk.last_spec() - blk.first_spec() + 1 == pow2(k as nat));
                        assert(blk.first_spec() % (pow2(k as nat) as int) == 0);
                    }
                    assert(all_cidr(out@)) by {
                        assert forall|t: int| 0 <= t < out@.len() implies is_cidr_block(
                            #[trigger] out@[t],
                        ) by {
                            if t < out0.len() {
                                assert(out@[t] == out0[t]);
                            } else {
                                assert(out@[t] == blk);
                            }
                        }
                    }
                    assert forall|p: int, q: int| 0 <= p < q < out@.len() implies
                        #[trigger] out@[p].last_spec() < #[trigger] out@[q].first_spec() by {
                        if q < out0.len() {
                            assert(out@[p] == out0[p]);
                            assert(out@[q] == out0[q]);
                        } else {
                            assert(out@[p] == out0[p]);
                            assert(out@[q] == blk);
                        }
                    }
                    assert forall|a: int| covers(out@, a) <==> (covers(pre, a) || (rf as int <= a
                        < cur_g + b as int)) by {
                        assert(covers(out@, a) <==> covers(out0, a) || in_range(blk, a));
                        assert(covers(out0, a) <==> (covers(pre, a) || (rf as int <= a < cur_g)));
                    }
                    let ghost cur_g0 = cur_g;
                    cur_g = cur_g + b as int;
                    assert(norm_cov(out@, pre, rf as int, cur_g)) by {
                        assert forall|a: int| covers(out@, a) <==> (covers(pre, a) || (rf as int
                            <= a < cur_g)) by {
                            assert(covers(out@, a) <==> (covers(pre, a) || (rf as int <= a
                                < cur_g0 + b as int)));
                        }
                    }
                    assert(lasts_below(out@, cur_g)) by {
                        assert forall|t: int| 0 <= t < out@.len() implies
                            #[trigger] out@[t].last_spec() < cur_g by {
                            if t < out0.len() {
                                assert(out@[t] == out0[t]);
                            } else {
                                assert(out@[t] == blk);
                            }
                        }
                    }
                    // the pushed block is the head of the remaining greedy pairs
                    let ghost done0 = done;
                    let ghost h = (cur_g0, cur_g0 + b as int - 1);
                    assert(gtail == greedy_pairs(cur_g0, rl as int, R::width_spec()));
                    assert(rl as int - cur_g0 + 1 == remaining as int);
                    if remaining == b {
                        assert(cur_g0 + b as int - 1 == rl as int);
                        assert(greedy_pairs(cur_g0, rl as int, R::width_spec()) == seq![
                            (cur_g0, rl as int),
                        ]);
                        assert(gtail =~= seq![h]);
                        done = done0.push(h);
                        gtail = Seq::<(int, int)>::empty();
                        assert(done + gtail =~= done0 + seq![h]);
                    } else {
                        assert(greedy_pairs(cur_g0, rl as int, R::width_spec()) == seq![h]
                            + greedy_pairs(cur_g0 + b as int, rl as int, R::width_spec()));
                        done = done0.push(h);
                        gtail = greedy_pairs(cur_g, rl as int, R::width_spec());
                        assert(done + gtail =~= done0 + (seq![h] + gtail));
                    }
                    assert(done + gtail == greedy_decomposition(pre) + greedy_pairs(
                        rf as int,
                        rl as int,
                        R::width_spec(),
                    ));
                    assert(matches_pairs(out@, done)) by {
                        assert forall|t: int| 0 <= t < out@.len() implies #[trigger] out@[t].first_spec()
                            == done[t].0 && out@[t].last_spec() == done[t].1 by {
                            if t < out0.len() {
                                assert(out@[t] == out0[t]);
                                assert(done[t] == done0[t]);
                            } else {
                                assert(out@[t] == blk);
                                assert(done[t] == h);
                            }
                        }
                    }
                }
                remaining = remaining - b;
                if remaining > 0 {
                    cur = cur + b;
                }
            }
            proof {
                assert(cur_g == rl as int + 1);
                assert forall|a: int| covers(out@, a) <==> covers(
                    ranges@.take(i as int + 1),
                    a,
                ) by {
                    assert(covers(out@, a) <==> (covers(pre, a) || (rf as int <= a < cur_g)));
                    assert(covers(ranges@.take(i as int + 1), a) <==> covers(pre, a) || in_range(
                        ranges@[i as int],
                        a,
                    ));
                }
                assert(covers_exactly(out@, ranges@.take(i as int + 1)));
                assert(lasts_below(out@, rl as int + 1));
                assert(matches_pairs(out@, greedy_decomposition(ranges@.take(i as int + 1)))) by {
                    assert(done + gtail =~= done);
                    assert(greedy_decomposition(ranges@.take(i as int + 1))
                        == greedy_decomposition(pre) + greedy_pairs(
                        ranges@[i as int].first_spec(),
                        ranges@[i as int].last_spec(),
                        R::width_spec(),
                    ));
                }
            }
        }
        proof {
            bnd = rl as int + 1;
        }
        i = i + 1;
    }
    proof {
        assert(ranges@.take(ranges@.len() as int) =~= ranges@);
        assert(covers_exactly(out@, ranges@)) by {
            assert forall|a: int| covers(out@, a) <==> covers(ranges@, a) by {
                assert(covers(out@, a) <==> covers(ranges@.take(ranges@.len() as int), a));
            }
        }
    }
    out
}

/// The sweep's invariant: the emitted ranges cover exactly the addresses
/// of `pre`, plus the half-open interval `[lo, hi)`, that `b` leaves
/// uncovered.
spec fn diff_cov<R: IpRange>(out: Seq<R>, pre: Seq<R>, b: Seq<R>, lo: int, hi: int) -> bool {
    forall|x: int| covers(out, x) <==> ((covers(pre, x) || (lo <= x < hi)) && !covers(b, x))
}

/// An address between `lo` and `hi` is uncovered by `b` when the ranges
/// before `j` end below `lo` and the range at `j`, if any, starts above
/// `hi`.
proof fn lemma_b_free<R: IpRange>(b: Seq<R>, j: int, lo: int, hi: int, x: int)
    requires
        all_inv(b),
        disjoint_sorted(b),
        0 <= j <= b.len(),
        lasts_below(b.take(j), lo),
        j < b.len() ==> hi < b[j].first_spec(),
        lo <= x <= hi,
    ensures
        !covers(b, x),
{
    if covers(b, x) {
        let t = choose|t: int| 0 <= t < b.len() && in_range(#[trigger] b[t], x);
        if t < j {
            assert(b.take(j)[t] == b[t]);
            assert(b[t].last_spec() < lo);
        } else {
            assert(j < b.len());
            assert(b[j].first_spec() > hi);
            if t > j {
                assert(b[j].last_spec() < b[t].first_spec());
                assert(rng_inv(b[j]));
            }
        }
        assert(false);
    }
}

/// Subtracts `b` from `a` by a two-pointer sweep over the two ordered,
/// disjoint collections: the result covers exactly the addresses of `a`
/// not covered by `b`, in ascending order.  An aggregated minuend gives
/// an aggregated result, so for aggregated inputs the output is pinned
/// exactly (see `laws`).  An empty `b` returns `a` unchanged; an empty
/// `a` returns an empty collection.
#[verifier::loop_isolation(false)]
#[verifier::rlimit(60)]
pub fn differenced<R: IpRange>(a: Vec<R>, b: &[R]) -> (r: Vec<R>)
    requires
        all_inv(a@),
        disjoint_sorted(a@),
        all_inv(b@),
        disjoint_sorted(b@),
    ensures
        is_difference_of(r@, a@, b@),
        is_aggregated(a@) ==> is_aggregated(r@),
        b@.len() == 0 ==> r@ == a@,
        a@.len() == 0 ==> r@.len() == 0,
{
    if b.len() == 0 {
        proof {
            assert forall|x: int| covers(a@, x) <==> (covers(a@, x) && !covers(b@, x)) by {
                assert(!covers(b@, x));
            }
            assert(covers_difference_of(a@, a@, b@));
        }
        return a;
    }
    let mut out: Vec<R> = Vec::new();
    let mut j: usize = 0;
    let ghost mut bnd: int = 0;
    let mut i: usize = 0;
    while i < a.len()
        invariant
            0 <= i <= a@.len(),
            0 <= j <= b@.len(),
            bnd == if i == 0 { 0int } else { a@[i - 1].last_spec() + 1 },
            all_inv(out@),
            disjoint_sorted(out@),
            is_aggregated(a@) ==> is_aggregated(out@),
            lasts_below(out@, bnd),
            lasts_below(b@.take(j as int), bnd),
            diff_cov(out@, a@.take(i as int), b@, 0, 0),
        decreases a@.len() - i,
    {
        proof {
            assert(rng_inv(a@[i as int]));
            if i > 0 {
                assert(a@[i - 1].last_spec() < a@[i as int].first_spec());
            }
        }
        let af = a[i].first_address_as_decimal();
        let cl = a[i].last_address_as_decimal();
        let mut cf: u128 = af;
        let mut alive: bool = true;
        let ghost pre = a@.take(i as int);
        let ghost mut hi: int = cf as int;
        proof {
            assert forall|x: int| covers(out@, x) <==> ((covers(pre, x) || (af as int <= x < hi))
                && !covers(b@, x)) by {
                assert(covers(out@, x) <==> ((covers(pre, x) || (0 <= x < 0)) && !covers(b@, x)));
            }
            assert(diff_cov(out@, pre, b@, af as int, hi));
            assert forall|t: int| 0 <= t < b@.take(j as int).len() implies
                #[trigger] b@.take(j as int)[t].last_spec() < hi by {
                assert(b@.take(j as int)[t].last_spec() < bnd);
            }
            assert(lasts_below(b@.take(j as int), hi));
            assert forall|t: int| 0 <= t < out@.len() implies #[trigger] out@[t].last_spec()
                < hi by {
                assert(out@[t].last_spec() < bnd);
            }
            assert(lasts_below(out@, hi));
            if is_aggregated(a@) {
                assert forall|t: int| 0 <= t < out@.len() implies #[trigger] out@[t].last_spec()
                    + 1 < cf as int by {
                    assert(out@[t].last_spec() < bnd);
                    assert(rng_inv(out@[t]));
                    if i > 0 {
                        assert(a@[i - 1].last_spec() + 1 < a@[i as int].first_spec());
                    }
                }
                assert(gap_above(out@, cf as int));
            }
        }
        while alive && j < b.len()
            invariant
                0 <= j <= b@.len(),
                af as int <= cf as int,
                alive ==> cf as int <= cl as int,
                alive ==> hi == cf as int,
                !alive ==> hi == cl as int + 1,
                af as int <= hi <= cl as int + 1,
                all_inv(out@),
                disjoint_sorted(out@),
                is_aggregated(a@) ==> is_aggregated(out@),
                is_aggregated(a@) && alive ==> gap_above(out@, cf as int),
                lasts_below(out@, hi),
                lasts_below(b@.take(j as int), hi),
                diff_cov(out@, pre, b@, af as int, hi),
            decreases b@.len() - j + (if alive { 1int } else { 0int }),
        {
            proof {
                assert(rng_inv(b@[j as int]));
            }
            let bf = b[j].first_address_as_decimal();
            let bl = b[j].last_address_as_decimal();
            if bl < cf {
                j = j + 1;
                proof {
                    assert forall|t: int| 0 <= t < b@.take(j as int).len() implies
                        #[trigger] b@.take(j as int)[t].last_spec() < hi by {
                        if t < j - 1 {
                            assert(b@.take(j as int)[t] == b@.take(j as int - 1)[t]);
                        } else {
                            assert(b@.take(j as int)[t] == b@[j - 1]);
                        }
                    }
                    assert(lasts_below(b@.take(j as int), hi));
                }
            } else if bf > cl {
                let p = R::from_cidr_pair_decimal((cf, cl));
                let ghost out0 = out@;
                out.push(p);
                proof {
                    lemma_covers_push(out0, p);
                    assert forall|x: int| covers(out@, x) <==> ((covers(pre, x) || (af as int <= x
                        < cl as int + 1)) && !covers(b@, x)) by {
                        assert(covers(out@, x) <==> covers(out0, x) || in_range(p, x));
                        assert(covers(out0, x) <==> ((covers(pre, x) || (af as int <= x < hi))
                            && !covers(b@, x)));
                        if in_range(p, x) {
                            lemma_b_free(b@, j as int, cf as int, cl as int, x);
                        }
                    }
                    hi = cl as int + 1;
                    assert(diff_cov(out@, pre, b@, af as int, hi)) by {
                        assert forall|x: int| covers(out@, x) <==> ((covers(pre, x) || (af as int
                            <= x < hi)) && !covers(b@, x)) by {
                            assert(covers(out@, x) <==> ((covers(pre, x) || (af as int <= x
                                < cl as int + 1)) && !covers(b@, x)));
                        }
                    }
                    assert forall|ii: int, q: int| 0 <= ii < q < out@.len() implies
                        #[trigger] out@[ii].last_spec() < #[trigger] out@[q].first_spec() by {
                        if q < out0.len() {
                            assert(out@[ii] == out0[ii]);
                            assert(out@[q] == out0[q]);
                        } else {
                            assert(out@[ii] == out0[ii]);
                            assert(out@[q] == p);
                        }
                    }
                    assert forall|t: int| 0 <= t < out@.len() implies #[trigger] out@[t].last_spec()
                        < hi by {
                        if t < out0.len() {
                            assert(out@[t] == out0[t]);
                        } else {
                            assert(out@[t] == p);
                        }
                    }
                    assert(lasts_below(out@, hi));
                    assert forall|t: int| 0 <= t < b@.take(j as int).len() implies
                        #[trigger] b@.take(j as int)[t].last_spec() < hi by {
                        assert(b@.take(j as int)[t].last_spec() < cf as int);
                    }
                    assert(lasts_below(b@.take(j as int), hi));
                    if is_aggregated(a@) {
                        assert(gap_above(out0, cf as int));
                        assert forall|ii: int, q: int| 0 <= ii < q < out@.len() implies
                            #[trigger] out@[ii].last_spec() + 1 < #[trigger] out@[q].first_spec() by {
                            if q < out0.len() {
                                assert(out@[ii] == out0[ii]);
                                assert(out@[q] == out0[q]);
                            } else {
                                assert(out@[ii] == out0[ii]);
                                assert(out@[q] == p);
                            }
                        }
                        assert(is_aggregated(out@));
                    }
                }
                alive = false;
            } else {
                // the ranges overlap: bf <= cl and cf <= bl
                if bf > cf {
                    let p = R::from_cidr_pair_decimal((cf, bf - 1));
                    let ghost out0 = out@;
                    out.push(p);
                    proof {
                        lemma_covers_push(out0, p);
                        assert forall|x: int| covers(out@, x) <==> ((covers(pre, x) || (af as int
                            <= x < bf as int)) && !covers(b@, x)) by {
                            assert(covers(out@, x) <==> covers(out0, x) || in_range(p, x));
                            assert(covers(out0, x) <==> ((covers(pre, x) || (af as int <= x < hi))
                                && !covers(b@, x)));
                            if in_range(p, x) {
                                lemma_b_free(b@, j as int, cf as int, bf as int - 1, x);
                            }
                        }
                        hi = bf as int;
                        assert(diff_cov(out@, pre, b@, af as int, hi));
                        assert forall|ii: int, q: int| 0 <= ii < q < out@.len() implies
                            #[trigger] out@[ii].last_spec() < #[trigger] out@[q].first_spec() by {
                            if q < out0.len() {
                                assert(out@[ii] == out0[ii]);
                                assert(out@[q] == out0[q]);
                            } else {
                                assert(out@[ii] == out0[ii]);
                                assert(out@[q] == p);
                            }
                        }
                        assert forall|t: int| 0 <= t < out@.len() implies
                            #[trigger] out@[t].last_spec() < hi by {
                            if t < out0.len() {
                                assert(out@[t] == out0[t]);
                            } else {
                                assert(out@[t] == p);
                            }
                        }
                        assert(lasts_below(out@, hi));
                        if is_aggregated(a@) {
                            assert(gap_above(out0, cf as int));
                            assert forall|ii: int, q: int| 0 <= ii < q < out@.len() implies
                                #[trigger] out@[ii].last_spec() + 1 < #[trigger] out@[
                                    q
                                ].first_spec() by {
                                if q < out0.len() {
                                    assert(out@[ii] == out0[ii]);
                                    assert(out@[q] == out0[q]);
                                } else {
                                    assert(out@[ii] == out0[ii]);
                                    assert(out@[q] == p);
                                }
                            }
                            assert(is_aggregated(out@));
                        }
                    }
                }
                if bl < cl {
                    proof {
                        assert forall|x: int| covers(out@, x) <==> ((covers(pre, x) || (af as int
                            <= x < bl as int + 1)) && !covers(b@, x)) by {
                            assert(covers(out@, x) <==> ((covers(pre, x) || (af as int <= x < hi))
                                && !covers(b@, x)));
                            if hi <= x <= bl as int {
                                assert(in_range(b@[j as int], x));
                                assert(covers(b@, x));
                            }
                        }
                        hi = bl as int + 1;
                        assert(diff_cov(out@, pre, b@, af as int, hi));
                        assert forall|t: int| 0 <= t < out@.len() implies
                            #[trigger] out@[t].last_spec() < hi by {
                            assert(out@[t].last_spec() < (if bf as int > cf as int { bf as int } else { cf as int }));
                        }
                        assert(lasts_below(out@, hi));
                        if is_aggregated(a@) {
                            assert forall|t: int| 0 <= t < out@.len() implies
                                #[trigger] out@[t].last_spec() + 1 < bl as int + 1 by {
                                assert(out@[t].last_spec() < hi);
                                assert(rng_inv(b@[j as int]));
                            }
                            assert(gap_above(out@, bl as int + 1));
                        }
                    }
                    cf = bl + 1;
                    j = j + 1;
                    proof {
                        assert forall|t: int| 0 <= t < b@.take(j as int).len() implies
                            #[trigger] b@.take(j as int)[t].last_spec() < hi by {
                            if t < j - 1 {
                                assert(b@.take(j as int)[t] == b@.take(j as int - 1)[t]);
                            } else {
                                assert(b@.take(j as int)[t] == b@[j - 1]);
                            }
                        }
                        assert(lasts_below(b@.take(j as int), hi));
                    }
                } else {
                    proof {
                        assert forall|x: int| covers(out@, x) <==> ((covers(pre, x) || (af as int
                            <= x < cl as int + 1)) && !covers(b@, x)) by {
                            assert(covers(out@, x) <==> ((covers(pre, x) || (af as int <= x < hi))
                                && !covers(b@, x)));
                            if hi <= x <= cl as int {
                                assert(in_range(b@[j as int], x));
                                assert(covers(b@, x));
                            }
                        }
                        hi = cl as int + 1;
                        assert(diff_cov(out@, pre, b@, af as int, hi));
                        assert forall|t: int| 0 <= t < out@.len() implies
                            #[trigger] out@[t].last_spec() < hi by {
                            assert(out@[t].last_spec() < (if bf as int > cf as int { bf as int } else { cf as int }));
                        }
                        assert(lasts_below(out@, hi));
                        assert forall|t: int| 0 <= t < b@.take(j as int).len() implies
                            #[trigger] b@.take(j as int)[t].last_spec() < hi by {
                            assert(b@.take(j as int)[t].last_spec() < cf as int);
                        }
                        assert(lasts_below(b@.take(j as int), hi));
                    }
                    alive = false;
                }
            }
        }
        if alive {
            let p = R::from_cidr_pair_decimal((cf, cl));
            let ghost out0 = out@;
            out.push(p);
            proof {
                lemma_covers_push(out0, p);
                assert forall|x: int| covers(out@, x) <==> ((covers(pre, x) || (af as int <= x
                    < cl as int + 1)) && !covers(b@, x)) by {
                    assert(covers(out@, x) <==> covers(out0, x) || in_range(p, x));
                    assert(covers(out0, x) <==> ((covers(pre, x) || (af as int <= x < hi))
                        && !covers(b@, x)));
                    if in_range(p, x) {
                        lemma_b_free(b@, j as int, cf as int, cl as int, x);
                    }
                }
                hi = cl as int + 1;
                assert(diff_cov(out@, pre, b@, af as int, hi));
                assert forall|ii: int, q: int| 0 <= ii < q < out@.len() implies
                    #[trigger] out@[ii].last_spec() < #[trigger] out@[q].first_spec() by {
                    if q < out0.len() {
                        assert(out@[ii] == out0[ii]);
                        assert(out@[q] == out0[q]);
                    } else {
                        assert(out@[ii] == out0[ii]);
                        assert(out@[q] == p);
                    }
                }
                assert forall|t: int| 0 <= t < out@.len() implies #[trigger] out@[t].last_spec()
                    < hi by {
                    if t < out0.len() {
                        assert(out@[t] == out0[t]);
                    } else {
                        assert(out@[t] == p);
                    }
                }
                assert(lasts_below(out@, hi));
                assert forall|t: int| 0 <= t < b@.take(j as int).len() implies
                    #[trigger] b@.take(j as int)[t].last_spec() < hi by {
                    assert(b@.take(j as int)[t].last_spec() < cf as int);
                }
                assert(lasts_below(b@.take(j as int), hi));
                if is_aggregated(a@) {
                    assert(gap_above(out0, cf as int));
                    assert forall|ii: int, q: int| 0 <= ii < q < out@.len() implies
                        #[trigger] out@[ii].last_spec() + 1 < #[trigger] out@[q].first_spec() by {
                        if q < out0.len() {
                            assert(out@[ii] == out0[ii]);
                            assert(out@[q] == out0[q]);
                        } else {
                            assert(out@[ii] == out0[ii]);
                            assert(out@[q] == p);
                        }
                    }
                    assert(is_aggregated(out@));
                }
            }
        }
        proof {
            assert(hi == cl as int + 1);
            assert(a@.take(i as int + 1) =~= pre.push(a@[i as int]));
            lemma_covers_push(pre, a@[i as int]);
            assert forall|x: int| covers(out@, x) <==> ((covers(a@.take(i as int + 1), x) || (
            0 <= x < 0)) && !covers(b@, x)) by {
                assert(covers(out@, x) <==> ((covers(pre, x) || (af as int <= x < cl as int + 1))
                    && !covers(b@, x)));
                assert(covers(a@.take(i as int + 1), x) <==> covers(pre, x) || in_range(
                    a@[i as int],
                    x,
                ));
            }
            assert(diff_cov(out@, a@.take(i as int + 1), b@, 0, 0));
            bnd = cl as int + 1;
        }
        i = i + 1;
    }
    proof {
        assert(a@.take(a@.len() as int) =~= a@);
        assert forall|x: int| covers(out@, x) <==> (covers(a@, x) && !covers(b@, x)) by {
            assert(covers(out@, x) <==> ((covers(a@.take(a@.len() as int), x) || (0 <= x < 0))
                && !covers(b@, x)));
        }
        assert(covers_difference_of(out@, a@, b@));
        if a@.len() == 0 {
            assert(out@.len() == 0) by {
                if out@.len() > 0 {
                    assert(rng_inv(out@[0]));
                    assert(in_range(out@[0], out@[0].first_spec()));
                    assert(covers(out@, out@[0].first_spec()));
                }
            }
        }
    }
    out
}

/// The exact number of addresses covered by the ranges of `s`, counting
/// each range's inclusive length, as an unbounded integer.
pub open spec fn total_length<R: IpRange>(s: Seq<R>) -> int
    decreases s.len(),
{
    if s.len() == 0 {
        0
    } else {
        total_length(s.drop_last()) + (s.last().last_spec() - s.last().first_spec() + 1)
    }
}

/// The four range-algebra operations on an ordered collection of ranges,
/// plus the wrap-around address counter.  Implemented for `Vec<R>` for
/// both address widths.
pub trait Aggregator<R: IpRange>: Sized {
    /// The collection's ranges, as specification data.
    spec fn ranges(&self) -> Seq<R>;

    /// The aggregation of the collection (see [`aggregated`]).
    fn aggregated(self) -> (r: Vec<R>)
        requires
            all_inv(self.ranges()),
        ensures
            is_aggregation_of(r@, self.ranges()),
    ;

    /// The complement of the aggregated collection (see [`reversed`]).
    fn reversed(self) -> (r: Vec<R>)
        requires
            all_inv(self.ranges()),
            is_aggregated(self.ranges()),
        ensures
            is_complement_of(r@, self.ranges()),
    ;

    /// The difference of the collection and `other` (see [`differenced`]).
    fn differenced(self, other: &[R]) -> (r: Vec<R>)
        requires
            all_inv(self.ranges()),
            disjoint_sorted(self.ranges()),
            all_inv(other@),
            disjoint_sorted(other@),
        ensures
            is_difference_of(r@, self.ranges(), other@),
            other@.len() == 0 ==> r@ == self.ranges(),
            self.ranges().len() == 0 ==> r@.len() == 0,
    ;

    /// The CIDR-aligned decomposition of the collection (see
    /// [`normalized`]).
    fn normalized(self) -> (r: Vec<R>)
        requires
            all_inv(self.ranges()),
            disjoint_sorted(self.ranges()),
        ensures
            is_normalization_of(r@, self.ranges()),
    ;

    /// Replaces the collection by its aggregation.
    fn aggregate(&mut self)
        requires
            all_inv(old(self).ranges()),
        ensures
            is_aggregation_of(final(self).ranges(), old(self).ranges()),
    ;

    /// Replaces the aggregated collection by its complement.
    fn reverse(&mut self)
        requires
            all_inv(old(self).ranges()),
            is_aggregated(old(self).ranges()),
        ensures
            is_complement_of(final(self).ranges(), old(self).ranges()),
    ;

    /// Removes the addresses of `other` from the collection.
    fn difference(&mut self, other: &[R])
        requires
            all_inv(old(self).ranges()),
            disjoint_sorted(old(self).ranges()),
            all_inv(other@),
            disjoint_sorted(other@),
        ensures
            is_difference_of(final(self).ranges(), old(self).ranges(), other@),
            other@.len() == 0 ==> final(self).ranges() == old(self).ranges(),
            old(self).ranges().len() == 0 ==> final(self).ranges().len() == 0,
    ;

    /// Replaces the collection by its CIDR-aligned decomposition.
    fn normalize(&mut self)
        requires
            all_inv(old(self).ranges()),
            disjoint_sorted(old(self).ranges()),
        ensures
            is_normalization_of(final(self).ranges(), old(self).ranges()),
    ;

    /// The number of addresses covered, wrapped at the address-space
    /// size: a collection covering the whole space reports zero.
    fn count_address(&self) -> (r: u128)
        requires
            all_inv(self.ranges()),
        ensures
            r as int == total_length(self.ranges()) % (pow2(R::width_spec()) as int),
    ;
}

impl<R: IpRange> Aggregator<R> for Vec<R> {
    open spec fn ranges(&self) -> Seq<R> {
        self@
    }

    fn aggregated(self) -> (r: Vec<R>) {
        aggregated(self)
    }

    fn reversed(self) -> (r: Vec<R>) {
        reversed(self)
    }

    fn differenced(self, other: &[R]) -> (r: Vec<R>) {
        differenced(self, other)
    }

    fn normalized(self) -> (r: Vec<R>) {
        normalized(self)
    }

    fn aggregate(&mut self) {
        let mut taken: Vec<R> = Vec::new();
        core::mem::swap(self, &mut taken);
        let r = aggregated(taken);
        *self = r;
    }

    fn reverse(&mut self) {
        let mut taken: Vec<R> = Vec::new();
        core::mem::swap(self, &mut taken);
        let r = reversed(taken);
        *self = r;
    }

    fn difference(&mut self, other: &[R]) {
        let mut taken: Vec<R> = Vec::new();
        core::mem::swap(self, &mut taken);
        let r = differenced(taken, other);
        *self = r;
    }

    fn normalize(&mut self) {
        let mut taken: Vec<R> = Vec::new();
        core::mem::swap(self, &mut taken);
        let r = normalized(taken);
        *self = r;
    }

    #[verifier::loop_isolation(false)]
    fn count_address(&self) -> (r: u128) {
        proof {
            vstd::arithmetic::power2::lemma_pow2_pos(R::width_spec());
        }
        let maxv = R::max_value();
        let ghost m: int = pow2(R::width_spec()) as int;
        let mut count: u128 = 0;
        let mut i: usize = 0;
        proof {
            assert(self@.take(0) =~= Seq::<R>::empty());
            vstd::arithmetic::div_mod::lemma_small_mod(0, pow2(R::width_spec()));
        }
        while i < self.len()
            invariant
                i <= self@.len(),
                count as int == total_length(self@.take(i as int)) % m,
                count <= maxv,
            decreases self@.len() - i,
        {
            proof {
                assert(rng_inv(self@[i as int]));
            }
            let len = self[i].length();
            proof {
                let pre = self@.take(i as int);
                let post = self@.take(i as int + 1);
                assert(post.drop_last() =~= pre);
                assert(post.last() == self@[i as int]);
                let l: int = self@[i as int].last_spec() - self@[i as int].first_spec() + 1;
                assert(total_length(post) == total_length(pre) + l);
                vstd::arithmetic::div_mod::lemma_mod_division_less_than_divisor(l, m);
                vstd::arithmetic::div_mod::lemma_small_mod((l % m) as nat, pow2(R::width_spec()));
                vstd::arithmetic::div_mod::lemma_add_mod_noop(total_length(pre), l, m);
                if (count as int) + (len as int) < m {
                    vstd::arithmetic::div_mod::lemma_small_mod(
                        (count as int + len as int) as nat,
                        pow2(R::width_spec()),
                    );
                } else {
                    vstd::arithmetic::div_mod::lemma_mod_multiples_vanish(
                        1,
                        count as int + len as int - m,
                        m,
                    );
                    vstd::arithmetic::div_mod::lemma_small_mod(
                        (count as int + len as int - m) as nat,
                        pow2(R::width_spec()),
                    );
                }
            }
            if len <= maxv - count {
                count = count + len;
            } else {
                count = count - (maxv - len) - 1;
            }
            i = i + 1;
        }
        proof {
            assert(self@.take(self@.len() as int) =~= self@);
        }
        count
    }
}

/// The exponent of the block that the greedy decomposition carves at
/// `f` from a remainder of `len` addresses: the largest power of two
/// that neither exceeds the remainder nor breaks the alignment of `f`
/// (at address zero the full width allows any block).
pub open spec fn block_exp(f: int, len: int, w: nat) -> nat {
    let ke = if f == 0 {
        w
    } else {
        spec_tz(f)
    };
    if spec_log2(len) < ke {
        spec_log2(len)
    } else {
        ke
    }
}

/// The greedy decomposition of the closed interval `[f, l]` into
/// CIDR-aligned blocks, as `(first, last)` pairs: each step carves the
/// largest aligned block that fits at the interval's start.
pub open spec fn greedy_pairs(f: int, l: int, w: nat) -> Seq<(int, int)>
    decreases l - f,
    via greedy_pairs_dec
{
    let b = pow2(block_exp(f, l - f + 1, w)) as int;
    if l - f + 1 <= b {
        seq![(f, l)]
    } else {
        seq![(f, f + b - 1)] + greedy_pairs(f + b, l, w)
    }
}

#[via_fn]
proof fn greedy_pairs_dec(f: int, l: int, w: nat) {
    vstd::arithmetic::power2::lemma_pow2_pos(block_exp(f, l - f + 1, w));
}

/// The ranges of `s` have exactly the bounds listed in `p`.
pub open spec fn matches_pairs<R: IpRange>(s: Seq<R>, p: Seq<(int, int)>) -> bool {
    s.len() == p.len() && forall|i: int|
        0 <= i < s.len() ==> #[trigger] s[i].first_spec() == p[i].0 && s[i].last_spec() == p[i].1
}

/// The concatenation of the greedy decompositions of all ranges of `x`.
pub open spec fn greedy_decomposition<R: IpRange>(x: Seq<R>) -> Seq<(int, int)>
    decreases x.len(),
{
    if x.len() == 0 {
        Seq::empty()
    } else {
        greedy_pairs(x[0].first_spec(), x[0].last_spec(), R::width_spec())
            + greedy_decomposition(x.skip(1))
    }
}

/// Appending a range appends its greedy decomposition.
proof fn lemma_greedy_decomposition_push<R: IpRange>(x: Seq<R>, r: R)
    ensures
        greedy_decomposition(x.push(r)) == greedy_decomposition(x) + greedy_pairs(
            r.first_spec(),
            r.last_spec(),
            R::width_spec(),
        ),
    decreases x.len(),
{
    let gp = greedy_pairs(r.first_spec(), r.last_spec(), R::width_spec());
    if x.len() == 0 {
        assert(x.push(r)[0] == r);
        assert(x.push(r).skip(1) =~= Seq::<R>::empty());
        assert(greedy_decomposition(x.push(r)) == gp + greedy_decomposition(Seq::<R>::empty()));
        assert(gp + Seq::<(int, int)>::empty() =~= gp);
        assert(greedy_decomposition(x) == Seq::<(int, int)>::empty());
        assert(Seq::<(int, int)>::empty() + gp =~= gp);
    } else {
        assert(x.push(r)[0] == x[0]);
        assert(x.push(r).skip(1) =~= x.skip(1).push(r));
        lemma_greedy_decomposition_push(x.skip(1), r);
        let h = greedy_pairs(x[0].first_spec(), x[0].last_spec(), R::width_spec());
        assert(greedy_decomposition(x.push(r)) == h + (greedy_decomposition(x.skip(1)) + gp));
        assert(h + (greedy_decomposition(x.skip(1)) + gp) =~= (h + greedy_decomposition(x.skip(1)))
            + gp);
    }
}

} // verus!
