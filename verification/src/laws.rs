//! Algebraic laws of the range operations: aggregation is canonical
//! (two aggregated collections covering the same addresses are equal),
//! hence idempotent, and complement is an involution that partitions the
//! address space.

use vstd::prelude::*;
use vstd::arithmetic::power2::pow2;

use crate::IpRange;
use crate::aggregator::{
    all_inv, covers, covers_exactly, in_range, is_aggregated, is_aggregation_of,
    is_complement_of, is_difference_of, rng_inv,
};

verus! {

/// The tail of an aggregated collection covers exactly its addresses
/// above the first range.
proof fn lemma_covers_tail<R: IpRange>(s: Seq<R>)
    requires
        all_inv(s),
        is_aggregated(s),
        s.len() > 0,
    ensures
        forall|a: int| covers(s.skip(1), a) <==> (covers(s, a) && a > s[0].last_spec()),
{
    let t = s.skip(1);
    assert forall|a: int| covers(t, a) implies covers(s, a) && a > s[0].last_spec() by {
        let i = choose|i: int| 0 <= i < t.len() && in_range(#[trigger] t[i], a);
        assert(t[i] == s[i + 1]);
        assert(in_range(s[i + 1], a));
        assert(covers(s, a));
        assert(s[0].last_spec() + 1 < s[i + 1].first_spec());
    }
    assert forall|a: int| covers(s, a) && a > s[0].last_spec() implies covers(t, a) by {
        let i = choose|i: int| 0 <= i < s.len() && in_range(#[trigger] s[i], a);
        assert(i > 0);
        assert(t[i - 1] == s[i]);
        assert(in_range(t[i - 1], a));
    }
}

/// Aggregation is canonical: two aggregated collections covering exactly
/// the same addresses are the same collection.
pub proof fn lemma_aggregated_unique<R: IpRange>(s1: Seq<R>, s2: Seq<R>)
    requires
        all_inv(s1),
        all_inv(s2),
        is_aggregated(s1),
        is_aggregated(s2),
        covers_exactly(s1, s2),
    ensures
        s1 == s2,
    decreases s1.len(),
{
    if s1.len() == 0 {
        if s2.len() > 0 {
            assert(rng_inv(s2[0]));
            assert(in_range(s2[0], s2[0].first_spec()));
            assert(covers(s2, s2[0].first_spec()));
            assert(covers(s1, s2[0].first_spec()));
            assert(false);
        }
        assert(s1 =~= s2);
    } else if s2.len() == 0 {
        assert(rng_inv(s1[0]));
        assert(in_range(s1[0], s1[0].first_spec()));
        assert(covers(s1, s1[0].first_spec()));
        assert(covers(s2, s1[0].first_spec()));
        assert(false);
    } else {
        let f1 = s1[0].first_spec();
        let f2 = s2[0].first_spec();
        assert(rng_inv(s1[0]));
        assert(rng_inv(s2[0]));
        assert(in_range(s1[0], f1));
        assert(covers(s1, f1));
        assert(covers(s2, f1));
        assert(f2 <= f1) by {
            let i = choose|i: int| 0 <= i < s2.len() && in_range(#[trigger] s2[i], f1);
            if i > 0 {
                assert(s2[0].last_spec() + 1 < s2[i].first_spec());
            }
        }
        assert(in_range(s2[0], f2));
        assert(covers(s2, f2));
        assert(covers(s1, f2));
        assert(f1 <= f2) by {
            let i = choose|i: int| 0 <= i < s1.len() && in_range(#[trigger] s1[i], f2);
            if i > 0 {
                assert(s1[0].last_spec() + 1 < s1[i].first_spec());
            }
        }
        assert(f1 == f2);
        if s1[0].last_spec() < s2[0].last_spec() {
            let a = s1[0].last_spec() + 1;
            assert(in_range(s2[0], a));
            assert(covers(s2, a));
            assert(covers(s1, a));
            let i = choose|i: int| 0 <= i < s1.len() && in_range(#[trigger] s1[i], a);
            assert(i > 0);
            assert(s1[0].last_spec() + 1 < s1[i].first_spec());
            assert(false);
        }
        if s2[0].last_spec() < s1[0].last_spec() {
            let a = s2[0].last_spec() + 1;
            assert(in_range(s1[0], a));
            assert(covers(s1, a));
            assert(covers(s2, a));
            let i = choose|i: int| 0 <= i < s2.len() && in_range(#[trigger] s2[i], a);
            assert(i > 0);
            assert(s2[0].last_spec() + 1 < s2[i].first_spec());
            assert(false);
        }
        R::lemma_bounds_injective(s1[0], s2[0]);
        let t1 = s1.skip(1);
        let t2 = s2.skip(1);
        assert forall|i: int| 0 <= i < t1.len() implies rng_inv(#[trigger] t1[i]) by {
            assert(t1[i] == s1[i + 1]);
        }
        assert forall|i: int| 0 <= i < t2.len() implies rng_inv(#[trigger] t2[i]) by {
            assert(t2[i] == s2[i + 1]);
        }
        assert forall|p: int, q: int| 0 <= p < q < t1.len() implies #[trigger] t1[p].last_spec()
            + 1 < #[trigger] t1[q].first_spec() by {
            assert(t1[p] == s1[p + 1]);
            assert(t1[q] == s1[q + 1]);
        }
        assert forall|p: int, q: int| 0 <= p < q < t2.len() implies #[trigger] t2[p].last_spec()
            + 1 < #[trigger] t2[q].first_spec() by {
            assert(t2[p] == s2[p + 1]);
            assert(t2[q] == s2[q + 1]);
        }
        lemma_covers_tail(s1);
        lemma_covers_tail(s2);
        assert forall|a: int| covers(t1, a) <==> covers(t2, a) by {
            assert(covers(t1, a) <==> (covers(s1, a) && a > s1[0].last_spec()));
            assert(covers(t2, a) <==> (covers(s2, a) && a > s2[0].last_spec()));
            assert(covers(s1, a) <==> covers(s2, a));
        }
        assert(covers_exactly(t1, t2));
        lemma_aggregated_unique(t1, t2);
        assert forall|i: int| 0 <= i < s1.len() implies s1[i] == s2[i] by {
            if i > 0 {
                assert(t1[i - 1] == s1[i]);
                assert(t2[i - 1] == s2[i]);
            }
        }
        assert(s1 =~= s2);
    }
}

/// Idempotence of aggregation: when `y` is the aggregation of `x` and
/// `z` is the aggregation of `y`, then `z` is `y` itself — aggregating a
/// second time changes nothing.
pub proof fn lemma_aggregate_idempotent<R: IpRange>(x: Seq<R>, y: Seq<R>, z: Seq<R>)
    requires
        is_aggregation_of(y, x),
        is_aggregation_of(z, y),
    ensures
        z == y,
{
    lemma_aggregated_unique(z, y);
}

/// Complement is an involution: when `y` is aggregated, the complement
/// of the complement of `y` is `y` itself.
pub proof fn lemma_complement_involution<R: IpRange>(y: Seq<R>, c: Seq<R>, d: Seq<R>)
    requires
        all_inv(y),
        is_aggregated(y),
        is_complement_of(c, y),
        is_complement_of(d, c),
    ensures
        d == y,
{
    assert forall|a: int| covers(d, a) <==> covers(y, a) by {
        assert(covers(d, a) <==> (0 <= a < pow2(R::width_spec()) && !covers(c, a)));
        assert(covers(c, a) <==> (0 <= a < pow2(R::width_spec()) && !covers(y, a)));
        if covers(y, a) {
            let i = choose|i: int| 0 <= i < y.len() && in_range(#[trigger] y[i], a);
            assert(rng_inv(y[i]));
        }
    }
    assert(covers_exactly(d, y));
    lemma_aggregated_unique(d, y);
}

/// Complement partitions the address space: every address of the space
/// is covered by exactly one of `y` and its complement `c` — no gaps and
/// no overlaps.
pub proof fn lemma_complement_partition<R: IpRange>(y: Seq<R>, c: Seq<R>)
    requires
        all_inv(y),
        is_complement_of(c, y),
    ensures
        forall|a: int| 0 <= a < pow2(R::width_spec()) ==> (covers(y, a) <==> !covers(c, a)),
{
    assert forall|a: int| 0 <= a < pow2(R::width_spec()) implies (covers(y, a) <==> !covers(
        c,
        a,
    )) by {
        assert(covers(c, a) <==> (0 <= a < pow2(R::width_spec()) && !covers(y, a)));
    }
}

/// Within an aggregated collection no address is covered twice: the
/// covering range of an address is unique.  Together with
/// [`lemma_complement_partition`] this makes the partition exact — every
/// address of the space lies in exactly one range of the collection and
/// its complement taken together.
pub proof fn lemma_aggregated_covers_once<R: IpRange>(s: Seq<R>, a: int, i: int, j: int)
    requires
        is_aggregated(s),
        0 <= i < s.len(),
        0 <= j < s.len(),
        in_range(s[i], a),
        in_range(s[j], a),
    ensures
        i == j,
{
    if i < j {
        assert(s[i].last_spec() + 1 < s[j].first_spec());
    }
    if j < i {
        assert(s[j].last_spec() + 1 < s[i].first_spec());
    }
}

/// A subtrahend that covers none of the minuend's addresses leaves the
/// minuend unchanged: the difference is the minuend itself, element for
/// element (using that `differenced` keeps an aggregated minuend
/// aggregated, and that aggregated collections are canonical).
pub proof fn lemma_difference_disjoint_identity<R: IpRange>(d: Seq<R>, a: Seq<R>, b: Seq<R>)
    requires
        all_inv(a),
        is_aggregated(a),
        is_aggregated(d),
        is_difference_of(d, a, b),
        forall|x: int| covers(a, x) ==> !covers(b, x),
    ensures
        d == a,
{
    assert forall|x: int| covers(d, x) <==> covers(a, x) by {
        assert(covers(d, x) <==> (covers(a, x) && !covers(b, x)));
    }
    assert(covers_exactly(d, a));
    lemma_aggregated_unique(d, a);
}

} // verus!
