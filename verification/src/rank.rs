use vstd::prelude::*;

verus! {

/// Scores are exact rationals `numerator / denominator`, compared without
/// rounding: `a >= b` iff `a.0 * b.1 >= b.0 * a.1` (denominators positive).
pub open spec fn frac_ge(a: (u64, u64), b: (u64, u64)) -> bool {
    a.0 * b.1 >= b.0 * a.1
}

/// Every score in the sequence has a positive denominator.
pub open spec fn dens_positive<K>(s: Seq<(K, (u64, u64))>) -> bool {
    forall|i: int| 0 <= i < s.len() ==> (#[trigger] s[i]).1.1 >= 1
}

/// The scores are non-increasing along the sequence.
pub open spec fn sorted_desc<K>(s: Seq<(K, (u64, u64))>) -> bool {
    forall|a: int, b: int| 0 <= a <= b < s.len() ==> frac_ge(s[a].1, s[b].1)
}

/// `>=` on rationals with positive denominators is transitive.
pub proof fn lemma_frac_ge_trans(a: (u64, u64), b: (u64, u64), c: (u64, u64))
    requires
        frac_ge(a, b),
        frac_ge(b, c),
        b.1 >= 1,
    ensures
        frac_ge(a, c),
{
    assert(a.0 * b.1 * c.1 >= b.0 * a.1 * c.1) by (nonlinear_arith)
        requires
            a.0 * b.1 >= b.0 * a.1,
            c.1 >= 0,
    ;
    assert(b.0 * c.1 * a.1 >= c.0 * b.1 * a.1) by (nonlinear_arith)
        requires
            b.0 * c.1 >= c.0 * b.1,
            a.1 >= 0,
    ;
    assert(b.0 * a.1 * c.1 == b.0 * c.1 * a.1) by (nonlinear_arith);
    assert(a.0 * c.1 * b.1 >= c.0 * a.1 * b.1) by (nonlinear_arith)
        requires
            a.0 * b.1 * c.1 >= c.0 * b.1 * a.1,
    ;
    assert(a.0 * c.1 >= c.0 * a.1) by (nonlinear_arith)
        requires
            a.0 * c.1 * b.1 >= c.0 * a.1 * b.1,
            b.1 >= 1,
    ;
}

/// Exact comparison of two rational scores, free of rounding.
pub fn frac_ge_exec(a: (u64, u64), b: (u64, u64)) -> (r: bool)
    ensures
        r == frac_ge(a, b),
{
    proof {
        vstd::arithmetic::mul::lemma_mul_upper_bound(
            a.0 as int,
            u64::MAX as int,
            b.1 as int,
            u64::MAX as int,
        );
        vstd::arithmetic::mul::lemma_mul_upper_bound(
            b.0 as int,
            u64::MAX as int,
            a.1 as int,
            u64::MAX as int,
        );
    }
    (a.0 as u128) * (b.1 as u128) >= (b.0 as u128) * (a.1 as u128)
}

/// Sorts scored entries by score, highest first, by insertion sort. The
/// result is a permutation of the input; entries with equal scores keep no
/// specified relative order.
pub fn sort_by_score_desc<K: Copy>(v: &Vec<(K, (u64, u64))>) -> (r: Vec<(K, (u64, u64))>)
    requires
        dens_positive(v@),
    ensures
        r@.to_multiset() == v@.to_multiset(),
        sorted_desc(r@),
        dens_positive(r@),
        r@.len() == v@.len(),
{
    broadcast use vstd::seq_lib::group_seq_properties;

    let mut r: Vec<(K, (u64, u64))> = Vec::new();
    let mut i: usize = 0;
    proof {
        assert(v@.take(0).to_multiset() =~= Seq::<(K, (u64, u64))>::empty().to_multiset());
    }
    while i < v.len()
        invariant
            dens_positive(v@),
            i <= v@.len(),
            r@.len() == i,
            r@.to_multiset() == v@.take(i as int).to_multiset(),
            sorted_desc(r@),
            dens_positive(r@),
        decreases v@.len() - i,
    {
        let x = v[i];
        let mut p: usize = 0;
        while p < r.len() && frac_ge_exec(r[p].1, x.1)
            invariant
                p <= r@.len(),
                dens_positive(r@),
                sorted_desc(r@),
                forall|k: int| 0 <= k < p ==> frac_ge((#[trigger] r@[k]).1, x.1),
            decreases r@.len() - p,
        {
            p += 1;
        }
        let ghost rpre = r@;
        r.insert(p, x);
        proof {
            assert(r@ =~= rpre.take(p as int) + seq![x] + rpre.skip(p as int));
            assert forall|a: int, b: int| 0 <= a <= b < r@.len() implies frac_ge(
                r@[a].1,
                r@[b].1,
            ) by {
                let pi = p as int;
                if a < pi && b == pi {
                    assert(r@[a] == rpre[a] && r@[b] == x);
                } else if a < pi && b > pi {
                    assert(r@[a] == rpre[a] && r@[b] == rpre[b - 1]);
                } else if a == pi && b > pi {
                    assert(r@[a] == x && r@[b] == rpre[b - 1]);
                    if pi < rpre.len() {
                        assert(!frac_ge(rpre[pi].1, x.1));
                        assert(frac_ge(x.1, rpre[pi].1)) by (nonlinear_arith)
                            requires
                                !(rpre[pi].1.0 * x.1.1 >= x.1.0 * rpre[pi].1.1),
                        ;
                        assert(frac_ge(rpre[pi].1, rpre[b - 1].1));
                        lemma_frac_ge_trans(x.1, rpre[pi].1, rpre[b - 1].1);
                    }
                } else if a > pi && b > pi {
                    assert(r@[a] == rpre[a - 1] && r@[b] == rpre[b - 1]);
                } else if a < pi && b < pi {
                    assert(r@[a] == rpre[a] && r@[b] == rpre[b]);
                } else {
                    assert(a == pi && b == pi);
                }
            }
            assert(dens_positive(r@)) by {
                assert forall|k: int| 0 <= k < r@.len() implies (#[trigger] r@[k]).1.1 >= 1 by {
                    if k < p as int {
                        assert(r@[k] == rpre[k]);
                    } else if k > p as int {
                        assert(r@[k] == rpre[k - 1]);
                    } else {
                        assert(r@[k] == x);
                        assert(v@[i as int].1.1 >= 1);
                    }
                }
            }
            assert(r@.to_multiset() =~= v@.take(i + 1).to_multiset()) by {
                broadcast use vstd::seq_lib::to_multiset_insert, vstd::seq_lib::to_multiset_build;

                assert(r@ == rpre.insert(p as int, x));
                assert(v@.take(i + 1) =~= v@.take(i as int).push(x));
            }
        }
        i += 1;
    }
    proof {
        assert(v@.take(v@.len() as int) =~= v@);
    }
    r
}

} // verus!
