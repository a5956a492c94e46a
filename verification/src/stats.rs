//! Statistics over path groups: Shannon entropy of the per-repeat
//! coverage distributions and the recombination complexity index, both in
//! millibits of fixed point.

use vstd::prelude::*;

verus! {

use crate::aggregate::{covs_total, entry_views, groups_views, EntryView, Paths};
use crate::matcher::{rev_pair_views, RevPairView};
use crate::path::spec_parse_path;
use crate::log2::{
    log2_millis,
    log2_millis_spec,
    lemma_log2_millis_mono,
    lemma_log2_millis_mul_pow2,
    lemma_log2_millis_nonneg,
};
use vstd::arithmetic::div_mod::{
    lemma_div_basics_1,
    lemma_div_by_multiple,
    lemma_div_pos_is_pos,
    lemma_multiply_divide_le,
};
use vstd::arithmetic::mul::{
    lemma_mul_increases,
    lemma_mul_inequality,
    lemma_mul_nonnegative,
};
use vstd::arithmetic::power2::pow2;

/// The entropy numerator of a group: each positive count weighs the gap
/// between the total's logarithm and its own.
pub open spec fn entropy_weighted(g: Seq<EntryView>, total: int) -> int
    decreases g.len(),
{
    if g.len() == 0 {
        0
    } else {
        entropy_weighted(g.drop_last(), total) + if g.last().cov > 0 {
            g.last().cov * (log2_millis_spec(total) - log2_millis_spec(g.last().cov as int))
        } else {
            0
        }
    }
}

/// Shannon entropy of a group's coverage distribution, in millibits:
/// `sum(c_i * (log2(total) - log2(c_i))) / total`, which equals
/// `-sum(p_i * log2(p_i))` for `p_i = c_i / total`.
pub open spec fn spec_group_entropy(g: Seq<EntryView>) -> int {
    entropy_weighted(g, covs_total(g)) / covs_total(g)
}

/// Coverage totals are non-negative.
pub proof fn lemma_covs_total_nonneg(g: Seq<EntryView>)
    ensures
        covs_total(g) >= 0,
    decreases g.len(),
{
    if g.len() > 0 {
        lemma_covs_total_nonneg(g.drop_last());
    }
}

/// A prefix never holds more coverage than the whole group.
pub proof fn lemma_covs_total_take(g: Seq<EntryView>, i: int)
    requires
        0 <= i <= g.len(),
    ensures
        covs_total(g.take(i)) <= covs_total(g),
    decreases g.len(),
{
    if i == g.len() {
        assert(g.take(i) =~= g);
    } else {
        assert(g.drop_last().take(i) =~= g.take(i));
        lemma_covs_total_take(g.drop_last(), i);
    }
}

/// No single count exceeds the total.
pub proof fn lemma_covs_total_elem(g: Seq<EntryView>, i: int)
    requires
        0 <= i < g.len(),
    ensures
        g[i].cov <= covs_total(g),
{
    lemma_covs_total_take(g, i + 1);
    assert(g.take(i + 1).drop_last() =~= g.take(i));
    assert(g.take(i + 1).last() == g[i]);
    lemma_covs_total_nonneg(g.take(i));
}

/// The entropy numerator is non-negative and at most
/// `total * log2(total)`.
pub proof fn lemma_entropy_weighted_bounds(g: Seq<EntryView>, total: int)
    requires
        total >= 1,
        forall|i: int| 0 <= i < g.len() ==> (#[trigger] g[i]).cov <= total,
    ensures
        0 <= entropy_weighted(g, total),
        entropy_weighted(g, total) <= covs_total(g) * log2_millis_spec(total),
    decreases g.len(),
{
    lemma_log2_millis_nonneg(total);
    lemma_covs_total_nonneg(g);
    if g.len() > 0 {
        assert(forall|i: int|
            0 <= i < g.drop_last().len() ==> #[trigger] g.drop_last()[i] == g[i]);
        lemma_entropy_weighted_bounds(g.drop_last(), total);
        let e = g.last();
        let lt = log2_millis_spec(total);
        let c0 = covs_total(g.drop_last());
        lemma_covs_total_nonneg(g.drop_last());
        if e.cov > 0 {
            lemma_log2_millis_mono(e.cov as int, total);
            lemma_log2_millis_nonneg(e.cov as int);
            let d = lt - log2_millis_spec(e.cov as int);
            assert(e.cov * d >= 0) by {
                lemma_mul_nonnegative(e.cov as int, d);
            }
            assert(e.cov * d <= e.cov * lt) by {
                lemma_mul_inequality(d, lt, e.cov as int);
                assert(d * e.cov == e.cov * d) by (nonlinear_arith);
                assert(lt * e.cov == e.cov * lt) by (nonlinear_arith);
            }
            assert((c0 + e.cov) * lt == c0 * lt + e.cov * lt) by (nonlinear_arith);
        } else {
            assert((c0 + e.cov) * lt == c0 * lt + e.cov * lt) by (nonlinear_arith);
            assert(e.cov * lt >= 0) by {
                lemma_mul_nonnegative(e.cov as int, lt);
            }
        }
    }
}

/// A group with exactly one distinct path has entropy zero, whatever its
/// coverage.
pub proof fn lemma_entropy_single_path(g: Seq<EntryView>)
    requires
        g.len() == 1,
        g[0].cov >= 1,
    ensures
        spec_group_entropy(g) == 0,
{
    assert(g.drop_last() =~= Seq::<EntryView>::empty());
    assert(covs_total(Seq::<EntryView>::empty()) == 0);
    assert(entropy_weighted(Seq::<EntryView>::empty(), covs_total(g)) == 0);
    assert(g.last() == g[0]);
    assert(covs_total(g) == g[0].cov);
    assert(entropy_weighted(g, covs_total(g)) == g[0].cov * (log2_millis_spec(
        g[0].cov as int,
    ) - log2_millis_spec(g[0].cov as int)));
    assert(entropy_weighted(g, covs_total(g)) == 0) by {
        assert(g[0].cov * 0 == 0) by (nonlinear_arith);
    }
    lemma_div_basics_1(covs_total(g));
}

/// Entropy is never negative.
pub proof fn lemma_entropy_nonneg(g: Seq<EntryView>)
    requires
        covs_total(g) >= 1,
    ensures
        spec_group_entropy(g) >= 0,
{
    assert(forall|i: int| 0 <= i < g.len() ==> (#[trigger] g[i]).cov <= covs_total(g)) by {
        assert forall|i: int| 0 <= i < g.len() implies (#[trigger] g[i]).cov <= covs_total(
            g,
        ) by {
            lemma_covs_total_elem(g, i);
        }
    }
    lemma_entropy_weighted_bounds(g, covs_total(g));
    lemma_div_pos_is_pos(entropy_weighted(g, covs_total(g)), covs_total(g));
}

/// With `k` distinct paths of equal coverage `c`, the entropy is exactly
/// the logarithm gap between `k * c` and `c`.
pub proof fn lemma_entropy_uniform(g: Seq<EntryView>, c: nat)
    requires
        g.len() >= 1,
        c >= 1,
        forall|i: int| 0 <= i < g.len() ==> (#[trigger] g[i]).cov == c,
    ensures
        covs_total(g) == g.len() * c,
        spec_group_entropy(g) == log2_millis_spec(g.len() * c as int) - log2_millis_spec(c as int),
{
    lemma_uniform_sums(g, c);
    let t = covs_total(g);
    assert(t == g.len() * c);
    assert(c <= t && t >= 1) by {
        lemma_mul_increases(g.len() as int, c as int);
    }
    let d = log2_millis_spec(t) - log2_millis_spec(c as int);
    assert(d >= 0) by {
        lemma_log2_millis_mono(c as int, t);
    }
    assert(entropy_weighted(g, t) == t * d) by {
        assert(g.len() * (c * d) == (g.len() * c) * d) by (nonlinear_arith);
    }
    assert((d * t) / t == d) by {
        lemma_div_by_multiple(d, t);
    }
    assert(t * d == d * t) by (nonlinear_arith);
}

/// When the number of equally covered paths is a power of two, the
/// entropy is exactly that power, in whole bits.
pub proof fn lemma_entropy_uniform_pow2(g: Seq<EntryView>, c: nat, m: nat)
    requires
        g.len() == pow2(m),
        c >= 1,
        forall|i: int| 0 <= i < g.len() ==> (#[trigger] g[i]).cov == c,
    ensures
        spec_group_entropy(g) == 1000 * m,
{
    vstd::arithmetic::power2::lemma_pow2_pos(m);
    lemma_entropy_uniform(g, c);
    lemma_log2_millis_mul_pow2(c as int, m);
    assert(g.len() * c as int == c as int * pow2(m) as int) by (nonlinear_arith)
        requires
            g.len() == pow2(m),
    ;
}

/// Sums over a uniform group: total coverage `k * c` and weighted entropy
/// `k * (c * gap)`.
proof fn lemma_uniform_sums(g: Seq<EntryView>, c: nat)
    requires
        forall|i: int| 0 <= i < g.len() ==> (#[trigger] g[i]).cov == c,
    ensures
        covs_total(g) == g.len() * c,
        entropy_weighted(g, covs_total(g)) == g.len() * (c * (log2_millis_spec(
            covs_total(g),
        ) - log2_millis_spec(c as int))),
    decreases g.len(),
{
    if g.len() == 0 {
        assert(0 * c == 0) by (nonlinear_arith);
        assert(0 * (c * (log2_millis_spec(covs_total(g)) - log2_millis_spec(c as int)))
            == 0) by (nonlinear_arith);
    } else {
        assert(forall|i: int|
            0 <= i < g.drop_last().len() ==> #[trigger] g.drop_last()[i] == g[i]);
        lemma_uniform_sums_weighted(g, c, covs_total(g));
    }
}

/// The two uniform sums above, with the logarithm gap taken at an
/// arbitrary fixed total.
proof fn lemma_uniform_sums_weighted(g: Seq<EntryView>, c: nat, total: int)
    requires
        forall|i: int| 0 <= i < g.len() ==> (#[trigger] g[i]).cov == c,
    ensures
        covs_total(g) == g.len() * c,
        entropy_weighted(g, total) == g.len() * (c * (log2_millis_spec(total)
            - log2_millis_spec(c as int))),
    decreases g.len(),
{
    let d = log2_millis_spec(total) - log2_millis_spec(c as int);
    if g.len() == 0 {
        assert(0 * c == 0) by (nonlinear_arith);
        assert(0 * (c * d) == 0) by (nonlinear_arith);
    } else {
        assert(forall|i: int|
            0 <= i < g.drop_last().len() ==> #[trigger] g.drop_last()[i] == g[i]);
        lemma_uniform_sums_weighted(g.drop_last(), c, total);
        let n0 = g.drop_last().len() as int;
        assert((n0 + 1) * c == n0 * c + c) by (nonlinear_arith);
        assert(g.last() == g[g.len() - 1]);
        assert(g.last().cov == c);
        if c > 0 {
            assert(entropy_weighted(g.drop_last(), total) == n0 * (c * d));
            assert(entropy_weighted(g, total) == entropy_weighted(g.drop_last(), total)
                + g.last().cov * (log2_millis_spec(total) - log2_millis_spec(
                g.last().cov as int,
            )));
            assert(g.last().cov * (log2_millis_spec(total) - log2_millis_spec(
                g.last().cov as int,
            )) == c * d);
            assert(entropy_weighted(g, total) == n0 * (c * d) + c * d);
            assert((n0 + 1) * (c * d) == n0 * (c * d) + c * d) by (nonlinear_arith);
        } else {
            assert((n0 + 1) * (c * d) == n0 * (c * d) + c * d) by (nonlinear_arith);
            assert(c * d == 0) by (nonlinear_arith)
                requires
                    c == 0,
            ;
        }
    }
}

/// The per-repeat entropy table: for each non-empty group with positive
/// total coverage, its repeat id, its number of distinct paths and its
/// entropy in millibits, in group order.
pub open spec fn spec_entropy_details(gs: Seq<Seq<EntryView>>) -> Seq<(Seq<char>, int, int)>
    decreases gs.len(),
{
    if gs.len() == 0 {
        Seq::empty()
    } else {
        let d = spec_entropy_details(gs.drop_last());
        let g = gs.last();
        if g.len() > 0 && covs_total(g) > 0 {
            d.push((g[0].node, g.len() as int, spec_group_entropy(g)))
        } else {
            d
        }
    }
}

/// Sum of the entropies of a table.
pub open spec fn details_total(d: Seq<(Seq<char>, int, int)>) -> int
    decreases d.len(),
{
    if d.len() == 0 {
        0
    } else {
        details_total(d.drop_last()) + d.last().2
    }
}

/// Arithmetic mean of the entropies of the table, zero when it is empty.
pub open spec fn spec_mean_entropy(gs: Seq<Seq<EntryView>>) -> int {
    let d = spec_entropy_details(gs);
    if d.len() > 0 {
        details_total(d) / d.len() as int
    } else {
        0
    }
}

/// Views of an entropy table.
pub open spec fn detail_views(v: Seq<(String, usize, u64)>) -> Seq<(Seq<char>, int, int)> {
    v.map_values(|e: (String, usize, u64)| (e.0@, e.1 as int, e.2 as int))
}

/// A sum of entries within a range stays within the scaled range.
pub proof fn lemma_details_total_bounds(d: Seq<(Seq<char>, int, int)>)
    requires
        forall|t: int| 0 <= t < d.len() ==> 0 <= (#[trigger] d[t]).2 <= 127999,
    ensures
        0 <= details_total(d) <= d.len() * 127999,
    decreases d.len(),
{
    if d.len() > 0 {
        assert(forall|t: int|
            0 <= t < d.drop_last().len() ==> #[trigger] d.drop_last()[t] == d[t]);
        lemma_details_total_bounds(d.drop_last());
        assert(d.last() == d[d.len() - 1]);
        assert(d.len() * 127999 == (d.len() - 1) * 127999 + 127999) by (nonlinear_arith);
    }
}

/// Shannon entropy of every repeat group's path-usage distribution.
///
/// Returns the mean entropy over the reported repeats, the total entropy,
/// and the per-repeat table, all in millibits, exactly as
/// [`spec_mean_entropy`], [`details_total`] and [`spec_entropy_details`]
/// say.  Groups that are empty or have no coverage are left out of the
/// table.  The bounds asked of the caller only keep the fixed-point sums
/// inside 64-bit arithmetic.
pub fn compute_path_entropy(groups: &Vec<Paths>) -> (r: (u64, u64, Vec<(String, usize, u64)>))
    requires
        forall|k: int|
            0 <= k < groups@.len() ==> covs_total(#[trigger] groups_views(groups@)[k])
                <= u64::MAX,
        groups@.len() <= 0x100000000,
    ensures
        detail_views(r.2@) == spec_entropy_details(groups_views(groups@)),
        r.1 as int == details_total(spec_entropy_details(groups_views(groups@))),
        r.0 as int == spec_mean_entropy(groups_views(groups@)),
{
    let ghost gvs = groups_views(groups@);
    let mut details: Vec<(String, usize, u64)> = Vec::new();
    let mut k: usize = 0;
    proof {
        assert(gvs.take(0) =~= Seq::<Seq<EntryView>>::empty());
        assert(detail_views(details@) =~= spec_entropy_details(gvs.take(0)));
    }
    while k < groups.len()
        invariant
            k <= groups@.len(),
            gvs == groups_views(groups@),
            gvs.len() <= 0x100000000,
            forall|k2: int|
                0 <= k2 < gvs.len() ==> covs_total(#[trigger] gvs[k2]) <= u64::MAX,
            detail_views(details@) == spec_entropy_details(gvs.take(k as int)),
            details@.len() <= k,
            forall|t: int|
                0 <= t < details@.len() ==> 0 <= (#[trigger] details@[t]).2 <= 127999,
        decreases groups@.len() - k,
    {
        proof {
            assert(gvs.take(k as int + 1).drop_last() =~= gvs.take(k as int));
            assert(gvs.take(k as int + 1).last() == gvs[k as int]);
        }
        let group = &groups[k];
        let ghost gv = gvs[k as int];
        proof {
            assert(gv == entry_views(group.paths@));
        }
        let n = group.paths.len();
        if n == 0 {
            proof {
                assert(detail_views(details@) =~= spec_entropy_details(gvs.take(k as int + 1)));
            }
        } else {
            let mut total: u128 = 0;
            let mut i: usize = 0;
            proof {
                assert(gv.take(0) =~= Seq::<EntryView>::empty());
            }
            while i < n
                invariant
                    i <= n,
                    n == group.paths@.len(),
                    gv == entry_views(group.paths@),
                    total as int == covs_total(gv.take(i as int)),
                    total as int <= (i as int) * (u64::MAX as int),
                decreases n - i,
            {
                proof {
                    assert(gv.take(i as int + 1).drop_last() =~= gv.take(i as int));
                    assert(gv.take(i as int + 1).last() == gv[i as int]);
                    assert((i as int + 1) * (u64::MAX as int) == (i as int) * (
                    u64::MAX as int) + u64::MAX) by (nonlinear_arith);
                }
                total = total + group.paths[i].1 as u128;
                i = i + 1;
            }
            proof {
                assert(gv.take(n as int) =~= gv);
                assert(total as int == covs_total(gv));
            }
            if total == 0 {
                proof {
                    assert(detail_views(details@) =~= spec_entropy_details(
                        gvs.take(k as int + 1),
                    ));
                }
            } else {
                proof {
                    assert(covs_total(gv) <= u64::MAX);
                    assert forall|t: int| 0 <= t < gv.len() implies (#[trigger] gv[t]).cov
                        <= total as int by {
                        lemma_covs_total_elem(gv, t);
                    }
                    lemma_entropy_weighted_bounds(gv, total as int);
                    crate::log2::lemma_log2_millis_u128_bound(total as int);
                }
                let lt = log2_millis(total);
                let mut weighted: u128 = 0;
                let mut i2: usize = 0;
                proof {
                    assert(gv.take(0) =~= Seq::<EntryView>::empty());
                }
                while i2 < n
                    invariant
                        i2 <= n,
                        n == group.paths@.len(),
                        gv == entry_views(group.paths@),
                        1 <= total as int <= u64::MAX,
                        total as int == covs_total(gv),
                        lt as int == log2_millis_spec(total as int),
                        lt <= 127999,
                        forall|t: int|
                            0 <= t < gv.len() ==> (#[trigger] gv[t]).cov <= total as int,
                        weighted as int == entropy_weighted(gv.take(i2 as int), total as int),
                    decreases n - i2,
                {
                    proof {
                        assert(gv.take(i2 as int + 1).drop_last() =~= gv.take(i2 as int));
                        assert(gv.take(i2 as int + 1).last() == gv[i2 as int]);
                        assert(forall|t: int|
                            0 <= t < gv.take(i2 as int + 1).len() ==> #[trigger] gv.take(
                                i2 as int + 1,
                            )[t] == gv[t]);
                        lemma_entropy_weighted_bounds(gv.take(i2 as int + 1), total as int);
                        lemma_covs_total_take(gv, i2 as int + 1);
                        assert(covs_total(gv.take(i2 as int + 1)) * log2_millis_spec(
                            total as int,
                        ) <= covs_total(gv) * log2_millis_spec(total as int)) by {
                            lemma_covs_total_nonneg(gv.take(i2 as int + 1));
                            lemma_mul_inequality(
                                covs_total(gv.take(i2 as int + 1)),
                                covs_total(gv),
                                log2_millis_spec(total as int),
                            );
                            assert(covs_total(gv.take(i2 as int + 1)) * log2_millis_spec(
                                total as int,
                            ) == log2_millis_spec(total as int) * covs_total(
                                gv.take(i2 as int + 1),
                            )) by (nonlinear_arith);
                            assert(covs_total(gv) * log2_millis_spec(total as int)
                                == log2_millis_spec(total as int) * covs_total(gv))
                                by (nonlinear_arith);
                        }
                        assert(covs_total(gv) * log2_millis_spec(total as int) <= (
                        u64::MAX as int) * 127999) by {
                            lemma_covs_total_nonneg(gv);
                            lemma_mul_inequality(covs_total(gv), u64::MAX as int, 127999);
                            assert(covs_total(gv) * log2_millis_spec(total as int)
                                <= covs_total(gv) * 127999) by {
                                if covs_total(gv) > 0 {
                                    lemma_mul_inequality(
                                        log2_millis_spec(total as int),
                                        127999,
                                        covs_total(gv),
                                    );
                                    assert(covs_total(gv) * log2_millis_spec(total as int)
                                        == log2_millis_spec(total as int) * covs_total(gv))
                                        by (nonlinear_arith);
                                    assert(covs_total(gv) * 127999 == 127999 * covs_total(
                                        gv,
                                    )) by (nonlinear_arith);
                                } else {
                                    assert(covs_total(gv) == 0);
                                    assert(0 * log2_millis_spec(total as int) == 0)
                                        by (nonlinear_arith);
                                    assert(0 * 127999 == 0) by (nonlinear_arith);
                                }
                            }
                        }
                    }
                    let cov = group.paths[i2].1;
                    if cov > 0 {
                        proof {
                            assert(gv[i2 as int].cov == cov as nat);
                            assert(1 <= cov as int && cov as int <= total as int);
                            lemma_log2_millis_mono(cov as int, total as int);
                            crate::log2::lemma_log2_millis_nonneg(cov as int);
                            crate::log2::lemma_log2_millis_u128_bound(cov as int);
                        }
                        let lc = log2_millis(cov as u128);
                        let dl = lt - lc;
                        weighted = weighted + (cov as u128) * (dl as u128);
                    }
                    i2 = i2 + 1;
                }
                proof {
                    assert(gv.take(n as int) =~= gv);
                    assert(weighted as int == entropy_weighted(gv, total as int));
                }
                proof {
                    lemma_entropy_weighted_bounds(gv, total as int);
                    assert(weighted as int <= (total as int) * log2_millis_spec(
                        total as int,
                    ));
                    assert((weighted as int) / (total as int) <= log2_millis_spec(
                        total as int,
                    )) by {
                        lemma_multiply_divide_le(
                            weighted as int,
                            total as int,
                            log2_millis_spec(total as int),
                        );
                    }
                }
                let ent = (weighted / total) as u64;
                proof {
                    assert(ent as int == spec_group_entropy(gv));
                    assert(ent <= 127999);
                    assert(0 <= spec_group_entropy(gv)) by {
                        lemma_entropy_nonneg(gv);
                    }
                }
                let ghost old_details = details@;
                details.push((group.paths[0].0.0.clone(), n, ent));
                proof {
                    assert(gv[0].node == group.paths@[0].0.0@);
                    assert(detail_views(details@) =~= detail_views(old_details).push(
                        (gv[0].node, gv.len() as int, spec_group_entropy(gv)),
                    ));
                    assert(detail_views(details@) =~= spec_entropy_details(
                        gvs.take(k as int + 1),
                    ));
                }
            }
        }
        k = k + 1;
    }
    proof {
        assert(gvs.take(groups@.len() as int) =~= gvs);
    }
    let ghost dv = detail_views(details@);
    let mut total_e: u64 = 0;
    let mut t: usize = 0;
    proof {
        assert(dv.take(0) =~= Seq::<(Seq<char>, int, int)>::empty());
        lemma_details_total_bounds(dv);
    }
    while t < details.len()
        invariant
            t <= details@.len(),
            dv == detail_views(details@),
            details@.len() <= 0x100000000,
            forall|t2: int|
                0 <= t2 < details@.len() ==> 0 <= (#[trigger] details@[t2]).2 <= 127999,
            total_e as int == details_total(dv.take(t as int)),
            total_e as int <= (t as int) * 127999,
        decreases details@.len() - t,
    {
        proof {
            assert(dv.take(t as int + 1).drop_last() =~= dv.take(t as int));
            assert(dv.take(t as int + 1).last() == dv[t as int]);
            assert((t as int + 1) * 127999 == (t as int) * 127999 + 127999)
                by (nonlinear_arith);
        }
        total_e = total_e + details[t].2;
        t = t + 1;
    }
    proof {
        assert(dv.take(details@.len() as int) =~= dv);
        assert(total_e as int == details_total(dv));
    }
    let mean: u64 = if details.len() > 0 {
        proof {
            lemma_details_total_bounds(dv);
            lemma_div_pos_is_pos(details_total(dv), dv.len() as int);
            assert(details_total(dv) / dv.len() as int <= 127999) by {
                lemma_mul_inequality(dv.len() as int, dv.len() as int, 127999);
                lemma_multiply_divide_le(details_total(dv), dv.len() as int, 127999);
                assert(dv.len() * 127999 == 127999 * dv.len()) by (nonlinear_arith);
            }
        }
        total_e / (details.len() as u64)
    } else {
        0
    };
    (mean, total_e, details)
}

/// Balance score of one reverse-complement pair, in millibits of a unit:
/// `2 * min(rel_a, rel_b)` for the two relative coverages, so 1000 means
/// perfectly balanced coverage and 0 a completely one-sided pair.
pub open spec fn spec_recomb_score(ca: int, cb: int) -> int {
    (2000 * (if ca <= cb {
        ca
    } else {
        cb
    })) / (ca + cb)
}

/// The score always falls between 0 and 1000.
pub proof fn lemma_score_bounds(ca: int, cb: int)
    requires
        ca >= 0,
        cb >= 0,
        ca + cb > 0,
    ensures
        0 <= spec_recomb_score(ca, cb) <= 1000,
{
    let m: int = if ca <= cb {
        ca
    } else {
        cb
    };
    lemma_div_pos_is_pos(2000 * m, ca + cb);
    assert(2000 * m <= (ca + cb) * 1000);
    lemma_multiply_divide_le(2000 * m, ca + cb, 1000);
}

/// Balance score of one pair, as [`spec_recomb_score`] defines it.
pub fn recomb_score_millis(ca: u64, cb: u64) -> (r: u64)
    requires
        ca as int + cb as int > 0,
    ensures
        r as int == spec_recomb_score(ca as int, cb as int),
        r <= 1000,
{
    let t: u128 = ca as u128 + cb as u128;
    let m: u128 = if ca <= cb {
        ca as u128
    } else {
        cb as u128
    };
    proof {
        lemma_score_bounds(ca as int, cb as int);
        assert(2000 * (m as int) <= (t as int) * 1000);
        lemma_multiply_divide_le(2000 * (m as int), t as int, 1000);
    }
    ((2000 * m) / t) as u64
}

/// Mean balance score of the pairs with positive total coverage, as a
/// running sum and count.
pub open spec fn potential_fold(pairs: Seq<RevPairView>) -> (int, int)
    decreases pairs.len(),
{
    if pairs.len() == 0 {
        (0, 0)
    } else {
        let r = potential_fold(pairs.drop_last());
        let p = pairs.last();
        if p.cov_a + p.cov_b == 0 {
            r
        } else {
            (r.0 + spec_recomb_score(p.cov_a as int, p.cov_b as int), r.1 + 1)
        }
    }
}

/// Mean balance score over all pairs with coverage, zero when there is
/// none.
pub open spec fn spec_recomb_potential(pairs: Seq<RevPairView>) -> int {
    let r = potential_fold(pairs);
    if r.1 > 0 {
        r.0 / r.1
    } else {
        0
    }
}

/// The running sum of scores stays within the scaled count.
pub proof fn lemma_potential_fold_bounds(pairs: Seq<RevPairView>)
    ensures
        0 <= potential_fold(pairs).1 <= pairs.len(),
        0 <= potential_fold(pairs).0 <= potential_fold(pairs).1 * 1000,
    decreases pairs.len(),
{
    if pairs.len() > 0 {
        lemma_potential_fold_bounds(pairs.drop_last());
        let p = pairs.last();
        let r = potential_fold(pairs.drop_last());
        if p.cov_a + p.cov_b != 0 {
            lemma_score_bounds(p.cov_a as int, p.cov_b as int);
            assert((r.1 + 1) * 1000 == r.1 * 1000 + 1000) by (nonlinear_arith);
        }
    }
}

/// Mean recombination potential of the matched pairs, in millibits of a
/// unit, exactly as [`spec_recomb_potential`] says; pairs without any
/// coverage are skipped, and an empty list gives zero.
pub fn recombination_potential_millis(revcomps: &Vec<(String, u64, String, u64)>) -> (r: u64)
    ensures
        r as int == spec_recomb_potential(rev_pair_views(revcomps@)),
        revcomps@.len() == 0 ==> r == 0,
{
    let ghost pvs = rev_pair_views(revcomps@);
    let mut sum: u128 = 0;
    let mut n: u128 = 0;
    let mut i: usize = 0;
    proof {
        assert(pvs.take(0) =~= Seq::<RevPairView>::empty());
    }
    while i < revcomps.len()
        invariant
            i <= revcomps@.len(),
            pvs == rev_pair_views(revcomps@),
            sum as int == potential_fold(pvs.take(i as int)).0,
            n as int == potential_fold(pvs.take(i as int)).1,
            n <= i,
            sum as int <= (n as int) * 1000,
        decreases revcomps@.len() - i,
    {
        proof {
            assert(pvs.take(i as int + 1).drop_last() =~= pvs.take(i as int));
            assert(pvs.take(i as int + 1).last() == pvs[i as int]);
            assert((n as int + 1) * 1000 == (n as int) * 1000 + 1000) by (nonlinear_arith);
        }
        let ca = revcomps[i].1;
        let cb = revcomps[i].3;
        if ca as u128 + cb as u128 > 0 {
            let s = recomb_score_millis(ca, cb);
            sum = sum + s as u128;
            n = n + 1;
        }
        i = i + 1;
    }
    proof {
        assert(pvs.take(revcomps@.len() as int) =~= pvs);
    }
    if n > 0 {
        proof {
            lemma_div_pos_is_pos(sum as int, n as int);
            lemma_multiply_divide_le(sum as int, n as int, 1000);
        }
        (sum / n) as u64
    } else {
        0
    }
}

/// Per-repeat accumulation for the recombination complexity index: the
/// focal repeat id, the sum and count of its pair scores, and twice the
/// number of its pairs.
pub struct RciGroupView {
    pub node: Seq<char>,
    pub score_sum: int,
    pub n_scores: int,
    pub path_count: int,
}

/// Index of the accumulator for `node`, or a negative value when there is
/// none.
pub open spec fn find_rci(gs: Seq<RciGroupView>, node: Seq<char>) -> int
    decreases gs.len(),
{
    if gs.len() == 0 {
        -1
    } else if gs[0].node == node {
        0
    } else {
        let r = find_rci(gs.drop_first(), node);
        if r < 0 {
            -1
        } else {
            1 + r
        }
    }
}

/// `find_rci` returns the first matching index, or a negative value
/// exactly when no accumulator matches.
pub proof fn lemma_find_rci(gs: Seq<RciGroupView>, node: Seq<char>)
    ensures
        find_rci(gs, node) < 0 ==> forall|j: int|
            0 <= j < gs.len() ==> (#[trigger] gs[j]).node != node,
        find_rci(gs, node) >= 0 ==> 0 <= find_rci(gs, node) < gs.len() && gs[find_rci(
            gs,
            node,
        )].node == node,
        forall|j: int| 0 <= j < find_rci(gs, node) ==> (#[trigger] gs[j]).node != node,
    decreases gs.len(),
{
    if gs.len() > 0 {
        let t = gs.drop_first();
        lemma_find_rci(t, node);
        assert(forall|j: int| 0 <= j < t.len() ==> #[trigger] t[j] == gs[j + 1]);
        if gs[0].node != node {
            let rt = find_rci(t, node);
            if rt >= 0 {
                assert(gs[1 + rt] == t[rt]);
                assert forall|j: int|
                    0 <= j < 1 + rt implies (#[trigger] gs[j]).node != node by {
                    if j > 0 {
                        assert(gs[j] == t[j - 1]);
                    }
                }
            } else {
                assert forall|j: int|
                    0 <= j < gs.len() implies (#[trigger] gs[j]).node != node by {
                    if j > 0 {
                        assert(gs[j] == t[j - 1]);
                    }
                }
            }
        }
    }
}

/// Grouping of the matched pairs for the index: walk the pairs in order;
/// each pair with coverage whose two texts are valid paths over the same
/// focal repeat adds its score and two paths to that repeat's
/// accumulator, created at the end on first sight.
pub open spec fn rci_fold(pairs: Seq<RevPairView>) -> Seq<RciGroupView>
    decreases pairs.len(),
{
    if pairs.len() == 0 {
        Seq::empty()
    } else {
        let gs = rci_fold(pairs.drop_last());
        let p = pairs.last();
        if p.cov_a + p.cov_b == 0 {
            gs
        } else if spec_parse_path(p.text_a) is Some && spec_parse_path(p.text_b) is Some
            && spec_parse_path(p.text_a)->Some_0.focal.segid == spec_parse_path(
            p.text_b,
        )->Some_0.focal.segid {
            let node = spec_parse_path(p.text_a)->Some_0.focal.segid;
            let s = spec_recomb_score(p.cov_a as int, p.cov_b as int);
            let j = find_rci(gs, node);
            if j < 0 {
                gs.push(RciGroupView { node, score_sum: s, n_scores: 1, path_count: 2 })
            } else {
                gs.update(
                    j,
                    RciGroupView {
                        node: gs[j].node,
                        score_sum: gs[j].score_sum + s,
                        n_scores: gs[j].n_scores + 1,
                        path_count: gs[j].path_count + 2,
                    },
                )
            }
        } else {
            gs
        }
    }
}

/// Every accumulator holds at least one score, twice as many paths as
/// scores, and a score sum within the scaled count.
pub proof fn lemma_rci_fold_wf(pairs: Seq<RevPairView>)
    ensures
        forall|k: int|
            0 <= k < rci_fold(pairs).len() ==> {
                let g = #[trigger] rci_fold(pairs)[k];
                &&& 1 <= g.n_scores <= pairs.len()
                &&& g.path_count == 2 * g.n_scores
                &&& 0 <= g.score_sum <= g.n_scores * 1000
            },
    decreases pairs.len(),
{
    if pairs.len() > 0 {
        lemma_rci_fold_wf(pairs.drop_last());
        let gs = rci_fold(pairs.drop_last());
        let c = rci_fold(pairs);
        let p = pairs.last();
        if p.cov_a + p.cov_b != 0 && spec_parse_path(p.text_a) is Some && spec_parse_path(
            p.text_b,
        ) is Some && spec_parse_path(p.text_a)->Some_0.focal.segid == spec_parse_path(
            p.text_b,
        )->Some_0.focal.segid {
            let node = spec_parse_path(p.text_a)->Some_0.focal.segid;
            let s = spec_recomb_score(p.cov_a as int, p.cov_b as int);
            lemma_score_bounds(p.cov_a as int, p.cov_b as int);
            let j = find_rci(gs, node);
            assert forall|k: int|
                0 <= k < c.len() implies {
                let g = #[trigger] c[k];
                &&& 1 <= g.n_scores <= pairs.len()
                &&& g.path_count == 2 * g.n_scores
                &&& 0 <= g.score_sum <= g.n_scores * 1000
            } by {
                if j < 0 {
                    if k < gs.len() {
                        assert(c[k] == gs[k]);
                    } else {
                        assert(c[k].n_scores == 1);
                    }
                } else {
                    lemma_find_rci(gs, node);
                    if k != j {
                        assert(c[k] == gs[k]);
                    } else {
                        assert((gs[j].n_scores + 1) * 1000 == gs[j].n_scores * 1000 + 1000)
                            by (nonlinear_arith);
                    }
                }
            }
        }
    }
}

/// Contributions to the index: every accumulator with more than one path
/// adds its mean score weighted by the logarithm of its path count.
pub open spec fn rci_contrib_total(gs: Seq<RciGroupView>) -> (int, int)
    decreases gs.len(),
{
    if gs.len() == 0 {
        (0, 0)
    } else {
        let r = rci_contrib_total(gs.drop_last());
        let g = gs.last();
        if g.n_scores > 0 && g.path_count > 1 {
            (
                r.0 + ((g.score_sum / g.n_scores) * log2_millis_spec(g.path_count)) / 1000,
                r.1 + 1,
            )
        } else {
            r
        }
    }
}

/// The recombination complexity index of the matched pairs: the mean over
/// all contributing repeats of their contribution, zero when none
/// contributes.
pub open spec fn spec_rci(pairs: Seq<RevPairView>) -> int {
    let r = rci_contrib_total(rci_fold(pairs));
    if r.1 > 0 {
        r.0 / r.1
    } else {
        0
    }
}

/// Views of a vector of index accumulators.
pub open spec fn rci_views(v: Seq<(String, (u128, u128, u128))>) -> Seq<RciGroupView> {
    v.map_values(
        |e: (String, (u128, u128, u128))| RciGroupView {
            node: e.0@,
            score_sum: e.1.0 as int,
            n_scores: e.1.1 as int,
            path_count: e.1.2 as int,
        },
    )
}

/// Index of the accumulator for `node`, as `find_rci` determines it, or
/// nothing when there is none.
fn find_rci_index(acc: &Vec<(String, (u128, u128, u128))>, node: &String) -> (r: Option<
    usize,
>)
    ensures
        r matches Some(j) ==> find_rci(rci_views(acc@), node@) == j as int,
        r is None ==> find_rci(rci_views(acc@), node@) < 0,
{
    let ghost gs = rci_views(acc@);
    proof {
        lemma_find_rci(gs, node@);
    }
    let mut j: usize = 0;
    while j < acc.len()
        invariant
            j <= acc@.len(),
            gs == rci_views(acc@),
            forall|k: int| 0 <= k < j ==> (#[trigger] gs[k]).node != node@,
        decreases acc@.len() - j,
    {
        if acc[j].0 == *node {
            proof {
                lemma_find_rci(gs, node@);
                let r = find_rci(gs, node@);
                if r < 0 {
                    assert(gs[j as int].node != node@);
                }
                if r > j as int {
                    assert(gs[j as int].node != node@);
                }
                if 0 <= r < j as int {
                    assert(gs[r].node != node@);
                }
            }
            return Some(j);
        }
        j = j + 1;
    }
    proof {
        let r = find_rci(gs, node@);
        if r >= 0 {
            assert(gs[r].node != node@);
        }
    }
    None
}

/// The recombination complexity index over the matched pairs, in
/// millibits, exactly as [`spec_rci`] says: per repeat with at least one
/// pair, the mean pair score weighted by the logarithm of twice its pair
/// count, averaged over those repeats; an empty pair list gives exactly
/// zero.
pub fn compute_rci(revcomps: &Vec<(String, u64, String, u64)>) -> (r: u64)
    ensures
        r as int == spec_rci(rev_pair_views(revcomps@)),
        revcomps@.len() == 0 ==> r == 0,
{
    let ghost pvs = rev_pair_views(revcomps@);
    let mut acc: Vec<(String, (u128, u128, u128))> = Vec::new();
    let mut i: usize = 0;
    proof {
        assert(pvs.take(0) =~= Seq::<RevPairView>::empty());
        assert(rci_views(acc@) =~= rci_fold(pvs.take(0)));
    }
    while i < revcomps.len()
        invariant
            i <= revcomps@.len(),
            pvs == rev_pair_views(revcomps@),
            rci_views(acc@) == rci_fold(pvs.take(i as int)),
            forall|k: int|
                0 <= k < acc@.len() ==> {
                    let e = #[trigger] acc@[k];
                    &&& 1 <= e.1.1 <= i
                    &&& e.1.2 == 2 * e.1.1
                    &&& e.1.0 <= (e.1.1 as int) * 1000
                },
        decreases revcomps@.len() - i,
    {
        proof {
            assert(pvs.take(i as int + 1).drop_last() =~= pvs.take(i as int));
            assert(pvs.take(i as int + 1).last() == pvs[i as int]);
        }
        let ca = revcomps[i].1;
        let cb = revcomps[i].3;
        if ca as u128 + cb as u128 > 0 {
            let score = recomb_score_millis(ca, cb);
            let info = crate::path::extract_repeat_info(
                revcomps[i].0.as_str(),
                revcomps[i].2.as_str(),
            );
            match info.0 {
                Some(node) => {
                    let ghost old_acc = rci_views(acc@);
                    proof {
                        assert(spec_parse_path(pvs[i as int].text_a) is Some);
                        assert(node@ == spec_parse_path(pvs[i as int].text_a)->Some_0
                            .focal.segid);
                    }
                    match find_rci_index(&acc, &node) {
                        Some(j) => {
                            proof {
                                lemma_find_rci(old_acc, node@);
                            }
                            let name = acc[j].0.clone();
                            let s0 = acc[j].1.0;
                            let n0 = acc[j].1.1;
                            let pc0 = acc[j].1.2;
                            proof {
                                assert((n0 as int + 1) * 1000 == (n0 as int) * 1000 + 1000)
                                    by (nonlinear_arith);
                            }
                            acc[j] = (name, (s0 + score as u128, n0 + 1, pc0 + 2));
                            proof {
                                assert(rci_views(acc@) =~= old_acc.update(
                                    j as int,
                                    RciGroupView {
                                        node: old_acc[j as int].node,
                                        score_sum: old_acc[j as int].score_sum
                                            + score as int,
                                        n_scores: old_acc[j as int].n_scores + 1,
                                        path_count: old_acc[j as int].path_count + 2,
                                    },
                                ));
                                assert(rci_views(acc@) =~= rci_fold(pvs.take(i as int + 1)));
                            }
                        },
                        None => {
                            acc.push((node, (score as u128, 1, 2)));
                            proof {
                                assert(rci_views(acc@) =~= old_acc.push(
                                    RciGroupView {
                                        node: spec_parse_path(pvs[i as int].text_a)->Some_0
                                            .focal.segid,
                                        score_sum: score as int,
                                        n_scores: 1,
                                        path_count: 2,
                                    },
                                ));
                                assert(rci_views(acc@) =~= rci_fold(pvs.take(i as int + 1)));
                            }
                        },
                    }
                },
                None => {
                    proof {
                        assert(rci_views(acc@) =~= rci_fold(pvs.take(i as int + 1)));
                    }
                },
            }
        } else {
            proof {
                assert(rci_views(acc@) =~= rci_fold(pvs.take(i as int + 1)));
            }
        }
        i = i + 1;
    }
    proof {
        assert(pvs.take(revcomps@.len() as int) =~= pvs);
    }
    let ghost gs = rci_views(acc@);
    proof {
        lemma_rci_fold_wf(pvs);
        assert(gs.take(0) =~= Seq::<RciGroupView>::empty());
    }
    let mut total: u128 = 0;
    let mut nrep: u128 = 0;
    let mut k: usize = 0;
    while k < acc.len()
        invariant
            k <= acc@.len(),
            gs == rci_views(acc@),
            gs == rci_fold(pvs),
            total as int == rci_contrib_total(gs.take(k as int)).0,
            nrep as int == rci_contrib_total(gs.take(k as int)).1,
            nrep <= k,
            total as int <= (nrep as int) * 127999,
        decreases acc@.len() - k,
    {
        proof {
            assert(gs.take(k as int + 1).drop_last() =~= gs.take(k as int));
            assert(gs.take(k as int + 1).last() == gs[k as int]);
            lemma_rci_fold_wf(pvs);
        }
        let ssum = acc[k].1.0;
        let n = acc[k].1.1;
        let pc = acc[k].1.2;
        if n > 0 && pc > 1 {
            proof {
                assert(ssum as int <= (n as int) * 1000);
                lemma_multiply_divide_le(ssum as int, n as int, 1000);
                crate::log2::lemma_log2_millis_u128_bound(pc as int);
            }
            let sr = ssum / n;
            let lpc = log2_millis(pc);
            proof {
                assert((sr as int) * (lpc as int) <= 1000 * 127999) by {
                    lemma_mul_inequality(sr as int, 1000, lpc as int);
                    lemma_mul_inequality(lpc as int, 127999, 1000);
                    assert(lpc as int * 1000 == 1000 * (lpc as int)) by (nonlinear_arith);
                }
                lemma_multiply_divide_le((sr as int) * (lpc as int), 1000, 127999);
                lemma_div_pos_is_pos((sr as int) * (lpc as int), 1000);
                assert((sr as int) * (lpc as int) >= 0) by {
                    lemma_mul_nonnegative(sr as int, lpc as int);
                }
                assert((nrep as int + 1) * 127999 == (nrep as int) * 127999 + 127999)
                    by (nonlinear_arith);
            }
            let share = (sr * (lpc as u128)) / 1000;
            total = total + share;
            nrep = nrep + 1;
        }
        k = k + 1;
    }
    proof {
        assert(gs.take(acc@.len() as int) =~= gs);
    }
    if nrep > 0 {
        proof {
            lemma_div_pos_is_pos(total as int, nrep as int);
            lemma_multiply_divide_le(total as int, nrep as int, 127999);
        }
        (total / nrep) as u64
    } else {
        0
    }
}

} // verus!
