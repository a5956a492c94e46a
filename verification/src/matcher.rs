//! Greedy pairing of reverse-complement alignment paths within each
//! repeat group.

use vstd::prelude::*;

verus! {

use crate::aggregate::{entry_views, groups_views, string_views, EntryView, Paths};
use crate::path::{encode_path, spec_is_reverse};

/// Mathematical image of one matched pair: the two canonical path texts
/// and their coverages.
pub struct RevPairView {
    pub text_a: Seq<char>,
    pub cov_a: nat,
    pub text_b: Seq<char>,
    pub cov_b: nat,
}

/// Views of a vector of matched pairs.
pub open spec fn rev_pair_views(v: Seq<(String, u64, String, u64)>) -> Seq<RevPairView> {
    v.map_values(
        |e: (String, u64, String, u64)| RevPairView {
            text_a: e.0@,
            cov_a: e.1 as nat,
            text_b: e.2@,
            cov_b: e.3 as nat,
        },
    )
}

/// One comparison of the greedy matcher: when the two entries are reverse
/// complements and neither canonical text has been consumed yet, emit the
/// pair and consume both texts; otherwise leave the state alone.
pub open spec fn pair_step(
    entries: Seq<EntryView>,
    i: int,
    j: int,
    st: (Seq<RevPairView>, Seq<Seq<char>>),
) -> (Seq<RevPairView>, Seq<Seq<char>>) {
    let ta = encode_path(entries[i].path);
    let tb = encode_path(entries[j].path);
    if spec_is_reverse(entries[i].path, entries[j].path) && !st.1.contains(ta)
        && !st.1.contains(tb) {
        (
            st.0.push(
                RevPairView {
                    text_a: ta,
                    cov_a: entries[i].cov,
                    text_b: tb,
                    cov_b: entries[j].cov,
                },
            ),
            st.1.push(ta).push(tb),
        )
    } else {
        st
    }
}

/// The matcher state after comparing entry `i` against entries
/// `i + 1 .. j`, started from `st`.
pub open spec fn inner_upto(
    entries: Seq<EntryView>,
    i: int,
    j: int,
    st: (Seq<RevPairView>, Seq<Seq<char>>),
) -> (Seq<RevPairView>, Seq<Seq<char>>)
    decreases j - i,
{
    if j <= i + 1 {
        st
    } else {
        pair_step(entries, i, j - 1, inner_upto(entries, i, j - 1, st))
    }
}

/// The matcher state after the first `i` outer rounds over a group.
pub open spec fn outer_upto(entries: Seq<EntryView>, i: int) -> (
    Seq<RevPairView>,
    Seq<Seq<char>>,
)
    decreases i,
{
    if i <= 0 {
        (Seq::empty(), Seq::empty())
    } else {
        inner_upto(entries, i - 1, entries.len() as int, outer_upto(entries, i - 1))
    }
}

/// All pairs the greedy matcher finds within one group: each entry is
/// compared against all entries after it, in order, and each canonical
/// path text is consumed by at most one pair.
pub open spec fn match_group_spec(entries: Seq<EntryView>) -> Seq<RevPairView> {
    outer_upto(entries, entries.len() as int).0
}

/// The pairs of all groups, group by group.
pub open spec fn match_groups_spec(groups: Seq<Seq<EntryView>>) -> Seq<RevPairView>
    decreases groups.len(),
{
    if groups.len() == 0 {
        Seq::empty()
    } else {
        match_groups_spec(groups.drop_last()) + match_group_spec(groups.last())
    }
}

/// Whether a pair consumed the canonical text `t`.
pub open spec fn pair_uses(p: RevPairView, t: Seq<char>) -> bool {
    p.text_a == t || p.text_b == t
}

/// A well-formed matcher state: every text a pair consumed is on the used
/// list, and no two pairs consumed the same text.
pub open spec fn state_wf(st: (Seq<RevPairView>, Seq<Seq<char>>)) -> bool {
    &&& forall|k: int, t: Seq<char>|
        0 <= k < st.0.len() && #[trigger] pair_uses(st.0[k], t) ==> st.1.contains(t)
    &&& forall|k1: int, k2: int, t: Seq<char>|
        #![trigger pair_uses(st.0[k1], t), pair_uses(st.0[k2], t)]
        0 <= k1 < k2 < st.0.len() ==> !(pair_uses(st.0[k1], t) && pair_uses(st.0[k2], t))
}

/// One comparison preserves well-formedness.
proof fn lemma_pair_step_wf(
    entries: Seq<EntryView>,
    i: int,
    j: int,
    st: (Seq<RevPairView>, Seq<Seq<char>>),
)
    requires
        state_wf(st),
    ensures
        state_wf(pair_step(entries, i, j, st)),
{
    let ta = encode_path(entries[i].path);
    let tb = encode_path(entries[j].path);
    let new = pair_step(entries, i, j, st);
    if spec_is_reverse(entries[i].path, entries[j].path) && !st.1.contains(ta)
        && !st.1.contains(tb) {
        let p = RevPairView {
            text_a: ta,
            cov_a: entries[i].cov,
            text_b: tb,
            cov_b: entries[j].cov,
        };
        assert forall|k: int, t: Seq<char>|
            0 <= k < new.0.len() && #[trigger] pair_uses(new.0[k], t) implies new.1.contains(
            t,
        ) by {
            if k < st.0.len() {
                assert(new.0[k] == st.0[k]);
                assert(st.1.contains(t));
                let w = choose|w: int| 0 <= w < st.1.len() && st.1[w] == t;
                assert(new.1[w] == t);
            } else {
                assert(new.0[k] == p);
                if t == ta {
                    assert(new.1[st.1.len() as int] == ta);
                } else {
                    assert(new.1[st.1.len() as int + 1] == tb);
                }
            }
        }
        assert forall|k1: int, k2: int, t: Seq<char>|
            #![trigger pair_uses(new.0[k1], t), pair_uses(new.0[k2], t)]
            0 <= k1 < k2 < new.0.len() implies !(pair_uses(new.0[k1], t) && pair_uses(
            new.0[k2],
            t,
        )) by {
            if k2 == st.0.len() {
                assert(new.0[k1] == st.0[k1]);
                assert(new.0[k2] == p);
                if pair_uses(st.0[k1], t) && pair_uses(p, t) {
                    assert(st.1.contains(t));
                }
            } else {
                assert(new.0[k1] == st.0[k1]);
                assert(new.0[k2] == st.0[k2]);
            }
        }
    }
}

/// All inner comparisons preserve well-formedness.
proof fn lemma_inner_upto_wf(
    entries: Seq<EntryView>,
    i: int,
    j: int,
    st: (Seq<RevPairView>, Seq<Seq<char>>),
)
    requires
        state_wf(st),
    ensures
        state_wf(inner_upto(entries, i, j, st)),
    decreases j - i,
{
    if j > i + 1 {
        lemma_inner_upto_wf(entries, i, j - 1, st);
        lemma_pair_step_wf(entries, i, j - 1, inner_upto(entries, i, j - 1, st));
    }
}

/// The matcher state is well formed after any number of outer rounds.
proof fn lemma_outer_upto_wf(entries: Seq<EntryView>, i: int)
    ensures
        state_wf(outer_upto(entries, i)),
    decreases i,
{
    if i > 0 {
        lemma_outer_upto_wf(entries, i - 1);
        lemma_inner_upto_wf(entries, i - 1, entries.len() as int, outer_upto(entries, i - 1));
    }
}

/// Consumption is exclusive: within a group, no two matched pairs consume
/// the same canonical path text — once a path is used by a pair, it is
/// excluded from all further pairing in that group.
pub proof fn lemma_pairs_consume_paths_once(entries: Seq<EntryView>)
    ensures
        forall|k1: int, k2: int, t: Seq<char>|
            #![trigger pair_uses(match_group_spec(entries)[k1], t), pair_uses(match_group_spec(entries)[k2], t)]
            0 <= k1 < k2 < match_group_spec(entries).len() ==> !(pair_uses(
                match_group_spec(entries)[k1],
                t,
            ) && pair_uses(match_group_spec(entries)[k2], t)),
{
    lemma_outer_upto_wf(entries, entries.len() as int);
}

/// Pair up reverse-complement paths within each repeat group.
///
/// Within a group, every path is compared against every path after it;
/// a pair is emitted when the two are reverse complements and neither has
/// been used by an earlier pair, exactly as [`match_groups_spec`] says.
/// Each emitted tuple carries the canonical texts and coverages of its
/// two paths.
pub fn match_revcomp_pairs(all_paths: &Vec<Paths>) -> (r: Vec<(String, u64, String, u64)>)
    ensures
        rev_pair_views(r@) == match_groups_spec(groups_views(all_paths@)),
{
    let ghost gvs = groups_views(all_paths@);
    let mut out: Vec<(String, u64, String, u64)> = Vec::new();
    let mut g: usize = 0;
    proof {
        assert(gvs.take(0) =~= Seq::<Seq<EntryView>>::empty());
        assert(rev_pair_views(out@) =~= match_groups_spec(gvs.take(0)));
    }
    while g < all_paths.len()
        invariant
            g <= all_paths@.len(),
            gvs == groups_views(all_paths@),
            rev_pair_views(out@) == match_groups_spec(gvs.take(g as int)),
        decreases all_paths@.len() - g,
    {
        let ghost prev = rev_pair_views(out@);
        let ghost ev = gvs[g as int];
        let group = &all_paths[g];
        proof {
            assert(ev == entry_views(group.paths@));
        }
        let mut used: Vec<String> = Vec::new();
        let n = group.paths.len();
        let mut i: usize = 0;
        proof {
            assert(string_views(used@) =~= outer_upto(ev, 0).1);
            assert(rev_pair_views(out@) =~= prev + outer_upto(ev, 0).0);
        }
        while i < n
            invariant
                i <= n,
                n == group.paths@.len(),
                ev == entry_views(group.paths@),
                rev_pair_views(out@) == prev + outer_upto(ev, i as int).0,
                string_views(used@) == outer_upto(ev, i as int).1,
            decreases n - i,
        {
            let mut j: usize = i + 1;
            proof {
                assert(inner_upto(ev, i as int, j as int, outer_upto(ev, i as int))
                    == outer_upto(ev, i as int));
            }
            while j < n
                invariant
                    i < n,
                    i + 1 <= j <= n,
                    n == group.paths@.len(),
                    ev == entry_views(group.paths@),
                    rev_pair_views(out@) == prev + inner_upto(
                        ev,
                        i as int,
                        j as int,
                        outer_upto(ev, i as int),
                    ).0,
                    string_views(used@) == inner_upto(
                        ev,
                        i as int,
                        j as int,
                        outer_upto(ev, i as int),
                    ).1,
                decreases n - j,
            {
                let ghost st = inner_upto(ev, i as int, j as int, outer_upto(ev, i as int));
                let is_rev = group.paths[i].0.1.is_reverse(&group.paths[j].0.1);
                if is_rev {
                    let ci = group.paths[i].0.1.canonical_string();
                    let cj = group.paths[j].0.1.canonical_string();
                    let used_i = crate::aggregate::contains_string(&used, &ci);
                    let used_j = crate::aggregate::contains_string(&used, &cj);
                    if !used_i && !used_j {
                        let ghost old_out = out@;
                        let ghost old_used = used@;
                        out.push((ci, group.paths[i].1, cj, group.paths[j].1));
                        let ci2 = group.paths[i].0.1.canonical_string();
                        let cj2 = group.paths[j].0.1.canonical_string();
                        used.push(ci2);
                        used.push(cj2);
                        proof {
                            assert(rev_pair_views(out@) =~= rev_pair_views(old_out).push(
                                RevPairView {
                                    text_a: encode_path(ev[i as int].path),
                                    cov_a: ev[i as int].cov,
                                    text_b: encode_path(ev[j as int].path),
                                    cov_b: ev[j as int].cov,
                                },
                            ));
                            assert(string_views(used@) =~= string_views(old_used).push(
                                encode_path(ev[i as int].path),
                            ).push(encode_path(ev[j as int].path)));
                            assert(rev_pair_views(out@) =~= prev + inner_upto(
                                ev,
                                i as int,
                                j as int + 1,
                                outer_upto(ev, i as int),
                            ).0);
                            assert(string_views(used@) =~= inner_upto(
                                ev,
                                i as int,
                                j as int + 1,
                                outer_upto(ev, i as int),
                            ).1);
                        }
                    } else {
                        proof {
                            assert(inner_upto(
                                ev,
                                i as int,
                                j as int + 1,
                                outer_upto(ev, i as int),
                            ) == st);
                        }
                    }
                } else {
                    proof {
                        assert(inner_upto(
                            ev,
                            i as int,
                            j as int + 1,
                            outer_upto(ev, i as int),
                        ) == st);
                    }
                }
                j = j + 1;
            }
            proof {
                assert(outer_upto(ev, i as int + 1) == inner_upto(
                    ev,
                    i as int,
                    n as int,
                    outer_upto(ev, i as int),
                ));
            }
            i = i + 1;
        }
        proof {
            assert(gvs.take(g as int + 1).drop_last() =~= gvs.take(g as int));
            assert(gvs.take(g as int + 1).last() == gvs[g as int]);
            assert(rev_pair_views(out@) == match_groups_spec(gvs.take(g as int + 1)));
        }
        g = g + 1;
    }
    proof {
        assert(gvs.take(all_paths@.len() as int) =~= gvs);
    }
    out
}

} // verus!
