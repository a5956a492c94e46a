//! Aggregation of alignment paths: coverage entries keyed by focal repeat
//! and path, grouped per repeat in first-seen order.

use vstd::prelude::*;

verus! {

use crate::path::{
    Path,
    PathError,
    PathView,
    lemma_parse_steps_some,
    lemma_three_steps_path,
    parse_steps,
    spec_parse_path,
    spec_parse_steps,
    step_views,
    string_to_path,
};
use vstd::pervasive::unreached;

/// Mathematical image of one aggregated path entry: the focal repeat id it
/// is filed under, the parsed path, and its accumulated coverage.
pub struct EntryView {
    pub node: Seq<char>,
    pub path: PathView,
    pub cov: nat,
}

/// Views of a vector of aggregated entries.
pub open spec fn entry_views(v: Seq<((String, Path), u64)>) -> Seq<EntryView> {
    v.map_values(
        |e: ((String, Path), u64)| EntryView { node: e.0.0@, path: e.0.1@, cov: e.1 as nat },
    )
}

/// Views of a vector of strings.
pub open spec fn string_views(v: Seq<String>) -> Seq<Seq<char>> {
    v.map_values(|x: String| x@)
}

/// The distinct repeat ids of `entries`, in first-seen order.
pub open spec fn first_seen_nodes(entries: Seq<EntryView>) -> Seq<Seq<char>>
    decreases entries.len(),
{
    if entries.len() == 0 {
        Seq::empty()
    } else {
        let u = first_seen_nodes(entries.drop_last());
        if u.contains(entries.last().node) {
            u
        } else {
            u.push(entries.last().node)
        }
    }
}

/// The entries filed under one repeat id, in their original order.
pub open spec fn entries_with_node(entries: Seq<EntryView>, node: Seq<char>) -> Seq<
    EntryView,
>
    decreases entries.len(),
{
    if entries.len() == 0 {
        Seq::empty()
    } else {
        let r = entries_with_node(entries.drop_last(), node);
        if entries.last().node == node {
            r.push(entries.last())
        } else {
            r
        }
    }
}

/// Total coverage of a group: the sum of its entries' counts.
pub open spec fn covs_total(g: Seq<EntryView>) -> int
    decreases g.len(),
{
    if g.len() == 0 {
        0
    } else {
        covs_total(g.drop_last()) + g.last().cov
    }
}

/// Selecting one repeat id's entries never increases the coverage sum.
pub proof fn lemma_filter_covs(entries: Seq<EntryView>, node: Seq<char>)
    ensures
        0 <= covs_total(entries_with_node(entries, node)) <= covs_total(entries),
    decreases entries.len(),
{
    if entries.len() == 0 {
    } else {
        lemma_filter_covs(entries.drop_last(), node);
        if entries.last().node == node {
            let r = entries_with_node(entries.drop_last(), node);
            assert(r.push(entries.last()).drop_last() =~= r);
            assert(r.push(entries.last()).last() == entries.last());
        }
    }
}

/// Grouping of entries by repeat id: one group per distinct id in
/// first-seen order, holding that id's entries in their original order.
pub open spec fn spec_group(entries: Seq<EntryView>) -> Seq<Seq<EntryView>> {
    Seq::new(
        first_seen_nodes(entries).len(),
        |k: int| entries_with_node(entries, first_seen_nodes(entries)[k]),
    )
}

/// Views of a vector of groups.
pub open spec fn groups_views(v: Seq<Paths>) -> Seq<Seq<EntryView>> {
    v.map_values(|p: Paths| entry_views(p.paths@))
}

/// Every entry selected for a node carries that node, and every id that
/// was seen selects at least one entry, the first of which put it on the
/// first-seen list.
pub proof fn lemma_group_shape(entries: Seq<EntryView>, node: Seq<char>)
    ensures
        forall|i: int|
            0 <= i < entries_with_node(entries, node).len()
                ==> #[trigger] entries_with_node(entries, node)[i].node == node,
        first_seen_nodes(entries).contains(node) ==> entries_with_node(entries, node).len()
            > 0,
    decreases entries.len(),
{
    if entries.len() > 0 {
        lemma_group_shape(entries.drop_last(), node);
        let u = first_seen_nodes(entries.drop_last());
        if first_seen_nodes(entries).contains(node) && entries.last().node != node {
            if !u.contains(node) {
                assert(first_seen_nodes(entries) == u.push(entries.last().node));
                let k = choose|k: int|
                    0 <= k < first_seen_nodes(entries).len() && first_seen_nodes(
                        entries,
                    )[k] == node;
                assert(u.push(entries.last().node)[k] == node);
                assert(k == u.len());
                assert(false);
            }
        }
    }
}

/// A set of alignment paths through repeats, each with the repeat id it is
/// filed under and its coverage count.
#[derive(Debug)]
pub struct Paths {
    pub paths: Vec<((String, Path), u64)>,
}

impl Paths {
    /// Wrap a vector of entries.
    pub fn new(inner: Vec<((String, Path), u64)>) -> (r: Paths)
        ensures
            r.paths@ == inner@,
    {
        Paths { paths: inner }
    }

    /// Parse a vector of `((repeat id, path text), coverage)` records into
    /// path entries.  Succeeds exactly when every path text is a valid
    /// three-step path; the entries keep order, ids and coverages.
    pub fn from_vec(vec: Vec<((String, String), u64)>) -> (r: Result<Paths, PathError>)
        ensures
            r matches Ok(ps) ==> {
                &&& ps.paths@.len() == vec@.len()
                &&& forall|i: int|
                    0 <= i < vec@.len() ==> spec_parse_path(
                        (#[trigger] vec@[i]).0.1@,
                    ) is Some
                &&& forall|i: int|
                    0 <= i < vec@.len() ==> {
                        let e = #[trigger] entry_views(ps.paths@)[i];
                        &&& e.node == vec@[i].0.0@
                        &&& Some(e.path) == spec_parse_path(vec@[i].0.1@)
                        &&& e.cov == vec@[i].1 as nat
                    }
            },
            r matches Err(e) ==> e == PathError::MalformedPath && (exists|i: int|
                0 <= i < vec@.len() && spec_parse_path((#[trigger] vec@[i]).0.1@) is None),
    {
        let mut paths: Vec<((String, Path), u64)> = Vec::new();
        let mut i: usize = 0;
        while i < vec.len()
            invariant
                i <= vec@.len(),
                paths@.len() == i,
                forall|k: int|
                    0 <= k < i ==> spec_parse_path((#[trigger] vec@[k]).0.1@) is Some,
                forall|k: int|
                    0 <= k < i ==> {
                        let e = #[trigger] entry_views(paths@)[k];
                        &&& e.node == vec@[k].0.0@
                        &&& Some(e.path) == spec_parse_path(vec@[k].0.1@)
                        &&& e.cov == vec@[k].1 as nat
                    },
            decreases vec@.len() - i,
        {
            let node = vec[i].0.0.clone();
            let cov = vec[i].1;
            match string_to_path(vec[i].0.1.as_str()) {
                Ok(p) => {
                    let ghost old_paths = paths@;
                    let ghost pv = p@;
                    paths.push(((node, p), cov));
                    proof {
                        assert(forall|k: int|
                            0 <= k < old_paths.len() ==> #[trigger] entry_views(paths@)[k]
                                == entry_views(old_paths)[k]);
                        assert(entry_views(paths@)[i as int].node == vec@[i as int].0.0@);
                        assert(entry_views(paths@)[i as int].path == pv);
                        assert(entry_views(paths@)[i as int].cov == vec@[i as int].1);
                    }
                },
                Err(e) => {
                    return Err(e);
                },
            }
            i = i + 1;
        }
        Ok(Paths { paths })
    }

    /// Group the entries by the repeat id they are filed under: one group
    /// per distinct id in first-seen order, keeping each id's entries in
    /// their original order.
    pub fn split_into_repeats(&self) -> (r: Vec<Paths>)
        ensures
            groups_views(r@) == spec_group(entry_views(self.paths@)),
    {
        let ghost evs = entry_views(self.paths@);
        let mut ids: Vec<String> = Vec::new();
        let mut i: usize = 0;
        proof {
            assert(evs.take(0) =~= Seq::<EntryView>::empty());
            assert(string_views(ids@) =~= first_seen_nodes(evs.take(0)));
        }
        while i < self.paths.len()
            invariant
                i <= self.paths@.len(),
                evs == entry_views(self.paths@),
                string_views(ids@) == first_seen_nodes(evs.take(i as int)),
            decreases self.paths@.len() - i,
        {
            proof {
                assert(evs.take(i as int + 1).drop_last() =~= evs.take(i as int));
                assert(evs.take(i as int + 1).last() == evs[i as int]);
            }
            let seen = contains_string(&ids, &self.paths[i].0.0);
            if !seen {
                ids.push(self.paths[i].0.0.clone());
                proof {
                    assert(string_views(ids@) =~= first_seen_nodes(evs.take(i as int + 1)));
                }
            }
            i = i + 1;
        }
        proof {
            assert(evs.take(self.paths@.len() as int) =~= evs);
        }
        let mut groups: Vec<Paths> = Vec::new();
        let mut k: usize = 0;
        while k < ids.len()
            invariant
                k <= ids@.len(),
                evs == entry_views(self.paths@),
                string_views(ids@) == first_seen_nodes(evs),
                groups@.len() == k,
                forall|kk: int|
                    0 <= kk < k ==> #[trigger] groups_views(groups@)[kk]
                        == entries_with_node(evs, string_views(ids@)[kk]),
            decreases ids@.len() - k,
        {
            let mut gvec: Vec<((String, Path), u64)> = Vec::new();
            let mut i2: usize = 0;
            proof {
                assert(evs.take(0) =~= Seq::<EntryView>::empty());
                assert(entry_views(gvec@) =~= entries_with_node(
                    evs.take(0),
                    string_views(ids@)[k as int],
                ));
            }
            while i2 < self.paths.len()
                invariant
                    i2 <= self.paths@.len(),
                    k < ids@.len(),
                    evs == entry_views(self.paths@),
                    entry_views(gvec@) == entries_with_node(
                        evs.take(i2 as int),
                        string_views(ids@)[k as int],
                    ),
                decreases self.paths@.len() - i2,
            {
                proof {
                    assert(evs.take(i2 as int + 1).drop_last() =~= evs.take(i2 as int));
                    assert(evs.take(i2 as int + 1).last() == evs[i2 as int]);
                    assert(string_views(ids@)[k as int] == ids@[k as int]@);
                }
                if self.paths[i2].0.0 == ids[k] {
                    let e = (
                        (self.paths[i2].0.0.clone(), self.paths[i2].0.1.duplicate()),
                        self.paths[i2].1,
                    );
                    gvec.push(e);
                    proof {
                        assert(entry_views(gvec@) =~= entries_with_node(
                            evs.take(i2 as int + 1),
                            string_views(ids@)[k as int],
                        ));
                    }
                } else {
                    proof {
                        assert(entry_views(gvec@) =~= entries_with_node(
                            evs.take(i2 as int + 1),
                            string_views(ids@)[k as int],
                        ));
                    }
                }
                i2 = i2 + 1;
            }
            proof {
                assert(evs.take(self.paths@.len() as int) =~= evs);
            }
            let ghost old_groups = groups@;
            let ghost gv = entry_views(gvec@);
            groups.push(Paths { paths: gvec });
            proof {
                assert(forall|kk: int|
                    0 <= kk < old_groups.len() ==> #[trigger] groups_views(groups@)[kk]
                        == groups_views(old_groups)[kk]);
                assert(groups_views(groups@)[k as int] == gv);
            }
            k = k + 1;
        }
        proof {
            assert(groups_views(groups@) =~= spec_group(evs));
        }
        groups
    }
}

/// Mathematical image of one coverage counter: the focal repeat id, the
/// canonical path text, and how often that exact text was observed.
pub struct CountView {
    pub node: Seq<char>,
    pub text: Seq<char>,
    pub cov: nat,
}

/// Views of a vector of coverage counters.
pub open spec fn count_views(v: Seq<((String, String), u64)>) -> Seq<CountView> {
    v.map_values(
        |e: ((String, String), u64)| CountView { node: e.0.0@, text: e.0.1@, cov: e.1 as nat },
    )
}

/// Index of the counter keyed by `node` and `text`, or a negative value
/// when there is none.
pub open spec fn find_count(c: Seq<CountView>, node: Seq<char>, text: Seq<char>) -> int
    decreases c.len(),
{
    if c.len() == 0 {
        -1
    } else if c[0].node == node && c[0].text == text {
        0
    } else {
        let r = find_count(c.drop_first(), node, text);
        if r < 0 {
            -1
        } else {
            1 + r
        }
    }
}

/// `find_count` returns the first matching index, or a negative value
/// exactly when no counter matches.
pub proof fn lemma_find_count(c: Seq<CountView>, node: Seq<char>, text: Seq<char>)
    ensures
        find_count(c, node, text) < 0 ==> forall|j: int|
            0 <= j < c.len() ==> !((#[trigger] c[j]).node == node && c[j].text == text),
        find_count(c, node, text) >= 0 ==> 0 <= find_count(c, node, text) < c.len(),
        find_count(c, node, text) >= 0 ==> c[find_count(c, node, text)].node == node
            && c[find_count(c, node, text)].text == text,
        forall|j: int|
            0 <= j < find_count(c, node, text) ==> !((#[trigger] c[j]).node == node
                && c[j].text == text),
    decreases c.len(),
{
    if c.len() > 0 {
        let t = c.drop_first();
        lemma_find_count(t, node, text);
        assert(forall|j: int| 0 <= j < t.len() ==> #[trigger] t[j] == c[j + 1]);
        if !(c[0].node == node && c[0].text == text) {
            let rt = find_count(t, node, text);
            if rt >= 0 {
                assert(find_count(c, node, text) == 1 + rt);
                assert(c[1 + rt] == t[rt]);
                assert forall|j: int|
                    0 <= j < 1 + rt implies !((#[trigger] c[j]).node == node && c[j].text
                    == text) by {
                    if j > 0 {
                        assert(c[j] == t[j - 1]);
                    }
                }
            } else {
                assert forall|j: int|
                    0 <= j < c.len() implies !((#[trigger] c[j]).node == node && c[j].text
                    == text) by {
                    if j > 0 {
                        assert(c[j] == t[j - 1]);
                    }
                }
            }
        }
    }
}

/// Index of the counter keyed by `node` and `text`, as `find_count`
/// determines it, or nothing when there is none.
fn find_count_index(
    counts: &Vec<((String, String), u64)>,
    node: &String,
    text: &String,
) -> (r: Option<usize>)
    ensures
        r matches Some(j) ==> find_count(count_views(counts@), node@, text@) == j as int,
        r is None ==> find_count(count_views(counts@), node@, text@) < 0,
{
    let ghost c = count_views(counts@);
    proof {
        lemma_find_count(c, node@, text@);
    }
    let mut j: usize = 0;
    while j < counts.len()
        invariant
            j <= counts@.len(),
            c == count_views(counts@),
            forall|k: int|
                0 <= k < j ==> !((#[trigger] c[k]).node == node@ && c[k].text == text@),
        decreases counts@.len() - j,
    {
        if counts[j].0.0 == *node && counts[j].0.1 == *text {
            proof {
                lemma_find_count(c, node@, text@);
                assert(c[j as int].node == node@ && c[j as int].text == text@);
                let r = find_count(c, node@, text@);
                if r < 0 {
                    assert(!(c[j as int].node == node@ && c[j as int].text == text@));
                }
                if r > j as int {
                    assert(!(c[j as int].node == node@ && c[j as int].text == text@));
                }
                if 0 <= r < j as int {
                    assert(!(c[r].node == node@ && c[r].text == text@));
                }
            }
            return Some(j);
        }
        j = j + 1;
    }
    proof {
        let r = find_count(c, node@, text@);
        if r >= 0 {
            assert(!(c[r].node == node@ && c[r].text == text@));
        }
    }
    None
}

/// Coverage accumulation over the alignment records: walk the records in
/// order; a record whose path has three steps and whose focal id is one of
/// the repeat ids bumps the counter keyed by `(focal id, text)`, creating
/// it with count one at the end on first sight.  A record that is not a
/// canonical path text at all fails the whole accumulation.
pub open spec fn spec_accumulate(records: Seq<Seq<char>>, nodes: Seq<Seq<char>>) -> Option<
    Seq<CountView>,
>
    decreases records.len(),
{
    if records.len() == 0 {
        Some(Seq::empty())
    } else {
        match spec_accumulate(records.drop_last(), nodes) {
            Option::None => Option::None,
            Option::Some(c) => match spec_parse_steps(records.last()) {
                Option::None => Option::None,
                Option::Some(sv) => {
                    if sv.len() == 3 && nodes.contains(sv[1].segid) {
                        let j = find_count(c, sv[1].segid, records.last());
                        if j < 0 {
                            Some(
                                c.push(
                                    CountView {
                                        node: sv[1].segid,
                                        text: records.last(),
                                        cov: 1,
                                    },
                                ),
                            )
                        } else {
                            Some(
                                c.update(
                                    j,
                                    CountView {
                                        node: c[j].node,
                                        text: c[j].text,
                                        cov: c[j].cov + 1,
                                    },
                                ),
                            )
                        }
                    } else {
                        Some(c)
                    }
                },
            },
        }
    }
}

/// Once the accumulation has failed on a prefix, it fails as a whole.
pub proof fn lemma_accumulate_extend_none(
    records: Seq<Seq<char>>,
    nodes: Seq<Seq<char>>,
    j: int,
)
    requires
        0 <= j <= records.len(),
        spec_accumulate(records.take(j), nodes) is None,
    ensures
        spec_accumulate(records, nodes) is None,
    decreases records.len() - j,
{
    if j < records.len() {
        assert(records.take(j + 1).drop_last() =~= records.take(j));
        assert(spec_accumulate(records.take(j + 1), nodes) is None);
        lemma_accumulate_extend_none(records, nodes, j + 1);
    } else {
        assert(records.take(j) =~= records);
    }
}

/// Every counter of a successful accumulation was bumped at least once
/// and at most once per record, and its text is a valid path text whose
/// focal id is the counter's key.
pub proof fn lemma_accumulate_wf(records: Seq<Seq<char>>, nodes: Seq<Seq<char>>)
    ensures
        spec_accumulate(records, nodes) matches Some(c) ==> forall|k: int|
            0 <= k < c.len() ==> {
                let e = #[trigger] c[k];
                &&& 1 <= e.cov <= records.len()
                &&& spec_parse_path(e.text) is Some
                &&& spec_parse_path(e.text)->Some_0.focal.segid == e.node
            },
    decreases records.len(),
{
    if records.len() > 0 && spec_accumulate(records, nodes) is Some {
        lemma_accumulate_wf(records.drop_last(), nodes);
        let n0 = records.drop_last().len();
        let c0 = spec_accumulate(records.drop_last(), nodes)->Some_0;
        let c = spec_accumulate(records, nodes)->Some_0;
        let sv = spec_parse_steps(records.last())->Some_0;
        if spec_parse_steps(records.last()) is Some && sv.len() == 3 && nodes.contains(
            sv[1].segid,
        ) {
            lemma_three_steps_path(records.last(), sv);
            let j = find_count(c0, sv[1].segid, records.last());
            if j < 0 {
                assert(c == c0.push(
                    CountView { node: sv[1].segid, text: records.last(), cov: 1 },
                ));
                assert forall|k: int|
                    0 <= k < c.len() implies {
                    let e = #[trigger] c[k];
                    &&& 1 <= e.cov <= records.len()
                    &&& spec_parse_path(e.text) is Some
                    &&& spec_parse_path(e.text)->Some_0.focal.segid == e.node
                } by {
                    if k < c0.len() {
                        assert(c[k] == c0[k]);
                    } else {
                        assert(c[k] == CountView {
                            node: sv[1].segid,
                            text: records.last(),
                            cov: 1,
                        });
                    }
                }
            } else {
                lemma_find_count(c0, sv[1].segid, records.last());
                assert forall|k: int|
                    0 <= k < c.len() implies {
                    let e = #[trigger] c[k];
                    &&& 1 <= e.cov <= records.len()
                    &&& spec_parse_path(e.text) is Some
                    &&& spec_parse_path(e.text)->Some_0.focal.segid == e.node
                } by {
                    if k != j {
                        assert(c[k] == c0[k]);
                    } else {
                        assert(c[k].cov == c0[j].cov + 1);
                        assert(c[k].text == c0[j].text && c[k].node == c0[j].node);
                    }
                }
            }
        } else {
            assert(c == c0);
        }
    }
}

/// Sum of all counters' coverages.
pub open spec fn counts_cov_sum(c: Seq<CountView>) -> int
    decreases c.len(),
{
    if c.len() == 0 {
        0
    } else {
        counts_cov_sum(c.drop_last()) + c.last().cov
    }
}

/// Replacing one counter moves the sum by the coverage difference.
proof fn lemma_counts_cov_sum_update(c: Seq<CountView>, j: int, e: CountView)
    requires
        0 <= j < c.len(),
    ensures
        counts_cov_sum(c.update(j, e)) == counts_cov_sum(c) - c[j].cov + e.cov,
    decreases c.len(),
{
    let u = c.update(j, e);
    if j == c.len() - 1 {
        assert(u.drop_last() =~= c.drop_last());
        assert(u.last() == e);
    } else {
        assert(u.drop_last() =~= c.drop_last().update(j, e));
        assert(u.last() == c.last());
        lemma_counts_cov_sum_update(c.drop_last(), j, e);
    }
}

/// Each record bumps the accumulated coverage mass by at most one, so
/// the mass never exceeds the number of records.
pub proof fn lemma_accumulate_cov_mass(records: Seq<Seq<char>>, nodes: Seq<Seq<char>>)
    ensures
        spec_accumulate(records, nodes) matches Some(c) ==> 0 <= counts_cov_sum(c)
            <= records.len(),
    decreases records.len(),
{
    if records.len() > 0 && spec_accumulate(records, nodes) is Some {
        lemma_accumulate_cov_mass(records.drop_last(), nodes);
        let c0 = spec_accumulate(records.drop_last(), nodes)->Some_0;
        let c = spec_accumulate(records, nodes)->Some_0;
        let sv = spec_parse_steps(records.last())->Some_0;
        if spec_parse_steps(records.last()) is Some && sv.len() == 3 && nodes.contains(
            sv[1].segid,
        ) {
            let j = find_count(c0, sv[1].segid, records.last());
            if j < 0 {
                assert(c.drop_last() =~= c0);
            } else {
                lemma_find_count(c0, sv[1].segid, records.last());
                lemma_counts_cov_sum_update(
                    c0,
                    j,
                    CountView { node: c0[j].node, text: c0[j].text, cov: c0[j].cov + 1 },
                );
            }
        }
    }
}

/// The path entries the counters stand for, with each text parsed.
pub open spec fn counts_to_entries(c: Seq<CountView>) -> Seq<EntryView> {
    c.map_values(
        |e: CountView| EntryView {
            node: e.node,
            path: spec_parse_path(e.text)->Some_0,
            cov: e.cov,
        },
    )
}

/// The entries carry exactly the counters' coverage mass.
proof fn lemma_counts_entries_covs(c: Seq<CountView>)
    ensures
        covs_total(counts_to_entries(c)) == counts_cov_sum(c),
    decreases c.len(),
{
    if c.len() > 0 {
        lemma_counts_entries_covs(c.drop_last());
        assert(counts_to_entries(c).drop_last() =~= counts_to_entries(c.drop_last()));
        assert(counts_to_entries(c).last() == counts_to_entries(c)[c.len() - 1]);
    }
}

/// The whole classification of alignment records: accumulate coverage per
/// `(focal repeat id, canonical path text)` as [`spec_accumulate`] does,
/// then group the counters by repeat id as [`spec_group`] does.
pub open spec fn spec_count_gaf_paths(
    records: Seq<Seq<char>>,
    nodes: Seq<Seq<char>>,
) -> Option<Seq<Seq<EntryView>>> {
    match spec_accumulate(records, nodes) {
        Option::None => Option::None,
        Option::Some(c) => Some(spec_group(counts_to_entries(c))),
    }
}

/// Classify alignment records by the repeat they cross.
///
/// Each record is the text of an oriented alignment path.  Records whose
/// path does not have exactly three steps, or whose focal segment is not
/// one of `nodes`, are ignored; the rest are counted per distinct text and
/// grouped by focal repeat id, exactly as [`spec_count_gaf_paths`] says.
/// A record that is no path text at all fails the whole run.
pub fn count_gaf_paths(records: &Vec<String>, nodes: &Vec<String>) -> (r: Result<
    Vec<Paths>,
    PathError,
>)
    ensures
        r matches Ok(groups) ==> spec_count_gaf_paths(
            string_views(records@),
            string_views(nodes@),
        ) == Some(groups_views(groups@)),
        r matches Ok(groups) ==> forall|k: int|
            0 <= k < groups@.len() ==> 0 <= covs_total(#[trigger] groups_views(groups@)[k])
                <= records@.len(),
        r matches Err(e) ==> e == PathError::MalformedPath && spec_count_gaf_paths(
            string_views(records@),
            string_views(nodes@),
        ) is None,
{
    let ghost recs = string_views(records@);
    let ghost nds = string_views(nodes@);
    let mut counts: Vec<((String, String), u64)> = Vec::new();
    let mut i: usize = 0;
    proof {
        assert(recs.take(0) =~= Seq::<Seq<char>>::empty());
        assert(count_views(counts@) =~= Seq::<CountView>::empty());
    }
    while i < records.len()
        invariant
            i <= records@.len(),
            recs == string_views(records@),
            nds == string_views(nodes@),
            spec_accumulate(recs.take(i as int), nds) == Some(count_views(counts@)),
            forall|k: int| 0 <= k < counts@.len() ==> (#[trigger] counts@[k]).1 <= i,
        decreases records@.len() - i,
    {
        proof {
            assert(recs.take(i as int + 1).drop_last() =~= recs.take(i as int));
            assert(recs.take(i as int + 1).last() == recs[i as int]);
            assert(recs[i as int] == records@[i as int]@);
        }
        match parse_steps(records[i].as_str()) {
            Err(_) => {
                proof {
                    assert(spec_parse_steps(recs[i as int]) is None) by {
                        if spec_parse_steps(recs[i as int]) is Some {
                            let sv = choose|sv: Seq<crate::path::StepView>|
                                crate::path::steps_wf(sv) && crate::path::encode_steps(sv)
                                    == recs[i as int];
                            assert(crate::path::steps_wf(sv) && crate::path::encode_steps(sv)
                                == recs[i as int]);
                        }
                    }
                    assert(spec_accumulate(recs.take(i as int + 1), nds) is None);
                    lemma_accumulate_extend_none(recs, nds, i as int + 1);
                }
                return Err(PathError::MalformedPath);
            },
            Ok(steps) => {
                proof {
                    lemma_parse_steps_some(recs[i as int], step_views(steps@));
                }
                if steps.len() == 3 {
                    let seen = contains_string(nodes, &steps[1].segid);
                    proof {
                        assert(step_views(steps@)[1] == steps@[1]@);
                    }
                    if seen {
                        let ghost sv = step_views(steps@);
                        let ghost old_counts = count_views(counts@);
                        proof {
                            lemma_find_count(old_counts, sv[1].segid, recs[i as int]);
                        }
                        match find_count_index(&counts, &steps[1].segid, &records[i]) {
                            Some(j) => {
                                proof {
                                    lemma_find_count(old_counts, sv[1].segid, recs[i as int]);
                                }
                                let c0 = counts[j].1;
                                counts[j].1 = c0 + 1;
                                proof {
                                    assert(count_views(counts@) =~= old_counts.update(
                                        j as int,
                                        CountView {
                                            node: old_counts[j as int].node,
                                            text: old_counts[j as int].text,
                                            cov: old_counts[j as int].cov + 1,
                                        },
                                    ));
                                    assert(spec_accumulate(recs.take(i as int + 1), nds)
                                        == Some(count_views(counts@)));
                                }
                            },
                            None => {
                                counts.push(
                                    ((steps[1].segid.clone(), records[i].clone()), 1),
                                );
                                proof {
                                    assert(count_views(counts@) =~= old_counts.push(
                                        CountView {
                                            node: sv[1].segid,
                                            text: recs[i as int],
                                            cov: 1,
                                        },
                                    ));
                                    assert(spec_accumulate(recs.take(i as int + 1), nds)
                                        == Some(count_views(counts@)));
                                }
                            },
                        }
                    } else {
                        proof {
                            assert(spec_accumulate(recs.take(i as int + 1), nds)
                                == Some(count_views(counts@)));
                        }
                    }
                } else {
                    proof {
                        assert(spec_accumulate(recs.take(i as int + 1), nds) == Some(
                            count_views(counts@),
                        ));
                    }
                }
            },
        }
        i = i + 1;
    }
    proof {
        assert(recs.take(records@.len() as int) =~= recs);
    }
    let ghost final_counts = count_views(counts@);
    proof {
        lemma_accumulate_wf(recs, nds);
        assert(forall|k: int|
            0 <= k < counts@.len() ==> spec_parse_path(
                (#[trigger] counts@[k]).0.1@,
            ) is Some) by {
            assert(forall|k: int|
                0 <= k < counts@.len() ==> (#[trigger] counts@[k]).0.1@
                    == final_counts[k].text);
        }
    }
    match Paths::from_vec(counts) {
        Ok(ps) => {
            proof {
                assert(entry_views(ps.paths@) =~= counts_to_entries(final_counts));
            }
            let groups = ps.split_into_repeats();
            proof {
                let entries = counts_to_entries(final_counts);
                lemma_accumulate_cov_mass(recs, nds);
                lemma_counts_entries_covs(final_counts);
                assert(groups_views(groups@) == spec_group(entries));
                assert(spec_group(entries).len() == first_seen_nodes(entries).len());
                assert forall|k: int|
                    0 <= k < groups@.len() implies 0 <= covs_total(
                    #[trigger] groups_views(groups@)[k],
                ) <= records@.len() by {
                    assert(0 <= k < first_seen_nodes(entries).len());
                    assert(spec_group(entries)[k] == entries_with_node(
                        entries,
                        first_seen_nodes(entries)[k],
                    ));
                    lemma_filter_covs(entries, first_seen_nodes(entries)[k]);
                }
            }
            Ok(groups)
        },
        Err(_) => {
            proof {
                assert(false);
            }
            unreached()
        },
    }
}

/// Whether some string of `v` has the same text as `s`.
pub fn contains_string(v: &Vec<String>, s: &String) -> (r: bool)
    ensures
        r == string_views(v@).contains(s@),
{
    let mut i: usize = 0;
    while i < v.len()
        invariant
            i <= v@.len(),
            forall|k: int| 0 <= k < i ==> #[trigger] string_views(v@)[k] != s@,
        decreases v@.len() - i,
    {
        if v[i] == *s {
            proof {
                assert(string_views(v@)[i as int] == s@);
            }
            return true;
        }
        i = i + 1;
    }
    proof {
        if string_views(v@).contains(s@) {
            let k = choose|k: int|
                0 <= k < string_views(v@).len() && string_views(v@)[k] == s@;
            assert(string_views(v@)[k] != s@);
        }
    }
    false
}

} // verus!
