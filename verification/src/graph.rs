//! The assembly graph: segments, bidirected links, the orientation-aware
//! adjacency index, and the repeat-candidate filter.

use vstd::prelude::*;

verus! {

use crate::path::Orientation;
use vstd::pervasive::unreached;

/// A node of the assembly graph: a contiguous sequence with its length.
#[derive(Debug)]
pub struct Segment {
    pub name: String,
    pub length: usize,
}

/// Mathematical image of a [`Segment`].
pub struct SegView {
    pub name: Seq<char>,
    pub length: int,
}

impl View for Segment {
    type V = SegView;

    open spec fn view(&self) -> SegView {
        SegView { name: self.name@, length: self.length as int }
    }
}

/// An edge between two segment ends, each end with its orientation.
#[derive(Debug)]
pub struct Link {
    pub from: String,
    pub from_orient: Orientation,
    pub to: String,
    pub to_orient: Orientation,
}

/// Mathematical image of a [`Link`].
pub struct LinkView {
    pub from: Seq<char>,
    pub from_orient: Orientation,
    pub to: Seq<char>,
    pub to_orient: Orientation,
}

impl View for Link {
    type V = LinkView;

    open spec fn view(&self) -> LinkView {
        LinkView {
            from: self.from@,
            from_orient: self.from_orient,
            to: self.to@,
            to_orient: self.to_orient,
        }
    }
}

/// Views of a vector of segments.
pub open spec fn seg_views(v: Seq<Segment>) -> Seq<SegView> {
    v.map_values(|s: Segment| s@)
}

/// Views of a vector of links.
pub open spec fn link_views(v: Seq<Link>) -> Seq<LinkView> {
    v.map_values(|l: Link| l@)
}

/// The size filed under a segment id, with a later record of the same
/// name shadowing an earlier one.
pub open spec fn spec_size_of(segs: Seq<SegView>, id: Seq<char>) -> Option<int>
    decreases segs.len(),
{
    if segs.len() == 0 {
        Option::None
    } else if segs.last().name == id {
        Some(segs.last().length)
    } else {
        spec_size_of(segs.drop_last(), id)
    }
}

/// A segment's own name always has a size on file.
pub proof fn lemma_size_of_own(segs: Seq<SegView>, k: int)
    requires
        0 <= k < segs.len(),
    ensures
        spec_size_of(segs, segs[k].name) is Some,
    decreases segs.len(),
{
    if segs.last().name != segs[k].name {
        lemma_size_of_own(segs.drop_last(), k);
    }
}

/// Total degree of a segment id: how many link endpoints carry it, over
/// both orientation ends, parallel links counted separately.
pub open spec fn spec_degree(links: Seq<LinkView>, id: Seq<char>) -> int
    decreases links.len(),
{
    if links.len() == 0 {
        0
    } else {
        spec_degree(links.drop_last(), id) + (if links.last().from == id {
            1int
        } else {
            0
        }) + (if links.last().to == id {
            1int
        } else {
            0
        })
    }
}

/// The neighbors a segment end sees: each link contributes its other
/// endpoint, from-side first, in link order, with multiplicity.
pub open spec fn spec_neighbors(links: Seq<LinkView>, id: Seq<char>, end: Orientation) -> Seq<
    (Seq<char>, Orientation),
>
    decreases links.len(),
{
    if links.len() == 0 {
        Seq::empty()
    } else {
        let l = links.last();
        spec_neighbors(links.drop_last(), id, end) + (if l.from == id && l.from_orient
            == end {
            seq![(l.to, l.to_orient)]
        } else {
            Seq::empty()
        }) + (if l.to == id && l.to_orient == end {
            seq![(l.from, l.from_orient)]
        } else {
            Seq::empty()
        })
    }
}

/// A neighbor id passes when its size is on file and reaches the
/// minimum.
pub open spec fn neighbor_ok(segs: Seq<SegView>, id: Seq<char>, neighbor_min: int) -> bool {
    spec_size_of(segs, id) matches Some(sz) && sz >= neighbor_min
}

/// The repeat-candidate filter for the segment at index `k`: small
/// enough, with total degree at least twice the in/out threshold, and
/// with every neighbor's size on file and at least the minimum.
pub open spec fn is_repeat_candidate(
    segs: Seq<SegView>,
    links: Seq<LinkView>,
    k: int,
    size_limit: int,
    neighbor_min: int,
    inout_threshold: int,
) -> bool {
    let s = segs[k];
    &&& s.length <= size_limit
    &&& spec_degree(links, s.name) >= 2 * inout_threshold
    &&& forall|j: int|
        0 <= j < links.len() ==> ((#[trigger] links[j]).from == s.name ==> neighbor_ok(
            segs,
            links[j].to,
            neighbor_min,
        )) && (links[j].to == s.name ==> neighbor_ok(segs, links[j].from, neighbor_min))
}

/// The candidates among the first `i` segments, in segment order, each
/// with the size on file for its name.
pub open spec fn spec_detect_upto(
    segs: Seq<SegView>,
    links: Seq<LinkView>,
    i: int,
    size_limit: int,
    neighbor_min: int,
    inout_threshold: int,
) -> Seq<(Seq<char>, int)>
    decreases i,
{
    if i <= 0 {
        Seq::empty()
    } else {
        spec_detect_upto(segs, links, i - 1, size_limit, neighbor_min, inout_threshold) + (
        if is_repeat_candidate(segs, links, i - 1, size_limit, neighbor_min, inout_threshold) {
            seq![(segs[i - 1].name, spec_size_of(segs, segs[i - 1].name)->Some_0)]
        } else {
            Seq::empty()
        })
    }
}

/// All repeat candidates of the graph, in segment order.
pub open spec fn spec_detect(
    segs: Seq<SegView>,
    links: Seq<LinkView>,
    size_limit: int,
    neighbor_min: int,
    inout_threshold: int,
) -> Seq<(Seq<char>, int)> {
    spec_detect_upto(
        segs,
        links,
        segs.len() as int,
        size_limit,
        neighbor_min,
        inout_threshold,
    )
}

/// A segment that passed every repeat filter, with the size on file for
/// its id.
#[derive(Debug)]
pub struct RepeatCandidate {
    pub id: String,
    pub size: usize,
}

/// Views of a vector of candidates.
pub open spec fn cand_views(v: Seq<RepeatCandidate>) -> Seq<(Seq<char>, int)> {
    v.map_values(|c: RepeatCandidate| (c.id@, c.size as int))
}

/// Size lookup and orientation-aware adjacency over the graph's records.
#[derive(Debug)]
pub struct GraphIndex {
    pub segments: Vec<Segment>,
    pub links: Vec<Link>,
}

impl GraphIndex {
    /// Build the index over the given records.
    pub fn new(segments: Vec<Segment>, links: Vec<Link>) -> (r: GraphIndex)
        ensures
            r.segments@ == segments@,
            r.links@ == links@,
    {
        GraphIndex { segments, links }
    }

    /// The size on file for a segment id, a later record shadowing an
    /// earlier one of the same name.
    pub fn size_of(&self, id: &String) -> (r: Option<usize>)
        ensures
            r is Some <==> spec_size_of(seg_views(self.segments@), id@) is Some,
            r matches Some(sz) ==> spec_size_of(seg_views(self.segments@), id@) == Some(
                sz as int,
            ),
    {
        let ghost svs = seg_views(self.segments@);
        let mut i: usize = self.segments.len();
        proof {
            assert(svs.take(i as int) =~= svs);
        }
        while i > 0
            invariant
                i <= self.segments@.len(),
                svs == seg_views(self.segments@),
                spec_size_of(svs, id@) == spec_size_of(svs.take(i as int), id@),
            decreases i,
        {
            i = i - 1;
            proof {
                assert(svs.take(i as int + 1).drop_last() =~= svs.take(i as int));
                assert(svs.take(i as int + 1).last() == svs[i as int]);
            }
            if self.segments[i].name == *id {
                return Some(self.segments[i].length);
            }
        }
        proof {
            assert(svs.take(0) =~= Seq::<SegView>::empty());
        }
        None
    }

    /// The neighbors one orientation end of a segment sees, in link
    /// order, with multiplicity.
    pub fn neighbors_of(&self, id: &String, end: Orientation) -> (r: Vec<
        (String, Orientation),
    >)
        ensures
            r@.map_values(|p: (String, Orientation)| (p.0@, p.1)) == spec_neighbors(
                link_views(self.links@),
                id@,
                end,
            ),
    {
        let ghost lvs = link_views(self.links@);
        let mut out: Vec<(String, Orientation)> = Vec::new();
        let mut j: usize = 0;
        proof {
            assert(lvs.take(0) =~= Seq::<LinkView>::empty());
            assert(out@.map_values(|p: (String, Orientation)| (p.0@, p.1)) =~= spec_neighbors(
                lvs.take(0),
                id@,
                end,
            ));
        }
        while j < self.links.len()
            invariant
                j <= self.links@.len(),
                lvs == link_views(self.links@),
                out@.map_values(|p: (String, Orientation)| (p.0@, p.1)) == spec_neighbors(
                    lvs.take(j as int),
                    id@,
                    end,
                ),
            decreases self.links@.len() - j,
        {
            proof {
                assert(lvs.take(j as int + 1).drop_last() =~= lvs.take(j as int));
                assert(lvs.take(j as int + 1).last() == lvs[j as int]);
            }
            let l = &self.links[j];
            if l.from == *id && orientation_eq(l.from_orient, end) {
                out.push((l.to.clone(), l.to_orient));
            }
            if l.to == *id && orientation_eq(l.to_orient, end) {
                out.push((l.from.clone(), l.from_orient));
            }
            proof {
                assert(out@.map_values(|p: (String, Orientation)| (p.0@, p.1))
                    =~= spec_neighbors(lvs.take(j as int + 1), id@, end));
            }
            j = j + 1;
        }
        proof {
            assert(lvs.take(self.links@.len() as int) =~= lvs);
        }
        out
    }
}

/// Whether two orientations are the same.
fn orientation_eq(a: Orientation, b: Orientation) -> (r: bool)
    ensures
        r == (a == b),
{
    a == b
}

/// Whether every neighbor of `name` has a size on file of at least the
/// minimum.
fn neighbors_large_enough(graph: &GraphIndex, name: &String, neighbor_min: usize) -> (r:
    bool)
    ensures
        r == (forall|j: int|
            0 <= j < link_views(graph.links@).len() ==> {
                let l = #[trigger] link_views(graph.links@)[j];
                &&& (l.from == name@ ==> neighbor_ok(
                    seg_views(graph.segments@),
                    l.to,
                    neighbor_min as int,
                ))
                &&& (l.to == name@ ==> neighbor_ok(
                    seg_views(graph.segments@),
                    l.from,
                    neighbor_min as int,
                ))
            }),
{
    let ghost lvs = link_views(graph.links@);
    let ghost svs = seg_views(graph.segments@);
    let mut j: usize = 0;
    while j < graph.links.len()
        invariant
            j <= graph.links@.len(),
            lvs == link_views(graph.links@),
            svs == seg_views(graph.segments@),
            forall|k: int|
                0 <= k < j ==> {
                    let l = #[trigger] lvs[k];
                    &&& (l.from == name@ ==> neighbor_ok(svs, l.to, neighbor_min as int))
                    &&& (l.to == name@ ==> neighbor_ok(svs, l.from, neighbor_min as int))
                },
        decreases graph.links@.len() - j,
    {
        let l = &graph.links[j];
        proof {
            assert(lvs[j as int] == graph.links@[j as int]@);
        }
        if l.from == *name {
            match graph.size_of(&l.to) {
                Some(sz) => {
                    if sz < neighbor_min {
                        proof {
                            assert(!neighbor_ok(svs, lvs[j as int].to, neighbor_min as int));
                        }
                        return false;
                    }
                },
                None => {
                    proof {
                        assert(!neighbor_ok(svs, lvs[j as int].to, neighbor_min as int));
                    }
                    return false;
                },
            }
        }
        if l.to == *name {
            match graph.size_of(&l.from) {
                Some(sz) => {
                    if sz < neighbor_min {
                        proof {
                            assert(!neighbor_ok(svs, lvs[j as int].from, neighbor_min as int));
                        }
                        return false;
                    }
                },
                None => {
                    proof {
                        assert(!neighbor_ok(svs, lvs[j as int].from, neighbor_min as int));
                    }
                    return false;
                },
            }
        }
        j = j + 1;
    }
    true
}

/// Total degree of `name`, counted over all link endpoints.
fn degree_of(graph: &GraphIndex, name: &String) -> (r: u128)
    ensures
        r as int == spec_degree(link_views(graph.links@), name@),
{
    let ghost lvs = link_views(graph.links@);
    let mut count: u128 = 0;
    let mut j: usize = 0;
    proof {
        assert(lvs.take(0) =~= Seq::<LinkView>::empty());
    }
    while j < graph.links.len()
        invariant
            j <= graph.links@.len(),
            lvs == link_views(graph.links@),
            count as int == spec_degree(lvs.take(j as int), name@),
            count as int <= 2 * (j as int),
        decreases graph.links@.len() - j,
    {
        proof {
            assert(lvs.take(j as int + 1).drop_last() =~= lvs.take(j as int));
            assert(lvs.take(j as int + 1).last() == lvs[j as int]);
        }
        let l = &graph.links[j];
        if l.from == *name {
            count = count + 1;
        }
        if l.to == *name {
            count = count + 1;
        }
        j = j + 1;
    }
    proof {
        assert(lvs.take(graph.links@.len() as int) =~= lvs);
    }
    count
}

/// All repeat candidates of the graph, in segment order: the segments
/// that are small enough, have total degree at least twice the in/out
/// threshold, and whose every neighbor has a size on file of at least
/// the neighbor minimum, exactly as [`spec_detect`] says.
pub fn detect(
    graph: &GraphIndex,
    size_limit: usize,
    neighbor_min: usize,
    inout_threshold: usize,
) -> (r: Vec<RepeatCandidate>)
    ensures
        cand_views(r@) == spec_detect(
            seg_views(graph.segments@),
            link_views(graph.links@),
            size_limit as int,
            neighbor_min as int,
            inout_threshold as int,
        ),
{
    let ghost svs = seg_views(graph.segments@);
    let ghost lvs = link_views(graph.links@);
    let mut out: Vec<RepeatCandidate> = Vec::new();
    let mut k: usize = 0;
    proof {
        assert(cand_views(out@) =~= spec_detect_upto(
            svs,
            lvs,
            0,
            size_limit as int,
            neighbor_min as int,
            inout_threshold as int,
        ));
    }
    while k < graph.segments.len()
        invariant
            k <= graph.segments@.len(),
            svs == seg_views(graph.segments@),
            lvs == link_views(graph.links@),
            cand_views(out@) == spec_detect_upto(
                svs,
                lvs,
                k as int,
                size_limit as int,
                neighbor_min as int,
                inout_threshold as int,
            ),
        decreases graph.segments@.len() - k,
    {
        let seg = &graph.segments[k];
        let mut accepted: bool = false;
        if seg.length <= size_limit {
            let deg = degree_of(graph, &seg.name);
            if deg >= 2 * (inout_threshold as u128) {
                if neighbors_large_enough(graph, &seg.name, neighbor_min) {
                    accepted = true;
                }
            }
        }
        proof {
            assert(svs[k as int] == graph.segments@[k as int]@);
        }
        if accepted {
            proof {
                assert(is_repeat_candidate(
                    svs,
                    lvs,
                    k as int,
                    size_limit as int,
                    neighbor_min as int,
                    inout_threshold as int,
                ));
                lemma_size_of_own(svs, k as int);
            }
            let ghost old_out = out@;
            match graph.size_of(&seg.name) {
                Some(sz) => {
                    out.push(RepeatCandidate { id: seg.name.clone(), size: sz });
                    proof {
                        assert(cand_views(out@) =~= cand_views(old_out).push(
                            (svs[k as int].name, spec_size_of(svs, svs[k as int].name)->Some_0),
                        ));
                        assert(cand_views(out@) =~= spec_detect_upto(
                            svs,
                            lvs,
                            k as int + 1,
                            size_limit as int,
                            neighbor_min as int,
                            inout_threshold as int,
                        ));
                    }
                },
                None => {
                    proof {
                        assert(false);
                    }
                    unreached()
                },
            }
        } else {
            proof {
                assert(!is_repeat_candidate(
                    svs,
                    lvs,
                    k as int,
                    size_limit as int,
                    neighbor_min as int,
                    inout_threshold as int,
                ));
                assert(cand_views(out@) =~= spec_detect_upto(
                    svs,
                    lvs,
                    k as int + 1,
                    size_limit as int,
                    neighbor_min as int,
                    inout_threshold as int,
                ));
            }
        }
        k = k + 1;
    }
    out
}

/// The names of the repeat candidates, in segment order.
pub fn nodes(
    graph: &GraphIndex,
    size_limit: usize,
    neighbor_min: usize,
    inout_threshold: usize,
) -> (r: Vec<String>)
    ensures
        crate::aggregate::string_views(r@) == spec_detect(
            seg_views(graph.segments@),
            link_views(graph.links@),
            size_limit as int,
            neighbor_min as int,
            inout_threshold as int,
        ).map_values(|c: (Seq<char>, int)| c.0),
{
    let cands = detect(graph, size_limit, neighbor_min, inout_threshold);
    let mut out: Vec<String> = Vec::new();
    let mut i: usize = 0;
    let ghost ds = spec_detect(
        seg_views(graph.segments@),
        link_views(graph.links@),
        size_limit as int,
        neighbor_min as int,
        inout_threshold as int,
    );
    proof {
        assert(crate::aggregate::string_views(out@) =~= ds.map_values(
            |c: (Seq<char>, int)| c.0,
        ).take(0));
    }
    while i < cands.len()
        invariant
            i <= cands@.len(),
            cand_views(cands@) == ds,
            crate::aggregate::string_views(out@) == ds.map_values(
                |c: (Seq<char>, int)| c.0,
            ).take(i as int),
        decreases cands@.len() - i,
    {
        let ghost old_out = out@;
        out.push(cands[i].id.clone());
        proof {
            assert(ds[i as int] == cand_views(cands@)[i as int]);
            assert(ds[i as int].0 == cands@[i as int].id@);
            assert(crate::aggregate::string_views(out@) =~= crate::aggregate::string_views(
                old_out,
            ).push(ds[i as int].0));
            assert(crate::aggregate::string_views(out@) =~= ds.map_values(
                |c: (Seq<char>, int)| c.0,
            ).take(i as int + 1));
        }
        i = i + 1;
    }
    proof {
        assert(ds.map_values(|c: (Seq<char>, int)| c.0).take(ds.len() as int) =~= ds.map_values(
            |c: (Seq<char>, int)| c.0,
        ));
    }
    out
}

} // verus!
