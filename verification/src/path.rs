//! Oriented three-segment alignment paths: parsing, canonical encoding,
//! and the reverse-complement relation.

use vstd::prelude::*;

verus! {

use vstd::string::*;

/// Which strand of a segment a traversal enters or leaves by.
#[derive(Clone, Copy, Debug, PartialEq, Eq, Structural)]
pub enum Orientation {
    Forward,
    Backward,
}

/// The textual marker that announces a step with this orientation.
pub open spec fn marker_char(o: Orientation) -> char {
    match o {
        Orientation::Forward => '>',
        Orientation::Backward => '<',
    }
}

/// Characters that act as orientation markers inside a path string.
pub open spec fn is_marker(c: char) -> bool {
    c == '<' || c == '>'
}

/// One oriented step of an alignment path: a segment id together with the
/// orientation in which the segment is traversed.
#[derive(Debug)]
pub struct OrientedStep {
    pub orientation: Orientation,
    pub segid: String,
}

/// Mathematical image of an [`OrientedStep`].
pub struct StepView {
    pub orientation: Orientation,
    pub segid: Seq<char>,
}

impl View for OrientedStep {
    type V = StepView;

    open spec fn view(&self) -> StepView {
        StepView { orientation: self.orientation, segid: self.segid@ }
    }
}

/// A step is well formed when its id is non-empty and free of markers, so
/// that the canonical encoding can be decoded again unambiguously.
pub open spec fn step_wf(s: StepView) -> bool {
    &&& s.segid.len() > 0
    &&& forall|i: int| 0 <= i < s.segid.len() ==> !is_marker(#[trigger] s.segid[i])
}

/// Canonical text of one step: its marker followed by its segment id.
pub open spec fn encode_step(s: StepView) -> Seq<char> {
    seq![marker_char(s.orientation)] + s.segid
}

/// Canonical text of a whole sequence of steps, in traversal order.
pub open spec fn encode_steps(steps: Seq<StepView>) -> Seq<char>
    decreases steps.len(),
{
    if steps.len() == 0 {
        Seq::empty()
    } else {
        encode_step(steps[0]) + encode_steps(steps.drop_first())
    }
}

/// All steps of a sequence are well formed.
pub open spec fn steps_wf(steps: Seq<StepView>) -> bool {
    forall|i: int| 0 <= i < steps.len() ==> step_wf(#[trigger] steps[i])
}

/// Indices of the orientation markers of `s`, in increasing order.
pub open spec fn marker_indices(s: Seq<char>) -> Seq<int>
    decreases s.len(),
{
    if s.len() == 0 {
        Seq::empty()
    } else {
        let r = marker_indices(s.drop_last());
        if is_marker(s.last()) {
            r.push(s.len() - 1)
        } else {
            r
        }
    }
}

/// Every entry of `q` moved up by `d`.
pub open spec fn shift_indices(q: Seq<int>, d: int) -> Seq<int> {
    q.map_values(|x: int| x + d)
}

/// `marker_indices` lists exactly the marker positions, in strictly
/// increasing order.
pub proof fn lemma_marker_indices_characterize(s: Seq<char>)
    ensures
        forall|j: int|
            0 <= j < s.len() ==> (is_marker(s[j]) <==> marker_indices(s).contains(j)),
        forall|k: int|
            0 <= k < marker_indices(s).len() ==> 0 <= #[trigger] marker_indices(s)[k]
                < s.len() && is_marker(s[marker_indices(s)[k]]),
        forall|k1: int, k2: int|
            0 <= k1 < k2 < marker_indices(s).len() ==> #[trigger] marker_indices(s)[k1]
                < #[trigger] marker_indices(s)[k2],
    decreases s.len(),
{
    if s.len() > 0 {
        lemma_marker_indices_characterize(s.drop_last());
        let t = s.drop_last();
        assert(forall|j: int| 0 <= j < t.len() ==> t[j] == s[j]);
        let r = marker_indices(t);
        assert forall|j: int|
            0 <= j < s.len() implies (is_marker(s[j]) <==> marker_indices(s).contains(j)) by {
            if j < t.len() {
                if r.contains(j) {
                    let k = choose|k: int| 0 <= k < r.len() && r[k] == j;
                    assert(marker_indices(s)[k] == j);
                }
                if marker_indices(s).contains(j) {
                    let k = choose|k: int|
                        0 <= k < marker_indices(s).len() && marker_indices(s)[k] == j;
                    if k < r.len() {
                        assert(r[k] == j);
                    }
                }
            } else {
                assert(j == s.len() - 1);
                if is_marker(s[j]) {
                    assert(marker_indices(s).last() == j);
                }
                if marker_indices(s).contains(j) {
                    let k = choose|k: int|
                        0 <= k < marker_indices(s).len() && marker_indices(s)[k] == j;
                    if k < r.len() {
                        assert(r[k] == j);
                    }
                }
            }
        }
    }
}

/// Markers of a concatenation: those of the left part, then those of the
/// right part moved past it.
pub proof fn lemma_marker_indices_append(s1: Seq<char>, s2: Seq<char>)
    ensures
        marker_indices(s1 + s2) == marker_indices(s1) + shift_indices(
            marker_indices(s2),
            s1.len() as int,
        ),
    decreases s2.len(),
{
    if s2.len() == 0 {
        assert(s1 + s2 =~= s1);
        assert(marker_indices(s1) + shift_indices(marker_indices(s2), s1.len() as int)
            =~= marker_indices(s1));
    } else {
        let s = s1 + s2;
        assert(s.drop_last() =~= s1 + s2.drop_last());
        assert(s.last() == s2.last());
        lemma_marker_indices_append(s1, s2.drop_last());
        if is_marker(s2.last()) {
            assert(marker_indices(s) =~= marker_indices(s1) + shift_indices(
                marker_indices(s2),
                s1.len() as int,
            ));
        } else {
            assert(marker_indices(s) =~= marker_indices(s1) + shift_indices(
                marker_indices(s2),
                s1.len() as int,
            ));
        }
    }
}

/// A text without markers has no marker indices.
pub proof fn lemma_marker_indices_none(s: Seq<char>)
    requires
        forall|i: int| 0 <= i < s.len() ==> !is_marker(#[trigger] s[i]),
    ensures
        marker_indices(s) == Seq::<int>::empty(),
    decreases s.len(),
{
    if s.len() > 0 {
        assert(forall|i: int|
            0 <= i < s.drop_last().len() ==> s.drop_last()[i] == s[i]);
        lemma_marker_indices_none(s.drop_last());
    }
}

/// A single marker sits at index zero.
pub proof fn lemma_marker_indices_single(c: char)
    requires
        is_marker(c),
    ensures
        marker_indices(seq![c]) == seq![0int],
{
    let s = seq![c];
    assert(s.drop_last() =~= Seq::<char>::empty());
    assert(marker_indices(Seq::<char>::empty()) == Seq::<int>::empty());
    assert(is_marker(s.last()));
    assert(marker_indices(s) == marker_indices(s.drop_last()).push(0));
    assert(Seq::<int>::empty().push(0) =~= seq![0int]);
}

/// Length of the canonical text of a sequence of steps.
pub open spec fn encoded_len(steps: Seq<StepView>) -> int
    decreases steps.len(),
{
    if steps.len() == 0 {
        0
    } else {
        1 + steps[0].segid.len() + encoded_len(steps.drop_first())
    }
}

/// Index at which each step's marker stands within the canonical text.
pub open spec fn step_offsets(steps: Seq<StepView>) -> Seq<int>
    decreases steps.len(),
{
    if steps.len() == 0 {
        Seq::empty()
    } else {
        seq![0int] + shift_indices(
            step_offsets(steps.drop_first()),
            1 + steps[0].segid.len() as int,
        )
    }
}

/// The canonical text is as long as `encoded_len` says.
pub proof fn lemma_encode_len(steps: Seq<StepView>)
    ensures
        encode_steps(steps).len() == encoded_len(steps),
        encoded_len(steps) >= 0,
    decreases steps.len(),
{
    if steps.len() > 0 {
        lemma_encode_len(steps.drop_first());
    }
}

/// Shape of the marker offsets: one per step, starting at zero, with each
/// consecutive pair (and the text's end) at least two characters apart.
pub proof fn lemma_offsets_shape(steps: Seq<StepView>)
    ensures
        step_offsets(steps).len() == steps.len(),
        steps.len() > 0 ==> step_offsets(steps)[0] == 0,
        forall|k: int|
            0 <= k < steps.len() - 1 ==> #[trigger] step_offsets(steps)[k + 1]
                == step_offsets(steps)[k] + 1 + steps[k].segid.len(),
        steps.len() > 0 ==> encoded_len(steps) == step_offsets(steps)[steps.len() - 1]
            + 1 + steps[steps.len() - 1].segid.len(),
        forall|k: int| 0 <= k < steps.len() ==> #[trigger] step_offsets(steps)[k] >= 0,
        forall|k: int|
            0 <= k < steps.len() ==> #[trigger] step_offsets(steps)[k] + 1
                + steps[k].segid.len() <= encoded_len(steps),
    decreases steps.len(),
{
    if steps.len() > 0 {
        let tail = steps.drop_first();
        lemma_offsets_shape(tail);
        lemma_encode_len(tail);
        let d = 1 + steps[0].segid.len();
        assert forall|k: int|
            0 <= k < steps.len() - 1 implies #[trigger] step_offsets(steps)[k + 1]
            == step_offsets(steps)[k] + 1 + steps[k].segid.len() by {
            if k == 0 {
                assert(step_offsets(steps)[1] == step_offsets(tail)[0] + d);
            } else {
                assert(step_offsets(steps)[k] == step_offsets(tail)[k - 1] + d);
                assert(step_offsets(steps)[k + 1] == step_offsets(tail)[k] + d);
                assert(tail[k - 1] == steps[k]);
            }
        }
        if steps.len() == 1 {
            assert(tail =~= Seq::<StepView>::empty());
            assert(encoded_len(Seq::<StepView>::empty()) == 0);
            assert(encoded_len(steps) == 1 + steps[0].segid.len());
        } else {
            assert(step_offsets(steps)[steps.len() - 1]
                == step_offsets(tail)[tail.len() - 1] + d);
            assert(tail[tail.len() - 1] == steps[steps.len() - 1]);
        }
        assert forall|k: int|
            0 <= k < steps.len() implies #[trigger] step_offsets(steps)[k] + 1
            + steps[k].segid.len() <= encoded_len(steps) by {
            if k > 0 {
                assert(step_offsets(steps)[k] == step_offsets(tail)[k - 1] + d);
                assert(tail[k - 1] == steps[k]);
            }
        }
    }
}

/// The markers of a well-formed canonical text stand exactly at the step
/// offsets.
pub proof fn lemma_encode_markers(steps: Seq<StepView>)
    requires
        steps_wf(steps),
    ensures
        marker_indices(encode_steps(steps)) == step_offsets(steps),
    decreases steps.len(),
{
    if steps.len() == 0 {
        assert(marker_indices(encode_steps(steps)) =~= step_offsets(steps));
    } else {
        let head = steps[0];
        let tail = steps.drop_first();
        assert(steps_wf(tail)) by {
            assert(forall|i: int| 0 <= i < tail.len() ==> #[trigger] tail[i] == steps[i + 1]);
        }
        lemma_encode_markers(tail);
        let m = seq![marker_char(head.orientation)];
        assert(is_marker(marker_char(head.orientation)));
        lemma_marker_indices_single(marker_char(head.orientation));
        assert(step_wf(head));
        lemma_marker_indices_none(head.segid);
        lemma_marker_indices_append(m, head.segid);
        assert(encode_step(head) == m + head.segid);
        assert(marker_indices(encode_step(head)) =~= seq![0int]);
        lemma_marker_indices_append(encode_step(head), encode_steps(tail));
        lemma_encode_len(steps);
        assert(encode_step(head).len() == 1 + head.segid.len());
        assert(marker_indices(encode_steps(steps)) =~= step_offsets(steps));
    }
}

/// Appending one step to a sequence appends its canonical text.
pub proof fn lemma_encode_push(steps: Seq<StepView>, x: StepView)
    ensures
        encode_steps(steps.push(x)) == encode_steps(steps) + encode_step(x),
    decreases steps.len(),
{
    if steps.len() == 0 {
        assert(steps.push(x).drop_first() =~= Seq::<StepView>::empty());
        assert(steps.push(x)[0] == x);
        assert(encode_steps(Seq::<StepView>::empty()) == Seq::<char>::empty());
        assert(encode_steps(steps.push(x)) =~= encode_steps(steps) + encode_step(x));
    } else {
        assert(steps.push(x).drop_first() =~= steps.drop_first().push(x));
        assert(steps.push(x)[0] == steps[0]);
        lemma_encode_push(steps.drop_first(), x);
        assert(encode_steps(steps.push(x)) == encode_step(steps[0]) + (encode_steps(
            steps.drop_first(),
        ) + encode_step(x)));
        assert(encode_step(steps[0]) + (encode_steps(steps.drop_first()) + encode_step(x))
            =~= (encode_step(steps[0]) + encode_steps(steps.drop_first())) + encode_step(x));
        assert(encode_steps(steps.push(x)) =~= encode_steps(steps) + encode_step(x));
    }
}

/// Character-level reading of the canonical text at one step: the step's
/// marker and id stand at its offset.
pub proof fn lemma_encode_index_at(steps: Seq<StepView>, k: int)
    requires
        0 <= k < steps.len(),
    ensures
        encode_steps(steps)[step_offsets(steps)[k]] == marker_char(steps[k].orientation),
        forall|i: int|
            0 <= i < steps[k].segid.len() ==> encode_steps(steps)[step_offsets(steps)[k] + 1
                + i] == #[trigger] steps[k].segid[i],
    decreases k,
{
    lemma_offsets_shape(steps);
    lemma_encode_len(steps);
    let head = steps[0];
    let tail = steps.drop_first();
    let d = 1 + head.segid.len() as int;
    assert(encode_steps(steps) == encode_step(head) + encode_steps(tail));
    assert(encode_step(head).len() == d);
    if k == 0 {
        assert(encode_steps(steps)[0] == encode_step(head)[0]);
        assert(encode_step(head)[0] == marker_char(head.orientation));
        assert forall|i: int|
            0 <= i < steps[0].segid.len() implies encode_steps(steps)[step_offsets(steps)[0]
            + 1 + i] == #[trigger] steps[0].segid[i] by {
            assert(encode_steps(steps)[1 + i] == encode_step(head)[1 + i]);
            assert(encode_step(head)[1 + i] == head.segid[i]);
        }
    } else {
        lemma_encode_index_at(tail, k - 1);
        lemma_offsets_shape(tail);
        lemma_encode_len(tail);
        assert(tail[k - 1] == steps[k]);
        let off = step_offsets(tail)[k - 1];
        assert(step_offsets(steps)[k] == off + d);
        assert(off + 1 + steps[k].segid.len() <= encoded_len(tail));
        assert(encode_steps(steps)[d + off] == encode_steps(tail)[off]);
        assert forall|i: int|
            0 <= i < steps[k].segid.len() implies encode_steps(steps)[step_offsets(steps)[k]
            + 1 + i] == #[trigger] steps[k].segid[i] by {
            assert(encode_steps(steps)[d + (off + 1 + i)] == encode_steps(tail)[off + 1 + i]);
        }
    }
}

/// The canonical encoding is injective on well-formed step sequences: a
/// valid path text decodes in exactly one way.
pub proof fn lemma_encode_injective(a: Seq<StepView>, b: Seq<StepView>)
    requires
        steps_wf(a),
        steps_wf(b),
        encode_steps(a) == encode_steps(b),
    ensures
        a == b,
{
    let s = encode_steps(a);
    lemma_encode_markers(a);
    lemma_encode_markers(b);
    lemma_offsets_shape(a);
    lemma_offsets_shape(b);
    lemma_encode_len(a);
    lemma_encode_len(b);
    assert(a.len() == b.len());
    assert forall|k: int| 0 <= k < a.len() implies #[trigger] a[k] == b[k] by {
        lemma_encode_index_at(a, k);
        lemma_encode_index_at(b, k);
        assert(step_offsets(a)[k] == step_offsets(b)[k]);
        if k < a.len() - 1 {
            assert(step_offsets(a)[k + 1] == step_offsets(a)[k] + 1 + a[k].segid.len());
            assert(step_offsets(b)[k + 1] == step_offsets(b)[k] + 1 + b[k].segid.len());
        } else {
            assert(encoded_len(a) == step_offsets(a)[k] + 1 + a[k].segid.len());
            assert(encoded_len(b) == step_offsets(b)[k] + 1 + b[k].segid.len());
        }
        assert(a[k].segid.len() == b[k].segid.len());
        assert(marker_char(a[k].orientation) == marker_char(b[k].orientation));
        assert(a[k].orientation == b[k].orientation) by {
            if a[k].orientation != b[k].orientation {
                assert(false);
            }
        }
        assert(a[k].segid =~= b[k].segid) by {
            assert forall|i: int| 0 <= i < a[k].segid.len() implies a[k].segid[i]
                == b[k].segid[i] by {
                assert(s[step_offsets(a)[k] + 1 + i] == a[k].segid[i]);
                assert(s[step_offsets(b)[k] + 1 + i] == b[k].segid[i]);
            }
        }
    }
    assert(a =~= b);
}

/// Error raised when a path text does not decompose into oriented steps.
#[derive(Clone, Copy, Debug, PartialEq, Eq, Structural)]
pub enum PathError {
    MalformedPath,
}

/// Views of a vector of steps.
pub open spec fn step_views(v: Seq<OrientedStep>) -> Seq<StepView> {
    v.map_values(|st: OrientedStep| st@)
}

/// Views of a vector of marker positions.
pub open spec fn usize_views(v: Seq<usize>) -> Seq<int> {
    v.map_values(|x: usize| x as int)
}

/// The outward shape a text must have to be the canonical encoding of
/// well-formed steps: markers from position zero onward, each at least two
/// characters before the next one and before the end.
pub open spec fn shape_ok(s: Seq<char>) -> bool {
    let v = marker_indices(s);
    &&& (v.len() == 0 ==> s.len() == 0)
    &&& (v.len() > 0 ==> {
        &&& v[0] == 0
        &&& (forall|k: int| 0 <= k < v.len() - 1 ==> #[trigger] v[k + 1] >= v[k] + 2)
        &&& s.len() >= v[v.len() - 1] + 2
    })
}

/// A well-formed canonical text has the shape above.
pub proof fn lemma_wf_encode_shape(sv: Seq<StepView>, s: Seq<char>)
    requires
        steps_wf(sv),
        encode_steps(sv) == s,
    ensures
        shape_ok(s),
        marker_indices(s).len() == sv.len(),
{
    lemma_encode_markers(sv);
    lemma_offsets_shape(sv);
    lemma_encode_len(sv);
    let v = marker_indices(s);
    if v.len() > 0 {
        assert forall|k: int| 0 <= k < v.len() - 1 implies #[trigger] v[k + 1] >= v[k]
            + 2 by {
            assert(v[k + 1] == v[k] + 1 + sv[k].segid.len());
            assert(step_wf(sv[k]));
        }
        assert(step_wf(sv[sv.len() - 1]));
    }
}

/// A text without the required shape is not the canonical encoding of any
/// well-formed steps.
pub proof fn lemma_no_encoding(s: Seq<char>)
    requires
        !shape_ok(s),
    ensures
        forall|sv: Seq<StepView>| steps_wf(sv) ==> encode_steps(sv) != s,
{
    assert forall|sv: Seq<StepView>| steps_wf(sv) implies encode_steps(sv) != s by {
        if encode_steps(sv) == s {
            lemma_wf_encode_shape(sv, s);
        }
    }
}

/// Positions of all orientation markers of `s`, in increasing order.
fn marker_positions(s: &str) -> (v: Vec<usize>)
    ensures
        usize_views(v@) == marker_indices(s@),
{
    let n = s.unicode_len();
    let mut v: Vec<usize> = Vec::new();
    let mut i: usize = 0;
    proof {
        assert(s@.take(0) =~= Seq::<char>::empty());
        assert(usize_views(v@) =~= marker_indices(s@.take(0)));
    }
    while i < n
        invariant
            i <= n,
            n == s@.len(),
            usize_views(v@) == marker_indices(s@.take(i as int)),
        decreases n - i,
    {
        let c = s.get_char(i);
        proof {
            assert(s@.take(i as int + 1).drop_last() =~= s@.take(i as int));
            assert(s@.take(i as int + 1).last() == s@[i as int]);
        }
        if c == '<' || c == '>' {
            v.push(i);
            proof {
                assert(usize_views(v@) =~= marker_indices(s@.take(i as int + 1)));
            }
        } else {
            proof {
                assert(usize_views(v@) =~= marker_indices(s@.take(i as int + 1)));
            }
        }
        i = i + 1;
    }
    proof {
        assert(s@.take(n as int) =~= s@);
    }
    v
}

/// Decompose a path text into its oriented steps.
///
/// Succeeds exactly on texts that are the canonical encoding of a sequence
/// of well-formed steps — a `<` or `>` marker followed by a non-empty,
/// marker-free segment id, any number of times — and then returns that
/// unique sequence.
pub fn parse_steps(s: &str) -> (r: Result<Vec<OrientedStep>, PathError>)
    ensures
        r matches Ok(v) ==> steps_wf(step_views(v@)) && encode_steps(step_views(v@)) == s@,
        r matches Err(e) ==> e == PathError::MalformedPath && (forall|sv: Seq<StepView>|
            steps_wf(sv) ==> encode_steps(sv) != s@),
{
    let n = s.unicode_len();
    let marks = marker_positions(s);
    proof {
        lemma_marker_indices_characterize(s@);
    }
    if marks.len() == 0 {
        if n == 0 {
            let v: Vec<OrientedStep> = Vec::new();
            proof {
                assert(step_views(v@) =~= Seq::<StepView>::empty());
                assert(encode_steps(step_views(v@)) =~= s@);
            }
            return Ok(v);
        }
        proof {
            lemma_no_encoding(s@);
        }
        return Err(PathError::MalformedPath);
    }
    if marks[0] != 0 {
        proof {
            lemma_no_encoding(s@);
        }
        return Err(PathError::MalformedPath);
    }
    let mut steps: Vec<OrientedStep> = Vec::new();
    let mut k: usize = 0;
    proof {
        assert(usize_views(marks@)[0] == marks@[0] as int);
        assert(s@.take(0) =~= Seq::<char>::empty());
        assert(step_views(steps@) =~= Seq::<StepView>::empty());
        assert(encode_steps(step_views(steps@)) =~= s@.take(0));
    }
    while k < marks.len()
        invariant
            0 < marks.len(),
            k <= marks.len(),
            n == s@.len(),
            usize_views(marks@) == marker_indices(s@),
            steps@.len() == k,
            steps_wf(step_views(steps@)),
            encode_steps(step_views(steps@)) == s@.take(
                if k < marks.len() {
                    marks@[k as int] as int
                } else {
                    n as int
                },
            ),
        decreases marks.len() - k,
    {
        proof {
            lemma_marker_indices_characterize(s@);
            assert(usize_views(marks@)[k as int] == marks@[k as int] as int);
        }
        let start = marks[k];
        let next = if k + 1 < marks.len() {
            proof {
                assert(usize_views(marks@)[k as int + 1] == marks@[k as int + 1] as int);
            }
            marks[k + 1]
        } else {
            n
        };
        assert(start < n);
        if next <= start + 1 {
            proof {
                assert(!shape_ok(s@)) by {
                    if k + 1 < marks.len() {
                        assert(marker_indices(s@)[k as int + 1] < marker_indices(s@)[k as int]
                            + 2);
                    } else {
                        assert(s@.len() < marker_indices(s@)[marker_indices(s@).len() - 1] + 2);
                    }
                }
                lemma_no_encoding(s@);
            }
            return Err(PathError::MalformedPath);
        }
        let c = s.get_char(start);
        assert(is_marker(s@[start as int]));
        let o = if c == '<' {
            Orientation::Backward
        } else {
            Orientation::Forward
        };
        let id = s.substring_char(start + 1, next).to_owned();
        let st = OrientedStep { orientation: o, segid: id };
        proof {
            let mi = marker_indices(s@);
            let x = st@;
            let old_views = step_views(steps@);
            lemma_encode_push(old_views, x);
            assert(step_views(steps@.push(st)) =~= old_views.push(x));
            // the id holds no marker: any marker index strictly between this
            // step's marker and the next would contradict the ordering of
            // marker positions
            assert forall|j: int| start as int + 1 <= j < next as int implies !is_marker(
                #[trigger] s@[j],
            ) by {
                if is_marker(s@[j]) {
                    assert(mi.contains(j));
                    let kk = choose|kk: int| 0 <= kk < mi.len() && mi[kk] == j;
                    if kk < k as int {
                        assert(mi[kk] < mi[k as int]);
                    } else if kk == k as int {
                        assert(mi[kk] == start as int);
                    } else {
                        assert(k as int + 1 < mi.len());
                        if k as int + 1 < kk {
                            assert(mi[k as int + 1] < mi[kk]);
                        }
                        assert(mi[kk] >= next as int);
                    }
                }
            }
            assert(step_wf(x));
            assert(steps_wf(old_views.push(x))) by {
                assert(forall|i: int|
                    0 <= i < old_views.len() ==> old_views.push(x)[i] == #[trigger] old_views[i]);
                assert(old_views.push(x)[old_views.len() as int] == x);
            }
            assert(encode_step(x) =~= seq![s@[start as int]] + s@.subrange(
                start as int + 1,
                next as int,
            ));
            assert(s@.take(next as int) =~= s@.take(start as int) + (seq![s@[start as int]]
                + s@.subrange(start as int + 1, next as int)));
            assert(encode_steps(old_views.push(x)) == s@.take(next as int));
        }
        steps.push(st);
        k = k + 1;
        proof {
            if k < marks.len() {
                assert(usize_views(marks@)[k as int] == marks@[k as int] as int);
            }
        }
    }
    proof {
        assert(s@.take(n as int) =~= s@);
    }
    Ok(steps)
}

/// The unique well-formed step sequence a text encodes, if any.
pub open spec fn spec_parse_steps(s: Seq<char>) -> Option<Seq<StepView>> {
    if exists|sv: Seq<StepView>| steps_wf(sv) && encode_steps(sv) == s {
        Some(choose|sv: Seq<StepView>| steps_wf(sv) && encode_steps(sv) == s)
    } else {
        None
    }
}

/// A witness pins `spec_parse_steps` down to it.
pub proof fn lemma_parse_steps_some(s: Seq<char>, sv: Seq<StepView>)
    requires
        steps_wf(sv),
        encode_steps(sv) == s,
    ensures
        spec_parse_steps(s) == Some(sv),
{
    let c = choose|c: Seq<StepView>| steps_wf(c) && encode_steps(c) == s;
    lemma_encode_injective(c, sv);
}

/// A text that encodes exactly three well-formed steps is a valid path
/// text, with those steps as entry, focal and exit.
pub proof fn lemma_three_steps_path(s: Seq<char>, sv: Seq<StepView>)
    requires
        spec_parse_steps(s) == Some(sv),
        sv.len() == 3,
    ensures
        spec_parse_path(s) == Some(PathView { entry: sv[0], focal: sv[1], exit: sv[2] }),
{
    let c = choose|c: Seq<StepView>| steps_wf(c) && encode_steps(c) == s;
    assert(steps_wf(c) && encode_steps(c) == s);
    lemma_parse_steps_some(s, c);
    assert(c == sv);
    let pv = PathView { entry: sv[0], focal: sv[1], exit: sv[2] };
    assert(path_steps(pv) =~= sv);
    assert(path_wf(pv));
    assert(encode_path(pv) == s);
    lemma_parse_path_some(s, pv);
}

/// A three-step alignment path: the segment a read enters by, the focal
/// repeat it crosses, and the segment it leaves by.
#[derive(Debug)]
pub struct Path {
    pub entry: OrientedStep,
    pub focal: OrientedStep,
    pub exit: OrientedStep,
}

/// Mathematical image of a [`Path`].
pub struct PathView {
    pub entry: StepView,
    pub focal: StepView,
    pub exit: StepView,
}

impl View for Path {
    type V = PathView;

    open spec fn view(&self) -> PathView {
        PathView { entry: self.entry@, focal: self.focal@, exit: self.exit@ }
    }
}

/// The steps of a path, in traversal order.
pub open spec fn path_steps(p: PathView) -> Seq<StepView> {
    seq![p.entry, p.focal, p.exit]
}

/// All three steps are well formed.
pub open spec fn path_wf(p: PathView) -> bool {
    &&& step_wf(p.entry)
    &&& step_wf(p.focal)
    &&& step_wf(p.exit)
}

/// Canonical text of a path: marker and id of each step, in order.
pub open spec fn encode_path(p: PathView) -> Seq<char> {
    encode_steps(path_steps(p))
}

/// The unique well-formed path a text encodes, if any.
pub open spec fn spec_parse_path(s: Seq<char>) -> Option<PathView> {
    if exists|pv: PathView| path_wf(pv) && encode_path(pv) == s {
        Some(choose|pv: PathView| path_wf(pv) && encode_path(pv) == s)
    } else {
        None
    }
}

/// A witness pins `spec_parse_path` down to it.
pub proof fn lemma_parse_path_some(s: Seq<char>, pv: PathView)
    requires
        path_wf(pv),
        encode_path(pv) == s,
    ensures
        spec_parse_path(s) == Some(pv),
{
    let c = choose|c: PathView| path_wf(c) && encode_path(c) == s;
    assert(steps_wf(path_steps(c)));
    assert(steps_wf(path_steps(pv)));
    lemma_encode_injective(path_steps(c), path_steps(pv));
    assert(c.entry == path_steps(c)[0] && pv.entry == path_steps(pv)[0]);
    assert(c.focal == path_steps(c)[1] && pv.focal == path_steps(pv)[1]);
    assert(c.exit == path_steps(c)[2] && pv.exit == path_steps(pv)[2]);
    assert(c == pv);
}

/// Parse a path text into its three oriented steps.
///
/// Succeeds exactly on texts that canonically encode three well-formed
/// steps; re-encoding the result gives the input text back unchanged.
pub fn string_to_path(s: &str) -> (r: Result<Path, PathError>)
    ensures
        r matches Ok(p) ==> path_wf(p@) && encode_path(p@) == s@ && spec_parse_path(s@)
            == Some(p@),
        r matches Err(e) ==> e == PathError::MalformedPath && spec_parse_path(s@) is None,
{
    let steps_or = parse_steps(s);
    match steps_or {
        Ok(mut v) => {
            if v.len() == 3 {
                let ghost sv = step_views(v@);
                let entry = v.remove(0);
                let focal = v.remove(0);
                let exit = v.remove(0);
                let p = Path { entry, focal, exit };
                proof {
                    assert(p@.entry == sv[0] && p@.focal == sv[1] && p@.exit == sv[2]);
                    assert(path_steps(p@) =~= sv);
                    lemma_parse_path_some(s@, p@);
                }
                Ok(p)
            } else {
                proof {
                    let sv = step_views(v@);
                    assert forall|pv: PathView| !(path_wf(pv) && encode_path(pv) == s@) by {
                        if path_wf(pv) && encode_path(pv) == s@ {
                            assert(steps_wf(path_steps(pv)));
                            lemma_encode_injective(path_steps(pv), sv);
                        }
                    }
                }
                Err(PathError::MalformedPath)
            }
        },
        Err(e) => {
            proof {
                assert forall|pv: PathView| !(path_wf(pv) && encode_path(pv) == s@) by {
                    if path_wf(pv) && encode_path(pv) == s@ {
                        assert(steps_wf(path_steps(pv)));
                    }
                }
            }
            Err(e)
        },
    }
}

impl Path {
    /// The step by which the read enters the repeat.
    pub fn from(&self) -> (r: OrientedStep)
        ensures
            r@ == self@.entry,
    {
        OrientedStep { orientation: self.entry.orientation, segid: self.entry.segid.clone() }
    }

    /// The focal repeat step itself.
    pub fn repeat(&self) -> (r: OrientedStep)
        ensures
            r@ == self@.focal,
    {
        OrientedStep { orientation: self.focal.orientation, segid: self.focal.segid.clone() }
    }

    /// The step by which the read leaves the repeat.
    pub fn to(&self) -> (r: OrientedStep)
        ensures
            r@ == self@.exit,
    {
        OrientedStep { orientation: self.exit.orientation, segid: self.exit.segid.clone() }
    }

    /// An owned copy of this path.
    pub fn duplicate(&self) -> (r: Path)
        ensures
            r@ == self@,
    {
        Path { entry: self.from(), focal: self.repeat(), exit: self.to() }
    }

    /// The canonical text of this path, the inverse of [`string_to_path`].
    pub fn canonical_string(&self) -> (r: String)
        ensures
            r@ == encode_path(self@),
    {
        let mut out = String::new();
        push_step_text(&mut out, &self.entry);
        push_step_text(&mut out, &self.focal);
        push_step_text(&mut out, &self.exit);
        proof {
            let p = self@;
            assert(path_steps(p).drop_first() =~= seq![p.focal, p.exit]);
            assert(seq![p.focal, p.exit].drop_first() =~= seq![p.exit]);
            assert(seq![p.exit].drop_first() =~= Seq::<StepView>::empty());
            assert(encode_steps(Seq::<StepView>::empty()) == Seq::<char>::empty());
            assert(encode_steps(seq![p.exit]) == encode_step(p.exit)
                + Seq::<char>::empty());
            assert(encode_steps(seq![p.focal, p.exit]) == encode_step(p.focal)
                + encode_steps(seq![p.exit]));
            assert(path_steps(p)[0] == p.entry);
            assert(encode_path(p) == encode_step(p.entry) + encode_steps(
                seq![p.focal, p.exit],
            ));
            assert(out@ =~= encode_path(p));
        }
        out
    }

    /// Whether `other` traverses the same three segments as `self` in the
    /// opposite direction: entry and exit swap ids with orientations
    /// inverted, and the shared focal segment is crossed the other way.
    pub fn is_reverse(&self, other: &Path) -> (r: bool)
        ensures
            r == spec_is_reverse(self@, other@),
    {
        let first_third_o = self.entry.orientation != other.exit.orientation;
        let first_third_p = self.entry.segid == other.exit.segid;
        let third_first_o = self.exit.orientation != other.entry.orientation;
        let third_first_p = self.exit.segid == other.entry.segid;
        let repeat_same = self.focal.segid == other.focal.segid;
        let repeat_diff = self.focal.orientation != other.focal.orientation;
        first_third_o && first_third_p && third_first_o && third_first_p && repeat_same
            && repeat_diff
    }
}

/// Append the canonical text of one step to `out`.
fn push_step_text(out: &mut String, st: &OrientedStep)
    ensures
        final(out)@ == old(out)@ + encode_step(st@),
{
    match st.orientation {
        Orientation::Forward => {
            out.append(">");
            proof {
                reveal_strlit(">");
                assert((">")@ =~= seq![marker_char(st@.orientation)]);
            }
        },
        Orientation::Backward => {
            out.append("<");
            proof {
                reveal_strlit("<");
                assert(("<")@ =~= seq![marker_char(st@.orientation)]);
            }
        },
    }
    out.append(st.segid.as_str());
    proof {
        assert(final(out)@ =~= old(out)@ + encode_step(st@));
    }
}

/// The reverse-complement relation between two paths.
pub open spec fn spec_is_reverse(p: PathView, q: PathView) -> bool {
    &&& p.entry.orientation != q.exit.orientation
    &&& p.entry.segid == q.exit.segid
    &&& p.exit.orientation != q.entry.orientation
    &&& p.exit.segid == q.entry.segid
    &&& p.focal.segid == q.focal.segid
    &&& p.focal.orientation != q.focal.orientation
}

/// The reverse-complement relation is symmetric: it holds of `p` and `q`
/// exactly when it holds of `q` and `p`.
pub proof fn lemma_is_reverse_symmetric(p: PathView, q: PathView)
    ensures
        spec_is_reverse(p, q) == spec_is_reverse(q, p),
{
}

/// The focal segment id of a valid path text, if the text is one.
pub fn extract_middle_segment(path: &str) -> (r: Option<String>)
    ensures
        spec_parse_path(path@) matches Some(pv) ==> r matches Some(id) && id@
            == pv.focal.segid,
        spec_parse_path(path@) is None ==> r is None,
{
    match string_to_path(path) {
        Ok(p) => Some(p.focal.segid),
        Err(_) => None,
    }
}

/// The shared focal repeat id of two path texts, together with the number
/// of paths the pair contributes: the id and two when both texts are valid
/// paths over the same focal segment, nothing and zero otherwise.
pub fn extract_repeat_info(p1: &str, p2: &str) -> (r: (Option<String>, usize))
    ensures
        ({
            &&& spec_parse_path(p1@) matches Some(a)
            &&& spec_parse_path(p2@) matches Some(b)
            &&& a.focal.segid == b.focal.segid
        }) ==> (r.0 matches Some(id) && id@ == spec_parse_path(p1@)->Some_0.focal.segid
            && r.1 == 2),
        !({
            &&& spec_parse_path(p1@) matches Some(a)
            &&& spec_parse_path(p2@) matches Some(b)
            &&& a.focal.segid == b.focal.segid
        }) ==> r.0 is None && r.1 == 0,
{
    let repeat_1 = extract_middle_segment(p1);
    let repeat_2 = extract_middle_segment(p2);
    match (repeat_1, repeat_2) {
        (Some(r1), Some(r2)) => {
            if r1 == r2 {
                (Some(r1), 2)
            } else {
                (None, 0)
            }
        },
        _ => (None, 0),
    }
}

impl Default for OrientedStep {
    /// A forward step over the empty segment id.
    fn default() -> (r: Self)
        ensures
            r.orientation == Orientation::Forward,
            r.segid@ == Seq::<char>::empty(),
    {
        OrientedStep { orientation: Orientation::Forward, segid: String::new() }
    }
}

} // verus!
