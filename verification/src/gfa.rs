//! Reading an assembly graph from GFA text: segment records give names
//! and sequence lengths, link records give oriented edges, and any other
//! record line is passed over.

use vstd::prelude::*;

verus! {

use crate::aggregate::string_views;
use crate::graph::{link_views, seg_views, Link, LinkView, Segment, SegView};
use crate::path::Orientation;
use vstd::string::*;

/// Split a text at every occurrence of `sep`: the parts between the
/// separators, in order, kept even when empty, so there is always at
/// least one part.
pub open spec fn split_char(s: Seq<char>, sep: char) -> Seq<Seq<char>>
    decreases s.len(),
{
    if s.len() == 0 {
        seq![Seq::empty()]
    } else {
        let r = split_char(s.drop_last(), sep);
        if s.last() == sep {
            r.push(Seq::empty())
        } else {
            r.update(r.len() - 1, r.last().push(s.last()))
        }
    }
}

/// The split always has at least one part.
pub proof fn lemma_split_char_len(s: Seq<char>, sep: char)
    ensures
        split_char(s, sep).len() >= 1,
    decreases s.len(),
{
    if s.len() > 0 {
        lemma_split_char_len(s.drop_last(), sep);
    }
}

/// Split a text at every occurrence of `sep`, as [`split_char`] says.
pub fn split_on(s: &str, sep: char) -> (r: Vec<String>)
    ensures
        string_views(r@) == split_char(s@, sep),
        r@.len() >= 1,
{
    let n = s.unicode_len();
    let mut parts: Vec<String> = Vec::new();
    let mut start: usize = 0;
    let mut i: usize = 0;
    proof {
        assert(s@.take(0) =~= Seq::<char>::empty());
        assert(s@.subrange(0, 0) =~= Seq::<char>::empty());
        assert(string_views(parts@).push(s@.subrange(0, 0)) =~= split_char(s@.take(0), sep));
    }
    while i < n
        invariant
            start <= i <= n,
            n == s@.len(),
            string_views(parts@).push(s@.subrange(start as int, i as int)) == split_char(
                s@.take(i as int),
                sep,
            ),
        decreases n - i,
    {
        proof {
            assert(s@.take(i as int + 1).drop_last() =~= s@.take(i as int));
            assert(s@.take(i as int + 1).last() == s@[i as int]);
        }
        let c = s.get_char(i);
        if c == sep {
            let ghost old_parts = string_views(parts@);
            let ghost old_start = start as int;
            let part = s.substring_char(start, i).to_owned();
            parts.push(part);
            start = i + 1;
            proof {
                assert(string_views(parts@) =~= old_parts.push(
                    s@.subrange(old_start, i as int),
                ));
                assert(s@.subrange(start as int, i as int + 1) =~= Seq::<char>::empty());
                assert(string_views(parts@).push(s@.subrange(start as int, i as int + 1))
                    =~= split_char(s@.take(i as int + 1), sep));
            }
        } else {
            proof {
                let r = split_char(s@.take(i as int), sep);
                lemma_split_char_len(s@.take(i as int), sep);
                assert(r.last() == s@.subrange(start as int, i as int));
                assert(s@.subrange(start as int, i as int + 1) =~= s@.subrange(
                    start as int,
                    i as int,
                ).push(s@[i as int]));
                assert(string_views(parts@).push(s@.subrange(start as int, i as int + 1))
                    =~= split_char(s@.take(i as int + 1), sep));
            }
        }
        i = i + 1;
    }
    proof {
        assert(s@.take(n as int) =~= s@);
    }
    let last_part = s.substring_char(start, n).to_owned();
    parts.push(last_part);
    proof {
        assert(string_views(parts@) =~= split_char(s@, sep));
    }
    parts
}

/// What one GFA line stands for.
pub enum LineParse {
    LineSeg(SegView),
    LineLink(LinkView),
    LineSkip,
    LineBad,
}

/// The orientation a GFA orientation field denotes, if any.
pub open spec fn spec_orient(f: Seq<char>) -> Option<Orientation> {
    if f == seq!['+'] {
        Some(Orientation::Forward)
    } else if f == seq!['-'] {
        Some(Orientation::Backward)
    } else {
        Option::None
    }
}

/// Reading of one GFA line: a segment record gives its name and the
/// length of its sequence field; a link record gives its two oriented
/// endpoints; any other record type is passed over; a segment or link
/// record with missing fields or a bad orientation is malformed.
pub open spec fn spec_parse_line(line: Seq<char>) -> LineParse {
    let fs = split_char(line, '\t');
    if fs[0] == seq!['S'] {
        if fs.len() >= 3 {
            LineParse::LineSeg(SegView { name: fs[1], length: fs[2].len() as int })
        } else {
            LineParse::LineBad
        }
    } else if fs[0] == seq!['L'] {
        if fs.len() >= 6 && spec_orient(fs[2]) is Some && spec_orient(fs[4]) is Some {
            LineParse::LineLink(
                LinkView {
                    from: fs[1],
                    from_orient: spec_orient(fs[2])->Some_0,
                    to: fs[3],
                    to_orient: spec_orient(fs[4])->Some_0,
                },
            )
        } else {
            LineParse::LineBad
        }
    } else {
        LineParse::LineSkip
    }
}

/// Mathematical image of a loaded graph.
pub struct GfaView {
    pub segments: Seq<SegView>,
    pub links: Seq<LinkView>,
}

/// Outcome of reading GFA text: the graph, or the index of the first
/// malformed line.
pub enum GfaParse {
    Parsed(GfaView),
    Malformed(int),
}

/// Reading of the first `i` lines, in order.
pub open spec fn spec_load_upto(lines: Seq<Seq<char>>, i: int) -> GfaParse
    decreases i,
{
    if i <= 0 {
        GfaParse::Parsed(GfaView { segments: Seq::empty(), links: Seq::empty() })
    } else {
        match spec_load_upto(lines, i - 1) {
            GfaParse::Malformed(j) => GfaParse::Malformed(j),
            GfaParse::Parsed(g) => match spec_parse_line(lines[i - 1]) {
                LineParse::LineSeg(sv) => GfaParse::Parsed(
                    GfaView { segments: g.segments.push(sv), links: g.links },
                ),
                LineParse::LineLink(lv) => GfaParse::Parsed(
                    GfaView { segments: g.segments, links: g.links.push(lv) },
                ),
                LineParse::LineSkip => GfaParse::Parsed(g),
                LineParse::LineBad => GfaParse::Malformed(i - 1),
            },
        }
    }
}

/// Reading of whole GFA text, line by line.
pub open spec fn spec_load_gfa(s: Seq<char>) -> GfaParse {
    let lines = split_char(s, '\n');
    spec_load_upto(lines, lines.len() as int)
}

/// Once a malformed line was met, the whole reading stays malformed at
/// that line.
proof fn lemma_load_bad_extend(lines: Seq<Seq<char>>, j: int, b: int)
    requires
        0 <= j <= lines.len(),
        spec_load_upto(lines, j) == GfaParse::Malformed(b),
    ensures
        spec_load_upto(lines, lines.len() as int) == GfaParse::Malformed(b),
    decreases lines.len() - j,
{
    if j < lines.len() {
        lemma_load_bad_extend(lines, j + 1, b);
    }
}

/// Error raised when a GFA segment or link record cannot be decoded; it
/// carries the zero-based index of the offending line.
#[derive(Clone, Copy, Debug, PartialEq, Eq, Structural)]
pub enum GfaError {
    MalformedRecord(usize),
}

/// An assembly graph as loaded from GFA text.
#[derive(Debug)]
pub struct Gfa {
    pub segments: Vec<Segment>,
    pub links: Vec<Link>,
}

/// Whether a field consists of exactly the one character `c`.
fn field_is(f: &String, c: char) -> (r: bool)
    ensures
        r == (f@ == seq![c]),
{
    if f.as_str().unicode_len() == 1 {
        let got = f.as_str().get_char(0);
        proof {
            if got == c {
                assert(f@ =~= seq![c]);
            } else {
                assert(f@ != seq![c]) by {
                    if f@ == seq![c] {
                        assert(f@[0] == c);
                    }
                }
            }
        }
        got == c
    } else {
        proof {
            assert(f@ != seq![c]) by {
                if f@ == seq![c] {
                    assert(f@.len() == 1);
                }
            }
        }
        false
    }
}

/// The orientation a GFA orientation field denotes, as [`spec_orient`]
/// says.
fn orient_of(f: &String) -> (r: Option<Orientation>)
    ensures
        r == spec_orient(f@),
{
    if field_is(f, '+') {
        Some(Orientation::Forward)
    } else if field_is(f, '-') {
        Some(Orientation::Backward)
    } else {
        None
    }
}

/// Load an assembly graph from GFA text.
///
/// Segment records contribute their name and the length of their
/// sequence field; link records contribute their two oriented endpoints;
/// other record lines are passed over.  Fails on the first segment or
/// link record with missing fields or a bad orientation, naming its
/// line, exactly as [`spec_load_gfa`] says.
pub fn load_gfa(text: &str) -> (r: Result<Gfa, GfaError>)
    ensures
        r matches Ok(g) ==> spec_load_gfa(text@) == GfaParse::Parsed(
            GfaView { segments: seg_views(g.segments@), links: link_views(g.links@) },
        ),
        r matches Err(e) ==> e matches GfaError::MalformedRecord(line) && spec_load_gfa(
            text@,
        ) == GfaParse::Malformed(line as int),
{
    let lines = split_on(text, '\n');
    let ghost lvs = string_views(lines@);
    let mut segments: Vec<Segment> = Vec::new();
    let mut links: Vec<Link> = Vec::new();
    let mut i: usize = 0;
    proof {
        assert(seg_views(segments@) =~= Seq::<SegView>::empty());
        assert(link_views(links@) =~= Seq::<LinkView>::empty());
    }
    while i < lines.len()
        invariant
            i <= lines@.len(),
            lvs == string_views(lines@),
            lvs == split_char(text@, '\n'),
            spec_load_upto(lvs, i as int) == GfaParse::Parsed(
                GfaView { segments: seg_views(segments@), links: link_views(links@) },
            ),
        decreases lines@.len() - i,
    {
        let fields = split_on(lines[i].as_str(), '\t');
        let ghost fvs = string_views(fields@);
        proof {
            assert(lvs[i as int] == lines@[i as int]@);
            assert(fvs == split_char(lvs[i as int], '\t'));
            assert(fvs[0] == fields@[0]@);
        }
        if field_is(&fields[0], 'S') {
            if fields.len() >= 3 {
                let name = fields[1].clone();
                let length = fields[2].as_str().unicode_len();
                let ghost old_segs = seg_views(segments@);
                segments.push(Segment { name, length });
                proof {
                    assert(fvs[1] == fields@[1]@);
                    assert(fvs[2] == fields@[2]@);
                    assert(seg_views(segments@) =~= old_segs.push(
                        SegView { name: fvs[1], length: fvs[2].len() as int },
                    ));
                }
            } else {
                proof {
                    assert(spec_load_upto(lvs, i as int + 1) == GfaParse::Malformed(
                        i as int,
                    ));
                    lemma_load_bad_extend(lvs, i as int + 1, i as int);
                }
                return Err(GfaError::MalformedRecord(i));
            }
        } else if field_is(&fields[0], 'L') {
            if fields.len() >= 6 {
                let fo = orient_of(&fields[2]);
                let to = orient_of(&fields[4]);
                proof {
                    assert(fvs[2] == fields@[2]@);
                    assert(fvs[4] == fields@[4]@);
                }
                match (fo, to) {
                    (Some(from_orient), Some(to_orient)) => {
                        let from = fields[1].clone();
                        let to_name = fields[3].clone();
                        let ghost old_links = link_views(links@);
                        links.push(
                            Link { from, from_orient, to: to_name, to_orient },
                        );
                        proof {
                            assert(fvs[1] == fields@[1]@);
                            assert(fvs[3] == fields@[3]@);
                            assert(link_views(links@) =~= old_links.push(
                                LinkView {
                                    from: fvs[1],
                                    from_orient: spec_orient(fvs[2])->Some_0,
                                    to: fvs[3],
                                    to_orient: spec_orient(fvs[4])->Some_0,
                                },
                            ));
                        }
                    },
                    _ => {
                        proof {
                            assert(spec_load_upto(lvs, i as int + 1) == GfaParse::Malformed(
                                i as int,
                            ));
                            lemma_load_bad_extend(lvs, i as int + 1, i as int);
                        }
                        return Err(GfaError::MalformedRecord(i));
                    },
                }
            } else {
                proof {
                    assert(spec_load_upto(lvs, i as int + 1) == GfaParse::Malformed(
                        i as int,
                    ));
                    lemma_load_bad_extend(lvs, i as int + 1, i as int);
                }
                return Err(GfaError::MalformedRecord(i));
            }
        }
        i = i + 1;
    }
    proof {
        assert(lines@.len() == lvs.len());
    }
    Ok(Gfa { segments, links })
}

} // verus!
