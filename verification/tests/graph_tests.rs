use repeatscan::gfa::{load_gfa, GfaError};
use repeatscan::graph::{detect, nodes, GraphIndex, Link, Segment};
use repeatscan::path::Orientation;

fn seg(name: &str, length: usize) -> Segment {
    Segment {
        name: name.to_string(),
        length,
    }
}

fn link(from: &str, fo: Orientation, to: &str, to_or: Orientation) -> Link {
    Link {
        from: from.to_string(),
        from_orient: fo,
        to: to.to_string(),
        to_orient: to_or,
    }
}

fn small_repeat_graph() -> GraphIndex {
    // u25 is a small segment with two links in and two out, all of whose
    // neighbors are large
    let segments = vec![
        seg("u25", 4000),
        seg("u26", 6000),
        seg("u27", 6000),
        seg("u28", 6000),
    ];
    let links = vec![
        link("u26", Orientation::Forward, "u25", Orientation::Forward),
        link("u27", Orientation::Forward, "u25", Orientation::Backward),
        link("u25", Orientation::Forward, "u27", Orientation::Forward),
        link("u25", Orientation::Backward, "u28", Orientation::Forward),
    ];
    GraphIndex::new(segments, links)
}

#[test]
fn detect_reports_small_high_degree_segment() {
    let graph = small_repeat_graph();
    let found = detect(&graph, 10000, 5000, 2);
    assert_eq!(found.len(), 1);
    assert_eq!(found[0].id, "u25");
    assert_eq!(found[0].size, 4000);
}

#[test]
fn detect_rejects_when_size_limit_drops() {
    let graph = small_repeat_graph();
    let found = detect(&graph, 3999, 5000, 2);
    assert!(found.is_empty());
}

#[test]
fn detect_rejects_small_neighbors_and_low_degree() {
    // a neighbor below the minimum disqualifies the candidate
    let segments = vec![seg("u25", 4000), seg("u26", 100), seg("u27", 6000)];
    let links = vec![
        link("u26", Orientation::Forward, "u25", Orientation::Forward),
        link("u27", Orientation::Forward, "u25", Orientation::Backward),
        link("u25", Orientation::Forward, "u27", Orientation::Forward),
        link("u25", Orientation::Backward, "u27", Orientation::Forward),
    ];
    let graph = GraphIndex::new(segments, links);
    assert!(detect(&graph, 10000, 5000, 2).is_empty());

    // degree 2 stays below twice the in/out threshold
    let segments = vec![seg("u25", 4000), seg("u27", 6000)];
    let links = vec![
        link("u27", Orientation::Forward, "u25", Orientation::Backward),
        link("u25", Orientation::Forward, "u27", Orientation::Forward),
    ];
    let graph = GraphIndex::new(segments, links);
    assert!(detect(&graph, 10000, 5000, 2).is_empty());
}

#[test]
fn nodes_lists_candidate_names() {
    let graph = small_repeat_graph();
    assert_eq!(nodes(&graph, 10000, 5000, 2), vec!["u25".to_string()]);
}

#[test]
fn size_lookup_lets_later_records_shadow_earlier() {
    let graph = GraphIndex::new(vec![seg("a", 10), seg("a", 20), seg("b", 7)], vec![]);
    assert_eq!(graph.size_of(&"a".to_string()), Some(20));
    assert_eq!(graph.size_of(&"b".to_string()), Some(7));
    assert_eq!(graph.size_of(&"c".to_string()), None);
}

#[test]
fn neighbors_follow_link_order_and_orientation_ends() {
    let graph = small_repeat_graph();
    let fwd = graph.neighbors_of(&"u25".to_string(), Orientation::Forward);
    // the forward end of u25: the incoming link from u26 and the outgoing
    // link to u27, in link order
    assert_eq!(fwd.len(), 2);
    assert_eq!(fwd[0].0, "u26");
    assert_eq!(fwd[0].1, Orientation::Forward);
    assert_eq!(fwd[1].0, "u27");
    let bwd = graph.neighbors_of(&"u25".to_string(), Orientation::Backward);
    assert_eq!(bwd.len(), 2);
    assert_eq!(bwd[0].0, "u27");
    assert_eq!(bwd[1].0, "u28");
}

#[test]
fn load_gfa_reads_segments_and_links() {
    let text = "H\tVN:Z:1.0\nS\tu1\tACGT\nL\tu1\t+\tu2\t-\t0M\nS\tu2\tAC\n";
    let gfa = load_gfa(text).unwrap();
    assert_eq!(gfa.segments.len(), 2);
    assert_eq!(gfa.segments[0].name, "u1");
    assert_eq!(gfa.segments[0].length, 4);
    assert_eq!(gfa.segments[1].name, "u2");
    assert_eq!(gfa.segments[1].length, 2);
    assert_eq!(gfa.links.len(), 1);
    assert_eq!(gfa.links[0].from, "u1");
    assert_eq!(gfa.links[0].from_orient, Orientation::Forward);
    assert_eq!(gfa.links[0].to, "u2");
    assert_eq!(gfa.links[0].to_orient, Orientation::Backward);
}

#[test]
fn load_gfa_rejects_malformed_records() {
    assert_eq!(
        load_gfa("S\tu1").unwrap_err(),
        GfaError::MalformedRecord(0)
    );
    assert_eq!(
        load_gfa("S\tu1\tAC\nL\tu1\t*\tu2\t-\t0M").unwrap_err(),
        GfaError::MalformedRecord(1)
    );
    assert_eq!(
        load_gfa("L\tu1\t+\tu2").unwrap_err(),
        GfaError::MalformedRecord(0)
    );
}

#[test]
fn load_gfa_feeds_repeat_detection() {
    let text = "S\tu25\tAAAA\nS\tu26\tAAAAAAAA\nS\tu27\tAAAAAAAA\nS\tu28\tAAAAAAAA\nL\tu26\t+\tu25\t+\t0M\nL\tu27\t+\tu25\t-\t0M\nL\tu25\t+\tu27\t+\t0M\nL\tu25\t-\tu28\t+\t0M\n";
    let gfa = load_gfa(text).unwrap();
    let graph = GraphIndex::new(gfa.segments, gfa.links);
    let found = detect(&graph, 5, 8, 2);
    assert_eq!(found.len(), 1);
    assert_eq!(found[0].id, "u25");
    assert_eq!(found[0].size, 4);
}
