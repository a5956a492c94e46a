use repeatscan::aggregate::{count_gaf_paths, Paths};
use repeatscan::matcher::match_revcomp_pairs;
use repeatscan::path::{string_to_path, Orientation, PathError};
use repeatscan::stats::{
    compute_path_entropy, compute_rci, recomb_score_millis, recombination_potential_millis,
};

#[test]
fn parse_then_reencode_round_trips() {
    for s in [
        "<u28<u25>u27",
        ">a>b>c",
        "<x<y<z",
        ">u1<u2>u3",
        "<left>mid<right",
    ] {
        let path = string_to_path(s).unwrap();
        assert_eq!(path.canonical_string(), s);
    }
}

#[test]
fn parse_rejects_malformed_texts() {
    for s in ["", "u25", ">u27<u25", "<a<b<c<d", "<a<>b>c", "a>b>c<d", "<a<b"] {
        assert_eq!(string_to_path(s).unwrap_err(), PathError::MalformedPath);
    }
}

#[test]
fn reverse_relation_is_symmetric() {
    let cases = [
        ("<u28<u25>u27", "<u27>u25>u28"),
        (">u27>u29<u30", "<u30<u29<u27"),
        ("<u67<u66>u65", "<u65>u66>u67"),
        (">a>b>c", ">a>b>c"),
    ];
    for (s1, s2) in cases {
        let p = string_to_path(s1).unwrap();
        let q = string_to_path(s2).unwrap();
        assert_eq!(p.is_reverse(&q), q.is_reverse(&p));
    }
}

#[test]
fn entropy_of_single_path_group_is_zero() {
    for cov in [1u64, 7, 100, 12345] {
        let group = Paths::new(vec![(
            ("u1".to_string(), string_to_path("<a<u1>b").unwrap()),
            cov,
        )]);
        let (mean, total, details) = compute_path_entropy(&vec![group]);
        assert_eq!(mean, 0);
        assert_eq!(total, 0);
        assert_eq!(details.len(), 1);
        assert_eq!(details[0].2, 0);
    }
}

#[test]
fn entropy_of_equal_coverage_is_log2_of_count() {
    // two distinct paths of equal coverage: exactly one bit
    let group = Paths::new(vec![
        (("u1".to_string(), string_to_path("<a<u1>b").unwrap()), 50),
        (("u1".to_string(), string_to_path("<b>u1>a").unwrap()), 50),
    ]);
    let (_, _, details) = compute_path_entropy(&vec![group]);
    assert_eq!(details[0].2, 1000);

    // four distinct paths of equal coverage: exactly two bits
    let group = Paths::new(vec![
        (("u1".to_string(), string_to_path("<a<u1>b").unwrap()), 9),
        (("u1".to_string(), string_to_path("<b>u1>a").unwrap()), 9),
        (("u1".to_string(), string_to_path(">a<u1>b").unwrap()), 9),
        (("u1".to_string(), string_to_path(">b>u1>a").unwrap()), 9),
    ]);
    let (_, _, details) = compute_path_entropy(&vec![group]);
    assert_eq!(details[0].2, 2000);

    // three equal paths: close to log2(3) = 1.585 bits
    let group = Paths::new(vec![
        (("u1".to_string(), string_to_path("<a<u1>b").unwrap()), 5),
        (("u1".to_string(), string_to_path("<b>u1>a").unwrap()), 5),
        (("u1".to_string(), string_to_path(">a<u1>b").unwrap()), 5),
    ]);
    let (_, _, details) = compute_path_entropy(&vec![group]);
    let e = details[0].2 as f64 / 1000.0;
    assert!((e - 1.585).abs() < 0.01);
}

#[test]
fn entropy_is_never_negative_and_skips_empty_groups() {
    let lopsided = Paths::new(vec![
        (("u1".to_string(), string_to_path("<a<u1>b").unwrap()), 1),
        (("u1".to_string(), string_to_path("<b>u1>a".into()).unwrap()), 999),
    ]);
    let empty = Paths::new(vec![]);
    let (mean, total, details) = compute_path_entropy(&vec![empty, lopsided]);
    assert_eq!(details.len(), 1);
    assert!(mean <= total);
    assert!(details[0].2 as f64 / 1000.0 >= 0.0);
}

#[test]
fn unbalanced_pair_scores_one_tenth() {
    // 2 * min(0.95, 0.05) = 0.10 exactly
    assert_eq!(recomb_score_millis(190, 10), 100);
    assert_eq!(recomb_score_millis(10, 190), 100);
    assert_eq!(recomb_score_millis(100, 100), 1000);
}

#[test]
fn recombination_potential_averages_pair_scores() {
    let pairs = vec![
        ("<u27>u25<u28".to_string(), 190, ">u26<u25>u27".to_string(), 10),
        ("<u67<u66>u65".to_string(), 100, "<u65>u66>u67".to_string(), 100),
    ];
    // mean of 0.100 and 1.000
    assert_eq!(recombination_potential_millis(&pairs), 550);
    assert_eq!(recombination_potential_millis(&vec![]), 0);
}

#[test]
fn rci_of_one_balanced_repeat_is_one() {
    let revcomps = vec![(
        "<u67<u66>u65".to_string(),
        100,
        "<u65>u66>u67".to_string(),
        100,
    )];
    // one pair, perfectly balanced: 1.0 * log2(2) = 1.0
    assert_eq!(compute_rci(&revcomps), 1000);
}

#[test]
fn grouping_eight_paths_through_one_repeat() {
    let records: Vec<String> = [
        "<u28<u25>u27",
        "<u27>u25<u28",
        "<u27>u25>u28",
        ">u28<u25>u26",
        ">u28<u25>u27",
        "<u26>u25<u28",
        "<u28<u25>u26",
        "<u26>u25>u28",
    ]
    .iter()
    .map(|s| s.to_string())
    .collect();
    let nodes = vec!["u25".to_string()];

    let groups = count_gaf_paths(&records, &nodes).unwrap();
    assert_eq!(groups.len(), 1);
    assert_eq!(groups[0].paths.len(), 8);

    let pairs = match_revcomp_pairs(&groups);
    assert!(!pairs.is_empty());
    // the first path pairs with its reverse complement
    assert!(pairs
        .iter()
        .any(|p| p.0 == "<u28<u25>u27" && p.2 == "<u27>u25>u28"));
    // each canonical text is consumed by at most one pair
    let mut seen: Vec<&String> = Vec::new();
    for p in &pairs {
        assert!(!seen.contains(&&p.0));
        assert!(!seen.contains(&&p.2));
        seen.push(&p.0);
        seen.push(&p.2);
    }
}

#[test]
fn counting_accumulates_repeated_records() {
    let records: Vec<String> = vec![
        "<u28<u25>u27".to_string(),
        "<u28<u25>u27".to_string(),
        ">u1>u2>u3".to_string(),   // focal not a repeat: ignored
        ">u25".to_string(),        // only one step: ignored
        "<u28<u25>u27".to_string(),
    ];
    let nodes = vec!["u25".to_string()];
    let groups = count_gaf_paths(&records, &nodes).unwrap();
    assert_eq!(groups.len(), 1);
    assert_eq!(groups[0].paths.len(), 1);
    assert_eq!(groups[0].paths[0].1, 3);
    assert_eq!(groups[0].paths[0].0 .0, "u25");
}

#[test]
fn counting_rejects_garbage_records() {
    let records = vec!["not a path".to_string()];
    let nodes = vec!["u25".to_string()];
    assert_eq!(
        count_gaf_paths(&records, &nodes).unwrap_err(),
        PathError::MalformedPath
    );
}

#[test]
fn empty_input_yields_zero_statistics() {
    let groups = count_gaf_paths(&vec![], &vec![]).unwrap();
    assert!(groups.is_empty());
    assert!(match_revcomp_pairs(&groups).is_empty());
    let (mean, total, details) = compute_path_entropy(&groups);
    assert_eq!(mean, 0);
    assert_eq!(total, 0);
    assert!(details.is_empty());
    assert_eq!(compute_rci(&vec![]), 0);
    assert_eq!(recombination_potential_millis(&vec![]), 0);
}

#[test]
fn from_vec_rejects_malformed_path_text() {
    let err = Paths::from_vec(vec![(("u25".to_string(), "oops".to_string()), 3)]);
    assert_eq!(err.unwrap_err(), PathError::MalformedPath);
}

#[test]
fn step_accessors_report_orientations() {
    let path = string_to_path(">in<rep>out").unwrap();
    assert_eq!(path.from().orientation, Orientation::Forward);
    assert_eq!(path.repeat().orientation, Orientation::Backward);
    assert_eq!(path.to().segid, "out");
}
