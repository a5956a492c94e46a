use repeatscan::aggregate::Paths;
use repeatscan::path::{string_to_path, Orientation};
use repeatscan::stats::{compute_path_entropy, compute_rci};
use repeatscan::path::{extract_middle_segment, extract_repeat_info};

#[test]
fn test_path_parse() {
    let s = "<u28<u25>u27";
    let path = string_to_path(s).unwrap();
    assert_eq!(path.from().segid, "u28");
    assert_eq!(path.from().orientation, Orientation::Backward);
    assert_eq!(path.repeat().segid, "u25");
    assert_eq!(path.repeat().orientation, Orientation::Backward);
    assert_eq!(path.to().segid, "u27");
    assert_eq!(path.to().orientation, Orientation::Forward);
}

#[test]
fn test_is_reverse() {
    let s = "<u28<u25>u27";
    let path = string_to_path(s).unwrap();
    let s2 = "<u27>u25>u28";
    let path2 = string_to_path(s2).unwrap();
    assert!(path.is_reverse(&path2));
}

#[test]
fn test_is_reverse_2() {
    let s = ">u27>u29<u30";
    let s2 = "<u30<u29<u27";

    let path = string_to_path(s).unwrap();
    let path2 = string_to_path(s2).unwrap();

    assert!(!path.is_reverse(&path2));
}

#[test]
fn test_split_repeats() {
    let paths = Paths::from_vec(vec![
        (("u25".to_string(), "<u28<u25>u27".to_string()), 132),
        (("u25".to_string(), "<u27>u25<u28".to_string()), 126),
        (("u25".to_string(), "<u27>u25>u28".to_string()), 126),
        (("u25".to_string(), ">u28<u25>u26".to_string()), 120),
        (("u25".to_string(), ">u28<u25>u27".to_string()), 119),
        (("u25".to_string(), "<u26>u25<u28".to_string()), 115),
        (("u25".to_string(), "<u28<u25>u26".to_string()), 107),
        (("u25".to_string(), "<u26>u25>u28".to_string()), 101),
    ])
    .unwrap();

    let split = paths.split_into_repeats();

    assert!(split.len() == 1);
}

#[test]
fn test_split_repeats_multiple() {
    let paths = Paths::from_vec(vec![
        (("u25".to_string(), "<u28<u25>u27".to_string()), 132),
        (("u25".to_string(), "<u27>u25<u28".to_string()), 126),
        (("u25".to_string(), "<u27>u25>u28".to_string()), 126),
        (("u25".to_string(), ">u28<u25>u26".to_string()), 120),
        (("u25".to_string(), ">u28<u25>u27".to_string()), 119),
        (("u25".to_string(), "<u26>u25<u28".to_string()), 115),
        (("u25".to_string(), "<u28<u25>u26".to_string()), 107),
        (("u25".to_string(), "<u26>u25>u28".to_string()), 101),
        (("u29".to_string(), ">u27>u29<u30".to_string()), 87),
        (("u29".to_string(), ">u30<u29<u26".to_string()), 67),
        (("u29".to_string(), "<u30<u29<u26".to_string()), 66),
        (("u29".to_string(), ">u26>u29<u30".to_string()), 65),
        (("u29".to_string(), "<u30<u29<u27".to_string()), 63),
        (("u29".to_string(), ">u27>u29>u30".to_string()), 61),
        (("u29".to_string(), ">u30<u29<u27".to_string()), 57),
        (("u29".to_string(), ">u26>u29>u30".to_string()), 55),
    ])
    .unwrap();

    let split = paths.split_into_repeats();

    assert!(split.len() == 2);
    assert_eq!(split[0].paths.len(), 8);
    assert_eq!(split[1].paths.len(), 8);
}

#[test]
fn test_extract_middle_segment_valid() {
    let p = "<u27>u25<u28";
    assert_eq!(extract_middle_segment(p), Some("u25".to_string()));
}

#[test]
fn test_extract_middle_segment_invalid() {
    let p = ">u27<u25"; // Only two segments
    assert_eq!(extract_middle_segment(p), None);
}

#[test]
fn test_extract_repeat_info_valid_pair() {
    let (id, count) = extract_repeat_info("<u27>u25<u28", ">u26<u25>u27");
    assert_eq!(id, Some("u25".to_string()));
    assert_eq!(count, 2);
}

#[test]
fn test_extract_repeat_info_mismatch() {
    let (id, count) = extract_repeat_info("<u27>u25<u28", ">u26<u24>u27");
    assert_eq!(id, None);
    assert_eq!(count, 0);
}

#[test]
fn test_compute_rci_balanced() {
    let revcomps = vec![
        // repeat node: u66
        (
            "<u67<u66>u65".to_string(),
            100,
            "<u65>u66>u67".to_string(),
            100,
        ),
        // repeat node: u69
        (
            ">u65<u69<u68".to_string(),
            80,
            ">u68>u69<u65".to_string(),
            80,
        ),
    ];

    let rci = compute_rci(&revcomps) as f64 / 1000.0;
    assert!(rci > 0.0);
    assert!((rci - 1.0).abs() < 0.1);

    let revcomps = vec![
        // Repeat node u66 (2 pairs -> 4 paths total)
        (
            "<u67<u66>u65".to_string(),
            100,
            "<u65>u66>u67".to_string(),
            100,
        ),
        (
            "<u68<u66>u64".to_string(),
            90,
            "<u64>u66>u68".to_string(),
            90,
        ),
        // Repeat node u69 (2 pairs -> 4 paths total)
        (
            ">u65<u69<u68".to_string(),
            80,
            ">u68>u69<u65".to_string(),
            80,
        ),
        (
            ">u64<u69<u67".to_string(),
            70,
            ">u67>u69<u64".to_string(),
            70,
        ),
    ];

    let rci = compute_rci(&revcomps) as f64 / 1000.0;
    assert!(rci > 0.0);
    assert!((rci - 2.0).abs() < 0.1); // 2 repeat nodes x log2(4) x score ~ 1.0
}

#[test]
fn test_compute_rci_unbalanced() {
    let revcomps = vec![(
        "<u27>u25<u28".to_string(),
        190,
        ">u26<u25>u27".to_string(),
        10,
    )]; // very unbalanced

    let rci = compute_rci(&revcomps) as f64 / 1000.0;
    assert!(rci < 0.5);
}

#[test]
fn test_compute_rci_empty() {
    let revcomps = vec![];
    let rci = compute_rci(&revcomps);
    assert_eq!(rci, 0);
}

#[test]
fn test_compute_path_entropy_single_node() {
    let paths = Paths::new(vec![
        (
            ("u66".to_string(), string_to_path("<u67<u66>u65").unwrap()),
            100,
        ),
        (
            ("u66".to_string(), string_to_path("<u65>u66>u67").unwrap()),
            100,
        ),
        (
            ("u66".to_string(), string_to_path("<u68<u66>u64").unwrap()),
            50,
        ),
    ]);

    let (mean_entropy, _total_entropy, details) = compute_path_entropy(&vec![paths]);

    let mean = mean_entropy as f64 / 1000.0;
    assert!((mean > 1.0) && (mean < 2.0));
    assert_eq!(details.len(), 1);
    assert_eq!(details[0].0, "u66");
    assert_eq!(details[0].1, 3);
    assert!(details[0].2 as f64 / 1000.0 > 1.0); // entropy should be positive
}

#[test]
fn test_split_into_repeats_merges_by_repeat_id() {
    let paths = Paths::new(vec![
        (
            ("u66".to_string(), string_to_path("<u67<u66>u65").unwrap()),
            100,
        ),
        (
            ("u69".to_string(), string_to_path(">u65<u69<u67").unwrap()),
            175,
        ),
        (
            ("u66".to_string(), string_to_path("<u65>u66>u67").unwrap()),
            180,
        ),
        (
            ("u69".to_string(), string_to_path(">u67>u69<u65").unwrap()),
            171,
        ),
    ]);

    let merged = paths.split_into_repeats();

    assert_eq!(merged.len(), 2);
    let mut ids: Vec<String> = merged.iter().map(|p| p.paths[0].0 .0.clone()).collect();
    ids.sort();
    assert_eq!(ids, vec!["u66", "u69"]);
}
