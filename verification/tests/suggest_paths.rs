use hip::suggest::{similar_paths, similar_paths_checked};

fn cands(names: &[(&str, &str)]) -> Vec<(String, String)> {
    names.iter().map(|(b, p)| (b.to_string(), p.to_string())).collect()
}

#[test]
fn similar_paths_suggests_typo_match() {
    let c = cands(&[("README.md", "./README.md"), ("config.rs", "./src/config.rs"), ("main.rs", "./src/main.rs")]);
    assert_eq!(similar_paths("confg.rs", &c), vec!["./src/config.rs".to_string()]);
}

#[test]
fn similar_paths_orders_closest_first_and_keeps_found_order_on_ties() {
    let c = cands(&[
        ("abcd.txt", "./d2"),
        ("abce.txt", "./d1a"),
        ("abcf.txt", "./d1b"),
        ("abc.txt", "./d0"),
        ("abdd.txt", "./d1c"),
    ]);
    // Distances to "abc.txt": 1, 1, 1, 0, 2 (threshold 4).
    assert_eq!(similar_paths("abc.txt", &c), vec!["./d0".to_string(), "./d2".to_string(), "./d1a".to_string()]);
}

#[test]
fn similar_paths_compares_case_insensitively() {
    let c = cands(&[("Makefile", "./Makefile")]);
    assert_eq!(similar_paths("makefile", &c), vec!["./Makefile".to_string()]);
}

#[test]
fn similar_paths_threshold_is_half_the_longer_name_at_least_two() {
    // "ab" vs "xy": distance 2, threshold max(2/2, 2) = 2 -> suggested.
    assert_eq!(similar_paths("ab", &cands(&[("xy", "./xy")])), vec!["./xy".to_string()]);
    // "ab" vs "xyz": distance 3 > threshold 2 -> not suggested.
    assert!(similar_paths("ab", &cands(&[("xyz", "./xyz")])).is_empty());
}

#[test]
fn similar_paths_empty_when_nothing_found() {
    assert!(similar_paths("a.rs", &[]).is_empty());
    assert_eq!(similar_paths_checked("a.rs", &[]), Some(vec![]));
}
