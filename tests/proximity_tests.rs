use img_hash_linker::proximity::{
    calculate_hex_hash_proximity, try_finding_similar_hash, Proximity, ProximityError,
    SimilarityError, Threshold,
};

fn score(p: &Proximity) -> f64 {
    if p.maximum == 0 {
        1.0
    } else {
        1.0 - (p.difference as f64 / p.maximum as f64)
    }
}

fn entry(h: &str, l: &str) -> (String, String) {
    (h.to_string(), l.to_string())
}

#[test]
fn opposite_bytes_score_zero() {
    let p = calculate_hex_hash_proximity("ff", "00").unwrap();
    assert_eq!(p, Proximity { difference: 255, maximum: 255 });
    assert_eq!(score(&p), 0.0);
}

#[test]
fn equal_bytes_score_one() {
    let p = calculate_hex_hash_proximity("ff", "ff").unwrap();
    assert_eq!(p, Proximity { difference: 0, maximum: 255 });
    assert_eq!(score(&p), 1.0);
}

#[test]
fn self_proximity_is_one() {
    let h = "0f1e2d3c4b5a6978";
    let p = calculate_hex_hash_proximity(h, h).unwrap();
    assert_eq!(p.difference, 0);
    assert_eq!(score(&p), 1.0);
}

#[test]
fn proximity_is_symmetric() {
    let a = "12ab9f00";
    let b = "a0ff0134";
    let p = calculate_hex_hash_proximity(a, b).unwrap();
    let q = calculate_hex_hash_proximity(b, a).unwrap();
    assert_eq!(p, q);
    // |0x12-0xa0| + |0xab-0xff| + |0x9f-0x01| + |0x00-0x34|
    assert_eq!(p.difference, 142 + 84 + 158 + 52);
    assert_eq!(p.maximum, 4 * 255);
    let s = score(&p);
    assert!((0.0..=1.0).contains(&s));
}

#[test]
fn compares_common_even_prefix() {
    let p = calculate_hex_hash_proximity("abc", "abd1").unwrap();
    assert_eq!(p, Proximity { difference: 0, maximum: 255 });
    let q = calculate_hex_hash_proximity("0", "ff").unwrap();
    assert_eq!(q, Proximity { difference: 0, maximum: 0 });
    assert_eq!(score(&q), 1.0);
}

#[test]
fn upper_case_digits_are_accepted() {
    let p = calculate_hex_hash_proximity("FF", "ff").unwrap();
    assert_eq!(p.difference, 0);
}

#[test]
fn non_hex_is_reported_per_argument() {
    assert_eq!(calculate_hex_hash_proximity("zz", "00"), Err(ProximityError::FirstNotHex));
    assert_eq!(calculate_hex_hash_proximity("00", "0g"), Err(ProximityError::SecondNotHex));
    // characters past the compared part are not checked
    assert!(calculate_hex_hash_proximity("00zz", "00").is_ok());
}

#[test]
fn finds_closest_above_default_threshold() {
    let links = vec![
        entry("00000000", "https://far.test"),
        entry("ffffff00", "https://close.test"),
        entry("fffffffe", "https://closest.test"),
    ];
    let (h, l, p) = try_finding_similar_hash("ffffffff".to_string(), links, None).unwrap();
    assert_eq!(h, "fffffffe");
    assert_eq!(l, "https://closest.test");
    assert_eq!(p, Proximity { difference: 1, maximum: 1020 });
}

#[test]
fn nothing_above_threshold_is_not_found() {
    let links = vec![entry("00000000", "https://far.test")];
    let r = try_finding_similar_hash("ffffffff".to_string(), links, None);
    assert_eq!(r, Err(SimilarityError::NotFound));
    let r = try_finding_similar_hash("ffffffff".to_string(), Vec::new(), None);
    assert_eq!(r, Err(SimilarityError::NotFound));
}

#[test]
fn equal_scores_keep_the_first() {
    let links = vec![
        entry("fe", "https://first.test"),
        entry("fe", "https://second.test"),
    ];
    let t = Threshold { numerator: 1, denominator: 2 };
    let (_, l, _) = try_finding_similar_hash("ff".to_string(), links, Some(t)).unwrap();
    assert_eq!(l, "https://first.test");
}

#[test]
fn lower_threshold_admits_more() {
    let links = vec![entry("80", "https://half.test")];
    let high = Threshold { numerator: 95, denominator: 100 };
    let low = Threshold { numerator: 1, denominator: 2 };
    let r = try_finding_similar_hash("ff".to_string(), links.clone(), Some(high));
    assert_eq!(r, Err(SimilarityError::NotFound));
    let (h, _, p) = try_finding_similar_hash("ff".to_string(), links, Some(low)).unwrap();
    assert_eq!(h, "80");
    assert_eq!(p, Proximity { difference: 127, maximum: 255 });
}

#[test]
fn invalid_candidate_stops_search() {
    let links = vec![entry("ff", "https://ok.test"), entry("xx", "https://bad.test")];
    let r = try_finding_similar_hash("ff".to_string(), links, None);
    assert_eq!(r, Err(SimilarityError::Proximity(ProximityError::SecondNotHex)));
}
